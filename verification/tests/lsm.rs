use neb::index::btree::cursor::ScanOrder;
use neb::index::btree::tree::BPlusTree;
use neb::index::key::EntryKey;
use neb::index::lsmtree::cursor::LSMTreeCursor;
use neb::index::lsmtree::service::inner::{
    DelegatedCursor, LSMTreeIns, LSMTreeResult, CURSOR_DEFAULT_TTL,
};
use neb::index::lsmtree::split::{check_and_split, mid_key, next_batch, SplitStatus, SplitStep};
use neb::index::lsmtree::tree::{edge_key, key_with_id, LSMTree};
use neb::ram::types::Id;

fn key(n: u32) -> EntryKey {
    EntryKey::from_slice(&n.to_be_bytes())
}

fn id(n: u8) -> [u8; 16] {
    let mut bytes = [0u8; 16];
    bytes[15] = n;
    bytes
}

fn number(bytes: &[u8]) -> u32 {
    u32::from_be_bytes([bytes[0], bytes[1], bytes[2], bytes[3]])
}

/// Three levels with small pages and small limits.
fn small_tree() -> LSMTree {
    LSMTree {
        trees: vec![
            BPlusTree::new(3, Id::new(1, 0)),
            BPlusTree::new(6, Id::new(2, 0)),
            BPlusTree::new(12, Id::new(3, 0)),
        ],
        max_sizes: vec![60, 200, 1000],
    }
}

fn range() -> (EntryKey, EntryKey) {
    (EntryKey::from_slice(&[]), EntryKey::from_slice(&[255]))
}

fn walk(tree: &LSMTree, mut c: LSMTreeCursor) -> Vec<u32> {
    let mut out = vec![];
    while let Some(k) = c.current(tree).map(|k| number(k.as_slice())) {
        out.push(k);
        let more = c.next(tree);
        assert_eq!(more, c.current(tree).is_some());
    }
    assert!(!c.next(tree));
    out
}

#[test]
fn a_new_tree_has_four_levels() {
    let tree = LSMTree::new();
    assert_eq!(tree.max_sizes, vec![13824, 138240, 1382400, 13824000]);
    assert_eq!(tree.trees.iter().map(|t| t.page_size).collect::<Vec<_>>(), vec![24, 240, 2400, 24000]);
    assert_eq!(tree.level_sizes(), vec![0, 0, 0, 0]);
    assert_eq!(tree.count(), 0);
    assert_eq!(tree.len(), 0);
    assert!(!tree.is_full());
    assert_eq!(tree.last_level_size(), 13824000);
}

#[test]
fn ids_stand_behind_keys() {
    assert_eq!(key_with_id(&key(1), &id(7)).len(), 20);
    assert_eq!(key_with_id(&key(1), &id(7)).as_slice()[19], 7);
    assert_eq!(edge_key(&key(1), ScanOrder::Forward).as_slice()[4..], [0u8; 16]);
    assert_eq!(edge_key(&key(1), ScanOrder::Backward).as_slice()[4..], [255u8; 16]);
}

#[test]
fn keys_come_and_go() {
    let mut tree = small_tree();
    assert!(tree.insert(&key(5), &id(1)));
    assert!(!tree.insert(&key(5), &id(1)));
    assert!(tree.insert(&key(5), &id(2)));
    assert_eq!(tree.level_sizes(), vec![2, 0, 0]);
    assert!(tree.remove(&key(5), &id(1)));
    assert!(!tree.remove(&key(5), &id(1)));
    assert!(!tree.remove(&key(6), &id(1)));
    assert_eq!(tree.count(), 1);
}

#[test]
fn large_levels_give_pages_away() {
    let mut tree = small_tree();
    let mut merges = 0;
    for n in 0..500u32 {
        tree.insert(&key((n * 7919) % 500), &id(1));
        let before = tree.level_sizes();
        let r = tree.check_and_merge();
        if tree.level_sizes() != before {
            merges += 1;
            assert!(before[0] > 60 || before[1] > 200);
        } else {
            assert_eq!(r.is_err(), before[0] > 60 || before[1] > 200);
        }
    }
    assert!(merges > 5);
    assert!(tree.level_sizes()[1] > 0);
    assert_eq!(tree.count(), 500);
    let c = tree.seek(&key(0), ScanOrder::Forward);
    assert_eq!(walk(&tree, c), (0..500).collect::<Vec<_>>());
    let c = tree.seek(&key(123), ScanOrder::Forward);
    assert_eq!(walk(&tree, c), (123..500).collect::<Vec<_>>());
}

#[test]
fn a_level_that_cannot_give_pages_away_is_told() {
    let mut tree = small_tree();
    tree.max_sizes = vec![1, 200, 1000];
    tree.insert(&key(1), &id(1));
    tree.insert(&key(2), &id(1));
    assert_eq!(tree.check_and_merge(), Err(0));
    assert_eq!(tree.level_sizes(), vec![2, 0, 0]);
}

#[test]
fn a_key_in_two_levels_is_shown_twice_and_removed_once() {
    let mut tree = small_tree();
    tree.trees[0].insert_into(&key_with_id(&key(3), &id(1)));
    tree.trees[1].insert_into(&key_with_id(&key(3), &id(1)));
    tree.trees[2].insert_into(&key_with_id(&key(2), &id(1)));
    let c = tree.seek(&key(0), ScanOrder::Forward);
    assert_eq!(walk(&tree, c), vec![2, 3, 3]);
    assert!(tree.remove(&key(3), &id(1)));
    let c = tree.seek(&key(0), ScanOrder::Forward);
    assert_eq!(walk(&tree, c), vec![2]);
}

#[test]
fn a_cursor_over_no_levels_has_no_key() {
    let tree = small_tree();
    let mut c = tree.seek(&key(0), ScanOrder::Backward);
    assert!(c.current(&tree).is_none());
    assert!(!c.next(&tree));
    assert!(c.read_block(&tree, 10).is_empty());
    assert!(LSMTreeCursor::new(vec![]).level_cursors.is_empty());
}

#[test]
fn the_middle_is_that_of_the_largest_level() {
    let mut tree = small_tree();
    for n in 0..5 {
        tree.trees[0].insert_into(&key(n));
    }
    for n in 10..19 {
        tree.trees[1].insert_into(&key(n));
    }
    assert_eq!(number(mid_key(&tree).as_slice()), 14);
    for n in 30..39 {
        tree.trees[2].insert_into(&key(n));
    }
    assert_eq!(number(mid_key(&tree).as_slice()), 34);
}

#[test]
fn a_full_tree_splits() {
    let mut tree = small_tree();
    let r = range();
    assert!(matches!(check_and_split(&tree, &r, &None), SplitStep::Idle));
    tree.max_sizes[2] = 4;
    for n in 0..10 {
        tree.trees[2].insert_into(&key_with_id(&key(n), &id(1)));
    }
    let pivot = match check_and_split(&tree, &r, &None) {
        SplitStep::Start((pivot, end)) => {
            assert!(end.same(&r.0));
            pivot
        }
        _ => panic!("no split"),
    };
    assert_eq!(number(pivot.as_slice()), 5);
    let status = SplitStatus { start: key(5), target: Id::new(4, 4) };
    let mut moved = vec![];
    loop {
        let batch = next_batch(&tree, &status);
        if batch.is_empty() {
            break;
        }
        assert!(batch.len() <= 4);
        moved.extend(batch.iter().map(|k| number(k.as_slice())));
        tree.remove_batch(&batch);
    }
    assert_eq!(moved, vec![5, 6, 7, 8, 9]);
    assert_eq!(tree.count(), 5);
    assert!(matches!(check_and_split(&tree, &r, &Some(status)), SplitStep::Move));
}

#[test]
fn a_split_hands_over_its_pivot_and_all_behind_it() {
    let mut tree = small_tree();
    tree.max_sizes[2] = 4;
    for n in 0..10 {
        tree.trees[2].insert_into(&key_with_id(&key(n), &id(1)));
    }
    tree.trees[0].insert_into(&key_with_id(&key(5), &id(0)));
    tree.trees[0].insert_into(&key_with_id(&key(7), &id(1)));
    let start = match check_and_split(&tree, &range(), &None) {
        SplitStep::Start((pivot, _)) => pivot,
        _ => panic!("no split"),
    };
    assert_eq!(start.as_slice(), key_with_id(&key(5), &id(1)).as_slice());
    let status = SplitStatus { start, target: Id::new(4, 4) };
    let first = next_batch(&tree, &status);
    assert!(first[0].same(&status.start));
    let mut moved = vec![];
    loop {
        let batch = next_batch(&tree, &status);
        if batch.is_empty() {
            break;
        }
        moved.extend(batch.iter().map(|k| number(k.as_slice())));
        tree.remove_batch(&batch);
    }
    // a key of two levels may come twice in a batch
    assert_eq!(moved, vec![5, 6, 7, 7, 8, 9]);
    // the key before the pivot by its id alone stays
    let c = tree.seek(&key(0), ScanOrder::Forward);
    assert_eq!(walk(&tree, c), (0..6).collect::<Vec<_>>());
}

#[test]
fn keys_to_the_right_are_removed() {
    let mut tree = small_tree();
    for n in 0..30u32 {
        tree.trees[(n % 3) as usize].insert_into(&key(n));
    }
    tree.remove_to_right(&key(11));
    let c = tree.seek(&key(0), ScanOrder::Forward);
    assert_eq!(walk(&tree, c), (1..11).collect::<Vec<_>>());
    assert_eq!(tree.count(), 11);
}

fn service() -> LSMTreeIns {
    let mut ins = LSMTreeIns::new_from_tree(small_tree(), range(), Id::new(8, 8));
    for n in 0..10 {
        assert!(ins.insert(key_with_id(&key(n), &id(0))));
    }
    ins
}

fn block(ins: &mut LSMTreeIns, c: u64, n: usize, now: u32) -> Vec<u32> {
    ins.next_block(&c, n, now).unwrap().iter().map(|k| number(k)).collect()
}

#[test]
fn blocks_follow_one_another() {
    let mut ins = service();
    let c = ins.seek(&key(2), ScanOrder::Forward, 100);
    assert_eq!(number(&ins.current(&c, 100).unwrap().unwrap()), 2);
    assert_eq!(block(&mut ins, c, 3, 101), vec![2, 3, 4]);
    assert_eq!(block(&mut ins, c, 0, 102), vec![5]);
    assert_eq!(block(&mut ins, c, 100, 103), vec![6, 7, 8, 9]);
    assert!(block(&mut ins, c, 100, 104).is_empty());
    assert_eq!(ins.current(&c, 105), Some(None));
    assert!(ins.next_block(&77, 1, 106).is_none());
    assert!(ins.current(&77, 106).is_none());
}

#[test]
fn cursors_go_on_after_changes() {
    let mut ins = service();
    let c = ins.seek(&key(0), ScanOrder::Forward, 100);
    assert_eq!(block(&mut ins, c, 4, 100), vec![0, 1, 2, 3]);
    ins.insert(key_with_id(&key(4), &id(9)));
    ins.remove_to_right(&key(8));
    assert_eq!(block(&mut ins, c, 10, 100), vec![4, 4, 5, 6, 7]);
}

#[test]
fn cursors_have_the_ids_of_the_counter() {
    let mut ins = service();
    ins.counter = 7;
    assert_eq!(ins.seek(&key(0), ScanOrder::Forward, 1), 7);
    assert_eq!(ins.counter, 1);
    assert_eq!(ins.seek(&key(0), ScanOrder::Forward, 1), 1);
    assert_eq!(ins.counter, 1);
    assert_eq!(ins.cursors.len(), 2);
    ins.counter = 4;
    assert_eq!(ins.seek(&key(0), ScanOrder::Forward, 1), 4);
    assert_eq!(ins.counter, 0);
    assert!(ins.complete(&7));
    assert!(!ins.complete(&7));
    assert_eq!(ins.cursors.len(), 2);
}

#[test]
fn unused_cursors_expire() {
    let mut ins = service();
    ins.counter = 5;
    let old = ins.seek(&key(0), ScanOrder::Forward, 0);
    ins.counter = 6;
    let used = ins.seek(&key(0), ScanOrder::Forward, 0);
    ins.counter = 8;
    let later = ins.seek(&key(0), ScanOrder::Forward, 10);
    assert!(ins.next_block(&used, 1, 200).is_some());
    ins.counter = 9;
    let edge = ins.seek(&key(0), ScanOrder::Forward, CURSOR_DEFAULT_TTL);
    assert_eq!(ins.cursors.len(), 4);
    ins.counter = 10;
    ins.seek(&key(0), ScanOrder::Forward, CURSOR_DEFAULT_TTL + 11);
    assert!(ins.current(&old, 400000).is_none());
    assert!(ins.current(&later, 400000).is_none());
    assert!(ins.current(&used, 400000).is_some());
    assert!(ins.current(&edge, 400000).is_some());
    ins.counter = 12;
    ins.seek(&key(0), ScanOrder::Forward, u32::MAX);
    assert_eq!(ins.cursors.len(), 1);
}

#[test]
fn operations_need_the_right_epoch() {
    let mut ins = LSMTreeIns::new(range(), Id::new(1, 1));
    assert_eq!(ins.epoch(), 0);
    ins.set_epoch(3);
    match ins.with_epoch_check(3, || 42u32) {
        LSMTreeResult::Done(n) => assert_eq!(n, 42),
        LSMTreeResult::EpochMismatch(_, _) => panic!("the epoch is right"),
    }
    match ins.with_epoch_check(2, || 42u32) {
        LSMTreeResult::EpochMismatch(own, given) => assert_eq!((own, given), (3, 2)),
        LSMTreeResult::Done(_) => panic!("the epoch is wrong"),
    }
}

#[test]
fn a_service_passes_on_to_its_tree() {
    let mut ins = service();
    assert_eq!(ins.count(), 10);
    assert_eq!(ins.range(), (vec![], vec![255]));
    assert!(!ins.oversized());
    ins.merge(&vec![key(50), key(51)]);
    assert_eq!(ins.tree.level_sizes(), vec![10, 0, 2]);
    assert!(!ins.insert(key_with_id(&key(3), &id(0))));
    ins.tree.max_sizes[2] = 1;
    assert!(ins.oversized());
    assert!(ins.check_and_merge().is_ok());
    let d = DelegatedCursor::new(LSMTreeCursor::new(vec![]), 4);
    assert_eq!(d.timestamp, 4);
}

#[test]
fn a_search_for_a_key_meets_all_its_ids() {
    let mut tree = small_tree();
    tree.insert(&key(4), &[255; 16]);
    tree.insert(&key(4), &[0; 16]);
    tree.insert(&key(4), &id(9));
    tree.insert(&key(3), &[255; 16]);
    tree.insert(&key(5), &[0; 16]);
    let mut c = tree.seek(&key(4), ScanOrder::Forward);
    let keys = c.read_block(&tree, 3);
    let expected: Vec<Vec<u8>> = [[0; 16], id(9), [255; 16]]
        .iter()
        .map(|i| key_with_id(&key(4), i).to_vec())
        .collect();
    assert_eq!(keys, expected);
    assert_eq!(walk(&tree, c), vec![5]);
}

#[test]
fn all_levels_are_shown_key_by_key() {
    let mut tree = small_tree();
    let levels = [vec![1u32, 4, 6, 9], vec![4, 5], vec![1, 4, 8]];
    let mut expected = vec![];
    for (i, level) in levels.iter().enumerate() {
        for n in level {
            assert!(tree.trees[i].insert_into(&key(*n)));
            expected.push(*n);
        }
    }
    expected.sort();
    let c = tree.seek_key(&EntryKey::from_slice(&[]), ScanOrder::Forward);
    assert_eq!(walk(&tree, c), expected);
}
