use neb::index::btree::cursor::{RTCursor, ScanOrder};
use neb::index::btree::external::{rearrange_empty_extnode, PageCell};
use neb::index::btree::level::{is_mergeable, level_merge};
use neb::index::btree::node::{ExtNode, NodeCellRef, NodeData};
use neb::index::btree::page_schema::{page_schema, PageNames, PagePaths, PageTypes};
use neb::index::btree::search::{mut_search, search_node, MutSearchResult};
use neb::index::btree::storage::PageChange;
use neb::index::btree::tree::{BPlusTree, ChangingNode, DeletionSet};
use neb::index::key::{duplicate_keys, lower_bound, upper_bound, EntryKey};
use neb::ram::types::{Id, Type};

fn key(n: u32) -> EntryKey {
    EntryKey::from_slice(&n.to_be_bytes())
}

fn number(k: &EntryKey) -> u32 {
    let b = k.as_slice();
    u32::from_be_bytes([b[0], b[1], b[2], b[3]])
}

fn shuffled(n: u32) -> Vec<u32> {
    let mut out: Vec<u32> = (0..n).collect();
    let mut state: u64 = 12345;
    for i in (1..out.len()).rev() {
        state = state.wrapping_mul(6364136223846793005).wrapping_add(1442695040888963407);
        let j = (state >> 33) as usize % (i + 1);
        out.swap(i, j);
    }
    out
}

fn tree_of(page_size: usize, numbers: &[u32]) -> BPlusTree {
    let mut tree = BPlusTree::new(page_size, Id::new(1, 2));
    for n in numbers {
        assert!(tree.insert_into(&key(*n)));
    }
    tree
}

fn walk(tree: &BPlusTree, c: &mut RTCursor) -> Vec<u32> {
    let mut out = vec![];
    while let Some(k) = c.current(tree).map(|k| number(k)) {
        out.push(k);
        let more = c.next(tree);
        assert_eq!(more, c.current(tree).is_some());
    }
    out
}

fn all(tree: &BPlusTree) -> Vec<u32> {
    let mut c = tree.seek_for(&EntryKey::from_slice(&[]), ScanOrder::Forward);
    walk(tree, &mut c)
}

#[test]
fn keys_are_ordered_byte_by_byte() {
    let a = EntryKey::from_slice(&[1, 2]);
    let b = EntryKey::from_slice(&[1, 2, 0]);
    let c = EntryKey::from_slice(&[1, 3]);
    assert!(a.before(&b) && b.before(&c) && a.before(&c));
    assert!(!a.before(&a) && !c.before(&a));
    assert!(a.same(&EntryKey::from_slice(&[1, 2])));
    assert!(!a.same(&b));
    assert_eq!(a.to_vec(), vec![1, 2]);
    assert_eq!(a.len(), 2);
    assert!(EntryKey::from_slice(&[]).before(&EntryKey::from_slice(&[0])));
    let long: Vec<u8> = (0..100).collect();
    assert_eq!(EntryKey::from_slice(&long).as_slice(), long.as_slice());
}

#[test]
fn bounds_part_the_keys() {
    let keys = vec![key(1), key(3), key(5)];
    assert_eq!(lower_bound(&keys, &key(3)), 1);
    assert_eq!(upper_bound(&keys, &key(3)), 2);
    assert_eq!(lower_bound(&keys, &key(4)), 2);
    assert_eq!(upper_bound(&keys, &key(0)), 0);
    assert_eq!(upper_bound(&keys, &key(9)), 3);
    assert!(duplicate_keys(&keys)[2].same(&key(5)));
}

#[test]
fn a_new_tree_is_empty() {
    let tree = BPlusTree::new(4, Id::new(7, 8));
    assert_eq!(tree.count(), 0);
    assert!(tree.mid_key().is_none());
    assert!(!tree.holds(&key(1)));
    assert!(all(&tree).is_empty());
    let mut c = tree.seek_for(&key(1), ScanOrder::Backward);
    assert!(c.current(&tree).is_none());
    assert!(!c.next(&tree));
}

#[test]
fn inserted_keys_come_back_in_order() {
    for page_size in [2, 3, 4, 7, 24] {
        let tree = tree_of(page_size, &shuffled(1000));
        assert_eq!(tree.count(), 1000);
        assert_eq!(all(&tree), (0..1000).collect::<Vec<_>>());
        assert_eq!(number(&tree.mid_key().unwrap()), 500);
    }
}

#[test]
fn inserting_twice_changes_nothing() {
    let mut tree = tree_of(4, &shuffled(50));
    assert!(!tree.insert_into(&key(20)));
    assert_eq!(tree.count(), 50);
}

#[test]
fn a_search_starts_at_its_key() {
    let numbers: Vec<u32> = shuffled(300).iter().map(|n| n * 2).collect();
    let tree = tree_of(5, &numbers);
    for n in [0u32, 1, 2, 77, 100, 597, 598, 599] {
        let mut c = tree.seek_for(&key(n), ScanOrder::Forward);
        let expected: Vec<u32> = (n..600).filter(|k| k % 2 == 0).collect();
        assert_eq!(walk(&tree, &mut c), expected);
    }
    let mut c = tree.seek_for(&key(100), ScanOrder::Backward);
    let expected: Vec<u32> = (0..101).rev().filter(|k| k % 2 == 0).collect();
    assert_eq!(walk(&tree, &mut c), expected);
    let mut c = tree.seek_for(&key(1000), ScanOrder::Backward);
    assert_eq!(walk(&tree, &mut c).len(), 300);
}

#[test]
fn deleted_keys_are_not_shown() {
    let mut tree = tree_of(4, &shuffled(100));
    for n in 0..100 {
        if n % 3 == 0 {
            assert!(tree.mark_key_deleted(&key(n)));
            assert!(!tree.mark_key_deleted(&key(n)));
        }
    }
    assert!(!tree.mark_key_deleted(&key(1000)));
    let left: Vec<u32> = (0..100).filter(|n| n % 3 != 0).collect();
    assert_eq!(all(&tree), left);
    assert_eq!(tree.count(), left.len());
    assert!(tree.holds(&key(3)));
    assert!(tree.insert_into(&key(3)));
    assert_eq!(tree.count(), left.len() + 1);
    assert!(all(&tree).contains(&3));
}

#[test]
fn keys_are_merged_into_a_tree() {
    let mut tree = tree_of(4, &[1, 5, 9]);
    tree.mark_key_deleted(&key(5));
    tree.merge_with_keys(&vec![key(2), key(5), key(9), key(12)]);
    assert_eq!(all(&tree), vec![1, 2, 5, 9, 12]);
    assert_eq!(tree.count(), 5);
}

#[test]
fn search_leads_to_the_leaf() {
    let tree = tree_of(3, &shuffled(60));
    let mut at = NodeCellRef::Slot(tree.root);
    let mut steps = 0;
    loop {
        match mut_search(&tree, at, &key(30)) {
            MutSearchResult::Internal(child) => at = child,
            MutSearchResult::External => break,
        }
        steps += 1;
    }
    assert!(steps >= 2);
    match at {
        NodeCellRef::Slot(s) => match &tree.nodes[s] {
            NodeData::External(page) => assert!(page.keys.iter().any(|k| number(k) == 30)),
            _ => panic!("not a page"),
        },
        _ => panic!("not a slot"),
    }
    let c = search_node(&tree, NodeCellRef::Slot(tree.root), &key(30), ScanOrder::Forward);
    assert_eq!(number(c.current(&tree).unwrap()), 30);
    let c = search_node(&tree, NodeCellRef::Nil, &key(30), ScanOrder::Forward);
    assert!(c.current(&tree).is_none());
}

#[test]
fn a_full_page_splits() {
    let mut tree = BPlusTree::new(4, Id::new(1, 1));
    for (i, n) in [10u32, 20, 30, 40].iter().enumerate() {
        assert!(ExtNode::insert(&mut tree, 0, key(*n), i).is_none());
    }
    let made = ExtNode::insert_with_id(&mut tree, 0, key(25), 2, Id::new(5, 6));
    assert!(matches!(made, Some((NodeCellRef::Slot(1), None))));
    let keys_at = |tree: &BPlusTree, s: usize| match &tree.nodes[s] {
        NodeData::External(page) => page.keys.iter().map(number).collect::<Vec<_>>(),
        _ => panic!("not a page"),
    };
    let mut both = keys_at(&tree, 0);
    let second = keys_at(&tree, 1);
    assert!(!both.is_empty() && !second.is_empty());
    both.extend(second);
    assert_eq!(both, vec![10, 20, 25, 30, 40]);
    match (&tree.nodes[0], &tree.nodes[1]) {
        (NodeData::External(a), NodeData::External(b)) => {
            assert_eq!(a.next, NodeCellRef::Slot(1));
            assert_eq!(b.prev, NodeCellRef::Slot(0));
            assert_eq!(b.id, Id::new(5, 6));
        }
        _ => panic!("not pages"),
    }
}

#[test]
fn pages_give_and_take_keys() {
    let mut left = ExtNode::new(Id::new(1, 0));
    left.keys = vec![key(1), key(2), key(3)];
    left.remove_at(1);
    assert_eq!(left.keys.iter().map(number).collect::<Vec<_>>(), vec![1, 3]);
    let mut right = ExtNode::new(Id::new(2, 0));
    right.keys = vec![key(7), key(8)];
    left.merge_with(&mut right, 4);
    assert_eq!(left.keys.iter().map(number).collect::<Vec<_>>(), vec![1, 3, 7, 8]);
    assert_eq!(right.keys.len(), 2);
    assert_eq!(right.keys[0].len(), 0);
}

#[test]
fn cells_hold_pages() {
    let mut page = ExtNode::new(Id::new(3, 4));
    page.keys = vec![key(1), EntryKey::from_slice(&[9; 50])];
    page.next = NodeCellRef::Page(Id::new(5, 5));
    let cell = page.to_cell(&vec![], 77);
    assert_eq!(cell.schema_id, 77);
    assert_eq!(cell.id, Id::new(3, 4));
    assert_eq!(cell.next, Id::new(5, 5));
    assert_eq!(cell.prev, Id::unit_id());
    assert_eq!(cell.keys, vec![vec![0, 0, 0, 1], vec![9; 50]]);
    let back = ExtNode::from_cell(&cell);
    assert_eq!(back.id, page.id);
    assert_eq!(back.next, page.next);
    assert_eq!(back.prev, NodeCellRef::Nil);
    assert!(back.keys[1].same(&page.keys[1]));
    let none = PageCell { schema_id: 1, id: Id::new(1, 1), next: Id::unit_id(), prev: Id::unit_id(), keys: vec![] };
    assert!(ExtNode::from_cell(&none).keys.is_empty());
}

fn row_of_three() -> Vec<NodeData> {
    (0..3usize)
        .map(|i| {
            let mut page = ExtNode::new(Id::new(i as u64 + 1, 0));
            if i > 0 {
                page.prev = NodeCellRef::Slot(i - 1);
            }
            if i < 2 {
                page.next = NodeCellRef::Slot(i + 1);
            }
            NodeData::External(page)
        })
        .collect()
}

fn neighbours(n: &NodeData) -> (NodeCellRef, NodeCellRef) {
    match n {
        NodeData::External(page) => (page.prev, page.next),
        _ => panic!("not a page"),
    }
}

#[test]
fn a_page_leaves_its_row() {
    let mut nodes = row_of_three();
    ExtNode::remove_node(&mut nodes, 1);
    assert_eq!(neighbours(&nodes[0]).1, NodeCellRef::Slot(2));
    assert_eq!(neighbours(&nodes[2]).0, NodeCellRef::Slot(0));
    let mut nodes = row_of_three();
    assert_eq!(rearrange_empty_extnode(&mut nodes, 0), Id::new(1, 0));
    assert_eq!(neighbours(&nodes[1]).0, NodeCellRef::Nil);
}

#[test]
fn levels_merge_without_losing_keys() {
    let mut src = tree_of(4, &shuffled(400));
    let mut dest = tree_of(40, &[1, 1000, 2000]);
    for n in [0u32, 3, 399] {
        src.mark_key_deleted(&key(n));
    }
    let mut merges = 0;
    while is_mergeable(&src) {
        let before = src.count() + dest.count();
        let pages = level_merge(&mut src, &mut dest);
        assert!(pages > 0);
        assert!(src.count() + dest.count() <= before);
        let mut union: Vec<u32> = all(&src);
        union.extend(all(&dest));
        union.sort();
        union.dedup();
        let mut expected: Vec<u32> = (0..400).filter(|n| ![0, 3, 399].contains(n)).collect();
        expected.extend([1000, 2000]);
        assert_eq!(union, expected);
        merges += 1;
    }
    assert!(merges > 3);
    assert!(all(&src).iter().min() > all(&dest).iter().filter(|n| **n < 1000).max());
}

#[test]
fn a_small_tree_does_not_merge() {
    assert!(!is_mergeable(&BPlusTree::new(4, Id::new(1, 1))));
    assert!(!is_mergeable(&tree_of(4, &[1, 2, 3, 4, 5])));
}

#[test]
fn merges_tell_storage_what_changed() {
    let mut src = tree_of(4, &shuffled(400));
    let mut dest = BPlusTree::new(40, Id::new(9, 9));
    let pages = level_merge(&mut src, &mut dest);
    let mut removed = vec![];
    let mut stored = vec![];
    while let Some(change) = src.next_change(5) {
        match change {
            PageChange::Remove(id) => removed.push(id),
            PageChange::Store(cell) => {
                assert_eq!(cell.schema_id, 5);
                assert_eq!(cell.prev, Id::unit_id());
                assert_eq!(removed.len(), pages);
                stored.push(cell);
            }
            PageChange::Nothing => panic!("a page is missing"),
        }
    }
    assert_eq!(removed.len(), pages);
    assert_eq!(removed[0], Id::new(1, 2));
    assert_eq!(stored.len(), 1);
    assert_eq!(stored[0].id, Id::new(1, 2));
    assert!(src.changed.is_empty());
}

#[test]
fn a_change_of_a_page_that_has_gone_is_nothing() {
    let mut tree = tree_of(4, &[1]);
    tree.changed.push(ChangingNode::Modified(99));
    tree.changed.push(ChangingNode::Deleted(Id::new(3, 3)));
    assert!(matches!(tree.next_change(1), Some(PageChange::Nothing)));
    assert!(matches!(tree.next_change(1), Some(PageChange::Remove(id)) if id == Id::new(3, 3)));
    assert!(tree.next_change(1).is_none());
}

#[test]
fn new_pages_have_ids_of_their_own() {
    let tree = BPlusTree::new(4, Id::new(1, 1));
    let a = tree.new_page_id();
    let b = tree.new_page_id();
    assert!(a != b);
}

#[test]
fn deletion_sets_hold_keys_once() {
    let mut set = DeletionSet::new();
    assert!(set.insert(key(1)));
    assert!(!set.insert(key(1)));
    assert!(set.contains(&key(1)));
    set.remove(&key(1));
    assert!(!set.contains(&key(1)));
}

#[test]
fn the_page_schema_lays_pages_out() {
    let names = PageNames { schema: 11, root: 1, next: 2, prev: 3, keys: 4 };
    let paths = PagePaths { next: 22, prev: 33, keys: 44 };
    let types = PageTypes {
        root: Type { id: 0, size: None },
        id: Type { id: 9, size: Some(16) },
        bytes: Type { id: 12, size: None },
    };
    let schema = page_schema(&names, &paths, &types);
    assert_eq!(schema.id, 11);
    assert_eq!(schema.name, "NEB_BTREE_PAGE");
    assert_eq!(schema.static_bound, 36);
    let subs = schema.fields.sub_fields.as_ref().unwrap();
    assert_eq!(subs.iter().map(|f| f.name.as_str()).collect::<Vec<_>>(), vec!["next", "prev", "keys"]);
    assert_eq!(subs.iter().map(|f| f.offset).collect::<Vec<_>>(), vec![Some(0), Some(16), Some(32)]);
    assert!(subs[2].is_array);
    assert_eq!(schema.id_index.get(&33), Some(&vec![1]));
    assert_eq!(schema.id_index.len(), 3);
}

/// The slots of the pages, from left to right.
fn page_slots(tree: &BPlusTree) -> Vec<usize> {
    let mut at = NodeCellRef::Slot(tree.root);
    while let MutSearchResult::Internal(child) = mut_search(tree, at, &EntryKey::from_slice(&[])) {
        at = child;
    }
    let mut out = vec![];
    while let NodeCellRef::Slot(s) = at {
        out.push(s);
        at = neighbours(&tree.nodes[s]).1;
    }
    out
}

#[test]
fn a_search_from_a_page_does_not_go_left() {
    let tree = tree_of(4, &shuffled(60));
    let pages = page_slots(&tree);
    let from = pages[3];
    let first = match &tree.nodes[from] {
        NodeData::External(page) => number(&page.keys[0]),
        _ => panic!("not a page"),
    };
    assert!(first > 5);
    let mut c = search_node(&tree, NodeCellRef::Slot(from), &key(5), ScanOrder::Forward);
    assert_eq!(walk(&tree, &mut c), (first..60).collect::<Vec<_>>());
    let mut c = search_node(&tree, NodeCellRef::Slot(from), &key(5), ScanOrder::Backward);
    assert_eq!(walk(&tree, &mut c), (0..first + 1).rev().collect::<Vec<_>>());
    let mut c = search_node(&tree, NodeCellRef::Slot(from), &key(50), ScanOrder::Forward);
    assert_eq!(walk(&tree, &mut c), (50..60).collect::<Vec<_>>());
}

#[test]
fn a_search_from_nowhere_has_ended() {
    let tree = tree_of(4, &[1, 2]);
    let c = search_node(&tree, NodeCellRef::Nil, &key(1), ScanOrder::Backward);
    assert_eq!(c.index, 0);
    assert!(c.page.is_none() && c.current.is_none());
}

#[test]
fn a_merge_empties_the_pages_that_move() {
    let mut src = tree_of(4, &shuffled(400));
    let mut dest = BPlusTree::new(40, Id::new(9, 9));
    let slots = page_slots(&src);
    let pages = level_merge(&mut src, &mut dest);
    for s in &slots[..pages] {
        match &src.nodes[*s] {
            NodeData::Empty(e) => {
                assert_eq!(e.left, Some(NodeCellRef::Nil));
                assert_eq!(e.right, NodeCellRef::Slot(slots[pages]));
            }
            _ => panic!("a page has stayed"),
        }
    }
    match &src.nodes[slots[pages]] {
        NodeData::External(page) => {
            assert_eq!(page.id, Id::new(1, 2));
            assert_eq!(page.prev, NodeCellRef::Nil);
        }
        _ => panic!("not a page"),
    }
    assert_eq!(page_slots(&src), slots[pages..]);
    // a reference to a page that has moved leads to the first one that has stayed
    let mut c = search_node(&src, NodeCellRef::Slot(slots[0]), &key(0), ScanOrder::Forward);
    assert_eq!(walk(&src, &mut c), all(&src));
}

/// The children of the inner nodes, and whether each of them is referred to once.
fn children(tree: &BPlusTree) -> Vec<usize> {
    let mut out = vec![];
    for n in &tree.nodes {
        if let NodeData::Internal(node) = n {
            assert_eq!(node.ptrs.len(), node.keys.len() + 1);
            for p in &node.ptrs {
                match p {
                    NodeCellRef::Slot(s) => out.push(*s),
                    _ => panic!("a child is missing"),
                }
            }
        }
    }
    out.sort();
    out
}

#[test]
fn inner_nodes_refer_to_the_pages_that_stay() {
    let mut src = tree_of(3, &shuffled(900));
    let mut dest = BPlusTree::new(40, Id::new(9, 9));
    while is_mergeable(&src) {
        level_merge(&mut src, &mut dest);
        let kids = children(&src);
        assert!(kids.windows(2).all(|w| w[0] < w[1]));
        for s in page_slots(&src) {
            assert!(kids.binary_search(&s).is_ok());
        }
        assert!(kids.iter().all(|s| !matches!(src.nodes[*s], NodeData::Empty(_))));
    }
}

#[test]
fn a_split_leaves_the_mark_of_a_page() {
    let mut tree = BPlusTree::new(4, Id::new(1, 1));
    let dirty = |tree: &BPlusTree, s: usize| match &tree.nodes[s] {
        NodeData::External(page) => page.dirty,
        _ => panic!("not a page"),
    };
    let before = dirty(&tree, 0);
    for (i, n) in [10u32, 20, 30, 40].iter().enumerate() {
        assert!(ExtNode::insert(&mut tree, 0, key(*n), i).is_none());
        assert_eq!(dirty(&tree, 0), before);
    }
    assert!(ExtNode::insert(&mut tree, 0, key(25), 2).is_some());
    assert_eq!(dirty(&tree, 0), before);
    assert!(dirty(&tree, 1));
}
