//! Splitting a tree in two: the keys from a pivot on go to another tree, batch by batch.
use super::cursor::{
    least_level, lemma_forward_seek, lemma_seek_shows, lemma_shown_ascends, rest, shown, sought,
    LSMTreeCursor,
};
use super::tree::{in_levels, LSMTree};
use crate::index::btree::cursor::ScanOrder;
use crate::index::btree::ops::{
    lemma_live_contains, lemma_place, lemma_present_ascends, lemma_without_key_contains,
};
use crate::index::btree::search::{lemma_forward_search, lemma_tree_keys_ascend};
use crate::index::btree::tree::BPlusTree;
use crate::index::key::{
    group_key_order, key_le, key_lt, key_views, not_descending, EntryKey,
};
use crate::index::merging::{
    lemma_merged_all, lemma_steps_from_runs, lemma_total_zero, merge_steps, merged, total,
};
use crate::ram::types::Id;
use vstd::prelude::*;

verus! {

/// A split in progress: the keys from `start` on go to the tree `target`.
pub struct SplitStatus {
    pub start: EntryKey,
    pub target: Id,
}

/// The keys from the first one up to the second belong to a tree.
pub type KeyRange = (EntryKey, EntryKey);

/// What is to be done about a split.
pub enum SplitStep {
    /// A new tree is to be made, and a split to it started from the first of the two keys on. The
    /// second one is the start of the range of the tree that splits.
    Start(KeyRange),
    /// A split is in progress: keys are to be moved until there are none left.
    Move,
    /// Nothing is to be done.
    Idle,
}

/// The level has the most present keys, and no later one has as many.
pub open spec fn largest_level(trees: Seq<BPlusTree>, i: int) -> bool {
    &&& 0 <= i < trees.len()
    &&& forall|j: int|
        0 <= j < trees.len() ==> if j <= i {
            (#[trigger] trees[j]).len <= trees[i].len
        } else {
            trees[j].len < trees[i].len
        }
}

/// The key in the middle of the level with the most present keys.
pub fn mid_key(tree: &LSMTree) -> (key: EntryKey)
    requires
        tree.inv(),
        exists|i: int| 0 <= i < tree.trees@.len() && (#[trigger] tree.trees@[i]).len > 0,
    ensures
        forall|i: int| #[trigger]
            largest_level(tree.trees@, i) ==> key@ == tree.trees@[i].present()[tree.trees@[i].len as int
                / 2],
        exists|i: int| #[trigger] largest_level(tree.trees@, i),
{
    let mut best: usize = 0;
    let mut i: usize = 1;
    while i < tree.trees.len()
        invariant
            tree.inv(),
            best < i <= tree.trees@.len(),
            forall|j: int|
                0 <= j < i ==> if j <= best {
                    (#[trigger] tree.trees@[j]).len <= tree.trees@[best as int].len
                } else {
                    tree.trees@[j].len < tree.trees@[best as int].len
                },
        decreases tree.trees@.len() - i,
    {
        assert(tree.trees@[i as int].inv());
        assert(tree.trees@[best as int].inv());
        if tree.trees[i].count() >= tree.trees[best].count() {
            best = i;
        }
        i += 1;
    }
    proof {
        assert(largest_level(tree.trees@, best as int));
        let some = choose|i: int| 0 <= i < tree.trees@.len() && (#[trigger] tree.trees@[i]).len > 0;
        assert(tree.trees@[some].len <= tree.trees@[best as int].len);
        assert(tree.trees@[best as int].inv());
        assert forall|i: int| #[trigger] largest_level(tree.trees@, i) implies i == best by {
            assert(tree.trees@[i].len <= tree.trees@[best as int].len);
            assert(tree.trees@[best as int].len <= tree.trees@[i].len);
        }
    }
    match tree.trees[best].mid_key() {
        Some(key) => key,
        None => {
            assert(false);
            EntryKey::from_slice(&[])
        },
    }
}

/// Tells what is to be done: a full tree that is not splitting starts to, with the range from its
/// middle key to the start of its own range, and a tree that is splitting goes on.
pub fn check_and_split(tree: &LSMTree, range: &KeyRange, split: &Option<SplitStatus>) -> (step:
    SplitStep)
    requires
        tree.inv(),
    ensures
        match step {
            SplitStep::Start(r) => {
                &&& tree.trees@.last().present().len() > tree.max_sizes@.last()
                &&& split is None
                &&& r.1@ == range.0@
                &&& forall|i: int| #[trigger]
                    largest_level(tree.trees@, i) ==> r.0@
                        == tree.trees@[i].present()[tree.trees@[i].len as int / 2]
                &&& exists|i: int| #[trigger] largest_level(tree.trees@, i)
            },
            SplitStep::Move => split is Some,
            SplitStep::Idle => split is None && tree.trees@.last().present().len()
                <= tree.max_sizes@.last(),
        },
{
    match split {
        Some(_) => SplitStep::Move,
        None => {
            if tree.is_full() {
                assert(tree.trees@[tree.trees@.len() - 1].inv());
                let mid = mid_key(tree);
                SplitStep::Start((mid, range.0.duplicate()))
            } else {
                SplitStep::Idle
            }
        },
    }
}

/// How many keys a batch holds.
pub open spec fn batch_len(runs: Seq<Seq<Seq<u8>>>, size: int) -> int {
    if total(runs) < size {
        total(runs) as int
    } else {
        size
    }
}

/// The batch is what a cursor shows that stands in all levels at the place of `start`: the keys from
/// `start` on, in order, as many as the last level may hold.
pub open spec fn batch_of(tree: &LSMTree, start: Seq<u8>, batch: Seq<Seq<u8>>) -> bool {
    exists|c: LSMTreeCursor|
        {
            &&& #[trigger] sought(tree, start, ScanOrder::Forward, c)
            &&& c.wf(tree)
            &&& batch == shown(
                c.aheads(tree),
                batch_len(c.aheads(tree), tree.max_sizes@.last() as int),
            )
        }
}

/// The next keys to move: from the start of the split on, itself among them, in order, as many as
/// the last level may hold. There are none when all were moved.
pub fn next_batch(tree: &LSMTree, split: &SplitStatus) -> (batch: Vec<EntryKey>)
    requires
        tree.inv(),
    ensures
        batch_of(tree, split.start@, key_views(batch@)),
{
    let mut cursor = tree.seek_key(&split.start, ScanOrder::Forward);
    let batch_size: usize = tree.last_level_size();
    let ghost first = cursor;
    let ghost runs = cursor.aheads(tree);
    let mut batch: Vec<EntryKey> = Vec::new();
    let ghost mut n: nat = 0;
    proof {
        super::cursor::lemma_start(runs);
        super::cursor::lemma_walk(runs, 0);
        lemma_merged_all(runs);
        assert(key_views(batch@) =~= shown(runs, 0));
    }
    while batch.len() < batch_size
        invariant
            tree.inv(),
            cursor.wf(tree),
            cursor.aheads(tree) == rest(runs, merge_steps(runs, n).next),
            merge_steps(runs, n).out.len() == n,
            n <= total(runs),
            n <= batch_size,
            batch@.len() == n,
            key_views(batch@) == shown(runs, n as int),
            batch_size == tree.max_sizes@.last(),
        ensures
            key_views(batch@) == shown(runs, batch_len(runs, batch_size as int)),
        decreases batch_size - batch.len(),
    {
        proof {
            super::cursor::lemma_walk(runs, n);
            super::cursor::lemma_some_left(cursor.aheads(tree));
        }
        match cursor.current(tree) {
            Some(key) => {
                let ghost before = batch@;
                let copy = key.duplicate();
                let ghost k = copy@;
                batch.push(copy);
                proof {
                    let left = cursor.aheads(tree);
                    let p = choose|p: int| least_level(left, p);
                    assert(least_level(left, p));
                    assert(key_views(batch@) =~= key_views(before).push(k));
                    assert(key_views(batch@) =~= shown(runs, n as int + 1));
                }
            },
            None => {
                break;
            },
        }
        cursor.next(tree);
        proof {
            n = n + 1;
        }
    }
    proof {
        assert(sought(tree, split.start@, ScanOrder::Forward, first));
    }
    batch
}

/// The levels hold what they held before, but for the keys of the batch.
pub open spec fn taken_out(before: &LSMTree, after: &LSMTree, batch: Seq<Seq<u8>>) -> bool {
    forall|k: Seq<u8>| #[trigger]
        in_levels(after.trees@, k) <==> in_levels(before.trees@, k) && !batch.contains(k)
}

impl LSMTree {
    /// Marks keys that were moved to another tree as deleted in all levels.
    pub fn remove_batch(&mut self, batch: &Vec<EntryKey>)
        requires
            old(self).inv(),
        ensures
            final(self).inv(),
            final(self).max_sizes == old(self).max_sizes,
            final(self).trees@.len() == old(self).trees@.len(),
            taken_out(old(self), final(self), key_views(batch@)),
    {
        let ghost first = self.trees@;
        let ghost views = key_views(batch@);
        let mut i: usize = 0;
        while i < batch.len()
            invariant
                self.inv(),
                self.max_sizes == old(self).max_sizes,
                self.trees@.len() == first.len(),
                first == old(self).trees@,
                views == key_views(batch@),
                i <= batch@.len(),
                forall|k: Seq<u8>| #[trigger]
                    in_levels(self.trees@, k) <==> in_levels(first, k) && !views.take(
                        i as int,
                    ).contains(k),
            decreases batch@.len() - i,
        {
            let ghost before = self.trees@;
            self.remove_key(&batch[i]);
            proof {
                let now = views.take(i + 1);
                let then = views.take(i as int);
                assert(now =~= then.push(views[i as int]));
                assert forall|k: Seq<u8>| #[trigger]
                    in_levels(self.trees@, k) <==> in_levels(first, k) && !now.contains(k) by {
                    assert(in_levels(before, k) <==> in_levels(first, k) && !then.contains(k));
                    if then.contains(k) {
                        let j = choose|j: int| 0 <= j < then.len() && then[j] == k;
                        assert(now[j] == k);
                    }
                    assert(now[i as int] == views[i as int]);
                    if now.contains(k) && k != views[i as int] {
                        let j = choose|j: int| 0 <= j < now.len() && now[j] == k;
                        assert(then[j] == k);
                    }
                }
            }
            i += 1;
        }
        assert(views.take(i as int) =~= views);
    }

    /// Marks all keys from `start` on as deleted in all levels.
    pub fn remove_to_right(&mut self, start: &EntryKey)
        requires
            old(self).inv(),
        ensures
            final(self).inv(),
            final(self).max_sizes == old(self).max_sizes,
            final(self).trees@.len() == old(self).trees@.len(),
            forall|i: int, k: Seq<u8>|
                0 <= i < final(self).trees@.len() ==> (
                #[trigger] final(self).trees@[i].present().contains(k)
                    <==> old(self).trees@[i].present().contains(k) && key_lt(k, start@)),
    {
        let ghost first = self.trees@;
        let mut i: usize = 0;
        while i < self.trees.len()
            invariant
                self.inv(),
                self.max_sizes == old(self).max_sizes,
                self.trees@.len() == first.len(),
                first == old(self).trees@,
                i <= first.len(),
                forall|j: int| i <= j < first.len() ==> #[trigger] self.trees@[j] == first[j],
                forall|j: int, k: Seq<u8>|
                    0 <= j < i ==> (#[trigger] self.trees@[j].present().contains(k)
                        <==> first[j].present().contains(k) && key_lt(k, start@)),
            decreases first.len() - i,
        {
            let ghost before = self.trees@;
            assert(before[i as int].inv());
            assert(before[i as int] == first[i as int]);
            clear_from(&mut self.trees[i], start);
            proof {
                assert forall|j: int| 0 <= j < self.trees@.len() implies (#[trigger] self.trees@[j]).inv() by {
                    if j != i {
                        assert(before[j].inv());
                    }
                }
            }
            i += 1;
        }
    }
}

/// Marks all keys of a level from `start` on as deleted.
fn clear_from(tree: &mut BPlusTree, start: &EntryKey)
    requires
        old(tree).inv(),
    ensures
        final(tree).inv(),
        final(tree).keys() == old(tree).keys(),
        forall|k: Seq<u8>| #[trigger]
            final(tree).present().contains(k) <==> old(tree).present().contains(k) && key_lt(
                k,
                start@,
            ),
{
    broadcast use group_key_order;

    let ghost first = *tree;
    loop
        invariant
            tree.inv(),
            tree.keys() == first.keys(),
            first.inv(),
            forall|k: Seq<u8>| #[trigger]
                tree.present().contains(k) ==> first.present().contains(k),
            forall|k: Seq<u8>| #[trigger]
                first.present().contains(k) && key_lt(k, start@) ==> tree.present().contains(k),
        ensures
            tree.inv(),
            tree.keys() == first.keys(),
            forall|k: Seq<u8>| #[trigger]
                tree.present().contains(k) ==> first.present().contains(k) && key_lt(k, start@),
            forall|k: Seq<u8>| #[trigger]
                first.present().contains(k) && key_lt(k, start@) ==> tree.present().contains(k),
        decreases tree.len,
    {
        broadcast use group_key_order;

        let ghost now = *tree;
        let c = tree.seek_for(start, ScanOrder::Forward);
        let ghost keys = now.keys();
        proof {
            lemma_tree_keys_ascend(&now);
        }
        let ghost p = lemma_place(keys, start@);
        let ghost tail = keys.skip(p);
        proof {
            lemma_forward_search(&now, start@, c, p);
            assert forall|a: int, b: int| 0 <= a < b < tail.len() implies key_lt(
                #[trigger] tail[a],
                #[trigger] tail[b],
            ) by {
                assert(key_lt(keys[p + a], keys[p + b]));
            }
            lemma_present_ascends(&now);
        }
        match c.current(tree) {
            Some(key) => {
                let k = key.duplicate();
                proof {
                    let shown = c.ahead(&now);
                    assert(shown[0] == k@);
                    assert(shown.contains(k@));
                    lemma_live_contains(tail, now.deleted@, k@);
                    lemma_live_contains(keys, now.deleted@, k@);
                    let a = choose|a: int| 0 <= a < tail.len() && tail[a] == k@;
                    assert(keys[p + a] == k@);
                    assert(key_le(start@, k@));
                    assert(now.present().contains(k@));
                }
                tree.mark_key_deleted(&k);
                proof {
                    assert forall|x: Seq<u8>| #[trigger] tree.present().contains(x) implies first.present().contains(
                        x,
                    ) by {
                        lemma_without_key_contains(now.present(), tree.present(), k@, x);
                    }
                    assert forall|x: Seq<u8>| #[trigger]
                        first.present().contains(x) && key_lt(x, start@) implies tree.present().contains(
                        x,
                    ) by {
                        lemma_without_key_contains(now.present(), tree.present(), k@, x);
                    }
                    let q = choose|q: int|
                        0 <= q < now.present().len() && #[trigger] now.present()[q] == k@
                            && tree.present() == now.present().remove(q);
                }
            },
            None => {
                proof {
                    assert forall|x: Seq<u8>| #[trigger] now.present().contains(x) implies key_lt(
                        x,
                        start@,
                    ) by {
                        lemma_live_contains(tail, now.deleted@, x);
                        lemma_live_contains(keys, now.deleted@, x);
                        if key_le(start@, x) {
                            let a = choose|a: int| 0 <= a < keys.len() && keys[a] == x;
                            assert(a >= p);
                            assert(tail[a - p] == x);
                            assert(c.ahead(&now).contains(x));
                        }
                    }
                }
                break;
            },
        }
    }
}

/// The keys that are to be moved are those of the levels from the start on: each key of a batch is
/// one of them, and a batch is empty only when there is none left.
pub proof fn lemma_batch_from_levels(
    tree: &LSMTree,
    start: Seq<u8>,
    c: LSMTreeCursor,
    size: int,
    key: Seq<u8>,
)
    requires
        tree.inv(),
        size > 0,
        sought(tree, start, ScanOrder::Forward, c),
    ensures
        shown(c.aheads(tree), batch_len(c.aheads(tree), size)).contains(key) ==> in_levels(
            tree.trees@,
            key,
        ) && key_le(start, key),
        batch_len(c.aheads(tree), size) == 0 && in_levels(tree.trees@, key) ==> key_lt(key, start),
{
    let runs = c.aheads(tree);
    let n = batch_len(runs, size);
    lemma_merged_all(runs);
    if shown(runs, n).contains(key) {
        let k = choose|k: int| 0 <= k < shown(runs, n).len() && shown(runs, n)[k] == key;
        lemma_steps_from_runs(runs, total(runs), k);
        let p = merged(runs)[k].1;
        lemma_forward_seek(tree, start, c, p, key);
        assert(tree.trees@[p].present().contains(key));
    }
    if n == 0 && in_levels(tree.trees@, key) {
        let p = choose|p: int|
            0 <= p < tree.trees@.len() && (#[trigger] tree.trees@[p]).present().contains(key);
        lemma_forward_seek(tree, start, c, p, key);
        lemma_total_zero(runs);
        assert(runs[p].len() == 0);
        assert(!runs[p].contains(key));
    }
}

/// A split that went on until a batch was empty: `batches` are the batches, one after the other, and
/// `trees` is the tree as it was before each of them.
pub open spec fn split_ran(
    trees: Seq<LSMTree>,
    start: Seq<u8>,
    batches: Seq<Seq<Seq<u8>>>,
) -> bool {
    &&& trees.len() == batches.len() >= 1
    &&& forall|i: int|
        0 <= i < trees.len() ==> {
            &&& (#[trigger] trees[i]).inv()
            &&& trees[i].max_sizes@.last() > 0
            &&& batch_of(&trees[i], start, batches[i])
        }
    &&& forall|i: int|
        0 <= i < trees.len() - 1 ==> taken_out(
            #[trigger] &trees[i],
            &trees[i + 1],
            batches[i],
        )
    &&& batches.last().len() == 0
}

/// A split hands over every key from its start on, each in one batch and no other key, and leaves
/// the keys before its start.
#[verifier::spinoff_prover]
#[verifier::rlimit(40)]
pub proof fn lemma_split_hands_over(
    trees: Seq<LSMTree>,
    start: Seq<u8>,
    batches: Seq<Seq<Seq<u8>>>,
    key: Seq<u8>,
)
    requires
        split_ran(trees, start, batches),
    ensures
        (exists|i: int| 0 <= i < batches.len() && (#[trigger] batches[i]).contains(key))
            <==> in_levels(trees[0].trees@, key) && key_le(start, key),
        in_levels(trees.last().trees@, key) <==> in_levels(trees[0].trees@, key) && key_lt(
            key,
            start,
        ),
        forall|i: int, j: int|
            0 <= i < j < batches.len() && (#[trigger] batches[i]).contains(key) ==> !(
            #[trigger] batches[j]).contains(key),
    decreases trees.len(),
{
    broadcast use group_key_order;

    let first = batches[0];
    assert(trees[0].inv() && batch_of(&trees[0], start, first));
    let c = choose|c: LSMTreeCursor|
        {
            &&& #[trigger] sought(&trees[0], start, ScanOrder::Forward, c)
            &&& c.wf(&trees[0])
            &&& first == shown(
                c.aheads(&trees[0]),
                batch_len(c.aheads(&trees[0]), trees[0].max_sizes@.last() as int),
            )
        };
    lemma_batch_from_levels(&trees[0], start, c, trees[0].max_sizes@.last() as int, key);
    if trees.len() > 1 {
        let later = trees.drop_first();
        let left = batches.drop_first();
        assert(taken_out(&trees[0], &trees[1], first));
        assert forall|i: int| 0 <= i < later.len() implies {
            &&& (#[trigger] later[i]).inv()
            &&& later[i].max_sizes@.last() > 0
            &&& batch_of(&later[i], start, left[i])
        } by {
            assert(trees[i + 1].inv());
        }
        assert forall|i: int| 0 <= i < later.len() - 1 implies taken_out(
            #[trigger] &later[i],
            &later[i + 1],
            left[i],
        ) by {
            assert(taken_out(&trees[i + 1], &trees[i + 2], batches[i + 1]));
        }
        lemma_split_hands_over(later, start, left, key);
        let some_left = exists|i: int| 0 <= i < left.len() && (#[trigger] left[i]).contains(key);
        if some_left {
            let i = choose|i: int| 0 <= i < left.len() && (#[trigger] left[i]).contains(key);
            assert(batches[i + 1].contains(key));
        }
        assert forall|i: int, j: int|
            0 <= i < j < batches.len() && (#[trigger] batches[i]).contains(key) implies !(
        #[trigger] batches[j]).contains(key) by {
            assert(batches[j] == left[j - 1]);
            if i > 0 {
                assert(batches[i] == left[i - 1]);
            }
        }
        if exists|i: int| 0 <= i < batches.len() && (#[trigger] batches[i]).contains(key) {
            let i = choose|i: int| 0 <= i < batches.len() && (#[trigger] batches[i]).contains(key);
            if i > 0 {
                assert(left[i - 1].contains(key));
            }
        }
    }
}

/// The level whose middle key is taken has as many present keys as any, and more than each level
/// behind it; there is only one such level.
pub proof fn lemma_largest_level(trees: Seq<BPlusTree>, i: int, j: int)
    requires
        largest_level(trees, i),
        0 <= j < trees.len(),
    ensures
        trees[j].len <= trees[i].len,
        j > i ==> trees[j].len < trees[i].len,
        largest_level(trees, j) ==> j == i,
{
    if largest_level(trees, j) {
        if j < i {
            assert(trees[i].len < trees[j].len);
        } else {
            assert(trees[i].len <= trees[j].len);
        }
    }
}

/// A batch is the front of the keys from the start on: it does not descend and holds no more keys than
/// the last level may; each of its keys is in a level and not before the start; and a key that is left
/// out is not before any that is in it, and is left out only because the batch is full.
pub proof fn lemma_batch_is_front(tree: &LSMTree, start: Seq<u8>, batch: Seq<Seq<u8>>, key: Seq<u8>)
    requires
        tree.inv(),
        batch_of(tree, start, batch),
    ensures
        not_descending(batch),
        batch.len() <= tree.max_sizes@.last(),
        batch.contains(key) ==> in_levels(tree.trees@, key) && key_le(start, key),
        in_levels(tree.trees@, key) && key_le(start, key) && !batch.contains(key) ==> {
            &&& batch.len() == tree.max_sizes@.last()
            &&& forall|a: int| 0 <= a < batch.len() ==> key_le(#[trigger] batch[a], key)
        },
{
    let size = tree.max_sizes@.last() as int;
    let c = choose|c: LSMTreeCursor|
        {
            &&& #[trigger] sought(tree, start, ScanOrder::Forward, c)
            &&& c.wf(tree)
            &&& batch == shown(c.aheads(tree), batch_len(c.aheads(tree), size))
        };
    let runs = c.aheads(tree);
    let all = shown(runs, total(runs) as int);
    lemma_forward_seek(tree, start, c, 0, key);
    lemma_shown_ascends(runs, batch.len() as int);
    lemma_shown_ascends(runs, total(runs) as int);
    lemma_seek_shows(tree, start, c, key);
    assert forall|a: int| 0 <= a < batch.len() implies #[trigger] batch[a] == all[a] by {}
    if batch.contains(key) {
        let a = choose|a: int| 0 <= a < batch.len() && batch[a] == key;
        assert(all[a] == key);
    }
    if all.contains(key) && !batch.contains(key) {
        let k = choose|k: int| 0 <= k < all.len() && all[k] == key;
        assert(k >= batch.len()) by {
            if k < batch.len() {
                assert(batch[k] == key);
            }
        }
        assert forall|a: int| 0 <= a < batch.len() implies key_le(#[trigger] batch[a], key) by {
            assert(key_le(all[a], all[k]));
        }
    }
}

} // verus!
