//! The levels of a tree, and the merges between them.
use crate::index::btree::cursor::ScanOrder;
use crate::index::btree::level::{
    can_merge, dropped_ids, is_mergeable, lemma_merge_keeps_present, level_merge, merge_pages,
    moved_keys,
};
use crate::index::btree::ops::{
    lemma_present_ascends, lemma_with_key_contains, lemma_without_key_contains, with_key, without_key,
};
use crate::index::btree::shape::flat;
use crate::index::btree::tree::{live, random_id, BPlusTree, ChangingNode};
use crate::index::key::{key_le, key_lt, key_views, EntryKey};
use vstd::array::array_as_slice;
use vstd::prelude::*;

verus! {

/// How many times more keys a level holds than the one before it.
pub const LEVEL_ELEMENTS_MULTIPLIER: usize = 10;

/// How many times larger the pages of a level are than those of the one before it, and how many
/// pages move to the next level at a time.
pub const LEVEL_PAGE_DIFF_MULTIPLIER: usize = 10;

/// How many keys the first level holds before it gives pages away.
pub const LEVEL_M_MAX_ELEMENTS_COUNT: usize = 13824;

/// How many keys a page of the first level holds; the further constants are those of the others.
pub const LEVEL_M: usize = 24;

pub const LEVEL_1: usize = 240;

pub const LEVEL_2: usize = 2400;

pub const LEVEL_3: usize = 24000;

/// An id in the form in which it stands at the end of a key.
pub type IdBytes = [u8; 16];

/// The levels, and how many keys each holds before it gives pages away.
pub struct LSMTree {
    pub trees: Vec<BPlusTree>,
    pub max_sizes: Vec<usize>,
}

/// A key with an id behind it.
pub fn key_with_id(key: &EntryKey, id: &IdBytes) -> (out: EntryKey)
    ensures
        out@ == key@ + id@,
{
    let mut bytes = key.to_vec();
    let ghost start = bytes@;
    let tail = array_as_slice(id);
    let mut i: usize = 0;
    while i < tail.len()
        invariant
            i <= tail@.len(),
            tail@ == id@,
            bytes@ == start + tail@.take(i as int),
        decreases tail@.len() - i,
    {
        bytes.push(tail[i]);
        i += 1;
        assert(bytes@ =~= start + tail@.take(i as int));
    }
    assert(tail@.take(i as int) =~= tail@);
    EntryKey::from_slice(bytes.as_slice())
}

/// The bytes of the least id, and those of the greatest.
pub open spec fn edge_bytes(ordering: ScanOrder) -> Seq<u8> {
    match ordering {
        ScanOrder::Forward => Seq::new(16, |i: int| 0u8),
        ScanOrder::Backward => Seq::new(16, |i: int| 255u8),
    }
}

/// The key where a search starts so that it meets all ids of the key.
pub fn edge_key(key: &EntryKey, ordering: ScanOrder) -> (out: EntryKey)
    ensures
        out@ == key@ + edge_bytes(ordering),
{
    match ordering {
        ScanOrder::Forward => {
            let id: IdBytes = [0, 0, 0, 0, 0, 0, 0, 0, 0, 0, 0, 0, 0, 0, 0, 0];
            assert(id@ =~= edge_bytes(ordering));
            key_with_id(key, &id)
        },
        ScanOrder::Backward => {
            let id: IdBytes = [
                255, 255, 255, 255, 255, 255, 255, 255, 255, 255, 255, 255, 255, 255, 255, 255,
            ];
            assert(id@ =~= edge_bytes(ordering));
            key_with_id(key, &id)
        },
    }
}

/// Keys whose first part is the same are ordered by what stands behind it.
proof fn lemma_same_start(key: Seq<u8>, a: Seq<u8>, b: Seq<u8>)
    ensures
        key_lt(key + a, key + b) == key_lt(a, b),
    decreases key.len(),
{
    reveal_with_fuel(key_lt, 2);
    if key.len() == 0 {
        assert(key + a =~= a);
        assert(key + b =~= b);
    } else {
        lemma_same_start(key.drop_first(), a, b);
        assert((key + a).drop_first() =~= key.drop_first() + a);
        assert((key + b).drop_first() =~= key.drop_first() + b);
        assert((key + a)[0] == key[0] && (key + b)[0] == key[0]);
    }
}

/// A key of the least bytes comes first of all keys of its length, and one of the greatest last.
proof fn lemma_extreme_keys(id: Seq<u8>)
    ensures
        key_le(Seq::new(id.len(), |i: int| 0u8), id),
        key_le(id, Seq::new(id.len(), |i: int| 255u8)),
    decreases id.len(),
{
    reveal_with_fuel(key_lt, 2);
    let low = Seq::new(id.len(), |i: int| 0u8);
    let high = Seq::new(id.len(), |i: int| 255u8);
    if id.len() > 0 {
        lemma_extreme_keys(id.drop_first());
        assert(low.drop_first() =~= Seq::new(id.drop_first().len(), |i: int| 0u8));
        assert(high.drop_first() =~= Seq::new(id.drop_first().len(), |i: int| 255u8));
    }
}

/// All ids of a key lie between the two keys where searches for it start.
pub proof fn lemma_ids_between_edges(key: Seq<u8>, id: Seq<u8>)
    requires
        id.len() == 16,
    ensures
        key_le(key + edge_bytes(ScanOrder::Forward), key + id),
        key_le(key + id, key + edge_bytes(ScanOrder::Backward)),
        edge_bytes(ScanOrder::Forward).len() == 16,
        edge_bytes(ScanOrder::Backward).len() == 16,
{
    lemma_extreme_keys(id);
    lemma_same_start(key, id, edge_bytes(ScanOrder::Forward));
    lemma_same_start(key, edge_bytes(ScanOrder::Backward), id);
}

/// The numbers of present keys in the first `n` levels.
pub open spec fn total_len(trees: Seq<BPlusTree>, n: nat) -> int
    decreases n,
{
    if n == 0 || n > trees.len() {
        0
    } else {
        total_len(trees, (n - 1) as nat) + trees[n - 1].len
    }
}

/// The key is present in a level.
pub open spec fn in_levels(trees: Seq<BPlusTree>, key: Seq<u8>) -> bool {
    exists|i: int| 0 <= i < trees.len() && (#[trigger] trees[i]).present().contains(key)
}

/// All levels are as they should be.
pub open spec fn levels_ok(trees: Seq<BPlusTree>) -> bool {
    forall|i: int| 0 <= i < trees.len() ==> (#[trigger] trees[i]).inv()
}

impl LSMTree {
    pub open spec fn inv(&self) -> bool {
        &&& self.trees@.len() > 0
        &&& self.trees@.len() == self.max_sizes@.len()
        &&& levels_ok(self.trees@)
    }

    /// The number of present keys in all levels.
    pub open spec fn total(&self) -> int {
        total_len(self.trees@, self.trees@.len())
    }
}

/// Page sizes and limits of the four levels.
pub open spec fn level_page_sizes() -> Seq<usize> {
    seq![LEVEL_M, LEVEL_1, LEVEL_2, LEVEL_3]
}

pub open spec fn level_max_sizes() -> Seq<usize> {
    seq![13824usize, 138240usize, 1382400usize, 13824000usize]
}

impl LSMTree {
    /// Four empty levels.
    pub fn new() -> (tree: LSMTree)
        ensures
            tree.inv(),
            tree.max_sizes@ == level_max_sizes(),
            tree.trees@.len() == 4,
            tree.max_sizes@[0] == 13824,
            tree.trees@[0].page_size == 24,
            forall|i: int, j: int|
                0 <= i < 4 && j == i + 1 && j < 4 ==> {
                    &&& #[trigger] tree.max_sizes@[j] == 10 * #[trigger] tree.max_sizes@[i]
                    &&& tree.trees@[j].page_size == 10 * tree.trees@[i].page_size
                },
            forall|i: int|
                0 <= i < 4 ==> {
                    &&& (#[trigger] tree.trees@[i]).page_size == level_page_sizes()[i]
                    &&& tree.trees@[i].keys().len() == 0
                    &&& tree.trees@[i].present().len() == 0
                    &&& tree.trees@[i].changed@.len() == 0
                },
    {
        let sizes: Vec<usize> = vec![LEVEL_M, LEVEL_1, LEVEL_2, LEVEL_3];
        let mut trees: Vec<BPlusTree> = Vec::new();
        let mut max_sizes: Vec<usize> = Vec::new();
        let mut max_elements: usize = LEVEL_M_MAX_ELEMENTS_COUNT;
        assert(sizes@ =~= level_page_sizes());
        while trees.len() < sizes.len()
            invariant
                sizes@ == level_page_sizes(),
                trees@.len() <= 4,
                max_sizes@ == level_max_sizes().take(trees@.len() as int),
                trees@.len() < 4 ==> max_elements == level_max_sizes()[trees@.len() as int],
                max_elements <= 138240000,
                forall|i: int|
                    0 <= i < trees@.len() ==> {
                        &&& (#[trigger] trees@[i]).inv()
                        &&& trees@[i].page_size == level_page_sizes()[i]
                        &&& trees@[i].keys().len() == 0
                        &&& trees@[i].present().len() == 0
                        &&& trees@[i].changed@.len() == 0
                    },
            decreases 4 - trees@.len(),
        {
            let ghost n = trees@.len() as int;
            let page_size: usize = sizes[trees.len()];
            let tree = BPlusTree::new(page_size, random_id());
            trees.push(tree);
            max_sizes.push(max_elements);
            assert(max_sizes@ =~= level_max_sizes().take(n + 1));
            max_elements = max_elements * LEVEL_ELEMENTS_MULTIPLIER;
        }
        assert(max_sizes@ =~= level_max_sizes());
        LSMTree { trees, max_sizes }
    }

    /// Makes a key, with its id, present in the first level; tells whether it was not before.
    pub fn insert(&mut self, key: &EntryKey, id: &IdBytes) -> (r: bool)
        requires
            old(self).inv(),
            old(self).trees@[0].len < usize::MAX,
        ensures
            final(self).inv(),
            r == !old(self).trees@[0].present().contains(key@ + id@),
            with_key(
                old(self).trees@[0].present(),
                final(self).trees@[0].present(),
                key@ + id@,
            ),
            forall|k: Seq<u8>| #[trigger]
                in_levels(final(self).trees@, k) <==> k == key@ + id@ || in_levels(
                    old(self).trees@,
                    k,
                ),
            final(self).trees@.len() == old(self).trees@.len(),
            forall|i: int|
                0 < i < final(self).trees@.len() ==> #[trigger] final(self).trees@[i] == old(
                    self,
                ).trees@[i],
            final(self).max_sizes == old(self).max_sizes,
    {
        let full = key_with_id(key, id);
        self.insert_key(&full)
    }

    /// Makes a key present in the first level; tells whether it was not before.
    pub fn insert_key(&mut self, key: &EntryKey) -> (r: bool)
        requires
            old(self).inv(),
            old(self).trees@[0].len < usize::MAX,
        ensures
            final(self).inv(),
            r == !old(self).trees@[0].present().contains(key@),
            with_key(old(self).trees@[0].present(), final(self).trees@[0].present(), key@),
            forall|k: Seq<u8>| #[trigger]
                in_levels(final(self).trees@, k) <==> k == key@ || in_levels(old(self).trees@, k),
            final(self).trees@.len() == old(self).trees@.len(),
            forall|i: int|
                0 < i < final(self).trees@.len() ==> #[trigger] final(self).trees@[i] == old(
                    self,
                ).trees@[i],
            final(self).max_sizes == old(self).max_sizes,
    {
        let ghost before = self.trees@;
        assert(before[0].inv());
        let r = self.trees[0].insert_into(key);
        proof {
            lemma_inserted(before, self.trees@, key@);
            assert forall|i: int| 0 <= i < self.trees@.len() implies (#[trigger] self.trees@[i]).inv() by {
                if i > 0 {
                    assert(before[i].inv());
                }
            }
        }
        r
    }

    /// Marks a key, with its id, as deleted in all levels; tells whether it was present in one.
    pub fn remove(&mut self, key: &EntryKey, id: &IdBytes) -> (r: bool)
        requires
            old(self).inv(),
        ensures
            final(self).inv(),
            r == in_levels(old(self).trees@, key@ + id@),
            forall|k: Seq<u8>| #[trigger]
                in_levels(final(self).trees@, k) <==> k != key@ + id@ && in_levels(
                    old(self).trees@,
                    k,
                ),
            final(self).trees@.len() == old(self).trees@.len(),
            forall|i: int|
                0 <= i < final(self).trees@.len() ==> without_key(
                    old(self).trees@[i].present(),
                    (#[trigger] final(self).trees@[i]).present(),
                    key@ + id@,
                ),
            final(self).max_sizes == old(self).max_sizes,
    {
        let full = key_with_id(key, id);
        self.remove_key(&full)
    }

    /// Marks a key as deleted in all levels; tells whether it was present in one.
    pub fn remove_key(&mut self, key: &EntryKey) -> (r: bool)
        requires
            old(self).inv(),
        ensures
            final(self).inv(),
            r == in_levels(old(self).trees@, key@),
            forall|k: Seq<u8>| #[trigger]
                in_levels(final(self).trees@, k) <==> k != key@ && in_levels(
                    old(self).trees@,
                    k,
                ),
            final(self).trees@.len() == old(self).trees@.len(),
            forall|i: int|
                0 <= i < final(self).trees@.len() ==> without_key(
                    old(self).trees@[i].present(),
                    (#[trigger] final(self).trees@[i]).present(),
                    key@,
                ),
            final(self).max_sizes == old(self).max_sizes,
    {
        let ghost k = key@;
        let ghost before = self.trees@;
        let mut deleted = false;
        let mut i: usize = 0;
        while i < self.trees.len()
            invariant
                self.inv(),
                self.trees@.len() == before.len(),
                before == old(self).trees@,
                self.max_sizes == old(self).max_sizes,
                i <= before.len(),
                k == key@,
                deleted <==> exists|j: int|
                    0 <= j < i && (#[trigger] before[j]).present().contains(k),
                forall|j: int| i <= j < before.len() ==> #[trigger] self.trees@[j] == before[j],
                forall|j: int|
                    0 <= j < i ==> without_key(
                        before[j].present(),
                        (#[trigger] self.trees@[j]).present(),
                        k,
                    ),
            decreases before.len() - i,
        {
            let ghost was = self.trees@;
            assert(was[i as int].inv());
            assert(was[i as int] == before[i as int]);
            let here = self.trees[i].mark_key_deleted(key);
            proof {
                assert forall|j: int| 0 <= j < self.trees@.len() implies (#[trigger] self.trees@[j]).inv() by {
                    if j != i {
                        assert(was[j].inv());
                        assert(self.trees@[j] == was[j]);
                    }
                }
                if here {
                    assert(before[i as int].present().contains(k));
                }
            }
            if here {
                deleted = true;
            }
            i += 1;
        }
        proof {
            lemma_removed(before, self.trees@, k);
        }
        deleted
    }

    /// How many keys are present in each level.
    pub fn level_sizes(&self) -> (sizes: Vec<usize>)
        requires
            self.inv(),
        ensures
            sizes@.len() == self.trees@.len(),
            forall|i: int|
                0 <= i < sizes@.len() ==> #[trigger] sizes@[i] == self.trees@[i].present().len(),
    {
        let mut sizes: Vec<usize> = Vec::new();
        let mut i: usize = 0;
        while i < self.trees.len()
            invariant
                self.inv(),
                i <= self.trees@.len(),
                sizes@.len() == i,
                forall|j: int|
                    0 <= j < i ==> #[trigger] sizes@[j] == self.trees@[j].present().len(),
            decreases self.trees@.len() - i,
        {
            assert(self.trees@[i as int].inv());
            sizes.push(self.trees[i].count());
            i += 1;
        }
        sizes
    }

    /// The number of present keys in all levels; a key that is present in two counts twice.
    pub fn count(&self) -> (n: usize)
        requires
            self.inv(),
            self.total() <= usize::MAX,
        ensures
            n == self.total(),
    {
        let mut n: usize = 0;
        let mut i: usize = 0;
        while i < self.trees.len()
            invariant
                self.inv(),
                self.total() <= usize::MAX,
                i <= self.trees@.len(),
                n == total_len(self.trees@, i as nat),
            decreases self.trees@.len() - i,
        {
            proof {
                assert(self.trees@[i as int].inv());
                lemma_total_grows(self.trees@, (i + 1) as nat, self.trees@.len());
            }
            n = n + self.trees[i].count();
            i += 1;
        }
        n
    }

    /// The number of present keys in all levels.
    pub fn len(&self) -> (n: usize)
        requires
            self.inv(),
            self.total() <= usize::MAX,
        ensures
            n == self.total(),
    {
        self.count()
    }
}

/// A key that came into the first level is in the levels, as all that were.
proof fn lemma_inserted(before: Seq<BPlusTree>, after: Seq<BPlusTree>, key: Seq<u8>)
    requires
        before.len() > 0,
        after.len() == before.len(),
        with_key(before[0].present(), after[0].present(), key),
        forall|i: int| 0 < i < after.len() ==> #[trigger] after[i] == before[i],
    ensures
        forall|k: Seq<u8>| #[trigger] in_levels(after, k) <==> k == key || in_levels(before, k),
{
    assert forall|k: Seq<u8>| #[trigger] in_levels(after, k) <==> k == key || in_levels(before, k) by {
        lemma_with_key_contains(before[0].present(), after[0].present(), key, k);
        if in_levels(after, k) {
            let i = choose|i: int| 0 <= i < after.len() && (#[trigger] after[i]).present().contains(k);
            assert(before[i].present().contains(k) || k == key);
        }
        if in_levels(before, k) {
            let i = choose|i: int| 0 <= i < before.len() && (#[trigger] before[i]).present().contains(k);
            assert(after[i].present().contains(k));
        }
        if k == key {
            assert(after[0].present().contains(k));
        }
    }
}

/// A key that was taken out of all levels is in none, and all others are where they were.
proof fn lemma_removed(before: Seq<BPlusTree>, after: Seq<BPlusTree>, key: Seq<u8>)
    requires
        levels_ok(before),
        after.len() == before.len(),
        forall|i: int|
            0 <= i < after.len() ==> without_key(
                before[i].present(),
                (#[trigger] after[i]).present(),
                key,
            ),
    ensures
        forall|k: Seq<u8>| #[trigger] in_levels(after, k) <==> k != key && in_levels(before, k),
{
    assert forall|k: Seq<u8>| #[trigger] in_levels(after, k) <==> k != key && in_levels(before, k) by {
        if in_levels(after, k) {
            let i = choose|i: int| 0 <= i < after.len() && (#[trigger] after[i]).present().contains(k);
            assert(before[i].inv());
            lemma_present_ascends(&before[i]);
            lemma_without_key_contains(before[i].present(), after[i].present(), key, k);
            assert(before[i].present().contains(k));
        }
        if k != key && in_levels(before, k) {
            let i = choose|i: int| 0 <= i < before.len() && (#[trigger] before[i]).present().contains(k);
            assert(before[i].inv());
            lemma_present_ascends(&before[i]);
            lemma_without_key_contains(before[i].present(), after[i].present(), key, k);
            assert(after[i].present().contains(k));
        }
    }
}

proof fn lemma_total_grows(trees: Seq<BPlusTree>, i: nat, j: nat)
    requires
        i <= j <= trees.len(),
    ensures
        0 <= total_len(trees, i) <= total_len(trees, j),
    decreases j,
{
    if i < j {
        lemma_total_grows(trees, i, (j - 1) as nat);
    } else if i > 0 {
        lemma_total_grows(trees, (i - 1) as nat, (i - 1) as nat);
    }
}

/// The first pages of `src` went to `dest`: their present keys are present there, and their deleted
/// keys are forgotten.
pub open spec fn level_moved(
    src: BPlusTree,
    dest: BPlusTree,
    src_after: BPlusTree,
    dest_after: BPlusTree,
) -> bool {
    let pages = merge_pages(&src);
    let moved = moved_keys(&src);
    &&& src.keys() == moved + src_after.keys()
    &&& src_after.leaves() == src.leaves().skip(pages)
    &&& src_after.deleted@ == src.deleted@.difference(moved.to_set())
    &&& src_after.present() == live(src_after.keys(), src.deleted@)
    &&& src_after.page_size == src.page_size
    &&& src_after.head_page_id == src.head_page_id
    &&& src_after.changed@ == (src.changed@ + dropped_ids(src.nodes@, src.leaves(), pages)).push(
        ChangingNode::Modified(src.leaves()[pages] as usize),
    )
    &&& dest_after.keys().to_set() == dest.keys().to_set().union(live(moved, src.deleted@).to_set())
    &&& dest_after.deleted@ == dest.deleted@.difference(live(moved, src.deleted@).to_set())
    &&& dest_after.present().to_set() == dest.present().to_set().union(
        live(moved, src.deleted@).to_set(),
    )
    &&& dest_after.page_size == dest.page_size
    &&& dest_after.head_page_id == dest.head_page_id
    &&& dest_after.changed == dest.changed
}

/// The level `i` gave pages to the next one if it held more keys than `max`.
pub open spec fn level_step(
    before: Seq<BPlusTree>,
    after: Seq<BPlusTree>,
    max: usize,
    i: int,
) -> bool {
    if before[i].len > max {
        &&& can_merge(&before[i])
        &&& after == before.update(i, after[i]).update(i + 1, after[i + 1])
        &&& level_moved(before[i], before[i + 1], after[i], after[i + 1])
    } else {
        after == before
    }
}

/// The levels before and after each of the first `n` steps.
pub open spec fn level_steps(states: Seq<Seq<BPlusTree>>, sizes: Seq<usize>, n: int) -> bool {
    &&& states.len() == n + 1
    &&& forall|i: int|
        0 <= i < n ==> level_step(#[trigger] states[i], states[i + 1], sizes[i], i)
}

/// The first `n` steps lead from some levels to others.
pub open spec fn steps_lead(
    first: Seq<BPlusTree>,
    last: Seq<BPlusTree>,
    sizes: Seq<usize>,
    n: int,
) -> bool {
    exists|states: Seq<Seq<BPlusTree>>| #[trigger]
        level_steps(states, sizes, n) && states[0] == first && states[n] == last
}

/// A step moves keys between levels, but no key is lost or added.
pub proof fn lemma_step_keeps_keys(
    before: Seq<BPlusTree>,
    after: Seq<BPlusTree>,
    max: usize,
    i: int,
    key: Seq<u8>,
)
    requires
        0 <= i < before.len() - 1,
        level_step(before, after, max, i),
    ensures
        after.len() == before.len(),
        in_levels(before, key) <==> in_levels(after, key),
{
    if before[i].len > max {
        let (a, b) = (before[i], before[i + 1]);
        let (c, d) = (after[i], after[i + 1]);
        lemma_merge_keeps_present(&a, &b, &c, &d);
        let old_set = a.present().to_set().union(b.present().to_set());
        let new_set = c.present().to_set().union(d.present().to_set());
        assert(old_set.contains(key) == new_set.contains(key));
        if in_levels(before, key) {
            let j = choose|j: int| 0 <= j < before.len() && (#[trigger] before[j]).present().contains(key);
            if j == i || j == i + 1 {
                assert(old_set.contains(key));
                assert(c.present().contains(key) || d.present().contains(key));
            } else {
                assert(after[j] == before[j]);
            }
        }
        if in_levels(after, key) {
            let j = choose|j: int| 0 <= j < after.len() && (#[trigger] after[j]).present().contains(key);
            if j == i || j == i + 1 {
                assert(new_set.contains(key));
                assert(a.present().contains(key) || b.present().contains(key));
            } else {
                assert(after[j] == before[j]);
            }
        }
    }
}

/// Two levels that change by no more than they held before leave the sum as it was, or smaller.
proof fn lemma_total_step(before: Seq<BPlusTree>, after: Seq<BPlusTree>, i: int, n: nat)
    requires
        0 <= i < before.len() - 1,
        after == before.update(i, after[i]).update(i + 1, after[i + 1]),
        after[i].len + after[i + 1].len <= before[i].len + before[i + 1].len,
        n <= before.len(),
    ensures
        n <= i ==> total_len(after, n) == total_len(before, n),
        n == i + 1 ==> total_len(after, n) == total_len(before, n) - before[i].len + after[i].len,
        n > i + 1 ==> total_len(after, n) <= total_len(before, n),
    decreases n,
{
    if n > 0 {
        lemma_total_step(before, after, i, (n - 1) as nat);
        if n - 1 != i && n - 1 != i + 1 {
            assert(after[n - 1] == before[n - 1]);
        }
    }
}

proof fn lemma_two_in_total(trees: Seq<BPlusTree>, i: int)
    requires
        0 <= i < trees.len() - 1,
    ensures
        trees[i].len + trees[i + 1].len <= total_len(trees, trees.len()),
{
    lemma_total_grows(trees, i as nat, i as nat);
    lemma_total_grows(trees, (i + 2) as nat, trees.len());
    assert(total_len(trees, (i + 2) as nat) == total_len(trees, (i + 1) as nat) + trees[i + 1].len);
    assert(total_len(trees, (i + 1) as nat) == total_len(trees, i as nat) + trees[i].len);
}

impl LSMTree {
    /// Lets each level that holds too many keys give pages to the next one, from the first level
    /// on. Stops with the number of a level that holds too many keys but cannot give pages away.
    pub fn check_and_merge(&mut self) -> (r: Result<(), usize>)
        requires
            old(self).inv(),
            old(self).total() < usize::MAX,
        ensures
            final(self).inv(),
            final(self).max_sizes == old(self).max_sizes,
            final(self).trees@.len() == old(self).trees@.len(),
            final(self).total() <= old(self).total(),
            match r {
                Ok(_) => steps_lead(
                    old(self).trees@,
                    final(self).trees@,
                    old(self).max_sizes@,
                    final(self).trees@.len() - 1,
                ),
                Err(k) => steps_lead(
                    old(self).trees@,
                    final(self).trees@,
                    old(self).max_sizes@,
                    k as int,
                ),
            },
            r matches Err(k) ==> {
                &&& k < final(self).trees@.len() - 1
                &&& final(self).trees@[k as int].len > final(self).max_sizes@[k as int]
                &&& !can_merge(&final(self).trees@[k as int])
            },
            forall|key: Seq<u8>| #[trigger]
                in_levels(final(self).trees@, key) <==> in_levels(old(self).trees@, key),
    {
        let ghost first = self.trees@;
        let ghost mut states = seq![first];
        let n: usize = self.trees.len();
        let mut i: usize = 0;
        while i < n - 1
            invariant
                self.inv(),
                n == self.trees@.len(),
                n >= 1,
                i <= n - 1,
                self.max_sizes == old(self).max_sizes,
                first == old(self).trees@,
                n == first.len(),
                self.total() <= old(self).total(),
                old(self).total() < usize::MAX,
                level_steps(states, self.max_sizes@, i as int),
                states[0] == first,
                states[i as int] == self.trees@,
                forall|key: Seq<u8>| #[trigger]
                    in_levels(self.trees@, key) <==> in_levels(first, key),
            decreases n - i,
        {
            let ghost before = self.trees@;
            let ghost had = states;
            assert(before[i as int].inv() && before[i + 1].inv());
            if self.trees[i].count() > self.max_sizes[i] {
                if !is_mergeable(&self.trees[i]) {
                    assert(steps_lead(first, self.trees@, old(self).max_sizes@, i as int));
                    return Err(i);
                }
                proof {
                    lemma_two_in_total(before, i as int);
                }
                let mut upper = self.trees.remove(i + 1);
                level_merge(&mut self.trees[i], &mut upper);
                self.trees.insert(i + 1, upper);
                proof {
                    let after = self.trees@;
                    assert(after =~= before.update(i as int, after[i as int]).update(
                        i + 1,
                        after[i + 1],
                    ));
                    lemma_total_step(before, after, i as int, before.len());
                    assert forall|j: int| 0 <= j < after.len() implies (#[trigger] after[j]).inv() by {
                        if j != i && j != i + 1 {
                            assert(before[j].inv());
                            assert(after[j] == before[j]);
                        }
                    }
                }
            }
            proof {
                let after = self.trees@;
                assert(level_step(before, after, self.max_sizes@[i as int], i as int));
                states = states.push(after);
                assert forall|j: int| 0 <= j < i + 1 implies level_step(
                    #[trigger] states[j],
                    states[j + 1],
                    self.max_sizes@[j],
                    j,
                ) by {
                    if j < i {
                        assert(level_step(had[j], had[j + 1], self.max_sizes@[j], j));
                        assert(states[j] == had[j] && states[j + 1] == had[j + 1]);
                    }
                }
                assert forall|key: Seq<u8>| #[trigger] in_levels(after, key) <==> in_levels(first, key) by {
                    lemma_step_keeps_keys(before, after, self.max_sizes@[i as int], i as int, key);
                    assert(in_levels(before, key) <==> in_levels(first, key));
                }
            }
            i += 1;
        }
        assert(steps_lead(first, self.trees@, old(self).max_sizes@, n - 1));
        Ok(())
    }

    /// How many keys the last level holds before it is full.
    pub fn last_level_size(&self) -> (n: usize)
        requires
            self.inv(),
        ensures
            n == self.max_sizes@.last(),
    {
        self.max_sizes[self.max_sizes.len() - 1]
    }

    /// Whether the last level holds more keys than it should.
    pub fn is_full(&self) -> (r: bool)
        requires
            self.inv(),
        ensures
            r == (self.trees@.last().present().len() > self.max_sizes@.last()),
    {
        let last: usize = self.trees.len() - 1;
        assert(self.trees@[last as int].inv());
        self.trees[last].count() > self.max_sizes[last]
    }

    /// Makes every key of a run present in the last level.
    pub fn merge(&mut self, keys: &Vec<EntryKey>)
        requires
            old(self).inv(),
            old(self).trees@.last().len + keys@.len() < usize::MAX,
        ensures
            final(self).inv(),
            final(self).max_sizes == old(self).max_sizes,
            final(self).trees@ == old(self).trees@.update(
                old(self).trees@.len() - 1,
                final(self).trees@.last(),
            ),
            final(self).trees@.last().present().to_set() == old(
                self,
            ).trees@.last().present().to_set().union(key_views(keys@).to_set()),
    {
        let ghost before = self.trees@;
        let last: usize = self.trees.len() - 1;
        assert(before[last as int].inv());
        self.trees[last].merge_with_keys(keys);
        proof {
            assert forall|j: int| 0 <= j < self.trees@.len() implies (#[trigger] self.trees@[j]).inv() by {
                if j != last {
                    assert(before[j].inv());
                }
            }
            assert(self.trees@ =~= before.update(before.len() - 1, self.trees@.last()));
        }
    }
}

/// The number of keys in the levels is the sum of the levels' numbers.
pub proof fn lemma_total_is_sum(trees: Seq<BPlusTree>, n: nat)
    requires
        n < trees.len(),
    ensures
        total_len(trees, 0) == 0,
        total_len(trees, n + 1) - total_len(trees, n) == trees[n as int].len,
{
}

/// A level gives pages to the next one just if it holds more keys than its limit. It then gives away
/// its first ten pages and keeps the others, and no other level changes.
pub proof fn lemma_step_by_limit(
    before: Seq<BPlusTree>,
    after: Seq<BPlusTree>,
    max: usize,
    i: int,
    j: int,
)
    requires
        0 <= i < before.len() - 1,
        0 <= j < before.len(),
        level_step(before, after, max, i),
    ensures
        after.len() == before.len(),
        before[i].len <= max ==> after == before,
        before[i].len > max ==> {
            &&& before[i].leaves().len() > 10
            &&& after[i].leaves() == before[i].leaves().skip(10)
            &&& before[i].keys() == moved_keys(&before[i]) + after[i].keys()
            &&& dest_gained(before[i], before[i + 1], after[i + 1])
        },
        j != i && j != i + 1 ==> after[j] == before[j],
{
}

/// The present keys of the first ten pages of a level came to the next one, and none else.
pub open spec fn dest_gained(src: BPlusTree, dest: BPlusTree, dest_after: BPlusTree) -> bool {
    dest_after.present().to_set() == dest.present().to_set().union(
        live(flat(src.nodes@, src.leaves().take(10)), src.deleted@).to_set(),
    )
}

/// Where no level but the last holds more keys than its own limit, nothing changes.
pub proof fn lemma_steps_by_own_limits(
    first: Seq<BPlusTree>,
    last: Seq<BPlusTree>,
    sizes: Seq<usize>,
    n: int,
)
    requires
        0 <= n < first.len(),
        steps_lead(first, last, sizes, n),
        forall|i: int| 0 <= i < n ==> (#[trigger] first[i]).len <= sizes[i],
    ensures
        last == first,
{
    let states = choose|states: Seq<Seq<BPlusTree>>| #[trigger]
        level_steps(states, sizes, n) && states[0] == first && states[n] == last;
    lemma_states_stay(states, first, sizes, n, n);
}

proof fn lemma_states_stay(
    states: Seq<Seq<BPlusTree>>,
    first: Seq<BPlusTree>,
    sizes: Seq<usize>,
    n: int,
    k: int,
)
    requires
        0 <= k <= n < first.len(),
        level_steps(states, sizes, n),
        states[0] == first,
        forall|i: int| 0 <= i < n ==> (#[trigger] first[i]).len <= sizes[i],
    ensures
        states[k] == first,
    decreases k,
{
    if k > 0 {
        lemma_states_stay(states, first, sizes, n, k - 1);
        assert(level_step(states[k - 1], states[k - 1 + 1], sizes[k - 1], k - 1));
        assert(first[k - 1].len <= sizes[k - 1]);
    }
}

/// The first level gives pages away just if it holds more keys than its limit, whatever the other
/// levels do.
pub proof fn lemma_first_level_by_limit(
    first: Seq<BPlusTree>,
    last: Seq<BPlusTree>,
    sizes: Seq<usize>,
    n: int,
)
    requires
        0 < n < first.len(),
        steps_lead(first, last, sizes, n),
    ensures
        last.len() == first.len(),
        first[0].len <= sizes[0] ==> last[0] == first[0],
        first[0].len > sizes[0] ==> last[0].leaves() == first[0].leaves().skip(10),
{
    let states = choose|states: Seq<Seq<BPlusTree>>| #[trigger]
        level_steps(states, sizes, n) && states[0] == first && states[n] == last;
    assert(level_step(states[0], states[1], sizes[0], 0));
    lemma_step_by_limit(states[0], states[1], sizes[0], 0, 0);
    lemma_first_level_stays(states, sizes, n, n);
}

proof fn lemma_first_level_stays(
    states: Seq<Seq<BPlusTree>>,
    sizes: Seq<usize>,
    n: int,
    k: int,
)
    requires
        1 <= k <= n < states[1].len(),
        level_steps(states, sizes, n),
    ensures
        states[k].len() == states[1].len(),
        states[k][0] == states[1][0],
    decreases k,
{
    if k > 1 {
        lemma_first_level_stays(states, sizes, n, k - 1);
        assert(level_step(states[k - 1], states[k - 1 + 1], sizes[k - 1], k - 1));
        lemma_step_by_limit(states[k - 1], states[k], sizes[k - 1], k - 1, 0);
    }
}

} // verus!
