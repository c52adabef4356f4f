//! Cursors over all levels of a tree.
use super::tree::{edge_bytes, edge_key, in_levels, lemma_ids_between_edges, LSMTree};
use crate::index::btree::cursor::{RTCursor, ScanOrder};
use crate::index::btree::external::byte_views;
use crate::index::btree::ops::{lemma_live_ascends, lemma_live_contains, lemma_place_after};
use crate::index::btree::search::{
    lemma_backward_place, lemma_forward_search, lemma_tree_keys_ascend, search_result,
};
use crate::index::btree::tree::live;
use crate::index::key::{
    ascending, group_key_order, is_lower_bound, key_le, key_lt, not_descending, EntryKey,
};
use crate::index::merging::{
    gathered, has_more, head, is_least, keys_out, lemma_least_exists, lemma_merge_ok,
    lemma_merged_all, lemma_merged_gathers,
    lemma_merged_ascends, lemma_next_key, lemma_read_came_out, lemma_step, lemma_steps_count,
    lemma_steps_from_runs, merge_steps, merged, runs_ascend, total,
};
use vstd::prelude::*;

verus! {

/// One cursor in each level. The least of their current keys is the current key.
pub struct LSMTreeCursor {
    pub level_cursors: Vec<RTCursor>,
}

/// The directions in which a cursor walks through the levels.
pub open spec fn directions(c: &LSMTreeCursor) -> Seq<ScanOrder> {
    Seq::new(c.level_cursors@.len(), |i: int| c.level_cursors@[i].ordering)
}

/// No run was read yet.
pub open spec fn starts(n: nat) -> Seq<int> {
    Seq::new(n, |i: int| 0int)
}

/// What is left of the runs.
pub open spec fn rest(runs: Seq<Seq<Seq<u8>>>, next: Seq<int>) -> Seq<Seq<Seq<u8>>> {
    Seq::new(runs.len(), |i: int| runs[i].skip(next[i]))
}

/// The level whose current key is the least of all, the first of those.
pub open spec fn least_level(runs: Seq<Seq<Seq<u8>>>, p: int) -> bool {
    is_least(runs, starts(runs.len()), p)
}

/// A level has a current key.
pub open spec fn some_left(runs: Seq<Seq<Seq<u8>>>) -> bool {
    exists|p: int| 0 <= p < runs.len() && (#[trigger] runs[p]).len() > 0
}

pub proof fn lemma_some_left(runs: Seq<Seq<Seq<u8>>>)
    ensures
        some_left(runs) <==> exists|p: int| least_level(runs, p),
{
    let next = starts(runs.len());
    if some_left(runs) {
        let p = choose|p: int| 0 <= p < runs.len() && (#[trigger] runs[p]).len() > 0;
        assert(p < runs.len() && has_more(runs, next, p));
        let q = lemma_least_exists(runs, next, runs.len() as int);
        assert(least_level(runs, q));
    }
    if exists|p: int| least_level(runs, p) {
        let p = choose|p: int| least_level(runs, p);
        assert(has_more(runs, next, p));
        assert(runs[p].len() > 0);
    }
}

impl LSMTreeCursor {
    pub open spec fn wf(&self, tree: &LSMTree) -> bool {
        &&& self.level_cursors@.len() == tree.trees@.len()
        &&& forall|i: int|
            0 <= i < self.level_cursors@.len() ==> (#[trigger] self.level_cursors@[i]).wf(
                &tree.trees@[i],
            )
    }

    /// The keys that each level has yet to show.
    pub open spec fn aheads(&self, tree: &LSMTree) -> Seq<Seq<Seq<u8>>> {
        Seq::new(
            self.level_cursors@.len(),
            |i: int| self.level_cursors@[i].ahead(&tree.trees@[i]),
        )
    }

    pub fn new(cursors: Vec<RTCursor>) -> (c: LSMTreeCursor)
        ensures
            c.level_cursors == cursors,
    {
        LSMTreeCursor { level_cursors: cursors }
    }

    /// The level with the least current key.
    fn min_level(&self, tree: &LSMTree) -> (r: Option<usize>)
        requires
            tree.inv(),
            self.wf(tree),
        ensures
            match r {
                Some(p) => least_level(self.aheads(tree), p as int) && p < self.level_cursors@.len(),
                None => !some_left(self.aheads(tree)),
            },
    {
        let ghost runs = self.aheads(tree);
        let ghost next = starts(runs.len());
        let mut best: Option<usize> = None;
        let mut i: usize = 0;
        while i < self.level_cursors.len()
            invariant
                tree.inv(),
                self.wf(tree),
                i <= self.level_cursors@.len(),
                runs == self.aheads(tree),
                next == starts(runs.len()),
                match best {
                    Some(p) => {
                        &&& p < i
                        &&& has_more(runs, next, p as int)
                        &&& forall|q: int| #[trigger]
                            has_more(runs, next, q) && q < i ==> if q < p {
                                key_lt(head(runs, next, p as int), head(runs, next, q))
                            } else {
                                key_le(head(runs, next, p as int), head(runs, next, q))
                            }
                    },
                    None => forall|q: int| q < i ==> !#[trigger] has_more(runs, next, q),
                },
            decreases self.level_cursors@.len() - i,
        {
            broadcast use group_key_order;

            assert(tree.trees@[i as int].inv());
            assert(self.level_cursors@[i as int].wf(&tree.trees@[i as int]));
            assert(runs[i as int] == self.level_cursors@[i as int].ahead(&tree.trees@[i as int]));
            match self.level_cursors[i].current(&tree.trees[i]) {
                Some(key) => {
                    assert(head(runs, next, i as int) == key@);
                    match best {
                        Some(p) => {
                            assert(tree.trees@[p as int].inv());
                            assert(self.level_cursors@[p as int].wf(&tree.trees@[p as int]));
                            assert(runs[p as int] == self.level_cursors@[p as int].ahead(
                                &tree.trees@[p as int],
                            ));
                            match self.level_cursors[p].current(&tree.trees[p]) {
                                Some(least) => {
                                    assert(head(runs, next, p as int) == least@);
                                    if key.before(least) {
                                        proof {
                                            let a = key@;
                                            let b = least@;
                                            assert forall|q: int| #[trigger]
                                                has_more(runs, next, q) && q < i + 1 implies if q < i {
                                                key_lt(a, head(runs, next, q))
                                            } else {
                                                key_le(a, head(runs, next, q))
                                            } by {
                                                if q < i {
                                                    assert(key_lt(b, head(runs, next, q)) || b
                                                        == head(runs, next, q));
                                                }
                                            }
                                        }
                                        best = Some(i);
                                    }
                                },
                                None => {},
                            }
                        },
                        None => {
                            best = Some(i);
                        },
                    }
                },
                None => {},
            }
            i += 1;
        }
        proof {
            if best is None && some_left(runs) {
                let p = choose|p: int| 0 <= p < runs.len() && (#[trigger] runs[p]).len() > 0;
                assert(has_more(runs, next, p));
            }
        }
        best
    }

    /// Moves on in the level with the least current key; tells whether a level has a key left.
    pub fn next(&mut self, tree: &LSMTree) -> (r: bool)
        requires
            tree.inv(),
            old(self).wf(tree),
        ensures
            final(self).wf(tree),
            directions(final(self)) == directions(old(self)),
            r == some_left(final(self).aheads(tree)),
            !some_left(old(self).aheads(tree)) ==> final(self).aheads(tree) == old(self).aheads(tree),
            forall|p: int| #[trigger]
                least_level(old(self).aheads(tree), p) ==> final(self).aheads(tree) == old(self).aheads(
                    tree,
                ).update(p, old(self).aheads(tree)[p].drop_first()),
    {
        let ghost runs = self.aheads(tree);
        proof {
            lemma_some_left(runs);
        }
        match self.min_level(tree) {
            Some(id) => {
                let ghost before = self.level_cursors@;
                assert(tree.trees@[id as int].inv());
                assert(before[id as int].wf(&tree.trees@[id as int]));
                assert(runs[id as int] == before[id as int].ahead(&tree.trees@[id as int]));
                assert(has_more(runs, starts(runs.len()), id as int));
                let min_has_next = self.level_cursors[id].next(&tree.trees[id]);
                proof {
                    let after = self.aheads(tree);
                    assert(after =~= runs.update(id as int, runs[id as int].drop_first()));
                    assert forall|i: int| 0 <= i < self.level_cursors@.len() implies (
                    #[trigger] self.level_cursors@[i]).wf(&tree.trees@[i]) by {
                        if i != id {
                            assert(before[i].wf(&tree.trees@[i]));
                        }
                    }
                    assert forall|p: int| #[trigger] least_level(runs, p) implies p == id by {
                        crate::index::merging::lemma_least_unique(
                            runs,
                            starts(runs.len()),
                            p,
                            id as int,
                        );
                    }
                    if min_has_next {
                        assert(after[id as int].len() > 0);
                    }
                    assert(directions(self) =~= directions(old(self)));
                }
                if min_has_next {
                    return true;
                }
                self.any_left(tree)
            },
            None => false,
        }
    }

    /// Whether a level has a current key.
    fn any_left(&self, tree: &LSMTree) -> (r: bool)
        requires
            tree.inv(),
            self.wf(tree),
        ensures
            r == some_left(self.aheads(tree)),
    {
        let ghost runs = self.aheads(tree);
        let mut i: usize = 0;
        while i < self.level_cursors.len()
            invariant
                tree.inv(),
                self.wf(tree),
                runs == self.aheads(tree),
                i <= self.level_cursors@.len(),
                forall|p: int| 0 <= p < i ==> (#[trigger] runs[p]).len() == 0,
            decreases self.level_cursors@.len() - i,
        {
            assert(tree.trees@[i as int].inv());
            assert(self.level_cursors@[i as int].wf(&tree.trees@[i as int]));
            assert(runs[i as int] == self.level_cursors@[i as int].ahead(&tree.trees@[i as int]));
            if self.level_cursors[i].current(&tree.trees[i]).is_some() {
                return true;
            }
            i += 1;
        }
        false
    }

    /// The current key, if a level has one.
    pub fn current(&self, tree: &LSMTree) -> (r: Option<&EntryKey>)
        requires
            tree.inv(),
            self.wf(tree),
        ensures
            r is Some <==> some_left(self.aheads(tree)),
            r matches Some(k) ==> forall|p: int| #[trigger]
                least_level(self.aheads(tree), p) ==> k@ == self.aheads(tree)[p][0],
    {
        let ghost runs = self.aheads(tree);
        proof {
            lemma_some_left(runs);
        }
        match self.min_level(tree) {
            Some(id) => {
                proof {
                    assert(tree.trees@[id as int].inv());
                    assert(self.level_cursors@[id as int].wf(&tree.trees@[id as int]));
                    assert(runs[id as int] == self.level_cursors@[id as int].ahead(
                        &tree.trees@[id as int],
                    ));
                    assert(has_more(runs, starts(runs.len()), id as int));
                    assert forall|p: int| #[trigger] least_level(runs, p) implies p == id by {
                        crate::index::merging::lemma_least_unique(
                            runs,
                            starts(runs.len()),
                            p,
                            id as int,
                        );
                    }
                }
                self.level_cursors[id].current(&tree.trees[id])
            },
            None => None,
        }
    }
}

/// What is left of runs is what a merge takes next from.
proof fn lemma_rest_least(runs: Seq<Seq<Seq<u8>>>, next: Seq<int>, p: int)
    requires
        next.len() == runs.len(),
        forall|i: int| 0 <= i < runs.len() ==> 0 <= #[trigger] next[i] <= runs[i].len(),
    ensures
        least_level(rest(runs, next), p) <==> is_least(runs, next, p),
        has_more(rest(runs, next), starts(runs.len()), p) <==> has_more(runs, next, p),
        has_more(runs, next, p) ==> rest(runs, next)[p][0] == head(runs, next, p),
{
    let left = rest(runs, next);
    let zero = starts(runs.len());
    assert(left.len() == runs.len());
    assert forall|q: int| has_more(left, zero, q) <==> has_more(runs, next, q) by {
        if 0 <= q < runs.len() {
            assert(next[q] <= runs[q].len());
        }
    }
    assert forall|q: int| has_more(runs, next, q) implies head(left, zero, q) == head(runs, next, q) by {
        assert(next[q] <= runs[q].len());
    }
    if least_level(left, p) {
        assert(has_more(runs, next, p));
        assert forall|q: int| #[trigger] has_more(runs, next, q) implies if q < p {
            key_lt(head(runs, next, p), head(runs, next, q))
        } else {
            key_le(head(runs, next, p), head(runs, next, q))
        } by {
            assert(has_more(left, zero, q));
        }
    }
    if is_least(runs, next, p) {
        assert(has_more(left, zero, p));
        assert forall|q: int| #[trigger] has_more(left, zero, q) implies if q < p {
            key_lt(head(left, zero, p), head(left, zero, q))
        } else {
            key_le(head(left, zero, p), head(left, zero, q))
        } by {
            assert(has_more(runs, next, q));
        }
    }
}

/// The first `n` keys of all runs together.
pub open spec fn shown(runs: Seq<Seq<Seq<u8>>>, n: int) -> Seq<Seq<u8>> {
    Seq::new(n as nat, |i: int| merged(runs)[i].0)
}

/// How many keys a block holds: at least one, if there is one.
pub open spec fn block_len(runs: Seq<Seq<Seq<u8>>>, block_size: int) -> int {
    let wanted = if block_size < 1 { 1 } else { block_size };
    if total(runs) < wanted {
        total(runs) as int
    } else {
        wanted
    }
}

/// At the start of a merge all of the runs is left.
pub proof fn lemma_start(runs: Seq<Seq<Seq<u8>>>)
    ensures
        rest(runs, merge_steps(runs, 0).next) == runs,
{
    let left = rest(runs, merge_steps(runs, 0).next);
    assert forall|i: int| 0 <= i < runs.len() implies left[i] == #[trigger] runs[i] by {
        assert(runs[i].skip(0) =~= runs[i]);
    }
    assert(left =~= runs);
}

/// A merge that took `n` keys: what comes next of what is left.
pub proof fn lemma_walk(runs: Seq<Seq<Seq<u8>>>, n: nat)
    requires
        merge_steps(runs, n).out.len() == n,
    ensures
        ({
            let left = rest(runs, merge_steps(runs, n).next);
            &&& n <= total(runs)
            &&& left.len() == runs.len()
            &&& some_left(left) <==> n < total(runs)
            &&& forall|p: int| #[trigger]
                least_level(left, p) ==> {
                    &&& left[p][0] == merged(runs)[n as int].0
                    &&& merge_steps(runs, n + 1).out.len() == n + 1
                    &&& left.update(p, left[p].drop_first()) == rest(
                        runs,
                        merge_steps(runs, n + 1).next,
                    )
                }
        }),
{
    let m = merge_steps(runs, n);
    let left = rest(runs, m.next);
    lemma_merge_ok(runs, n);
    lemma_next_key(runs, n);
    crate::index::merging::lemma_merged_all(runs);
    lemma_some_left(left);
    assert forall|p: int| #[trigger] least_level(left, p) implies {
        &&& n < total(runs)
        &&& left[p][0] == merged(runs)[n as int].0
        &&& merge_steps(runs, n + 1).out.len() == n + 1
        &&& left.update(p, left[p].drop_first()) == rest(runs, merge_steps(runs, n + 1).next)
    } by {
        lemma_rest_least(runs, m.next, p);
        lemma_step(runs, n, p);
        assert(has_more(runs, m.next, p));
        let after = merge_steps(runs, n + 1);
        assert(left[p].drop_first() =~= runs[p].skip(m.next[p] + 1));
        assert(left.update(p, left[p].drop_first()) =~= rest(runs, after.next));
    }
    if !some_left(left) {
        assert forall|p: int| !has_more(runs, m.next, p) by {
            lemma_rest_least(runs, m.next, p);
            if has_more(runs, m.next, p) {
                assert(left[p].len() > 0);
            }
        }
    }
}

impl LSMTreeCursor {
    /// The keys from the current one on, up to `block_size` of them but at least one if there is
    /// one. The cursor moves behind them.
    pub fn read_block(&mut self, tree: &LSMTree, block_size: usize) -> (keys: Vec<Vec<u8>>)
        requires
            tree.inv(),
            old(self).wf(tree),
        ensures
            final(self).wf(tree),
            directions(final(self)) == directions(old(self)),
            ({
                let runs = old(self).aheads(tree);
                let n = block_len(runs, block_size as int);
                &&& byte_views(keys@) == shown(runs, n)
                &&& final(self).aheads(tree) == rest(runs, merge_steps(runs, n as nat).next)
            }),
    {
        let ghost runs = self.aheads(tree);
        let mut keys: Vec<Vec<u8>> = Vec::new();
        proof {
            lemma_walk(runs, 0);
            lemma_start(runs);
            lemma_some_left(runs);
            assert(byte_views(keys@) =~= shown(runs, 0));
        }
        let first = match self.current(tree) {
            Some(key) => key.to_vec(),
            None => {
                return keys;
            },
        };
        let ghost mut n: nat = 0;
        keys.push(first);
        proof {
            assert(byte_views(keys@) =~= shown(runs, 1));
        }
        loop
            invariant_except_break
                self.aheads(tree) == rest(runs, merge_steps(runs, n).next),
            invariant
                tree.inv(),
                self.wf(tree),
                directions(self) == directions(old(self)),
                merge_steps(runs, n).out.len() == n,
                n < total(runs),
                keys@.len() == n + 1,
                byte_views(keys@) == shown(runs, n as int + 1),
                n == 0 || n < block_size,
            ensures
                self.wf(tree),
                directions(self) == directions(old(self)),
                byte_views(keys@) == shown(runs, block_len(runs, block_size as int)),
                self.aheads(tree) == rest(
                    runs,
                    merge_steps(runs, block_len(runs, block_size as int) as nat).next,
                ),
            decreases total(runs) - n,
        {
            let ghost left = self.aheads(tree);
            proof {
                lemma_walk(runs, n);
                lemma_some_left(left);
                let p = choose|p: int| least_level(left, p);
                assert(least_level(left, p));
            }
            let more = self.next(tree);
            proof {
                lemma_walk(runs, n + 1);
                lemma_some_left(self.aheads(tree));
            }
            if !more || keys.len() >= block_size {
                break;
            }
            proof {
                n = n + 1;
            }
            match self.current(tree) {
                Some(key) => {
                    let ghost before = keys@;
                    let bytes = key.to_vec();
                    let ghost b = bytes@;
                    keys.push(bytes);
                    proof {
                        let now = self.aheads(tree);
                        let p = choose|p: int| least_level(now, p);
                        assert(least_level(now, p));
                        assert(byte_views(keys@) =~= byte_views(before).push(b));
                        assert(byte_views(keys@) =~= shown(runs, n as int + 1));
                    }
                },
                None => {
                    assert(false);
                },
            }
        }
        keys
    }
}

impl LSMTree {
    /// A cursor in each level, at the place of a key with the least or the greatest id.
    pub fn seek(&self, key: &EntryKey, ordering: ScanOrder) -> (c: LSMTreeCursor)
        requires
            self.inv(),
        ensures
            c.wf(self),
            sought(self, key@ + edge_bytes(ordering), ordering, c),
    {
        let full = edge_key(key, ordering);
        self.seek_key(&full, ordering)
    }

    /// A cursor in each level, at the place of a key.
    pub fn seek_key(&self, key: &EntryKey, ordering: ScanOrder) -> (c: LSMTreeCursor)
        requires
            self.inv(),
        ensures
            c.wf(self),
            sought(self, key@, ordering, c),
    {
        let mut cursors: Vec<RTCursor> = Vec::new();
        let mut i: usize = 0;
        while i < self.trees.len()
            invariant
                self.inv(),
                i <= self.trees@.len(),
                cursors@.len() == i,
                forall|j: int|
                    0 <= j < i ==> {
                        &&& (#[trigger] cursors@[j]).wf(&self.trees@[j])
                        &&& cursors@[j].ordering == ordering
                        &&& search_result(&self.trees@[j], key@, ordering, cursors@[j])
                    },
            decreases self.trees@.len() - i,
        {
            assert(self.trees@[i as int].inv());
            let c = self.trees[i].seek_for(key, ordering);
            cursors.push(c);
            i += 1;
        }
        LSMTreeCursor::new(cursors)
    }
}

/// The cursor stands in each level at the place of the key.
pub open spec fn sought(tree: &LSMTree, key: Seq<u8>, ordering: ScanOrder, c: LSMTreeCursor) -> bool {
    &&& c.level_cursors@.len() == tree.trees@.len()
    &&& forall|i: int|
        0 <= i < c.level_cursors@.len() ==> {
            &&& (#[trigger] c.level_cursors@[i]).ordering == ordering
            &&& search_result(&tree.trees@[i], key, ordering, c.level_cursors@[i])
        }
}

/// A forward search shows the keys of all levels in order, and in each level exactly the present
/// keys from the sought one on.
pub proof fn lemma_forward_seek(tree: &LSMTree, key: Seq<u8>, c: LSMTreeCursor, i: int, other: Seq<u8>)
    requires
        tree.inv(),
        sought(tree, key, ScanOrder::Forward, c),
        0 <= i < tree.trees@.len(),
    ensures
        runs_ascend(c.aheads(tree)),
        c.aheads(tree)[i].contains(other) <==> tree.trees@[i].present().contains(other) && key_le(
            key,
            other,
        ),
{
    broadcast use group_key_order;

    let runs = c.aheads(tree);
    assert forall|j: int| 0 <= j < runs.len() implies not_descending(#[trigger] runs[j]) by {
        let p = lemma_level_ahead(tree, key, c, j);
        let t = tree.trees@[j];
        lemma_tree_keys_ascend(&t);
        let tail = t.keys().skip(p);
        assert forall|a: int, b: int| 0 <= a < b < tail.len() implies key_lt(
            #[trigger] tail[a],
            #[trigger] tail[b],
        ) by {
            assert(key_lt(t.keys()[p + a], t.keys()[p + b]));
        }
        lemma_live_ascends(tail, t.deleted@);
    }
    let p = lemma_level_ahead(tree, key, c, i);
    let t = tree.trees@[i];
    lemma_tree_keys_ascend(&t);
    let keys = t.keys();
    let tail = keys.skip(p);
    assert forall|a: int, b: int| 0 <= a < b < tail.len() implies key_lt(
        #[trigger] tail[a],
        #[trigger] tail[b],
    ) by {
        assert(key_lt(keys[p + a], keys[p + b]));
    }
    lemma_live_contains(tail, t.deleted@, other);
    lemma_live_contains(keys, t.deleted@, other);
    if tail.contains(other) {
        let a = choose|a: int| 0 <= a < tail.len() && tail[a] == other;
        assert(keys[p + a] == other);
    }
    if keys.contains(other) && key_le(key, other) {
        let a = choose|a: int| 0 <= a < keys.len() && keys[a] == other;
        assert(a >= p);
        assert(tail[a - p] == other);
    }
}

/// A backward search shows in each level, from the greatest down, the present keys up to the sought
/// one, and at most one greater key before them, unless the level holds the sought one. The cursor
/// walks backward in each level.
pub proof fn lemma_backward_seek(tree: &LSMTree, key: Seq<u8>, c: LSMTreeCursor, i: int, other: Seq<u8>)
    requires
        tree.inv(),
        sought(tree, key, ScanOrder::Backward, c),
        0 <= i < tree.trees@.len(),
    ensures
        c.level_cursors@[i].ordering is Backward,
        ({
            let run = c.aheads(tree)[i];
            &&& forall|a: int, b: int| 0 <= a < b < run.len() ==> key_lt(#[trigger] run[b], #[trigger] run[a])
            &&& tree.trees@[i].present().contains(other) && key_le(other, key) ==> run.contains(other)
            &&& run.contains(other) ==> tree.trees@[i].present().contains(other)
            &&& forall|a: int| 0 < a < run.len() ==> key_le(#[trigger] run[a], key)
            &&& tree.trees@[i].present().contains(key) ==> run.len() > 0 && run[0] == key
        }),
{
    broadcast use group_key_order;

    let t = tree.trees@[i];
    assert(t.inv());
    assert(c.level_cursors@[i].ordering is Backward);
    lemma_tree_keys_ascend(&t);
    let keys = t.keys();
    let p = lemma_place_after(keys, key);
    let e = lemma_backward_place(&t, key, c.level_cursors@[i], p);
    let run = c.aheads(tree)[i];
    lemma_back_run(keys, t.deleted@, e);
    lemma_live_contains(keys, t.deleted@, other);
    lemma_live_contains(keys, t.deleted@, key);
    assert(run == live(keys.take(e).reverse(), t.deleted@));
    assert(run.contains(other) <==> exists|x: int| 0 <= x < e && keys[x] == other && !t.deleted@.contains(other));
    if t.present().contains(other) && key_le(other, key) {
        let x = choose|x: int| 0 <= x < keys.len() && keys[x] == other;
        assert(x < p) by {
            if x >= p {
                assert(key_lt(key, keys[x]));
            }
        }
        assert(keys[x] == other);
    }
    assert forall|a: int| 0 < a < run.len() implies key_le(#[trigger] run[a], key) by {
        assert(run.contains(run[a]));
        assert(run.contains(run[0]));
        lemma_back_member(keys, t.deleted@, e, run[a]);
        lemma_back_member(keys, t.deleted@, e, run[0]);
        let x = choose|x: int| 0 <= x < e && keys[x] == run[a];
        let y = choose|y: int| 0 <= y < e && keys[y] == run[0];
        assert(key_lt(run[a], run[0]));
        if x >= p {
            assert(x == p && e == p + 1);
            if y < x {
                assert(key_lt(keys[y], keys[x]));
            }
        }
    }
    if t.present().contains(key) {
        let x = choose|x: int| 0 <= x < keys.len() && keys[x] == key;
        assert(keys.contains(key));
        assert(e == p);
        assert(x < p) by {
            if x >= p {
                assert(key_lt(key, keys[x]));
            }
        }
        lemma_back_member(keys, t.deleted@, e, key);
        assert(run.contains(key));
        let a = choose|a: int| 0 <= a < run.len() && run[a] == key;
        if a > 0 {
            assert(key_lt(run[a], run[0]));
            assert(run.contains(run[0]));
            lemma_back_member(keys, t.deleted@, e, run[0]);
            let y = choose|y: int| 0 <= y < e && keys[y] == run[0];
            assert(key_le(keys[y], key));
        }
    }
}

/// Which keys a backward walk shows.
pub proof fn lemma_back_member(keys: Seq<Seq<u8>>, deleted: Set<Seq<u8>>, e: int, x: Seq<u8>)
    requires
        0 <= e <= keys.len(),
    ensures
        live(keys.take(e).reverse(), deleted).contains(x) <==> !deleted.contains(x) && exists|j: int|
            0 <= j < e && keys[j] == x,
{
    let back = keys.take(e).reverse();
    lemma_live_contains(back, deleted, x);
    if back.contains(x) {
        let a = choose|a: int| 0 <= a < back.len() && back[a] == x;
        assert(keys[e - 1 - a] == x);
    }
    if exists|j: int| 0 <= j < e && keys[j] == x {
        let j = choose|j: int| 0 <= j < e && keys[j] == x;
        assert(back[e - 1 - j] == x);
    }
}

/// A backward walk over keys that ascend descends.
pub proof fn lemma_back_run(keys: Seq<Seq<u8>>, deleted: Set<Seq<u8>>, e: int)
    requires
        0 <= e <= keys.len(),
        ascending(keys),
    ensures
        forall|a: int, b: int|
            0 <= a < b < live(keys.take(e).reverse(), deleted).len() ==> key_lt(
                #[trigger] live(keys.take(e).reverse(), deleted)[b],
                #[trigger] live(keys.take(e).reverse(), deleted)[a],
            ),
        forall|x: Seq<u8>| #[trigger]
            live(keys.take(e).reverse(), deleted).contains(x) <==> !deleted.contains(x) && exists|j: int|
                0 <= j < e && keys[j] == x,
    decreases e,
{
    let run = live(keys.take(e).reverse(), deleted);
    assert forall|x: Seq<u8>| #[trigger] run.contains(x) <==> !deleted.contains(x) && exists|j: int|
        0 <= j < e && keys[j] == x by {
        lemma_back_member(keys, deleted, e, x);
    }
    if e == 0 {
        assert(keys.take(0).reverse() =~= Seq::empty());
    } else {
        let less = live(keys.take(e - 1).reverse(), deleted);
        lemma_back_run(keys, deleted, e - 1);
        assert(keys.take(e).reverse().drop_first() =~= keys.take(e - 1).reverse());
        assert(keys.take(e).reverse()[0] == keys[e - 1]);
        if !deleted.contains(keys[e - 1]) {
            assert(run =~= seq![keys[e - 1]] + less);
            assert forall|a: int, b: int| 0 <= a < b < run.len() implies key_lt(
                #[trigger] run[b],
                #[trigger] run[a],
            ) by {
                assert(run[b] == less[b - 1]);
                if a == 0 {
                    assert(less.contains(less[b - 1]));
                    lemma_back_member(keys, deleted, e - 1, less[b - 1]);
                    let j = choose|j: int| 0 <= j < e - 1 && keys[j] == less[b - 1];
                    assert(key_lt(keys[j], keys[e - 1]));
                } else {
                    assert(run[a] == less[a - 1]);
                }
            }
        }
    }
}

/// What a forward search has ahead in a level.
proof fn lemma_level_ahead(tree: &LSMTree, key: Seq<u8>, c: LSMTreeCursor, i: int) -> (p: int)
    requires
        tree.inv(),
        sought(tree, key, ScanOrder::Forward, c),
        0 <= i < tree.trees@.len(),
    ensures
        is_lower_bound(tree.trees@[i].keys(), key, p),
        c.aheads(tree)[i] == live(tree.trees@[i].keys().skip(p), tree.trees@[i].deleted@),
{
    let t = tree.trees@[i];
    assert(t.inv());
    lemma_tree_keys_ascend(&t);
    let p = crate::index::btree::ops::lemma_place(t.keys(), key);
    assert(c.level_cursors@[i].ordering is Forward);
    lemma_forward_search(&t, key, c.level_cursors@[i], p);
    p
}

/// A merge that goes on with what is left of runs takes the keys that a merge of the runs takes.
proof fn lemma_merge_resumes(runs: Seq<Seq<Seq<u8>>>, n: nat, k: nat)
    requires
        merge_steps(runs, n).out.len() == n,
    ensures
        ({
            let base = merge_steps(runs, n).next;
            let left = rest(runs, base);
            let whole = merge_steps(runs, n + k);
            let part = merge_steps(left, k);
            &&& part.next.len() == runs.len()
            &&& forall|i: int| 0 <= i < runs.len() ==> base[i] + #[trigger] part.next[i] == whole.next[i]
            &&& whole.out == merge_steps(runs, n).out + part.out
        }),
    decreases k,
{
    let m = merge_steps(runs, n);
    let base = m.next;
    let left = rest(runs, base);
    lemma_merge_ok(runs, n);
    if k == 0 {
        assert(m.out + merge_steps(left, 0).out =~= m.out);
    } else {
        let j = (k - 1) as nat;
        lemma_merge_resumes(runs, n, j);
        let whole = merge_steps(runs, n + j);
        let part = merge_steps(left, j);
        lemma_merge_ok(runs, n + j);
        lemma_merge_ok(left, j);
        assert forall|p: int| has_more(left, part.next, p) <==> has_more(runs, whole.next, p) by {
            if 0 <= p < runs.len() {
                assert(base[p] + part.next[p] == whole.next[p]);
            }
        }
        assert forall|p: int| has_more(left, part.next, p) implies head(left, part.next, p) == head(
            runs,
            whole.next,
            p,
        ) by {
            assert(base[p] + part.next[p] == whole.next[p]);
            assert(0 <= part.next[p]);
            assert(0 <= base[p]);
        }
        assert forall|p: int| is_least(left, part.next, p) <==> is_least(runs, whole.next, p) by {
            if is_least(left, part.next, p) {
                assert forall|q: int| #[trigger] has_more(runs, whole.next, q) implies if q < p {
                    key_lt(head(runs, whole.next, p), head(runs, whole.next, q))
                } else {
                    key_le(head(runs, whole.next, p), head(runs, whole.next, q))
                } by {
                    assert(has_more(left, part.next, q));
                }
            }
            if is_least(runs, whole.next, p) {
                assert forall|q: int| #[trigger] has_more(left, part.next, q) implies if q < p {
                    key_lt(head(left, part.next, p), head(left, part.next, q))
                } else {
                    key_le(head(left, part.next, p), head(left, part.next, q))
                } by {
                    assert(has_more(runs, whole.next, q));
                }
            }
        }
        if exists|p: int| is_least(left, part.next, p) {
            let p = choose|p: int| is_least(left, part.next, p);
            assert(is_least(runs, whole.next, p));
            lemma_step(left, j, p);
            lemma_step(runs, n + j, p);
            assert(n + j + 1 == n + k);
            let whole2 = merge_steps(runs, n + k);
            let part2 = merge_steps(left, k);
            assert(whole2.out =~= m.out + part2.out);
            assert(has_more(left, part.next, p));
            assert forall|i: int| 0 <= i < runs.len() implies base[i] + #[trigger] part2.next[i]
                == whole2.next[i] by {
                assert(base[i] + part.next[i] == whole.next[i]);
            }
        } else {
            assert(!exists|p: int| is_least(runs, whole.next, p)) by {
                if exists|p: int| is_least(runs, whole.next, p) {
                    let p = choose|p: int| is_least(runs, whole.next, p);
                    assert(is_least(left, part.next, p));
                }
            }
            assert(n + j + 1 == n + k);
        }
    }
}

/// Blocks that are read one after the other show what one larger block would: no key is skipped
/// and none is shown twice.
pub proof fn lemma_blocks_join(runs: Seq<Seq<Seq<u8>>>, n: nat, k: nat)
    requires
        n + k <= total(runs),
    ensures
        ({
            let left = rest(runs, merge_steps(runs, n).next);
            &&& total(left) == total(runs) - n
            &&& shown(runs, n as int) + shown(left, k as int) == shown(runs, (n + k) as int)
        }),
{
    crate::index::merging::lemma_merged_all(runs);
    lemma_full_steps(runs, n);
    let left = rest(runs, merge_steps(runs, n).next);
    let rest_len = (total(runs) - n) as nat;
    lemma_merge_resumes(runs, n, rest_len);
    assert(n + rest_len == total(runs));
    let whole = merged(runs);
    let part = merge_steps(left, rest_len).out;
    assert(part.len() == rest_len);
    crate::index::merging::lemma_merged_all(left);
    lemma_steps_count(left, rest_len);
    lemma_merge_ok(left, rest_len);
    crate::index::merging::lemma_all_read(left, merge_steps(left, rest_len).next);
    lemma_left_total(runs, n);
    assert(merged(left) == part);
    assert(shown(runs, n as int) + shown(left, k as int) =~= shown(runs, (n + k) as int)) by {
        assert forall|i: int| 0 <= i < n + k implies (shown(runs, n as int) + shown(
            left,
            k as int,
        ))[i] == shown(runs, (n + k) as int)[i] by {
            crate::index::merging::lemma_steps_extend(runs, n, total(runs));
            if i >= n {
                assert(whole[i] == part[i - n]);
            }
        }
    }
}

/// As long as keys are left, each step takes one.
proof fn lemma_full_steps(runs: Seq<Seq<Seq<u8>>>, n: nat)
    requires
        n <= total(runs),
    ensures
        merge_steps(runs, n).out.len() == n,
{
    lemma_steps_count(runs, n);
    crate::index::merging::lemma_merged_all(runs);
    if merge_steps(runs, n).out.len() < n {
        crate::index::merging::lemma_steps_extend(runs, n, total(runs));
    }
}

/// What is left of the runs after `n` keys.
proof fn lemma_left_total(runs: Seq<Seq<Seq<u8>>>, n: nat)
    requires
        n <= total(runs),
    ensures
        total(rest(runs, merge_steps(runs, n).next)) == total(runs) - n,
{
    lemma_full_steps(runs, n);
    lemma_merge_ok(runs, n);
    lemma_steps_count(runs, n);
    lemma_total_rest(runs, merge_steps(runs, n).next);
}

proof fn lemma_total_rest(runs: Seq<Seq<Seq<u8>>>, next: Seq<int>)
    requires
        next.len() == runs.len(),
        forall|i: int| 0 <= i < runs.len() ==> 0 <= #[trigger] next[i] <= runs[i].len(),
    ensures
        total(rest(runs, next)) == total(runs) - crate::index::merging::sum(next),
    decreases runs.len(),
{
    if runs.len() > 0 {
        let r = runs.drop_last();
        let x = next.drop_last();
        assert forall|i: int| 0 <= i < r.len() implies 0 <= #[trigger] x[i] <= r[i].len() by {
            assert(x[i] == next[i]);
        }
        lemma_total_rest(r, x);
        assert(rest(runs, next).drop_last() =~= rest(r, x));
        assert(next[runs.len() - 1] <= runs[runs.len() - 1].len());
    }
}

/// What a cursor shows of runs that do not descend does not descend.
pub proof fn lemma_shown_ascends(runs: Seq<Seq<Seq<u8>>>, n: int)
    requires
        runs_ascend(runs),
        0 <= n <= total(runs),
    ensures
        not_descending(shown(runs, n)),
{
    lemma_merged_ascends(runs);
    assert forall|i: int, j: int| 0 <= i < j < shown(runs, n).len() implies key_le(
        #[trigger] shown(runs, n)[i],
        #[trigger] shown(runs, n)[j],
    ) by {
        assert(key_le(merged(runs)[i].0, merged(runs)[j].0));
    }
}

/// A cursor that is read to its end shows the keys ahead of it in all levels, each as often as it
/// is there.
pub proof fn lemma_shown_gathers(runs: Seq<Seq<Seq<u8>>>)
    ensures
        shown(runs, total(runs) as int).to_multiset() == gathered(runs),
{
    lemma_merged_gathers(runs);
    lemma_merged_all(runs);
    assert(shown(runs, total(runs) as int) =~= keys_out(merged(runs)));
}

/// The present keys of each level.
pub open spec fn level_keys(tree: &LSMTree) -> Seq<Seq<Seq<u8>>> {
    Seq::new(tree.trees@.len(), |i: int| tree.trees@[i].present())
}

/// A forward search for the least key shows the present keys of all levels, each as often as there
/// are levels that hold it.
pub proof fn lemma_all_levels_shown(tree: &LSMTree, c: LSMTreeCursor)
    requires
        tree.inv(),
        sought(tree, Seq::empty(), ScanOrder::Forward, c),
    ensures
        shown(c.aheads(tree), total(c.aheads(tree)) as int).to_multiset() == gathered(
            level_keys(tree),
        ),
{
    broadcast use group_key_order;

    let runs = c.aheads(tree);
    assert forall|i: int| 0 <= i < runs.len() implies #[trigger] runs[i] == level_keys(tree)[i] by {
        let p = lemma_level_ahead(tree, Seq::empty(), c, i);
        let keys = tree.trees@[i].keys();
        if p > 0 {
            assert(key_lt(keys[0], Seq::empty()));
        }
        assert(keys.skip(0) =~= keys);
    }
    assert(runs =~= level_keys(tree));
    lemma_shown_gathers(runs);
}

/// A forward search shows exactly the keys that are present in a level and do not come before the
/// sought one.
pub proof fn lemma_seek_shows(tree: &LSMTree, key: Seq<u8>, c: LSMTreeCursor, other: Seq<u8>)
    requires
        tree.inv(),
        sought(tree, key, ScanOrder::Forward, c),
    ensures
        shown(c.aheads(tree), total(c.aheads(tree)) as int).contains(other) <==> in_levels(
            tree.trees@,
            other,
        ) && key_le(key, other),
{
    let runs = c.aheads(tree);
    let n = total(runs);
    let all = shown(runs, n as int);
    lemma_merged_all(runs);
    lemma_merge_ok(runs, n);
    if all.contains(other) {
        let k = choose|k: int| 0 <= k < all.len() && all[k] == other;
        lemma_steps_from_runs(runs, n, k);
        let p = merged(runs)[k].1;
        lemma_forward_seek(tree, key, c, p, other);
        assert(tree.trees@[p].present().contains(other));
    }
    if in_levels(tree.trees@, other) && key_le(key, other) {
        let p = choose|p: int|
            0 <= p < tree.trees@.len() && (#[trigger] tree.trees@[p]).present().contains(other);
        lemma_forward_seek(tree, key, c, p, other);
        let j = choose|j: int| 0 <= j < runs[p].len() && runs[p][j] == other;
        assert(!has_more(runs, merge_steps(runs, n).next, p));
        lemma_read_came_out(runs, n, p, j);
        let k = choose|k: int|
            0 <= k < merge_steps(runs, n).out.len() && (#[trigger] merge_steps(runs, n).out[k]).0
                == other;
        assert(all[k] == other);
    }
}

/// A key that is present with some id is shown by a forward search for the key alone.
pub proof fn lemma_seek_meets_ids(tree: &LSMTree, key: Seq<u8>, id: Seq<u8>, c: LSMTreeCursor)
    requires
        tree.inv(),
        id.len() == 16,
        in_levels(tree.trees@, key + id),
        sought(tree, key + edge_bytes(ScanOrder::Forward), ScanOrder::Forward, c),
    ensures
        shown(c.aheads(tree), total(c.aheads(tree)) as int).contains(key + id),
{
    lemma_ids_between_edges(key, id);
    lemma_seek_shows(tree, key + edge_bytes(ScanOrder::Forward), c, key + id);
}

/// A block holds no more keys than were asked for, but one if none were; it is empty only if there is
/// no key, and it is short only if there are no more.
pub proof fn lemma_block(runs: Seq<Seq<Seq<u8>>>, block_size: int)
    ensures
        0 <= block_len(runs, block_size) <= total(runs),
        block_len(runs, block_size) <= block_size || block_len(runs, block_size) <= 1,
        block_len(runs, block_size) == 0 <==> total(runs) == 0,
        block_len(runs, block_size) < block_size ==> block_len(runs, block_size) == total(runs),
{
}

/// The current key of a cursor is the least of the current keys of its levels, whatever the directions
/// in which it walks.
pub proof fn lemma_least_level(runs: Seq<Seq<Seq<u8>>>, p: int, q: int)
    requires
        least_level(runs, p),
        0 <= q < runs.len(),
        runs[q].len() > 0,
    ensures
        0 <= p < runs.len(),
        runs[p].len() > 0,
        key_le(runs[p][0], runs[q][0]),
        q < p ==> key_lt(runs[p][0], runs[q][0]),
{
    broadcast use group_key_order;

    assert(has_more(runs, starts(runs.len()), q));
}

} // verus!
