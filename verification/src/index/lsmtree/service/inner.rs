//! A tree with the cursors that others read it through.
use super::recent::{
    entries_of, has_id, recent_front, recent_get_refresh, recent_insert, recent_new,
    recent_pop_front, recent_remove,
};
use crate::index::btree::cursor::{RTCursor, ScanOrder};
use crate::index::btree::external::byte_views;
use crate::index::btree::ops::{
    lemma_live_ascends, lemma_live_contains, lemma_place, lemma_place_after, with_key,
};
use crate::index::btree::search::{
    lemma_backward_place, lemma_forward_search, lemma_tree_keys_ascend, search_result,
};
use crate::index::btree::tree::{live, BPlusTree};
use crate::index::key::{group_key_order, key_le, key_lt, key_views, EntryKey};
use crate::index::lsmtree::cursor::{
    block_len, directions, least_level, lemma_back_member, lemma_back_run, rest, shown, some_left,
    sought, LSMTreeCursor,
};
use crate::index::lsmtree::split::KeyRange;
use crate::index::lsmtree::tree::{edge_bytes, in_levels, steps_lead, LSMTree};
use crate::index::merging::merge_steps;
use crate::ram::types::Id;
use linked_hash_map::LinkedHashMap;
use std::collections::{HashMap, HashSet};
use vstd::prelude::*;

verus! {

/// After how many milliseconds without use a cursor is dropped.
pub const CURSOR_DEFAULT_TTL: u32 = 300000;

/// A cursor that others hold the id of, and when it was last used.
pub struct DelegatedCursor {
    pub cursor: LSMTreeCursor,
    pub timestamp: u32,
}

impl DelegatedCursor {
    pub fn new(cursor: LSMTreeCursor, now: u32) -> (d: DelegatedCursor)
        ensures
            d.cursor == cursor,
            d.timestamp == now,
    {
        DelegatedCursor { cursor, timestamp: now }
    }
}

/// What an operation on a tree gives, or that the caller knows another epoch of the tree.
pub enum LSMTreeResult<T> {
    Done(T),
    /// The tree's epoch, and the caller's.
    EpochMismatch(u64, u64),
}

pub struct LSMTreeIns {
    pub tree: LSMTree,
    pub id: Id,
    pub range: KeyRange,
    pub epoch: u64,
    pub counter: u64,
    pub cursors: HashMap<u64, DelegatedCursor>,
    /// The ids of the cursors that were placed since the tree has changed last.
    pub fresh: HashSet<u64>,
    /// The ids of the cursors with the times of their last use.
    pub recent: LinkedHashMap<u64, u32>,
}

/// The row holds the ids of the cursors, each once and with the time of its last use.
pub open spec fn row_of(entries: Seq<(u64, u32)>, cursors: Map<u64, DelegatedCursor>) -> bool {
    &&& forall|i: int, j: int|
        0 <= i < j < entries.len() ==> (#[trigger] entries[i]).0 != (#[trigger] entries[j]).0
    &&& forall|i: int|
        0 <= i < entries.len() ==> {
            &&& cursors.contains_key((#[trigger] entries[i]).0)
            &&& cursors[entries[i].0].timestamp == entries[i].1
        }
    &&& forall|id: u64| #[trigger] cursors.contains_key(id) ==> has_id(entries, id)
}

/// The cursor has a place in each level, and it is a right one unless the tree has changed since.
pub open spec fn cursor_ok(d: DelegatedCursor, tree: &LSMTree, fresh: bool) -> bool {
    &&& d.cursor.level_cursors@.len() == tree.trees@.len()
    &&& fresh ==> d.cursor.wf(tree)
}

/// Where a level's cursor goes on after the tree has changed: at the place of its current key. A
/// search backward may begin with a key that comes after the sought one; that one is passed over.
pub open spec fn resumed(c: RTCursor, tree: &BPlusTree, ahead: Seq<Seq<u8>>) -> bool {
    match c.current {
        Some(key) => exists|n: RTCursor| #[trigger]
            search_result(tree, key@, c.ordering, n) && ahead == if c.ordering is Backward && n.ahead(
                tree,
            ).len() > 0 && key_lt(key@, n.ahead(tree)[0]) {
                n.ahead(tree).drop_first()
            } else {
                n.ahead(tree)
            },
        None => ahead.len() == 0,
    }
}

/// After a change of the tree a level's cursor keeps its direction. A forward one shows exactly the
/// present keys from its current key on, and they ascend; a backward one shows exactly the present
/// keys up to its current key, and they descend. A cursor that was at its end stays there.
pub proof fn lemma_resumed_keeps_direction(c: RTCursor, tree: &BPlusTree, ahead: Seq<Seq<u8>>, other: Seq<u8>)
    requires
        tree.inv(),
        resumed(c, tree, ahead),
    ensures
        c.current is None ==> ahead.len() == 0,
        c.current is Some && c.ordering is Forward ==> {
            &&& forall|a: int, b: int|
                0 <= a < b < ahead.len() ==> key_lt(#[trigger] ahead[a], #[trigger] ahead[b])
            &&& ahead.contains(other) <==> tree.present().contains(other) && key_le(
                c.current->0@,
                other,
            )
        },
        c.current is Some && c.ordering is Backward ==> {
            &&& forall|a: int, b: int|
                0 <= a < b < ahead.len() ==> key_lt(#[trigger] ahead[b], #[trigger] ahead[a])
            &&& ahead.contains(other) <==> tree.present().contains(other) && key_le(
                other,
                c.current->0@,
            )
        },
{
    broadcast use group_key_order;

    if c.current is Some {
        let key = c.current->0@;
        let keys = tree.keys();
        let n = choose|n: RTCursor| #[trigger]
            search_result(tree, key, c.ordering, n) && ahead == if c.ordering is Backward && n.ahead(
                tree,
            ).len() > 0 && key_lt(key, n.ahead(tree)[0]) {
                n.ahead(tree).drop_first()
            } else {
                n.ahead(tree)
            };
        lemma_tree_keys_ascend(tree);
        lemma_live_contains(keys, tree.deleted@, other);
        match c.ordering {
            ScanOrder::Forward => {
                let p = lemma_place(keys, key);
                lemma_forward_search(tree, key, n, p);
                let run = keys.skip(p);
                assert forall|a: int, b: int| 0 <= a < b < run.len() implies key_lt(
                    #[trigger] run[a],
                    #[trigger] run[b],
                ) by {
                    assert(key_lt(keys[p + a], keys[p + b]));
                }
                lemma_live_ascends(run, tree.deleted@);
                lemma_live_contains(run, tree.deleted@, other);
                if run.contains(other) {
                    let a = choose|a: int| 0 <= a < run.len() && run[a] == other;
                    assert(keys[p + a] == other);
                }
                if keys.contains(other) && key_le(key, other) {
                    let x = choose|x: int| 0 <= x < keys.len() && keys[x] == other;
                    assert(x >= p) by {
                        if x < p {
                            assert(key_lt(keys[x], key));
                        }
                    }
                    assert(run[x - p] == other);
                }
            },
            ScanOrder::Backward => {
                let p = lemma_place_after(keys, key);
                let e = lemma_backward_place(tree, key, n, p);
                let run = live(keys.take(p).reverse(), tree.deleted@);
                lemma_back_run(keys, tree.deleted@, p);
                assert(ahead == run) by {
                    if e == p {
                        if run.len() > 0 {
                            assert(run.contains(run[0]));
                            lemma_back_member(keys, tree.deleted@, p, run[0]);
                        }
                    } else {
                        assert(keys.take(p + 1).reverse().drop_first() =~= keys.take(p).reverse());
                        assert(keys.take(p + 1).reverse()[0] == keys[p]);
                        assert(key_lt(key, keys[p]));
                        if tree.deleted@.contains(keys[p]) {
                            assert(n.ahead(tree) == run);
                            if run.len() > 0 {
                                assert(run.contains(run[0]));
                                lemma_back_member(keys, tree.deleted@, p, run[0]);
                            }
                        } else {
                            assert(n.ahead(tree) == seq![keys[p]] + run);
                            assert((seq![keys[p]] + run).drop_first() =~= run);
                        }
                    }
                }
                lemma_back_member(keys, tree.deleted@, p, other);
                if keys.contains(other) && key_le(other, key) {
                    let x = choose|x: int| 0 <= x < keys.len() && keys[x] == other;
                    assert(x < p) by {
                        if x >= p {
                            assert(key_lt(key, keys[x]));
                        }
                    }
                }
            },
        }
    }
}

/// A cursor that goes on has, in each level, what it had ahead there if the tree has not changed
/// since, and else what lies ahead of its current key in the direction of the level's cursor.
pub proof fn lemma_goes_on_in_direction(
    d: DelegatedCursor,
    tree: &LSMTree,
    fresh: bool,
    aheads: Seq<Seq<Seq<u8>>>,
    i: int,
    other: Seq<u8>,
)
    requires
        tree.inv(),
        cursor_ok(d, tree, fresh),
        goes_on(d, tree, fresh, aheads),
        0 <= i < tree.trees@.len(),
    ensures
        aheads.len() == tree.trees@.len(),
        fresh ==> aheads[i] == d.cursor.level_cursors@[i].ahead(&tree.trees@[i]),
        !fresh && d.cursor.level_cursors@[i].current is None ==> aheads[i].len() == 0,
        !fresh && d.cursor.level_cursors@[i].current is Some ==> {
            let key = d.cursor.level_cursors@[i].current->0@;
            let back = d.cursor.level_cursors@[i].ordering is Backward;
            &&& aheads[i].contains(other) <==> tree.trees@[i].present().contains(other) && if back {
                key_le(other, key)
            } else {
                key_le(key, other)
            }
            &&& !back ==> forall|a: int, b: int|
                0 <= a < b < aheads[i].len() ==> key_lt(#[trigger] aheads[i][a], #[trigger] aheads[i][b])
            &&& back ==> forall|a: int, b: int|
                0 <= a < b < aheads[i].len() ==> key_lt(#[trigger] aheads[i][b], #[trigger] aheads[i][a])
        },
{
    if !fresh {
        assert(tree.trees@[i].inv());
        assert(resumed(d.cursor.level_cursors@[i], &tree.trees@[i], aheads[i]));
        lemma_resumed_keeps_direction(
            d.cursor.level_cursors@[i],
            &tree.trees@[i],
            aheads[i],
            other,
        );
    }
}

/// The keys that a cursor has ahead when it is used next.
pub open spec fn goes_on(
    d: DelegatedCursor,
    tree: &LSMTree,
    fresh: bool,
    aheads: Seq<Seq<Seq<u8>>>,
) -> bool {
    if fresh {
        aheads == d.cursor.aheads(tree)
    } else {
        &&& aheads.len() == tree.trees@.len()
        &&& forall|i: int|
            0 <= i < aheads.len() ==> resumed(
                d.cursor.level_cursors@[i],
                &tree.trees@[i],
                #[trigger] aheads[i],
            )
    }
}

/// The id moves to the back of the row, with the given time.
pub open spec fn moved_to_back(
    before: Seq<(u64, u32)>,
    after: Seq<(u64, u32)>,
    id: u64,
    time: u32,
) -> bool {
    exists|i: int|
        0 <= i < before.len() && (#[trigger] before[i]).0 == id && after == before.remove(i).push(
            (id, time),
        )
}

impl LSMTreeIns {
    pub open spec fn inv(&self) -> bool {
        &&& self.tree.inv()
        &&& row_of(entries_of(self.recent), self.cursors@)
        &&& forall|id: u64| #[trigger]
            self.cursors@.contains_key(id) ==> cursor_ok(
                self.cursors@[id],
                &self.tree,
                self.fresh@.contains(id),
            )
    }

    /// All but the cursors is the same.
    pub open spec fn same_but_cursors(&self, other: &LSMTreeIns) -> bool {
        &&& self.tree == other.tree
        &&& self.id == other.id
        &&& self.range == other.range
        &&& self.epoch == other.epoch
    }

    /// An empty tree for the given range.
    pub fn new(range: KeyRange, id: Id) -> (ins: LSMTreeIns)
        ensures
            ins.inv(),
            ins.range == range,
            ins.id == id,
            ins.epoch == 0,
            ins.counter == 0,
            ins.cursors@.len() == 0,
            forall|k: Seq<u8>| !#[trigger] in_levels(ins.tree.trees@, k),
    {
        let ins = Self::new_from_tree(LSMTree::new(), range, id);
        proof {
            assert forall|k: Seq<u8>| !#[trigger] in_levels(ins.tree.trees@, k) by {
                if in_levels(ins.tree.trees@, k) {
                    let i = choose|i: int|
                        0 <= i < ins.tree.trees@.len() && (#[trigger] ins.tree.trees@[i]).present().contains(
                            k,
                        );
                    assert(ins.tree.trees@[i].present().len() == 0);
                }
            }
        }
        ins
    }

    /// A tree without cursors.
    pub fn new_from_tree(tree: LSMTree, range: KeyRange, id: Id) -> (ins: LSMTreeIns)
        requires
            tree.inv(),
        ensures
            ins.inv(),
            ins.tree == tree,
            ins.range == range,
            ins.id == id,
            ins.epoch == 0,
            ins.counter == 0,
            ins.cursors@ == Map::<u64, DelegatedCursor>::empty(),
    {
        LSMTreeIns {
            tree,
            id,
            range,
            epoch: 0,
            counter: 0,
            cursors: HashMap::new(),
            fresh: HashSet::new(),
            recent: recent_new(),
        }
    }
}

impl BPlusTree {
    /// A cursor at the place of a key. One that walks backward does not begin behind the key.
    fn seek_not_past(&self, key: &EntryKey, ordering: ScanOrder) -> (c: RTCursor)
        requires
            self.inv(),
        ensures
            c.wf(self),
            c.ordering == ordering,
            forall|was: RTCursor|
                was.ordering == ordering && was.current == Some(*key) ==> #[trigger] resumed(
                    was,
                    self,
                    c.ahead(self),
                ),
    {
        let mut c = self.seek_for(key, ordering);
        let ghost n = c;
        let past = match ordering {
            ScanOrder::Forward => false,
            ScanOrder::Backward => match c.current(self) {
                Some(k) => key.before(k),
                None => false,
            },
        };
        if past {
            c.next(self);
        }
        proof {
            assert(past == (ordering is Backward && n.ahead(self).len() > 0 && key_lt(
                key@,
                n.ahead(self)[0],
            )));
            assert forall|was: RTCursor|
                was.ordering == ordering && was.current == Some(*key) implies #[trigger] resumed(
                was,
                self,
                c.ahead(self),
            ) by {
                assert(search_result(self, was.current->0@, was.ordering, n));
            }
        }
        c
    }
}

impl LSMTree {
    /// Places a cursor anew after the tree has changed.
    fn resume(&self, cursor: &LSMTreeCursor) -> (c: LSMTreeCursor)
        requires
            self.inv(),
            cursor.level_cursors@.len() == self.trees@.len(),
        ensures
            c.wf(self),
            directions(&c) == directions(cursor),
            forall|i: int|
                0 <= i < self.trees@.len() ==> resumed(
                    cursor.level_cursors@[i],
                    &self.trees@[i],
                    #[trigger] c.aheads(self)[i],
                ),
    {
        let mut cursors: Vec<RTCursor> = Vec::new();
        let mut i: usize = 0;
        while i < self.trees.len()
            invariant
                self.inv(),
                cursor.level_cursors@.len() == self.trees@.len(),
                i <= self.trees@.len(),
                cursors@.len() == i,
                forall|j: int|
                    0 <= j < i ==> {
                        &&& (#[trigger] cursors@[j]).wf(&self.trees@[j])
                        &&& cursors@[j].ordering == cursor.level_cursors@[j].ordering
                        &&& resumed(
                            cursor.level_cursors@[j],
                            &self.trees@[j],
                            cursors@[j].ahead(&self.trees@[j]),
                        )
                    },
            decreases self.trees@.len() - i,
        {
            let was = &cursor.level_cursors[i];
            assert(self.trees@[i as int].inv());
            let c = match &was.current {
                Some(key) => self.trees[i].seek_not_past(key, was.ordering),
                None => RTCursor { index: 0, ordering: was.ordering, page: None, current: None },
            };
            cursors.push(c);
            i += 1;
        }
        let c = LSMTreeCursor::new(cursors);
        assert(directions(&c) =~= directions(cursor));
        c
    }
}

/// A row from which an id moved to the back is still one of the cursors.
proof fn lemma_row_refreshed(
    before: Seq<(u64, u32)>,
    after: Seq<(u64, u32)>,
    cursors: Map<u64, DelegatedCursor>,
    id: u64,
    time: u32,
    d: DelegatedCursor,
)
    requires
        row_of(before, cursors),
        moved_to_back(before, after, id, time),
        d.timestamp == time,
    ensures
        row_of(after, cursors.insert(id, d)),
        cursors.contains_key(id),
{
    let i = choose|i: int|
        0 <= i < before.len() && (#[trigger] before[i]).0 == id && after == before.remove(i).push(
            (id, time),
        );
    let n = before.len() - 1;
    let now = cursors.insert(id, d);
    assert(cursors.contains_key(before[i].0));
    assert forall|a: int| 0 <= a < n implies after[a] == before[if a < i { a } else { a + 1 }] by {}
    assert(after[n] == (id, time));
    assert forall|a: int, b: int| 0 <= a < b < after.len() implies (#[trigger] after[a]).0 != (
    #[trigger] after[b]).0 by {
        let a0 = if a < i { a } else { a + 1 };
        assert(after[a] == before[a0]);
        if b < n {
            let b0 = if b < i { b } else { b + 1 };
            assert(after[b] == before[b0]);
            assert(before[a0].0 != before[b0].0);
        } else if a0 < i {
            assert(before[a0].0 != before[i].0);
        } else {
            assert(before[i].0 != before[a0].0);
        }
    }
    assert forall|a: int| 0 <= a < after.len() implies {
        &&& now.contains_key((#[trigger] after[a]).0)
        &&& now[after[a].0].timestamp == after[a].1
    } by {
        if a < n {
            let a0 = if a < i { a } else { a + 1 };
            assert(after[a] == before[a0]);
            assert(cursors.contains_key(before[a0].0));
            if a0 < i {
                assert(before[a0].0 != before[i].0);
            } else {
                assert(before[i].0 != before[a0].0);
            }
        }
    }
    assert forall|k: u64| #[trigger] now.contains_key(k) implies has_id(after, k) by {
        if k == id {
            assert(after[n].0 == k);
        } else {
            assert(has_id(before, k));
            let a0 = choose|a0: int| 0 <= a0 < before.len() && (#[trigger] before[a0]).0 == k;
            let a = if a0 < i { a0 } else { a0 - 1 };
            assert(after[a] == before[a0]);
        }
    }
}

impl LSMTreeIns {
    /// Notes that a cursor is used, and places it anew if the tree has changed since; tells whether
    /// there is such a cursor.
    fn get(&mut self, id: &u64, now: u32) -> (r: bool)
        requires
            old(self).inv(),
        ensures
            final(self).inv(),
            final(self).same_but_cursors(old(self)),
            final(self).counter == old(self).counter,
            r == old(self).cursors@.contains_key(*id),
            !r ==> final(self).cursors == old(self).cursors && final(self).fresh == old(self).fresh
                && entries_of(final(self).recent) == entries_of(old(self).recent),
            r ==> {
                let d = final(self).cursors@[*id];
                &&& final(self).cursors@ == old(self).cursors@.insert(*id, d)
                &&& d.timestamp == now
                &&& directions(&d.cursor) == directions(&old(self).cursors@[*id].cursor)
                &&& goes_on(
                    old(self).cursors@[*id],
                    &old(self).tree,
                    old(self).fresh@.contains(*id),
                    d.cursor.aheads(&final(self).tree),
                )
                &&& final(self).fresh@ == old(self).fresh@.insert(*id)
                &&& moved_to_back(
                    entries_of(old(self).recent),
                    entries_of(final(self).recent),
                    *id,
                    now,
                )
            },
    {
        broadcast use vstd::std_specs::hash::group_hash_axioms;

        let ghost before = *self;
        let ghost row = entries_of(self.recent);
        let known = match recent_get_refresh(&mut self.recent, id) {
            Some(time) => {
                *time = now;
                true
            },
            None => false,
        };
        if !known {
            proof {
                if self.cursors@.contains_key(*id) {
                    assert(has_id(row, *id));
                }
            }
            return false;
        }
        assert(moved_to_back(row, entries_of(self.recent), *id, now));
        proof {
            let d = DelegatedCursor { timestamp: now, ..before.cursors@[*id] };
            lemma_row_refreshed(row, entries_of(self.recent), before.cursors@, *id, now, d);
        }
        match self.cursors.remove(id) {
            Some(d) => {
                assert(cursor_ok(d, &self.tree, self.fresh@.contains(*id)));
                let cursor = if self.fresh.contains(id) {
                    d.cursor
                } else {
                    self.tree.resume(&d.cursor)
                };
                let next = DelegatedCursor::new(cursor, now);
                let ghost n = next;
                self.cursors.insert(*id, next);
                self.fresh.insert(*id);
                proof {
                    lemma_row_refreshed(row, entries_of(self.recent), before.cursors@, *id, now, n);
                    assert(self.cursors@ =~= before.cursors@.insert(*id, n));
                    assert forall|k: u64| #[trigger] self.cursors@.contains_key(k) implies cursor_ok(
                        self.cursors@[k],
                        &self.tree,
                        self.fresh@.contains(k),
                    ) by {
                        if k != *id {
                            assert(before.cursors@.contains_key(k));
                        }
                    }
                }
            },
            None => {
                assert(false);
            },
        }
        true
    }

    /// The next keys of a cursor; the cursor moves behind them.
    pub fn next_block(&mut self, id: &u64, block_size: usize, now: u32) -> (r: Option<Vec<Vec<u8>>>)
        requires
            old(self).inv(),
        ensures
            final(self).inv(),
            final(self).same_but_cursors(old(self)),
            final(self).counter == old(self).counter,
            r is Some <==> old(self).cursors@.contains_key(*id),
            r is None ==> final(self).cursors == old(self).cursors && final(self).fresh == old(
                self,
            ).fresh && entries_of(final(self).recent) == entries_of(old(self).recent),
            r matches Some(keys) ==> {
                let d = final(self).cursors@[*id];
                &&& final(self).cursors@ == old(self).cursors@.insert(*id, d)
                &&& d.timestamp == now
                &&& directions(&d.cursor) == directions(&old(self).cursors@[*id].cursor)
                &&& final(self).fresh@ == old(self).fresh@.insert(*id)
                &&& moved_to_back(
                    entries_of(old(self).recent),
                    entries_of(final(self).recent),
                    *id,
                    now,
                )
                &&& exists|runs: Seq<Seq<Seq<u8>>>|
                    {
                        let n = block_len(runs, block_size as int);
                        &&& #[trigger] goes_on(
                            old(self).cursors@[*id],
                            &old(self).tree,
                            old(self).fresh@.contains(*id),
                            runs,
                        )
                        &&& byte_views(keys@) == shown(runs, n)
                        &&& d.cursor.aheads(&final(self).tree) == rest(
                            runs,
                            merge_steps(runs, n as nat).next,
                        )
                    }
            },
    {
        broadcast use vstd::std_specs::hash::group_hash_axioms;

        let ghost first = *self;
        if !self.get(id, now) {
            return None;
        }
        let ghost before = *self;
        match self.cursors.remove(id) {
            Some(mut d) => {
                let ghost runs = d.cursor.aheads(&self.tree);
                assert(cursor_ok(d, &self.tree, self.fresh@.contains(*id)));
                let keys = d.cursor.read_block(&self.tree, block_size);
                let ghost n = d;
                self.cursors.insert(*id, d);
                proof {
                    assert(self.cursors@ =~= before.cursors@.insert(*id, n));
                    assert(self.cursors@ =~= first.cursors@.insert(*id, n));
                    lemma_row_same_times(
                        entries_of(self.recent),
                        before.cursors@,
                        self.cursors@,
                    );
                    assert forall|k: u64| #[trigger] self.cursors@.contains_key(k) implies cursor_ok(
                        self.cursors@[k],
                        &self.tree,
                        self.fresh@.contains(k),
                    ) by {
                        if k != *id {
                            assert(before.cursors@.contains_key(k));
                        }
                    }
                    assert(goes_on(
                        first.cursors@[*id],
                        &first.tree,
                        first.fresh@.contains(*id),
                        runs,
                    ));
                }
                Some(keys)
            },
            None => {
                assert(false);
                None
            },
        }
    }

    /// The current key of a cursor, if there is one.
    pub fn current(&mut self, id: &u64, now: u32) -> (r: Option<Option<Vec<u8>>>)
        requires
            old(self).inv(),
        ensures
            final(self).inv(),
            final(self).same_but_cursors(old(self)),
            final(self).counter == old(self).counter,
            r is Some <==> old(self).cursors@.contains_key(*id),
            r is None ==> final(self).cursors == old(self).cursors && final(self).fresh == old(
                self,
            ).fresh && entries_of(final(self).recent) == entries_of(old(self).recent),
            r matches Some(key) ==> {
                let d = final(self).cursors@[*id];
                let runs = d.cursor.aheads(&final(self).tree);
                &&& final(self).cursors@ == old(self).cursors@.insert(*id, d)
                &&& d.timestamp == now
                &&& directions(&d.cursor) == directions(&old(self).cursors@[*id].cursor)
                &&& final(self).fresh@ == old(self).fresh@.insert(*id)
                &&& goes_on(
                    old(self).cursors@[*id],
                    &old(self).tree,
                    old(self).fresh@.contains(*id),
                    runs,
                )
                &&& moved_to_back(
                    entries_of(old(self).recent),
                    entries_of(final(self).recent),
                    *id,
                    now,
                )
                &&& key is Some <==> some_left(runs)
                &&& key matches Some(k) ==> forall|p: int| #[trigger]
                    least_level(runs, p) ==> k@ == runs[p][0]
            },
    {
        broadcast use vstd::std_specs::hash::group_hash_axioms;

        if !self.get(id, now) {
            return None;
        }
        match self.cursors.get(id) {
            Some(d) => {
                assert(cursor_ok(*d, &self.tree, self.fresh@.contains(*id)));
                match d.cursor.current(&self.tree) {
                    Some(key) => Some(Some(key.to_vec())),
                    None => Some(None),
                }
            },
            None => {
                assert(false);
                None
            },
        }
    }
}

/// A row goes with cursors that have the same times.
proof fn lemma_row_same_times(
    row: Seq<(u64, u32)>,
    before: Map<u64, DelegatedCursor>,
    after: Map<u64, DelegatedCursor>,
)
    requires
        row_of(row, before),
        after.dom() == before.dom(),
        forall|id: u64| #[trigger]
            after.contains_key(id) ==> after[id].timestamp == before[id].timestamp,
    ensures
        row_of(row, after),
{
    assert forall|i: int| 0 <= i < row.len() implies {
        &&& after.contains_key((#[trigger] row[i]).0)
        &&& after[row[i].0].timestamp == row[i].1
    } by {
        assert(before.contains_key(row[i].0));
    }
    assert forall|id: u64| #[trigger] after.contains_key(id) implies has_id(row, id) by {
        assert(before.contains_key(id));
    }
}

/// A cursor that was last used at `time` is dropped.
pub open spec fn expired(time: u32, now: u32) -> bool {
    time + CURSOR_DEFAULT_TTL < now
}

/// How many entries at the front are expired.
pub open spec fn expired_count(row: Seq<(u64, u32)>, now: u32) -> int
    decreases row.len(),
{
    if row.len() == 0 || !expired(row[0].1, now) {
        0
    } else {
        1 + expired_count(row.drop_first(), now)
    }
}

/// The cursors whose ids are in the row.
pub open spec fn those_in(cursors: Map<u64, DelegatedCursor>, row: Seq<(u64, u32)>) -> Map<
    u64,
    DelegatedCursor,
> {
    cursors.restrict(Set::new(|id: u64| has_id(row, id)))
}

/// A row without its first id goes with the cursors without that one.
proof fn lemma_row_popped(row: Seq<(u64, u32)>, cursors: Map<u64, DelegatedCursor>)
    requires
        row_of(row, cursors),
        row.len() > 0,
    ensures
        row_of(row.drop_first(), cursors.remove(row[0].0)),
{
    let rest = row.drop_first();
    let now = cursors.remove(row[0].0);
    assert forall|i: int, j: int| 0 <= i < j < rest.len() implies (#[trigger] rest[i]).0 != (
    #[trigger] rest[j]).0 by {
        assert(row[i + 1].0 != row[j + 1].0);
    }
    assert forall|i: int| 0 <= i < rest.len() implies {
        &&& now.contains_key((#[trigger] rest[i]).0)
        &&& now[rest[i].0].timestamp == rest[i].1
    } by {
        assert(rest[i] == row[i + 1]);
        assert(row[0].0 != row[i + 1].0);
        assert(cursors.contains_key(row[i + 1].0));
    }
    assert forall|id: u64| #[trigger] now.contains_key(id) implies has_id(rest, id) by {
        assert(has_id(row, id));
        let i = choose|i: int| 0 <= i < row.len() && (#[trigger] row[i]).0 == id;
        assert(rest[i - 1].0 == id);
    }
}

/// A row goes with all of its cursors.
proof fn lemma_those_in_all(row: Seq<(u64, u32)>, cursors: Map<u64, DelegatedCursor>)
    requires
        row_of(row, cursors),
    ensures
        those_in(cursors, row) == cursors,
{
    assert forall|id: u64| those_in(cursors, row).contains_key(id) <==> cursors.contains_key(id) by {
        if cursors.contains_key(id) {
            assert(has_id(row, id));
        }
    }
    assert(those_in(cursors, row) =~= cursors);
}

impl LSMTreeIns {
    /// Drops the cursors that were not used for long, up to the first that was.
    fn pop_expired_cursors(&mut self, now: u32)
        requires
            old(self).inv(),
        ensures
            final(self).inv(),
            final(self).same_but_cursors(old(self)),
            final(self).counter == old(self).counter,
            entries_of(final(self).recent) == entries_of(old(self).recent).skip(
                expired_count(entries_of(old(self).recent), now),
            ),
            final(self).cursors@ == those_in(old(self).cursors@, entries_of(final(self).recent)),
            final(self).fresh == old(self).fresh,
    {
        broadcast use vstd::std_specs::hash::group_hash_axioms;

        let ghost all = entries_of(self.recent);
        let ghost had = self.cursors@;
        let ghost mut k: int = 0;
        proof {
            assert(all.skip(0) =~= all);
            lemma_those_in_all(all, had);
        }
        loop
            invariant
                self.inv(),
                self.same_but_cursors(old(self)),
                self.counter == old(self).counter,
                self.fresh == old(self).fresh,
                all == entries_of(old(self).recent),
                had == old(self).cursors@,
                row_of(all, had),
                0 <= k <= all.len(),
                entries_of(self.recent) == all.skip(k),
                expired_count(all, now) == k + expired_count(all.skip(k), now),
                self.cursors@ == those_in(had, all.skip(k)),
            ensures
                self.inv(),
                self.same_but_cursors(old(self)),
                self.counter == old(self).counter,
                self.fresh == old(self).fresh,
                k == expired_count(all, now),
                entries_of(self.recent) == all.skip(k),
                self.cursors@ == those_in(had, all.skip(k)),
            decreases all.len() - k,
        {
            broadcast use vstd::std_specs::hash::group_hash_axioms;

            let ghost row = all.skip(k);
            let ghost before = *self;
            let old_enough = match recent_front(&self.recent) {
                Some((_, time)) => *time as u64 + (CURSOR_DEFAULT_TTL as u64) < now as u64,
                None => false,
            };
            if !old_enough {
                break;
            }
            match recent_pop_front(&mut self.recent) {
                Some((id, _)) => {
                    self.cursors.remove(&id);
                    proof {
                        lemma_row_popped(row, before.cursors@);
                        assert(row.drop_first() =~= all.skip(k + 1));
                        let next = all.skip(k + 1);
                        assert forall|x: u64| #[trigger]
                            those_in(had, next).contains_key(x) <==> self.cursors@.contains_key(x) by {
                            if self.cursors@.contains_key(x) {
                                assert(has_id(row, x));
                                let i = choose|i: int| 0 <= i < row.len() && (#[trigger] row[i]).0 == x;
                                assert(next[i - 1].0 == x);
                            }
                            if those_in(had, next).contains_key(x) {
                                let i = choose|i: int| 0 <= i < next.len() && (#[trigger] next[i]).0 == x;
                                assert(row[i + 1].0 == x);
                                assert(row[0].0 != row[i + 1].0);
                            }
                        }
                        assert(self.cursors@ =~= those_in(had, next));
                        assert forall|x: u64| #[trigger] self.cursors@.contains_key(x) implies cursor_ok(
                            self.cursors@[x],
                            &self.tree,
                            self.fresh@.contains(x),
                        ) by {
                            assert(before.cursors@.contains_key(x));
                        }
                        k = k + 1;
                    }
                },
                None => {
                    assert(false);
                },
            }
        }
    }

    /// Places a new cursor and gives its id. Cursors that were not used for long are dropped.
    pub fn seek(&mut self, key: &EntryKey, ordering: ScanOrder, now: u32) -> (id: u64)
        requires
            old(self).inv(),
        ensures
            final(self).inv(),
            final(self).same_but_cursors(old(self)),
            id == old(self).counter,
            final(self).counter == old(self).counter & 1,
            ({
                let row = entries_of(old(self).recent);
                let kept = row.skip(expired_count(row, now));
                let d = final(self).cursors@[id];
                &&& final(self).cursors@ == those_in(old(self).cursors@, kept).insert(id, d)
                &&& d.timestamp == now
                &&& final(self).fresh@ == old(self).fresh@.insert(id)
                &&& sought(
                    &final(self).tree,
                    key@ + edge_bytes(ordering),
                    ordering,
                    d.cursor,
                )
                &&& if has_id(kept, id) {
                    moved_to_back(kept, entries_of(final(self).recent), id, now)
                } else {
                    entries_of(final(self).recent) == kept.push((id, now))
                }
            }),
    {
        broadcast use vstd::std_specs::hash::group_hash_axioms;

        let cursor = self.tree.seek(key, ordering);
        self.pop_expired_cursors(now);
        let ghost before = *self;
        let ghost kept = entries_of(self.recent);
        let id: u64 = self.counter;
        self.counter = self.counter & 1;
        let was = recent_insert(&mut self.recent, id, now);
        let d = DelegatedCursor::new(cursor, now);
        let ghost n = d;
        self.cursors.insert(id, d);
        self.fresh.insert(id);
        proof {
            let row = entries_of(self.recent);
            assert(self.cursors@ =~= before.cursors@.insert(id, n));
            if was is Some {
                assert(has_id(kept, id));
                assert(moved_to_back(kept, row, id, now));
                lemma_row_refreshed(kept, row, before.cursors@, id, now, n);
            } else {
                lemma_row_pushed(kept, before.cursors@, id, now, n);
            }
            assert forall|x: u64| #[trigger] self.cursors@.contains_key(x) implies cursor_ok(
                self.cursors@[x],
                &self.tree,
                self.fresh@.contains(x),
            ) by {
                if x != id {
                    assert(before.cursors@.contains_key(x));
                }
            }
        }
        id
    }

    /// Drops a cursor; tells whether it was there.
    pub fn complete(&mut self, id: &u64) -> (r: bool)
        requires
            old(self).inv(),
        ensures
            final(self).inv(),
            final(self).same_but_cursors(old(self)),
            final(self).counter == old(self).counter,
            r == old(self).cursors@.contains_key(*id),
            final(self).cursors@ == old(self).cursors@.remove(*id),
            final(self).fresh == old(self).fresh,
            if r {
                exists|i: int|
                    0 <= i < entries_of(old(self).recent).len() && (
                    #[trigger] entries_of(old(self).recent)[i]).0 == *id && entries_of(
                        final(self).recent,
                    ) == entries_of(old(self).recent).remove(i)
            } else {
                entries_of(final(self).recent) == entries_of(old(self).recent)
            },
    {
        broadcast use vstd::std_specs::hash::group_hash_axioms;

        let ghost before = *self;
        let ghost row = entries_of(self.recent);
        let was = recent_remove(&mut self.recent, id);
        self.cursors.remove(id);
        proof {
            assert(self.cursors@ =~= before.cursors@.remove(*id));
            if was is Some {
                let i = choose|i: int|
                    0 <= i < row.len() && #[trigger] row[i] == (*id, was->0) && entries_of(self.recent)
                        == row.remove(i);
                lemma_row_removed(row, before.cursors@, i);
                assert(before.cursors@.contains_key(row[i].0));
            } else if before.cursors@.contains_key(*id) {
                assert(has_id(row, *id));
            }
            assert forall|x: u64| #[trigger] self.cursors@.contains_key(x) implies cursor_ok(
                self.cursors@[x],
                &self.tree,
                self.fresh@.contains(x),
            ) by {
                assert(before.cursors@.contains_key(x));
            }
        }
        was.is_some()
    }
}

proof fn lemma_row_pushed(
    row: Seq<(u64, u32)>,
    cursors: Map<u64, DelegatedCursor>,
    id: u64,
    time: u32,
    d: DelegatedCursor,
)
    requires
        row_of(row, cursors),
        !has_id(row, id),
        d.timestamp == time,
    ensures
        row_of(row.push((id, time)), cursors.insert(id, d)),
{
    let after = row.push((id, time));
    let now = cursors.insert(id, d);
    let n = row.len() as int;
    assert(after[n] == (id, time));
    assert forall|i: int, j: int| 0 <= i < j < after.len() implies (#[trigger] after[i]).0 != (
    #[trigger] after[j]).0 by {
        assert(after[i] == row[i]);
        if j < n {
            assert(row[i].0 != row[j].0);
        }
    }
    assert forall|i: int| 0 <= i < after.len() implies {
        &&& now.contains_key((#[trigger] after[i]).0)
        &&& now[after[i].0].timestamp == after[i].1
    } by {
        if i < n {
            assert(after[i] == row[i]);
            assert(cursors.contains_key(row[i].0));
        }
    }
    assert forall|x: u64| #[trigger] now.contains_key(x) implies has_id(after, x) by {
        if x == id {
            assert(after[n].0 == x);
        } else {
            assert(has_id(row, x));
            let i = choose|i: int| 0 <= i < row.len() && (#[trigger] row[i]).0 == x;
            assert(after[i].0 == x);
        }
    }
}

proof fn lemma_row_removed(row: Seq<(u64, u32)>, cursors: Map<u64, DelegatedCursor>, i: int)
    requires
        row_of(row, cursors),
        0 <= i < row.len(),
    ensures
        row_of(row.remove(i), cursors.remove(row[i].0)),
{
    let after = row.remove(i);
    let now = cursors.remove(row[i].0);
    assert forall|a: int, b: int| 0 <= a < b < after.len() implies (#[trigger] after[a]).0 != (
    #[trigger] after[b]).0 by {
        let a0 = if a < i { a } else { a + 1 };
        let b0 = if b < i { b } else { b + 1 };
        assert(row[a0].0 != row[b0].0);
    }
    assert forall|a: int| 0 <= a < after.len() implies {
        &&& now.contains_key((#[trigger] after[a]).0)
        &&& now[after[a].0].timestamp == after[a].1
    } by {
        let a0 = if a < i { a } else { a + 1 };
        assert(after[a] == row[a0]);
        assert(cursors.contains_key(row[a0].0));
        if a0 < i {
            assert(row[a0].0 != row[i].0);
        } else {
            assert(row[i].0 != row[a0].0);
        }
    }
    assert forall|x: u64| #[trigger] now.contains_key(x) implies has_id(after, x) by {
        assert(has_id(row, x));
        let a0 = choose|a0: int| 0 <= a0 < row.len() && (#[trigger] row[a0]).0 == x;
        let a = if a0 < i { a0 } else { a0 - 1 };
        assert(after[a] == row[a0]);
    }
}

/// The tree changed and its cursors did not; they will be placed anew when they are used.
pub open spec fn cursors_kept(before: &LSMTreeIns, after: &LSMTreeIns) -> bool {
    &&& after.cursors == before.cursors
    &&& after.recent == before.recent
    &&& after.counter == before.counter
    &&& after.fresh@ == Set::<u64>::empty()
    &&& after.id == before.id
    &&& after.range == before.range
    &&& after.epoch == before.epoch
}

impl LSMTreeIns {
    /// The number of present keys in all levels.
    pub fn count(&self) -> (n: u64)
        requires
            self.inv(),
            self.tree.total() <= usize::MAX,
        ensures
            n == self.tree.total(),
    {
        self.tree.count() as u64
    }

    /// The bounds of the tree's range.
    pub fn range(&self) -> (r: (Vec<u8>, Vec<u8>))
        ensures
            r.0@ == self.range.0@,
            r.1@ == self.range.1@,
    {
        (self.range.0.to_vec(), self.range.1.to_vec())
    }

    /// Lets the levels that hold too many keys give pages away.
    pub fn check_and_merge(&mut self) -> (r: Result<(), usize>)
        requires
            old(self).inv(),
            old(self).tree.total() < usize::MAX,
        ensures
            final(self).inv(),
            cursors_kept(old(self), final(self)),
            final(self).tree.max_sizes == old(self).tree.max_sizes,
            match r {
                Ok(_) => steps_lead(
                    old(self).tree.trees@,
                    final(self).tree.trees@,
                    old(self).tree.max_sizes@,
                    final(self).tree.trees@.len() - 1,
                ),
                Err(k) => steps_lead(
                    old(self).tree.trees@,
                    final(self).tree.trees@,
                    old(self).tree.max_sizes@,
                    k as int,
                ),
            },
            r matches Err(k) ==> {
                &&& k < final(self).tree.trees@.len() - 1
                &&& final(self).tree.trees@[k as int].len > final(self).tree.max_sizes@[k as int]
                &&& !crate::index::btree::level::can_merge(&final(self).tree.trees@[k as int])
            },
            forall|k: Seq<u8>| #[trigger]
                in_levels(final(self).tree.trees@, k) <==> in_levels(old(self).tree.trees@, k),
    {
        self.fresh = HashSet::new();
        self.tree.check_and_merge()
    }

    /// Whether the last level holds more keys than it should.
    pub fn oversized(&self) -> (r: bool)
        requires
            self.inv(),
        ensures
            r == (self.tree.trees@.last().present().len() > self.tree.max_sizes@.last()),
    {
        self.tree.is_full()
    }

    /// Makes a key present in the first level; tells whether it was not before.
    pub fn insert(&mut self, key: EntryKey) -> (r: bool)
        requires
            old(self).inv(),
            old(self).tree.trees@[0].len < usize::MAX,
        ensures
            final(self).inv(),
            cursors_kept(old(self), final(self)),
            r == !old(self).tree.trees@[0].present().contains(key@),
            with_key(
                old(self).tree.trees@[0].present(),
                final(self).tree.trees@[0].present(),
                key@,
            ),
            forall|k: Seq<u8>| #[trigger]
                in_levels(final(self).tree.trees@, k) <==> k == key@ || in_levels(
                    old(self).tree.trees@,
                    k,
                ),
            final(self).tree.trees@ == old(self).tree.trees@.update(
                0,
                final(self).tree.trees@[0],
            ),
            final(self).tree.max_sizes == old(self).tree.max_sizes,
    {
        self.fresh = HashSet::new();
        self.tree.insert_key(&key)
    }

    /// Does an operation if the caller knows the tree's epoch.
    pub fn with_epoch_check<F, T>(&self, epoch: u64, f: F) -> (r: LSMTreeResult<T>) where
        F: FnOnce() -> T,

        requires
            epoch == self.epoch ==> call_requires(f, ()),
        ensures
            match r {
                LSMTreeResult::Done(t) => epoch == self.epoch && call_ensures(f, (), t),
                LSMTreeResult::EpochMismatch(own, given) => {
                    &&& epoch != self.epoch
                    &&& own == self.epoch
                    &&& given == epoch
                },
            },
    {
        if self.epoch != epoch {
            LSMTreeResult::EpochMismatch(self.epoch, epoch)
        } else {
            LSMTreeResult::Done(f())
        }
    }

    pub fn epoch(&self) -> (e: u64)
        ensures
            e == self.epoch,
    {
        self.epoch
    }

    pub fn set_epoch(&mut self, epoch: u64)
        requires
            old(self).inv(),
        ensures
            final(self).inv(),
            final(self).epoch == epoch,
            final(self).tree == old(self).tree,
            final(self).id == old(self).id,
            final(self).range == old(self).range,
            final(self).fresh == old(self).fresh,
            final(self).counter == old(self).counter,
            final(self).cursors == old(self).cursors,
            final(self).recent == old(self).recent,
    {
        self.epoch = epoch;
    }

    /// Makes every key of a run present in the last level.
    pub fn merge(&mut self, keys: &Vec<EntryKey>)
        requires
            old(self).inv(),
            old(self).tree.trees@.last().len + keys@.len() < usize::MAX,
        ensures
            final(self).inv(),
            cursors_kept(old(self), final(self)),
            final(self).tree.max_sizes == old(self).tree.max_sizes,
            final(self).tree.trees@ == old(self).tree.trees@.update(
                old(self).tree.trees@.len() - 1,
                final(self).tree.trees@.last(),
            ),
            final(self).tree.trees@.last().present().to_set() == old(
                self,
            ).tree.trees@.last().present().to_set().union(key_views(keys@).to_set()),
    {
        self.fresh = HashSet::new();
        self.tree.merge(keys);
    }

    /// Marks all keys from `start_key` on as deleted in all levels.
    pub fn remove_to_right(&mut self, start_key: &EntryKey)
        requires
            old(self).inv(),
        ensures
            final(self).inv(),
            cursors_kept(old(self), final(self)),
            final(self).tree.max_sizes == old(self).tree.max_sizes,
            final(self).tree.trees@.len() == old(self).tree.trees@.len(),
            forall|i: int, k: Seq<u8>|
                0 <= i < final(self).tree.trees@.len() ==> (
                #[trigger] final(self).tree.trees@[i].present().contains(k)
                    <==> old(self).tree.trees@[i].present().contains(k) && key_lt(k, start_key@)),
    {
        self.fresh = HashSet::new();
        self.tree.remove_to_right(start_key);
    }
}

/// A cursor is dropped only when it was not used for more than 300 seconds; time is told in
/// milliseconds. Those that are dropped are the first ones of the row, up to the first that was used
/// since.
pub proof fn lemma_expiry(row: Seq<(u64, u32)>, now: u32, i: int)
    ensures
        0 <= expired_count(row, now) <= row.len(),
        0 <= i < expired_count(row, now) ==> now - row[i].1 > 300000,
        expired_count(row, now) < row.len() ==> now - row[expired_count(row, now)].1 <= 300000,
    decreases row.len(),
{
    if row.len() > 0 {
        lemma_expiry(row.drop_first(), now, i - 1);
    }
}

/// A cursor that was used within the last 300 seconds stays, as it is.
pub proof fn lemma_recent_cursor_stays(
    row: Seq<(u64, u32)>,
    cursors: Map<u64, DelegatedCursor>,
    now: u32,
    id: u64,
)
    requires
        row_of(row, cursors),
        cursors.contains_key(id),
        now - cursors[id].timestamp <= 300000,
    ensures
        those_in(cursors, row.skip(expired_count(row, now))).contains_key(id),
        those_in(cursors, row.skip(expired_count(row, now)))[id] == cursors[id],
{
    let n = expired_count(row, now);
    assert(has_id(row, id));
    let i = choose|i: int| 0 <= i < row.len() && (#[trigger] row[i]).0 == id;
    lemma_expiry(row, now, i);
    assert(row.skip(n)[i - n].0 == id);
    assert(has_id(row.skip(n), id));
}

/// A cursor that comes in the row before all that were used within the last 300 seconds is dropped.
pub proof fn lemma_old_cursor_goes(
    row: Seq<(u64, u32)>,
    cursors: Map<u64, DelegatedCursor>,
    now: u32,
    i: int,
)
    requires
        row_of(row, cursors),
        0 <= i < row.len(),
        forall|j: int| 0 <= j <= i ==> now - (#[trigger] row[j]).1 > 300000,
    ensures
        !those_in(cursors, row.skip(expired_count(row, now))).contains_key(row[i].0),
{
    let n = expired_count(row, now);
    lemma_expiry(row, now, i);
    let kept = row.skip(n);
    assert(i < n) by {
        if n <= i {
            assert(now - row[n].1 > 300000);
        }
    }
    if has_id(kept, row[i].0) {
        let k = choose|k: int| 0 <= k < kept.len() && (#[trigger] kept[k]).0 == row[i].0;
        assert(kept[k] == row[n + k]);
    }
}

/// An id that moves to the back stands there with its new time; all others stay in their order.
pub proof fn lemma_moved_to_back(
    before: Seq<(u64, u32)>,
    after: Seq<(u64, u32)>,
    id: u64,
    time: u32,
) -> (i: int)
    requires
        moved_to_back(before, after, id, time),
    ensures
        0 <= i < before.len(),
        before[i].0 == id,
        after.len() == before.len(),
        after.last() == (id, time),
        forall|k: int| 0 <= k < i ==> #[trigger] after[k] == before[k],
        forall|k: int, m: int|
            i < k < before.len() && m == k - 1 ==> #[trigger] after[m] == #[trigger] before[k],
{
    choose|i: int|
        0 <= i < before.len() && (#[trigger] before[i]).0 == id && after == before.remove(i).push(
            (id, time),
        )
}

/// A change of the tree leaves the cursors, their order and all else as it is, but none of them is
/// taken to be at a right place any more.
pub proof fn lemma_change_leaves_cursors(before: &LSMTreeIns, after: &LSMTreeIns, id: u64)
    requires
        cursors_kept(before, after),
    ensures
        after.cursors == before.cursors,
        after.recent == before.recent,
        after.counter == before.counter,
        after.id == before.id,
        after.range == before.range,
        after.epoch == before.epoch,
        !after.fresh@.contains(id),
{
}

/// The use of cursors leaves the tree and all that is told of it as it is.
pub proof fn lemma_use_leaves_tree(before: &LSMTreeIns, after: &LSMTreeIns)
    requires
        after.same_but_cursors(before),
    ensures
        after.tree == before.tree,
        after.id == before.id,
        after.range == before.range,
        after.epoch == before.epoch,
{
}

} // verus!
