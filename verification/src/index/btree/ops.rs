//! What a level of a tree offers: keys come in, go, are counted and sought.
use super::cursor::{ScanOrder, RTCursor};
use super::insert::{first_id, lemma_root_covers, locate};
use super::node::{keys_of, ExtNode, NodeCellRef, NodeData};
use super::search::{
    found, lemma_root_stands, lemma_row, lemma_search_from_start, lemma_tree_keys_ascend, search_node,
    search_result,
};
use super::shape::{bounds, flat, leaf_at, link_at, row_ok, shape_ok};
use super::tree::{live, BPlusTree, DeletionSet};
use crate::index::key::{
    ascending, group_key_order, is_lower_bound, is_upper_bound, key_le, key_lt, key_views, EntryKey,
};
use crate::ram::types::Id;
use vstd::prelude::*;

verus! {

/// Keys that are live in one part of a run and then in the next are live in the run.
pub proof fn lemma_live_concat(a: Seq<Seq<u8>>, b: Seq<Seq<u8>>, deleted: Set<Seq<u8>>)
    ensures
        live(a + b, deleted) == live(a, deleted) + live(b, deleted),
    decreases a.len(),
{
    if a.len() == 0 {
        assert(a + b =~= b);
        assert(live(a, deleted) + live(b, deleted) =~= live(b, deleted));
    } else {
        lemma_live_concat(a.drop_first(), b, deleted);
        assert((a + b).drop_first() =~= a.drop_first() + b);
        assert((a + b)[0] == a[0]);
        if !deleted.contains(a[0]) {
            assert(seq![a[0]] + (live(a.drop_first(), deleted) + live(b, deleted)) =~= (seq![a[0]]
                + live(a.drop_first(), deleted)) + live(b, deleted));
        }
    }
}

/// Whether a key is live depends on no other key.
pub proof fn lemma_live_frame(keys: Seq<Seq<u8>>, d1: Set<Seq<u8>>, d2: Set<Seq<u8>>)
    requires
        forall|i: int| 0 <= i < keys.len() ==> d1.contains(#[trigger] keys[i]) == d2.contains(keys[i]),
    ensures
        live(keys, d1) == live(keys, d2),
    decreases keys.len(),
{
    if keys.len() > 0 {
        assert(d1.contains(keys[0]) == d2.contains(keys[0]));
        assert forall|i: int| 0 <= i < keys.drop_first().len() implies d1.contains(
            #[trigger] keys.drop_first()[i],
        ) == d2.contains(keys.drop_first()[i]) by {
            assert(keys.drop_first()[i] == keys[i + 1]);
        }
        lemma_live_frame(keys.drop_first(), d1, d2);
    }
}

/// The live keys are those that are held and not deleted.
pub proof fn lemma_live_contains(keys: Seq<Seq<u8>>, deleted: Set<Seq<u8>>, key: Seq<u8>)
    ensures
        live(keys, deleted).contains(key) <==> keys.contains(key) && !deleted.contains(key),
    decreases keys.len(),
{
    if keys.len() > 0 {
        let rest = keys.drop_first();
        lemma_live_contains(rest, deleted, key);
        assert(keys =~= seq![keys[0]] + rest);
        let l = live(rest, deleted);
        assert(keys.contains(key) <==> keys[0] == key || rest.contains(key)) by {
            if rest.contains(key) {
                let i = choose|i: int| 0 <= i < rest.len() && rest[i] == key;
                assert(keys[i + 1] == key);
            }
            if keys.contains(key) && keys[0] != key {
                let i = choose|i: int| 0 <= i < keys.len() && keys[i] == key;
                assert(rest[i - 1] == key);
            }
        }
        if !deleted.contains(keys[0]) {
            let s = seq![keys[0]] + l;
            assert(s.contains(key) <==> keys[0] == key || l.contains(key)) by {
                if keys[0] == key {
                    assert(s[0] == key);
                }
                if l.contains(key) {
                    let i = choose|i: int| 0 <= i < l.len() && l[i] == key;
                    assert(s[i + 1] == key);
                }
                if s.contains(key) && keys[0] != key {
                    let i = choose|i: int| 0 <= i < s.len() && s[i] == key;
                    assert(l[i - 1] == key);
                }
            }
        }
    } else {
        assert(!keys.contains(key));
        assert(!live(keys, deleted).contains(key));
    }
}

/// Every live key is a key that is held, so bounds on the keys are bounds on the live ones.
proof fn lemma_live_all_before(keys: Seq<Seq<u8>>, deleted: Set<Seq<u8>>, key: Seq<u8>)
    ensures
        (forall|i: int| 0 <= i < keys.len() ==> key_lt(#[trigger] keys[i], key)) ==> forall|i: int|
            0 <= i < live(keys, deleted).len() ==> key_lt(#[trigger] live(keys, deleted)[i], key),
        (forall|i: int| 0 <= i < keys.len() ==> key_le(key, #[trigger] keys[i])) ==> forall|i: int|
            0 <= i < live(keys, deleted).len() ==> key_le(key, #[trigger] live(keys, deleted)[i]),
{
    let l = live(keys, deleted);
    assert forall|i: int| 0 <= i < l.len() implies keys.contains(#[trigger] l[i]) by {
        lemma_live_contains(keys, deleted, l[i]);
        assert(l.contains(l[i]));
    }
    if forall|i: int| 0 <= i < keys.len() ==> key_lt(#[trigger] keys[i], key) {
        assert forall|i: int| 0 <= i < l.len() implies key_lt(#[trigger] l[i], key) by {
            let j = choose|j: int| 0 <= j < keys.len() && keys[j] == l[i];
            assert(key_lt(keys[j], key));
        }
    }
    if forall|i: int| 0 <= i < keys.len() ==> key_le(key, #[trigger] keys[i]) {
        assert forall|i: int| 0 <= i < l.len() implies key_le(key, #[trigger] l[i]) by {
            let j = choose|j: int| 0 <= j < keys.len() && keys[j] == l[i];
            assert(key_le(key, keys[j]));
        }
    }
}

/// The live keys with one more in its place.
pub open spec fn with_key(present: Seq<Seq<u8>>, after: Seq<Seq<u8>>, key: Seq<u8>) -> bool {
    if present.contains(key) {
        after == present
    } else {
        exists|q: int| #[trigger] is_lower_bound(present, key, q) && after == present.insert(q, key)
    }
}

/// The live keys without one.
pub open spec fn without_key(present: Seq<Seq<u8>>, after: Seq<Seq<u8>>, key: Seq<u8>) -> bool {
    if present.contains(key) {
        exists|q: int|
            0 <= q < present.len() && #[trigger] present[q] == key && after == present.remove(q)
    } else {
        after == present
    }
}

/// The live keys around a key that is held at `p`.
proof fn lemma_live_around(keys: Seq<Seq<u8>>, deleted: Set<Seq<u8>>, key: Seq<u8>, p: int)
    requires
        ascending(keys),
        0 <= p < keys.len(),
        keys[p] == key,
    ensures
        ({
            let a = live(keys.take(p), deleted);
            let b = live(keys.skip(p + 1), deleted);
            &&& live(keys, deleted.remove(key)) == a + (seq![key] + b)
            &&& live(keys, deleted.insert(key)) == a + b
            &&& live(keys, deleted) == if deleted.contains(key) {
                a + b
            } else {
                a + (seq![key] + b)
            }
            &&& is_lower_bound(a + b, key, a.len() as int)
        }),
{
    broadcast use group_key_order;

    let l = keys.take(p);
    let r = keys.skip(p + 1);
    let one = seq![key];
    assert(keys =~= l + (one + r));
    assert forall|i: int| 0 <= i < l.len() implies #[trigger] l[i] != key && key_lt(l[i], key) by {
        assert(key_lt(keys[i], keys[p]));
    }
    assert forall|i: int| 0 <= i < r.len() implies #[trigger] r[i] != key && key_le(key, r[i]) by {
        assert(key_lt(keys[p], keys[p + 1 + i]));
    }
    let with = deleted.insert(key);
    let without = deleted.remove(key);
    lemma_live_frame(l, deleted, with);
    lemma_live_frame(l, deleted, without);
    lemma_live_frame(r, deleted, with);
    lemma_live_frame(r, deleted, without);
    lemma_live_three(l, one, r, deleted);
    lemma_live_three(l, one, r, with);
    lemma_live_three(l, one, r, without);
    lemma_live_one(key, deleted);
    lemma_live_one(key, with);
    lemma_live_one(key, without);
    let a = live(l, deleted);
    let b = live(r, deleted);
    assert(Seq::<Seq<u8>>::empty() + b =~= b);
    lemma_live_all_before(l, deleted, key);
    lemma_live_all_before(r, deleted, key);
    lemma_lower_bound_of_parts(a, b, key);
}

proof fn lemma_lower_bound_of_parts(a: Seq<Seq<u8>>, b: Seq<Seq<u8>>, key: Seq<u8>)
    requires
        forall|i: int| 0 <= i < a.len() ==> key_lt(#[trigger] a[i], key),
        forall|i: int| 0 <= i < b.len() ==> key_le(key, #[trigger] b[i]),
    ensures
        is_lower_bound(a + b, key, a.len() as int),
{
    let s = a + b;
    assert forall|i: int| 0 <= i < a.len() implies key_lt(#[trigger] s[i], key) by {
        assert(s[i] == a[i]);
    }
    assert forall|i: int| a.len() <= i < s.len() implies key_le(key, #[trigger] s[i]) by {
        assert(s[i] == b[i - a.len()]);
    }
}

proof fn lemma_live_three(
    l: Seq<Seq<u8>>,
    m: Seq<Seq<u8>>,
    r: Seq<Seq<u8>>,
    deleted: Set<Seq<u8>>,
)
    ensures
        live(l + (m + r), deleted) == live(l, deleted) + (live(m, deleted) + live(r, deleted)),
{
    lemma_live_concat(l, m + r, deleted);
    lemma_live_concat(m, r, deleted);
}

pub proof fn lemma_live_one(key: Seq<u8>, deleted: Set<Seq<u8>>)
    ensures
        live(seq![key], deleted) == if deleted.contains(key) {
            Seq::<Seq<u8>>::empty()
        } else {
            seq![key]
        },
{
    let one = seq![key];
    assert(one.drop_first() =~= Seq::<Seq<u8>>::empty());
    assert(live(one.drop_first(), deleted) == Seq::<Seq<u8>>::empty());
    assert(seq![key] + Seq::<Seq<u8>>::empty() =~= seq![key]);
}

/// The live keys when a key that is not held comes in.
proof fn lemma_live_new(keys: Seq<Seq<u8>>, deleted: Set<Seq<u8>>, key: Seq<u8>, p: int)
    requires
        ascending(keys),
        !keys.contains(key),
        is_lower_bound(keys, key, p),
    ensures
        ({
            let q = live(keys.take(p), deleted).len() as int;
            let present = live(keys, deleted);
            &&& is_lower_bound(present, key, q)
            &&& live(keys.insert(p, key), deleted.remove(key)) == present.insert(q, key)
        }),
{
    let l = keys.take(p);
    let r = keys.skip(p);
    let one = seq![key];
    assert(keys =~= l + r);
    assert(keys.insert(p, key) =~= l + (one + r));
    let d = deleted.remove(key);
    assert forall|i: int| 0 <= i < l.len() implies #[trigger] l[i] != key && key_lt(l[i], key) by {
        assert(keys[i] == l[i]);
    }
    assert forall|i: int| 0 <= i < r.len() implies #[trigger] r[i] != key && key_le(key, r[i]) by {
        assert(keys[p + i] == r[i]);
    }
    lemma_live_frame(l, deleted, d);
    lemma_live_frame(r, deleted, d);
    lemma_live_concat(l, r, deleted);
    lemma_live_three(l, one, r, d);
    lemma_live_one(key, d);
    let a = live(l, deleted);
    let b = live(r, deleted);
    lemma_live_all_before(l, deleted, key);
    lemma_live_all_before(r, deleted, key);
    lemma_lower_bound_of_parts(a, b, key);
    assert(a + (one + b) =~= (a + b).insert(a.len() as int, key));
}

/// What holding a key or not does to the live keys.
proof fn lemma_with_key(keys: Seq<Seq<u8>>, deleted: Set<Seq<u8>>, key: Seq<u8>, p: int)
    requires
        ascending(keys),
        0 <= p < keys.len(),
        keys[p] == key,
    ensures
        with_key(live(keys, deleted), live(keys, deleted.remove(key)), key),
        live(keys, deleted.remove(key)).len() == live(keys, deleted).len() + if deleted.contains(
            key,
        ) {
            1int
        } else {
            0int
        },
        without_key(live(keys, deleted), live(keys, deleted.insert(key)), key),
        live(keys, deleted.insert(key)).len() == live(keys, deleted).len() - if deleted.contains(
            key,
        ) {
            0int
        } else {
            1int
        },
{
    lemma_live_around(keys, deleted, key, p);
    lemma_live_contains(keys, deleted, key);
    let a = live(keys.take(p), deleted);
    let b = live(keys.skip(p + 1), deleted);
    let q = a.len() as int;
    assert(a + (seq![key] + b) =~= (a + b).insert(q, key));
    assert((a + (seq![key] + b)).remove(q) =~= a + b);
    assert((a + (seq![key] + b))[q] == key);
    if deleted.contains(key) {
        assert(is_lower_bound(live(keys, deleted), key, q));
    } else {
        assert(live(keys, deleted)[q] == key);
    }
}

impl BPlusTree {
    /// The tree is as it should be: its count is that of its present keys, and its first page has
    /// the id by which storage finds the tree.
    pub open spec fn inv(&self) -> bool {
        &&& self.wf()
        &&& self.len == self.present().len()
        &&& first_id(self.nodes@, self.rows@) == self.head_page_id
    }

    /// A tree of one empty page.
    pub fn new(page_size: usize, head_page_id: Id) -> (tree: BPlusTree)
        requires
            page_size >= 2,
        ensures
            tree.inv(),
            tree.keys() == Seq::<Seq<u8>>::empty(),
            tree.deleted@ == Set::<Seq<u8>>::empty(),
            tree.page_size == page_size,
            tree.head_page_id == head_page_id,
            tree.changed@.len() == 0,
    {
        let page = ExtNode::new(head_page_id);
        let ghost pg = page;
        let mut nodes: Vec<NodeData> = Vec::new();
        nodes.push(NodeData::External(page));
        let ghost rows = seq![seq![0int]];
        let tree = BPlusTree {
            nodes,
            root: 0,
            page_size,
            len: 0,
            deleted: DeletionSet::new(),
            head_page_id,
            changed: Vec::new(),
            rows: Ghost(rows),
        };
        proof {
            let row = seq![0int];
            assert(bounds(tree.nodes@, row) =~= seq![None::<Seq<u8>>]);
            assert(link_at(tree.nodes@, row, 0));
            assert(row_ok(tree.nodes@, row, true));
            assert(leaf_at(tree.nodes@, row, page_size as int, 0));
            assert(shape_ok(tree.nodes@, rows, page_size as int)) by {
                reveal(shape_ok);
            }
            let none = Seq::<int>::empty();
            assert(row.drop_first() =~= none);
            assert(flat(tree.nodes@, none) == Seq::<Seq<u8>>::empty());
            assert(flat(tree.nodes@, row) == keys_of(tree.nodes@[0]) + flat(tree.nodes@, none));
            assert(flat(tree.nodes@, row) =~= Seq::<Seq<u8>>::empty());
        }
        tree
    }

    /// Whether a page holds the key, deleted or not.
    pub fn holds(&self, key: &EntryKey) -> (r: bool)
        requires
            self.wf(),
        ensures
            r == self.keys().contains(key@),
    {
        let (slot, q) = locate(self, key);
        let ghost i = choose|i: int|
            #[trigger] found(self, key@, i, q as int) && slot == self.leaves()[i];
        proof {
            lemma_root_covers(self, key@);
            lemma_row(self, 0, i);
            super::cursor::lemma_leaf_keys_in_flat(self, i);
            super::search::lemma_found_in_tree(self, key@, i, q as int);
        }
        match &self.nodes[slot] {
            NodeData::External(page) => {
                let r = q < page.keys.len() && page.keys[q].same(key);
                proof {
                    let at = super::cursor::offset(self, i) + q;
                    let here = keys_of(self.nodes@[slot as int]);
                    if r {
                        assert(here[q as int] == key@);
                        assert(self.keys()[at] == key@);
                    } else if self.keys().contains(key@) {
                        broadcast use group_key_order;

                        lemma_tree_keys_ascend(self);
                        let p = choose|p: int| 0 <= p < self.keys().len() && self.keys()[p] == key@;
                        assert(p == at) by {
                            if p < at {
                                assert(key_lt(self.keys()[p], key@));
                            } else if p > at {
                                assert(key_le(key@, self.keys()[at]));
                                assert(key_lt(self.keys()[at], self.keys()[p]));
                            }
                        }
                        super::search::lemma_same_place(self, key@, i, q as int);
                        assert(here[q as int] == page.keys@[q as int]@);
                    }
                }
                r
            },
            _ => {
                assert(false);
                false
            },
        }
    }

    /// Makes a key present; tells whether it was not before.
    pub fn insert_into(&mut self, key: &EntryKey) -> (r: bool)
        requires
            old(self).inv(),
            old(self).len < usize::MAX,
        ensures
            final(self).inv(),
            r == !old(self).present().contains(key@),
            with_key(old(self).keys(), final(self).keys(), key@),
            with_key(old(self).present(), final(self).present(), key@),
            final(self).deleted@ == old(self).deleted@.remove(key@),
            final(self).page_size == old(self).page_size,
            final(self).head_page_id == old(self).head_page_id,
            final(self).changed == old(self).changed,
    {
        let ghost t0 = *self;
        let ghost k = key@;
        let ghost keys = self.keys();
        proof {
            lemma_tree_keys_ascend(self);
            lemma_live_contains(keys, self.deleted@, k);
        }
        let gone = self.deleted.contains(key);
        if self.holds(key) {
            if gone {
                self.deleted.remove(key);
                self.len = self.len + 1;
            }
            proof {
                let p = choose|p: int| 0 <= p < keys.len() && keys[p] == k;
                lemma_with_key(keys, t0.deleted@, k, p);
                assert(t0.deleted@.remove(k) =~= self.deleted@);
            }
            gone
        } else {
            let ghost p = lemma_place(keys, k);
            self.add_key(key.duplicate());
            if gone {
                self.deleted.remove(key);
            }
            self.len = self.len + 1;
            proof {
                assert(is_lower_bound(keys, k, p));
                assert(self.keys() == keys.insert(p, k));
                assert(t0.deleted@.remove(k) =~= self.deleted@);
                lemma_live_new(keys, t0.deleted@, k, p);
            }
            true
        }
    }

    /// Marks a present key as deleted; tells whether it was present.
    pub fn mark_key_deleted(&mut self, key: &EntryKey) -> (r: bool)
        requires
            old(self).inv(),
        ensures
            final(self).inv(),
            r == old(self).present().contains(key@),
            final(self).keys() == old(self).keys(),
            without_key(old(self).present(), final(self).present(), key@),
            final(self).deleted@ == if r {
                old(self).deleted@.insert(key@)
            } else {
                old(self).deleted@
            },
            final(self).page_size == old(self).page_size,
            final(self).head_page_id == old(self).head_page_id,
            final(self).changed == old(self).changed,
    {
        let ghost t0 = *self;
        let ghost k = key@;
        let ghost keys = self.keys();
        proof {
            lemma_tree_keys_ascend(self);
            lemma_live_contains(keys, self.deleted@, k);
        }
        if self.deleted.contains(key) || !self.holds(key) {
            return false;
        }
        proof {
            let p = choose|p: int| 0 <= p < keys.len() && keys[p] == k;
            lemma_with_key(keys, t0.deleted@, k, p);
            let l = live(keys, t0.deleted@);
            assert(l.contains(k));
        }
        self.deleted.insert(key.duplicate());
        self.len = self.len - 1;
        true
    }

    /// A cursor at the place of a key.
    pub fn seek_for(&self, key: &EntryKey, ordering: ScanOrder) -> (c: RTCursor)
        requires
            self.wf(),
        ensures
            c.wf(self),
            c.ordering == ordering,
            search_result(self, key@, ordering, c),
    {
        proof {
            lemma_root_stands(self);
        }
        let c = search_node(self, NodeCellRef::Slot(self.root), key, ordering);
        proof {
            lemma_search_from_start(self, key@, ordering, c);
        }
        c
    }

    /// How many keys are present.
    pub fn count(&self) -> (n: usize)
        requires
            self.inv(),
        ensures
            n == self.present().len(),
    {
        self.len
    }

    /// The present key in the middle, the later one of two.
    pub fn mid_key(&self) -> (r: Option<EntryKey>)
        requires
            self.inv(),
        ensures
            self.len == 0 ==> r is None,
            self.len > 0 ==> (r matches Some(k) && k@ == self.present()[self.len as int / 2]),
    {
        if self.len == 0 {
            return None;
        }
        let mid: usize = self.len / 2;
        let first = EntryKey::from_slice(&[]);
        let mut c = self.seek_for(&first, ScanOrder::Forward);
        let ghost all = self.present();
        proof {
            lemma_all_from_empty(self, first@);
            super::search::lemma_forward_search(self, first@, c, 0);
            assert(self.keys().skip(0) =~= self.keys());
            assert(all.skip(0) =~= all);
        }
        let mut i: usize = 0;
        while i < mid
            invariant
                self.inv(),
                c.wf(self),
                i <= mid < all.len(),
                all == self.present(),
                c.ahead(self) == all.skip(i as int),
            decreases mid - i,
        {
            c.next(self);
            i += 1;
            assert(all.skip(i - 1).drop_first() =~= all.skip(i as int));
        }
        match c.current(self) {
            Some(k) => Some(k.duplicate()),
            None => {
                assert(false);
                None
            },
        }
    }

    /// Makes every key of a run present.
    pub fn merge_with_keys(&mut self, keys: &Vec<EntryKey>)
        requires
            old(self).inv(),
            old(self).len + keys@.len() < usize::MAX,
        ensures
            final(self).inv(),
            final(self).keys().to_set() == old(self).keys().to_set().union(
                key_views(keys@).to_set(),
            ),
            final(self).deleted@ == old(self).deleted@.difference(key_views(keys@).to_set()),
            final(self).present().to_set() == old(self).present().to_set().union(
                key_views(keys@).to_set(),
            ),
            final(self).len <= old(self).len + keys@.len(),
            final(self).page_size == old(self).page_size,
            final(self).head_page_id == old(self).head_page_id,
            final(self).changed == old(self).changed,
    {
        let ghost t0 = *self;
        let ghost views = key_views(keys@);
        let mut i: usize = 0;
        proof {
            assert(views.take(0).to_set() =~= Set::<Seq<u8>>::empty());
            assert(t0.keys().to_set().union(views.take(0).to_set()) =~= t0.keys().to_set());
            assert(t0.deleted@.difference(views.take(0).to_set()) =~= t0.deleted@);
        }
        while i < keys.len()
            invariant
                i <= keys@.len(),
                views == key_views(keys@),
                self.inv(),
                self.len <= t0.len + i,
                t0.len + keys@.len() < usize::MAX,
                self.keys().to_set() == t0.keys().to_set().union(views.take(i as int).to_set()),
                self.deleted@ == t0.deleted@.difference(views.take(i as int).to_set()),
                self.page_size == t0.page_size,
                self.head_page_id == t0.head_page_id,
                self.changed == t0.changed,
            decreases keys@.len() - i,
        {
            let ghost t1 = *self;
            let key = &keys[i];
            self.insert_into(key);
            proof {
                let k = key@;
                assert(views[i as int] == k);
                lemma_with_key_set(t1.keys(), self.keys(), k);
                lemma_with_key_len(t1.present(), self.present(), k);
                lemma_take_set(views, i as int);
                assert(self.keys().to_set() =~= t0.keys().to_set().union(
                    views.take(i + 1).to_set(),
                ));
                assert(self.deleted@ =~= t0.deleted@.difference(views.take(i + 1).to_set()));
            }
            i += 1;
        }
        proof {
            assert(views.take(i as int) =~= views);
            assert forall|k: Seq<u8>| self.present().to_set().contains(k) <==> t0.present().to_set().union(
                views.to_set(),
            ).contains(k) by {
                lemma_live_contains(self.keys(), self.deleted@, k);
                lemma_live_contains(t0.keys(), t0.deleted@, k);
                assert(self.keys().to_set().contains(k) == self.keys().contains(k));
                assert(t0.keys().to_set().contains(k) == t0.keys().contains(k));
            }
            assert(self.present().to_set() =~= t0.present().to_set().union(views.to_set()));
        }
    }
}

/// The place behind a key among ascending keys.
pub proof fn lemma_place_after(keys: Seq<Seq<u8>>, key: Seq<u8>) -> (p: int)
    requires
        ascending(keys),
    ensures
        is_upper_bound(keys, key, p),
{
    broadcast use group_key_order;

    let q = lemma_place(keys, key);
    if q < keys.len() && keys[q] == key {
        q + 1
    } else {
        q
    }
}

/// A key's place among ascending keys.
pub proof fn lemma_place(keys: Seq<Seq<u8>>, key: Seq<u8>) -> (p: int)
    requires
        ascending(keys),
    ensures
        is_lower_bound(keys, key, p),
    decreases keys.len(),
{
    broadcast use group_key_order;

    if keys.len() == 0 {
        0
    } else {
        let last = keys.last();
        if key_lt(last, key) {
            let p = keys.len() as int;
            assert forall|i: int| 0 <= i < p implies key_lt(#[trigger] keys[i], key) by {
                if i < p - 1 {
                    assert(key_lt(keys[i], keys[p - 1]));
                }
            }
            p
        } else {
            let front = keys.drop_last();
            assert forall|i: int, j: int| 0 <= i < j < front.len() implies key_lt(
                #[trigger] front[i],
                #[trigger] front[j],
            ) by {
                assert(key_lt(keys[i], keys[j]));
            }
            let p = lemma_place(front, key);
            assert forall|i: int| 0 <= i < p implies key_lt(#[trigger] keys[i], key) by {
                assert(keys[i] == front[i]);
            }
            assert forall|i: int| p <= i < keys.len() implies key_le(key, #[trigger] keys[i]) by {
                if i < front.len() {
                    assert(keys[i] == front[i]);
                }
            }
            p
        }
    }
}

/// All keys come after the empty key or are it.
proof fn lemma_all_from_empty(tree: &BPlusTree, key: Seq<u8>)
    requires
        tree.wf(),
        key.len() == 0,
    ensures
        is_lower_bound(tree.keys(), key, 0),
{
    broadcast use group_key_order;

}

proof fn lemma_with_key_set(before: Seq<Seq<u8>>, after: Seq<Seq<u8>>, key: Seq<u8>)
    requires
        with_key(before, after, key),
    ensures
        after.to_set() == before.to_set().insert(key),
{
    if before.contains(key) {
        assert(before.to_set().insert(key) =~= before.to_set());
    } else {
        let q = choose|q: int| #[trigger] is_lower_bound(before, key, q) && after == before.insert(q, key);
        assert forall|k: Seq<u8>| after.to_set().contains(k) <==> before.to_set().insert(key).contains(
            k,
        ) by {
            if after.contains(k) {
                let i = choose|i: int| 0 <= i < after.len() && after[i] == k;
                if i < q {
                    assert(before[i] == k);
                } else if i > q {
                    assert(before[i - 1] == k);
                }
            }
            if before.contains(k) {
                let i = choose|i: int| 0 <= i < before.len() && before[i] == k;
                assert(after[if i < q { i } else { i + 1 }] == k);
            }
            assert(after[q] == key);
        }
        assert(after.to_set() =~= before.to_set().insert(key));
    }
}

proof fn lemma_with_key_len(before: Seq<Seq<u8>>, after: Seq<Seq<u8>>, key: Seq<u8>)
    requires
        with_key(before, after, key),
    ensures
        after.len() <= before.len() + 1,
{
}

pub proof fn lemma_take_set(s: Seq<Seq<u8>>, i: int)
    requires
        0 <= i < s.len(),
    ensures
        s.take(i + 1).to_set() == s.take(i).to_set().insert(s[i]),
{
    let a = s.take(i);
    let b = s.take(i + 1);
    assert forall|k: Seq<u8>| b.to_set().contains(k) <==> a.to_set().insert(s[i]).contains(k) by {
        if b.contains(k) {
            let j = choose|j: int| 0 <= j < b.len() && b[j] == k;
            if j < i {
                assert(a[j] == k);
            }
        }
        if a.contains(k) {
            let j = choose|j: int| 0 <= j < a.len() && a[j] == k;
            assert(b[j] == k);
        }
        assert(b[i] == s[i]);
    }
    assert(b.to_set() =~= a.to_set().insert(s[i]));
}

/// The live ones of ascending keys ascend.
pub proof fn lemma_live_ascends(keys: Seq<Seq<u8>>, deleted: Set<Seq<u8>>)
    requires
        ascending(keys),
    ensures
        ascending(live(keys, deleted)),
        forall|i: int| 0 <= i < live(keys, deleted).len() ==> keys.contains(#[trigger] live(keys, deleted)[i]),
    decreases keys.len(),
{
    if keys.len() > 0 {
        let rest = keys.drop_first();
        assert forall|i: int, j: int| 0 <= i < j < rest.len() implies key_lt(
            #[trigger] rest[i],
            #[trigger] rest[j],
        ) by {
            assert(key_lt(keys[i + 1], keys[j + 1]));
        }
        lemma_live_ascends(rest, deleted);
        let l = live(keys, deleted);
        let m = live(rest, deleted);
        assert forall|i: int| 0 <= i < l.len() implies keys.contains(#[trigger] l[i]) by {
            if deleted.contains(keys[0]) || i > 0 {
                let k = if deleted.contains(keys[0]) { i } else { i - 1 };
                assert(l[i] == m[k]);
                let q = choose|q: int| 0 <= q < rest.len() && rest[q] == m[k];
                assert(keys[q + 1] == l[i]);
            } else {
                assert(l[0] == keys[0]);
            }
        }
        assert forall|i: int, j: int| 0 <= i < j < l.len() implies key_lt(
            #[trigger] l[i],
            #[trigger] l[j],
        ) by {
            if deleted.contains(keys[0]) {
                assert(l[i] == m[i] && l[j] == m[j]);
            } else {
                assert(l[j] == m[j - 1]);
                if i == 0 {
                    let q = choose|q: int| 0 <= q < rest.len() && rest[q] == m[j - 1];
                    assert(key_lt(keys[0], keys[q + 1]));
                } else {
                    assert(l[i] == m[i - 1]);
                }
            }
        }
    }
}

/// The present keys of a tree ascend.
pub proof fn lemma_present_ascends(tree: &BPlusTree)
    requires
        tree.wf(),
    ensures
        ascending(tree.present()),
{
    lemma_tree_keys_ascend(tree);
    lemma_live_ascends(tree.keys(), tree.deleted@);
}

/// With a key made present, that key and those before are present, and no others.
pub proof fn lemma_with_key_contains(
    before: Seq<Seq<u8>>,
    after: Seq<Seq<u8>>,
    key: Seq<u8>,
    other: Seq<u8>,
)
    requires
        with_key(before, after, key),
    ensures
        after.contains(other) <==> other == key || before.contains(other),
{
    if !before.contains(key) {
        let q = choose|q: int| #[trigger] is_lower_bound(before, key, q) && after == before.insert(q, key);
        assert(after[q] == key);
        if before.contains(other) {
            let i = choose|i: int| 0 <= i < before.len() && before[i] == other;
            assert(after[if i < q { i } else { i + 1 }] == other);
        }
        if after.contains(other) && other != key {
            let i = choose|i: int| 0 <= i < after.len() && after[i] == other;
            assert(before[if i < q { i } else { i - 1 }] == other);
        }
    }
}

/// Without a key, all others that were present are, and no more.
pub proof fn lemma_without_key_contains(
    before: Seq<Seq<u8>>,
    after: Seq<Seq<u8>>,
    key: Seq<u8>,
    other: Seq<u8>,
)
    requires
        ascending(before),
        without_key(before, after, key),
    ensures
        after.contains(other) <==> other != key && before.contains(other),
{
    broadcast use group_key_order;

    if before.contains(key) {
        let q = choose|q: int|
            0 <= q < before.len() && #[trigger] before[q] == key && after == before.remove(q);
        if after.contains(other) {
            let i = choose|i: int| 0 <= i < after.len() && after[i] == other;
            let j = if i < q { i } else { i + 1 };
            assert(before[j] == other);
            if j < q {
                assert(key_lt(before[j], before[q]));
            } else {
                assert(key_lt(before[q], before[j]));
            }
        }
        if before.contains(other) && other != key {
            let i = choose|i: int| 0 <= i < before.len() && before[i] == other;
            assert(after[if i < q { i } else { i - 1 }] == other);
        }
    }
}

} // verus!
