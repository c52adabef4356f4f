//! Tree nodes and the references between them.
use crate::index::key::{ascending, key_lt, key_views, upper_bound, EntryKey};
use crate::ram::types::Id;
use vstd::prelude::*;

verus! {

/// A reference to a node: to none, to a slot of the arena, or to a stored page by its id.
#[derive(Clone, Copy, Debug, PartialEq, Eq, Structural)]
pub enum NodeCellRef {
    Nil,
    Slot(usize),
    Page(Id),
}

/// A leaf page.
pub struct ExtNode {
    pub id: Id,
    pub keys: Vec<EntryKey>,
    pub next: NodeCellRef,
    pub prev: NodeCellRef,
    pub dirty: bool,
    /// The key from which on keys belong to pages further right.
    pub right_bound: Option<EntryKey>,
}

/// An inner node: `keys[i]` parts the keys under `ptrs[i]` from those under `ptrs[i + 1]`.
pub struct InNode {
    pub keys: Vec<EntryKey>,
    pub ptrs: Vec<NodeCellRef>,
    pub right: NodeCellRef,
    pub right_bound: Option<EntryKey>,
}

/// What is left of a node whose contents moved away.
pub struct EmptyNode {
    pub left: Option<NodeCellRef>,
    pub right: NodeCellRef,
}

pub enum NodeData {
    External(ExtNode),
    Internal(InNode),
    Empty(EmptyNode),
    Nil,
}

/// What an inner node holds, keys by their bytes.
#[verifier::ext_equal]
pub struct InView {
    pub keys: Seq<Seq<u8>>,
    pub ptrs: Seq<NodeCellRef>,
    pub right: NodeCellRef,
    pub bound: Option<Seq<u8>>,
}

/// What a leaf page holds, keys by their bytes.
#[verifier::ext_equal]
pub struct ExtView {
    pub id: Id,
    pub keys: Seq<Seq<u8>>,
    pub next: NodeCellRef,
    pub prev: NodeCellRef,
    pub dirty: bool,
    pub bound: Option<Seq<u8>>,
}

pub open spec fn opt_key(key: Option<EntryKey>) -> Option<Seq<u8>> {
    match key {
        Some(k) => Some(k@),
        None => None,
    }
}

impl View for InNode {
    type V = InView;

    open spec fn view(&self) -> InView {
        InView {
            keys: key_views(self.keys@),
            ptrs: self.ptrs@,
            right: self.right,
            bound: opt_key(self.right_bound),
        }
    }
}

impl View for ExtNode {
    type V = ExtView;

    open spec fn view(&self) -> ExtView {
        ExtView {
            id: self.id,
            keys: key_views(self.keys@),
            next: self.next,
            prev: self.prev,
            dirty: self.dirty,
            bound: opt_key(self.right_bound),
        }
    }
}

/// The key comes before the bound; no bound means that every key does.
pub open spec fn below(key: Seq<u8>, bound: Option<Seq<u8>>) -> bool {
    match bound {
        Some(b) => key_lt(key, b),
        None => true,
    }
}

/// The first bound comes before the second one.
pub open spec fn bound_lt(a: Option<Seq<u8>>, b: Option<Seq<u8>>) -> bool {
    match a {
        Some(k) => below(k, b),
        None => false,
    }
}

pub open spec fn bound_of(n: NodeData) -> Option<Seq<u8>> {
    match n {
        NodeData::External(e) => e@.bound,
        NodeData::Internal(i) => i@.bound,
        _ => None,
    }
}

pub open spec fn right_of(n: NodeData) -> NodeCellRef {
    match n {
        NodeData::External(e) => e.next,
        NodeData::Internal(i) => i.right,
        NodeData::Empty(e) => e.right,
        NodeData::Nil => NodeCellRef::Nil,
    }
}

pub open spec fn keys_of(n: NodeData) -> Seq<Seq<u8>> {
    match n {
        NodeData::External(e) => e@.keys,
        NodeData::Internal(i) => i@.keys,
        _ => Seq::empty(),
    }
}

pub open spec fn ptrs_of(n: NodeData) -> Seq<NodeCellRef> {
    match n {
        NodeData::Internal(i) => i.ptrs@,
        _ => Seq::empty(),
    }
}

pub open spec fn pad(padding: bool) -> int {
    if padding {
        1
    } else {
        0
    }
}

/// A copy of a bound.
pub fn duplicate_bound(bound: &Option<EntryKey>) -> (out: Option<EntryKey>)
    ensures
        opt_key(out) == opt_key(*bound),
{
    match bound {
        Some(k) => Some(k.duplicate()),
        None => None,
    }
}

/// Whether `key` comes before the bound.
pub fn is_below(key: &EntryKey, bound: &Option<EntryKey>) -> (r: bool)
    ensures
        r == below(key@, opt_key(*bound)),
{
    match bound {
        Some(b) => key.before(b),
        None => true,
    }
}

pub proof fn lemma_views_insert(keys: Seq<EntryKey>, pos: int, key: EntryKey)
    requires
        0 <= pos <= keys.len(),
    ensures
        key_views(keys.insert(pos, key)) == key_views(keys).insert(pos, key@),
{
    assert(key_views(keys.insert(pos, key)) =~= key_views(keys).insert(pos, key@));
}

impl InNode {
    /// The position of the child whose range holds `key`: the number of keys up to and with it.
    pub fn search(&self, key: &EntryKey) -> (pos: usize)
        requires
            ascending(self@.keys) || crate::index::key::not_descending(self@.keys),
        ensures
            crate::index::key::is_upper_bound(self@.keys, key@, pos as int),
    {
        upper_bound(&self.keys, key)
    }

    /// Puts `key` at `pos` and `node` there or, with `padding`, one further right.
    pub fn insert_in_place(&mut self, key: EntryKey, node: NodeCellRef, pos: usize, padding: bool)
        requires
            pos <= old(self).keys@.len(),
            pos + pad(padding) <= old(self).ptrs@.len(),
        ensures
            final(self)@ == (InView {
                keys: old(self)@.keys.insert(pos as int, key@),
                ptrs: old(self)@.ptrs.insert(pos + pad(padding), node),
                ..old(self)@
            }),
    {
        proof {
            lemma_views_insert(self.keys@, pos as int, key);
            assert(self.ptrs.len() == self.ptrs@.len());
        }
        self.keys.insert(pos, key);
        if padding {
            self.ptrs.insert(pos + 1, node);
        } else {
            self.ptrs.insert(pos, node);
        }
    }

    /// Inserts as `insert_in_place` does, then moves the upper half to a new node, whose slot will
    /// be `new_slot`. The key in the middle parts the two and is returned with the new node.
    pub fn split_insert(
        &mut self,
        key: EntryKey,
        node: NodeCellRef,
        pos: usize,
        padding: bool,
        new_slot: usize,
    ) -> (r: (InNode, EntryKey))
        requires
            pos <= old(self).keys@.len(),
            pos + pad(padding) <= old(self).ptrs@.len(),
            old(self).ptrs@.len() == old(self).keys@.len() + 1,
        ensures
            ({
                let keys = old(self)@.keys.insert(pos as int, key@);
                let ptrs = old(self)@.ptrs.insert(pos + pad(padding), node);
                let mid = old(self)@.keys.len() as int / 2;
                &&& r.1@ == keys[mid]
                &&& final(self)@ == (InView {
                    keys: keys.take(mid),
                    ptrs: ptrs.take(mid + 1),
                    right: NodeCellRef::Slot(new_slot),
                    bound: Some(keys[mid]),
                })
                &&& r.0@ == (InView {
                    keys: keys.skip(mid + 1),
                    ptrs: ptrs.skip(mid + 1),
                    right: old(self)@.right,
                    bound: old(self)@.bound,
                })
            }),
    {
        let mid: usize = self.keys.len() / 2;
        let ghost old_self = *self;
        self.insert_in_place(key, node, pos, padding);
        let ghost full = self@;
        let ghost full_keys = self.keys@;
        let upper_keys = self.keys.split_off(mid + 1);
        let upper_ptrs = self.ptrs.split_off(mid + 1);
        let pivot = self.keys.remove(mid);
        let mut bound = Some(pivot.duplicate());
        std::mem::swap(&mut self.right_bound, &mut bound);
        let right = self.right;
        self.right = NodeCellRef::Slot(new_slot);
        let upper = InNode { keys: upper_keys, ptrs: upper_ptrs, right, right_bound: bound };
        proof {
            assert(key_views(self.keys@) =~= full.keys.take(mid as int));
            assert(key_views(upper.keys@) =~= full.keys.skip(mid + 1));
            assert(self.ptrs@ =~= full.ptrs.take(mid + 1));
            assert(upper.ptrs@ =~= full.ptrs.skip(mid + 1));
        }
        (upper, pivot)
    }
}

} // verus!
