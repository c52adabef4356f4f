//! Leaf pages: their keys, their neighbours and their stored form.
use super::node::{bound_of, keys_of, ExtNode, ExtView, NodeCellRef, NodeData};
use super::shape::{in_arena, slot_ref};
use super::tree::BPlusTree;
use crate::index::key::{key_views, EntryKey};
use crate::ram::types::Id;
use vstd::prelude::*;

verus! {

/// A page as a cell holds it: neighbours by their ids, keys as byte strings.
pub struct PageCell {
    pub schema_id: u32,
    pub id: Id,
    pub next: Id,
    pub prev: Id,
    pub keys: Vec<Vec<u8>>,
}

/// The upper half of a page that was split.
pub struct ExtNodeSplit {
    pub node_2: ExtNode,
    pub keys_1_len: usize,
}

/// The byte strings of a run of vectors.
pub open spec fn byte_views(keys: Seq<Vec<u8>>) -> Seq<Seq<u8>> {
    keys.map_values(|k: Vec<u8>| k@)
}

/// A reference that leads to no page or to a page in the arena other than `slot`.
pub open spec fn neighbour_ok(nodes: Seq<NodeData>, slot: int, r: NodeCellRef) -> bool {
    match r {
        NodeCellRef::Nil => true,
        NodeCellRef::Slot(s) => s < nodes.len() && s != slot && nodes[s as int] is External,
        NodeCellRef::Page(_) => false,
    }
}

/// The id by which a stored page refers to a neighbour.
pub open spec fn ext_id(nodes: Seq<NodeData>, r: NodeCellRef) -> Id {
    match r {
        NodeCellRef::Page(id) => id,
        NodeCellRef::Slot(s) => match nodes[s as int] {
            NodeData::External(e) => e.id,
            _ => Id { higher: 0, lower: 0 },
        },
        NodeCellRef::Nil => Id { higher: 0, lower: 0 },
    }
}

/// The id names what the reference leads to: a page in the arena by its own id, a stored page by the
/// id that is known of it, and what is no page by the id of no cell.
pub open spec fn names_page(nodes: Seq<NodeData>, r: NodeCellRef, id: Id) -> bool {
    &&& r matches NodeCellRef::Slot(s) ==> (nodes[s as int] matches NodeData::External(page) ==> id
        == page.id)
    &&& r matches NodeCellRef::Slot(s) ==> (!(nodes[s as int] is External) ==> id.higher == 0
        && id.lower == 0)
    &&& r matches NodeCellRef::Page(known) ==> id == known
    &&& r is Nil ==> id.higher == 0 && id.lower == 0
}

/// A stored page names its neighbours by the ids that they are stored under.
pub proof fn lemma_ids_name_pages(nodes: Seq<NodeData>, r: NodeCellRef)
    ensures
        names_page(nodes, r, ext_id(nodes, r)),
        forall|s: usize|
            r == NodeCellRef::Slot(s) && (#[trigger] nodes[s as int]) is External ==> ext_id(nodes, r)
                == nodes[s as int]->External_0.id,
        r matches NodeCellRef::Page(id) ==> ext_id(nodes, r) == id,
        r is Nil ==> ext_id(nodes, r).higher == 0 && ext_id(nodes, r).lower == 0,
{
}

/// The reference that a stored neighbour id stands for.
pub open spec fn page_ref(id: Id) -> NodeCellRef {
    if id == (Id { higher: 0, lower: 0 }) {
        NodeCellRef::Nil
    } else {
        NodeCellRef::Page(id)
    }
}

/// The arena once the neighbours of the page at `slot` refer to each other.
pub open spec fn unlinked(nodes: Seq<NodeData>, slot: int) -> Seq<NodeData> {
    let page = nodes[slot]->External_0;
    let first = match page.prev {
        NodeCellRef::Slot(p) => nodes.update(
            p as int,
            NodeData::External(ExtNode { next: page.next, ..nodes[p as int]->External_0 }),
        ),
        _ => nodes,
    };
    match page.next {
        NodeCellRef::Slot(q) => first.update(
            q as int,
            NodeData::External(ExtNode { prev: page.prev, ..first[q as int]->External_0 }),
        ),
        _ => first,
    }
}

/// The keys of the two pages that a full page gives when `key` comes in at `pos`.
pub open spec fn split_keys(keys: Seq<Seq<u8>>, key: Seq<u8>, pos: int) -> (Seq<Seq<u8>>, Seq<Seq<u8>>) {
    let mid = keys.len() as int / 2;
    if pos < mid {
        (keys.take(mid).insert(pos, key), keys.skip(mid))
    } else {
        (keys.take(mid), keys.skip(mid).insert(pos - mid, key))
    }
}

/// `after` is `nodes` with the full page at `slot` split: the upper half stands in a new slot
/// between the page and its right neighbour.
pub open spec fn page_split(
    nodes: Seq<NodeData>,
    after: Seq<NodeData>,
    slot: int,
    key: Seq<u8>,
    pos: int,
    id: Id,
) -> bool {
    let page = nodes[slot]->External_0;
    let n = nodes.len() as int;
    let (left, right) = split_keys(page@.keys, key, pos);
    &&& after.len() == n + 1
    &&& after[slot] is External
    &&& after[slot]->External_0@ == (ExtView {
        keys: left,
        next: slot_ref(n),
        bound: Some(right[0]),
        ..page@
    })
    &&& after[n] is External
    &&& after[n]->External_0@ == (ExtView {
        id,
        keys: right,
        next: page.next,
        prev: slot_ref(slot),
        dirty: true,
        bound: page@.bound,
    })
    &&& page.next matches NodeCellRef::Slot(t) ==> after[t as int] == NodeData::External(
        ExtNode { prev: slot_ref(n), ..nodes[t as int]->External_0 },
    )
    &&& forall|x: int|
        0 <= x < n && x != slot && page.next != slot_ref(x) ==> #[trigger] after[x] == nodes[x]
}

/// `after` is `nodes` with `key` at `pos` of the page at `slot`.
pub open spec fn page_grown(
    nodes: Seq<NodeData>,
    after: Seq<NodeData>,
    slot: int,
    key: Seq<u8>,
    pos: int,
) -> bool {
    let page = nodes[slot]->External_0;
    &&& after.len() == nodes.len()
    &&& after[slot] is External
    &&& after[slot]->External_0@ == (ExtView { keys: page@.keys.insert(pos, key), ..page@ })
    &&& forall|x: int| 0 <= x < nodes.len() && x != slot ==> #[trigger] after[x] == nodes[x]
}

/// All of a tree but its arena is the same.
pub open spec fn same_but_nodes(a: BPlusTree, b: BPlusTree) -> bool {
    a == (BPlusTree { nodes: a.nodes, ..b })
}

impl ExtNode {
    /// An empty page without neighbours.
    pub fn new(id: Id) -> (page: ExtNode)
        ensures
            page@ == (ExtView {
                id,
                keys: Seq::empty(),
                next: NodeCellRef::Nil,
                prev: NodeCellRef::Nil,
                dirty: false,
                bound: None,
            }),
    {
        let page = ExtNode {
            id,
            keys: Vec::new(),
            next: NodeCellRef::Nil,
            prev: NodeCellRef::Nil,
            dirty: false,
            right_bound: None,
        };
        assert(page@.keys =~= Seq::empty());
        page
    }

    /// Takes the key at `pos` out.
    pub fn remove_at(&mut self, pos: usize)
        requires
            pos < old(self)@.keys.len(),
        ensures
            final(self)@ == (ExtView { keys: old(self)@.keys.remove(pos as int), ..old(self)@ }),
    {
        let ghost before = self.keys@;
        self.keys.remove(pos);
        assert(key_views(self.keys@) =~= key_views(before).remove(pos as int));
    }

    /// Appends the keys of the page to the right, in whose places empty keys remain, and takes over
    /// its bound.
    pub fn merge_with(&mut self, right: &mut ExtNode, page_size: usize)
        requires
            old(self)@.keys.len() + old(right)@.keys.len() <= page_size,
        ensures
            final(self)@ == (ExtView {
                keys: old(self)@.keys + old(right)@.keys,
                bound: old(right)@.bound,
                ..old(self)@
            }),
            final(right)@ == (ExtView {
                keys: Seq::new(old(right)@.keys.len(), |i: int| Seq::<u8>::empty()),
                ..old(right)@
            }),
    {
        let ghost left_keys = self@.keys;
        let ghost right_keys = right@.keys;
        let n: usize = right.keys.len();
        let mut i: usize = 0;
        assert(left_keys + right_keys.take(0) =~= left_keys);
        while i < n
            invariant
                i <= n,
                n == right_keys.len(),
                right.keys@.len() == n,
                self@ == (ExtView { keys: left_keys + right_keys.take(i as int), ..old(self)@ }),
                right@ == (ExtView { keys: right@.keys, ..old(right)@ }),
                forall|j: int| i <= j < n ==> #[trigger] right.keys@[j]@ == right_keys[j],
                forall|j: int| 0 <= j < i ==> #[trigger] right.keys@[j]@ == Seq::<u8>::empty(),
            decreases n - i,
        {
            let ghost before = self.keys@;
            let mut key = EntryKey::from_slice(&[]);
            assert(key@ =~= Seq::<u8>::empty());
            let ghost empty = key;
            std::mem::swap(&mut key, &mut right.keys[i]);
            let ghost moved = key;
            assert(moved@ == right_keys[i as int]);
            self.keys.push(key);
            assert(key_views(self.keys@) =~= key_views(before).push(moved@));
            assert(right_keys.take(i + 1) =~= right_keys.take(i as int).push(right_keys[i as int]));
            assert(left_keys + right_keys.take(i + 1) =~= (left_keys + right_keys.take(
                i as int,
            )).push(right_keys[i as int]));
            i += 1;
        }
        assert(right_keys.take(n as int) =~= right_keys);
        self.right_bound = super::node::duplicate_bound(&right.right_bound);
        assert(right@.keys =~= Seq::new(right_keys.len(), |i: int| Seq::<u8>::empty()));
    }

    /// Puts `key` at `pos` of the page at `slot`. A full page is split, and the reference to the
    /// new page is returned; its first key parts the two pages.
    pub fn insert(tree: &mut BPlusTree, slot: usize, key: EntryKey, pos: usize) -> (r: Option<
        (NodeCellRef, Option<EntryKey>),
    >)
        requires
            slot < old(tree).nodes@.len(),
            old(tree).nodes@[slot as int] is External,
            pos <= keys_of(old(tree).nodes@[slot as int]).len() <= old(tree).page_size,
            old(tree).page_size >= 2,
            neighbour_ok(
                old(tree).nodes@,
                slot as int,
                old(tree).nodes@[slot as int]->External_0.next,
            ),
        ensures
            same_but_nodes(*final(tree), *old(tree)),
            keys_of(old(tree).nodes@[slot as int]).len() < old(tree).page_size ==> r is None
                && page_grown(
                old(tree).nodes@,
                final(tree).nodes@,
                slot as int,
                key@,
                pos as int,
            ),
            keys_of(old(tree).nodes@[slot as int]).len() == old(tree).page_size ==> {
                &&& r == Some((slot_ref(old(tree).nodes@.len() as int), None::<EntryKey>))
                &&& exists|id: Id|
                    page_split(
                        old(tree).nodes@,
                        final(tree).nodes@,
                        slot as int,
                        key@,
                        pos as int,
                        id,
                    )
            },
    {
        let id = tree.new_page_id();
        ExtNode::insert_with_id(tree, slot, key, pos, id)
    }

    /// Inserts as `insert` does; `id` will be the id of a new page.
    pub fn insert_with_id(
        tree: &mut BPlusTree,
        slot: usize,
        key: EntryKey,
        pos: usize,
        id: Id,
    ) -> (r: Option<(NodeCellRef, Option<EntryKey>)>)
        requires
            slot < old(tree).nodes@.len(),
            old(tree).nodes@[slot as int] is External,
            pos <= keys_of(old(tree).nodes@[slot as int]).len() <= old(tree).page_size,
            old(tree).page_size >= 2,
            neighbour_ok(
                old(tree).nodes@,
                slot as int,
                old(tree).nodes@[slot as int]->External_0.next,
            ),
        ensures
            same_but_nodes(*final(tree), *old(tree)),
            keys_of(old(tree).nodes@[slot as int]).len() < old(tree).page_size ==> r is None
                && page_grown(
                old(tree).nodes@,
                final(tree).nodes@,
                slot as int,
                key@,
                pos as int,
            ),
            keys_of(old(tree).nodes@[slot as int]).len() == old(tree).page_size ==> {
                &&& r == Some((slot_ref(old(tree).nodes@.len() as int), None::<EntryKey>))
                &&& page_split(
                    old(tree).nodes@,
                    final(tree).nodes@,
                    slot as int,
                    key@,
                    pos as int,
                    id,
                )
            },
    {
        let new_slot: usize = tree.nodes.len();
        let page_size: usize = tree.page_size;
        let ghost before = tree.nodes@;
        let ghost page = before[slot as int]->External_0;
        assert(tree.nodes.len() == before.len());
        match &mut tree.nodes[slot] {
            NodeData::External(node) => {
                if node.keys.len() < page_size {
                    proof {
                        super::node::lemma_views_insert(node.keys@, pos as int, key);
                    }
                    node.keys.insert(pos, key);
                    return None;
                }
            },
            _ => {
                assert(false);
                return None;
            },
        }
        let (split, next) = match &mut tree.nodes[slot] {
            NodeData::External(node) => {
                let next = node.next;
                let split = node.halve(key, pos, id, slot, new_slot);
                (split, next)
            },
            _ => {
                assert(false);
                return None;
            },
        };
        let ghost middle = tree.nodes@;
        match next {
            NodeCellRef::Slot(t) => {
                match &mut tree.nodes[t] {
                    NodeData::External(right) => {
                        right.prev = NodeCellRef::Slot(new_slot);
                    },
                    _ => {},
                }
            },
            _ => {},
        }
        tree.nodes.push(NodeData::External(split.node_2));
        Some((NodeCellRef::Slot(new_slot), None))
    }

    /// Moves the upper half of a full page to a new page while `key` comes in at `pos`.
    fn halve(&mut self, key: EntryKey, pos: usize, id: Id, slot: usize, new_slot: usize) -> (r:
        ExtNodeSplit)
        requires
            pos <= old(self)@.keys.len(),
            old(self)@.keys.len() >= 2,
        ensures
            ({
                let (left, right) = split_keys(old(self)@.keys, key@, pos as int);
                &&& r.keys_1_len == left.len()
                &&& final(self)@ == (ExtView {
                    keys: left,
                    next: slot_ref(new_slot as int),
                    bound: Some(right[0]),
                    ..old(self)@
                })
                &&& r.node_2@ == (ExtView {
                    id,
                    keys: right,
                    next: old(self)@.next,
                    prev: slot_ref(slot as int),
                    dirty: true,
                    bound: old(self)@.bound,
                })
            }),
    {
        let mid: usize = self.keys.len() / 2;
        let ghost all = self.keys@;
        let mut upper = self.keys.split_off(mid);
        let ghost lower_keys = self.keys@;
        let ghost upper_keys = upper@;
        proof {
            assert(key_views(lower_keys) =~= key_views(all).take(mid as int));
            assert(key_views(upper_keys) =~= key_views(all).skip(mid as int));
        }
        if pos < mid {
            proof {
                super::node::lemma_views_insert(lower_keys, pos as int, key);
            }
            self.keys.insert(pos, key);
        } else {
            proof {
                super::node::lemma_views_insert(upper_keys, pos - mid, key);
            }
            upper.insert(pos - mid, key);
        }
        let mut bound = Some(upper[0].duplicate());
        assert(key_views(upper@)[0] == upper@[0]@);
        std::mem::swap(&mut self.right_bound, &mut bound);
        let next = self.next;
        self.next = NodeCellRef::Slot(new_slot);
        let node_2 = ExtNode {
            id,
            keys: upper,
            next,
            prev: NodeCellRef::Slot(slot),
            dirty: true,
            right_bound: bound,
        };
        ExtNodeSplit { node_2, keys_1_len: self.keys.len() }
    }

    /// The page's stored form; neighbours in the arena are named by their ids.
    pub fn to_cell(&self, nodes: &Vec<NodeData>, schema_id: u32) -> (cell: PageCell)
        requires
            self.next matches NodeCellRef::Slot(s) ==> s < nodes@.len(),
            self.prev matches NodeCellRef::Slot(s) ==> s < nodes@.len(),
        ensures
            cell.schema_id == schema_id,
            cell.id == self.id,
            cell.next == ext_id(nodes@, self.next),
            cell.prev == ext_id(nodes@, self.prev),
            byte_views(cell.keys@) == self@.keys,
            names_page(nodes@, self.next, cell.next),
            names_page(nodes@, self.prev, cell.prev),
            cell.keys@.len() == self.keys@.len(),
            forall|i: int| 0 <= i < self.keys@.len() ==> (#[trigger] cell.keys@[i])@ == self.keys@[i]@,
    {
        let mut keys: Vec<Vec<u8>> = Vec::new();
        let mut i: usize = 0;
        assert(byte_views(keys@) =~= self@.keys.take(0));
        while i < self.keys.len()
            invariant
                i <= self.keys@.len(),
                byte_views(keys@) == self@.keys.take(i as int),
            decreases self.keys@.len() - i,
        {
            let ghost before = keys@;
            let bytes = self.keys[i].to_vec();
            let ghost b = bytes@;
            keys.push(bytes);
            assert(byte_views(keys@) =~= byte_views(before).push(b));
            assert(self@.keys.take(i + 1) =~= self@.keys.take(i as int).push(self@.keys[i as int]));
            i += 1;
        }
        assert(self@.keys.take(i as int) =~= self@.keys);
        proof {
            lemma_ids_name_pages(nodes@, self.next);
            lemma_ids_name_pages(nodes@, self.prev);
            assert forall|j: int| 0 <= j < self.keys@.len() implies (#[trigger] keys@[j])@ == self.keys@[j]@ by {
                assert(byte_views(keys@)[j] == self@.keys[j]);
            }
        }
        PageCell {
            schema_id,
            id: self.id,
            next: id_of_ref(nodes, self.next),
            prev: id_of_ref(nodes, self.prev),
            keys,
        }
    }

    /// The page that a cell stores. Its neighbours are named by their ids, and its bound is not
    /// stored.
    pub fn from_cell(cell: &PageCell) -> (page: ExtNode)
        ensures
            page@ == (ExtView {
                id: cell.id,
                keys: byte_views(cell.keys@),
                next: page_ref(cell.next),
                prev: page_ref(cell.prev),
                dirty: false,
                bound: None,
            }),
            page.id == cell.id,
            page.next is Nil <==> cell.next.higher == 0 && cell.next.lower == 0,
            page.prev is Nil <==> cell.prev.higher == 0 && cell.prev.lower == 0,
            !(page.next is Nil) ==> page.next == NodeCellRef::Page(cell.next),
            !(page.prev is Nil) ==> page.prev == NodeCellRef::Page(cell.prev),
    {
        let mut keys: Vec<EntryKey> = Vec::new();
        let mut i: usize = 0;
        assert(key_views(keys@) =~= byte_views(cell.keys@).take(0));
        while i < cell.keys.len()
            invariant
                i <= cell.keys@.len(),
                key_views(keys@) == byte_views(cell.keys@).take(i as int),
            decreases cell.keys@.len() - i,
        {
            let ghost before = keys@;
            let key = EntryKey::from_slice(cell.keys[i].as_slice());
            let ghost k = key@;
            keys.push(key);
            assert(key_views(keys@) =~= key_views(before).push(k));
            assert(byte_views(cell.keys@).take(i + 1) =~= byte_views(cell.keys@).take(
                i as int,
            ).push(byte_views(cell.keys@)[i as int]));
            i += 1;
        }
        assert(byte_views(cell.keys@).take(i as int) =~= byte_views(cell.keys@));
        ExtNode {
            id: cell.id,
            keys,
            next: ref_of_id(cell.next),
            prev: ref_of_id(cell.prev),
            dirty: false,
            right_bound: None,
        }
    }

    /// Takes the page at `slot` out of the row of leaves: its neighbours refer to each other.
    pub fn remove_node(nodes: &mut Vec<NodeData>, slot: usize)
        requires
            slot < old(nodes)@.len(),
            old(nodes)@[slot as int] is External,
            old(nodes)@[slot as int]->External_0.id != (Id { higher: 0, lower: 0 }),
            neighbour_ok(old(nodes)@, slot as int, old(nodes)@[slot as int]->External_0.prev),
            neighbour_ok(old(nodes)@, slot as int, old(nodes)@[slot as int]->External_0.next),
        ensures
            final(nodes)@ == unlinked(old(nodes)@, slot as int),
    {
        rearrange_empty_extnode(nodes, slot);
    }
}

fn id_of_ref(nodes: &Vec<NodeData>, r: NodeCellRef) -> (id: Id)
    requires
        r matches NodeCellRef::Slot(s) ==> s < nodes@.len(),
    ensures
        id == ext_id(nodes@, r),
{
    match r {
        NodeCellRef::Page(id) => id,
        NodeCellRef::Slot(s) => match &nodes[s] {
            NodeData::External(e) => e.id,
            _ => Id::unit_id(),
        },
        NodeCellRef::Nil => Id::unit_id(),
    }
}

fn ref_of_id(id: Id) -> (r: NodeCellRef)
    ensures
        r == page_ref(id),
{
    if id == Id::unit_id() {
        NodeCellRef::Nil
    } else {
        NodeCellRef::Page(id)
    }
}

/// Links the neighbours of an emptied page to each other; gives the page's id.
pub fn rearrange_empty_extnode(nodes: &mut Vec<NodeData>, slot: usize) -> (id: Id)
    requires
        slot < old(nodes)@.len(),
        old(nodes)@[slot as int] is External,
        neighbour_ok(old(nodes)@, slot as int, old(nodes)@[slot as int]->External_0.prev),
        neighbour_ok(old(nodes)@, slot as int, old(nodes)@[slot as int]->External_0.next),
    ensures
        final(nodes)@ == unlinked(old(nodes)@, slot as int),
        id == old(nodes)@[slot as int]->External_0.id,
{
    let ghost before = nodes@;
    let (prev, next, id) = match &nodes[slot] {
        NodeData::External(page) => (page.prev, page.next, page.id),
        _ => (NodeCellRef::Nil, NodeCellRef::Nil, Id::unit_id()),
    };
    match prev {
        NodeCellRef::Slot(p) => {
            match &mut nodes[p] {
                NodeData::External(page) => {
                    page.next = next;
                },
                _ => {},
            }
        },
        _ => {},
    }
    match next {
        NodeCellRef::Slot(q) => {
            match &mut nodes[q] {
                NodeData::External(page) => {
                    page.prev = prev;
                },
                _ => {},
            }
        },
        _ => {},
    }
    assert(nodes@ =~= unlinked(before, slot as int));
    id
}

/// The pages of a row refer to their neighbours on both sides.
pub open spec fn double_linked(nodes: Seq<NodeData>, row: Seq<int>) -> bool {
    &&& in_arena(nodes, row)
    &&& row.no_duplicates()
    &&& forall|i: int|
        0 <= i < row.len() ==> {
            let n = nodes[#[trigger] row[i]];
            &&& n is External
            &&& n->External_0.next == (if i + 1 < row.len() {
                slot_ref(row[i + 1])
            } else {
                NodeCellRef::Nil
            })
            &&& n->External_0.prev == (if i > 0 {
                slot_ref(row[i - 1])
            } else {
                NodeCellRef::Nil
            })
        }
}

/// What unlinking the page at `i` of a row makes of the page at `o`.
proof fn lemma_unlinked_at(nodes: Seq<NodeData>, row: Seq<int>, i: int, o: int)
    requires
        double_linked(nodes, row),
        nodes.len() <= usize::MAX,
        0 <= i < row.len(),
        0 <= o < row.len(),
        o != i,
    ensures
        ({
            let n = unlinked(nodes, row[i])[row[o]];
            let p = nodes[row[o]]->External_0;
            &&& n is External
            &&& n->External_0.next == (if o + 1 == i {
                nodes[row[i]]->External_0.next
            } else {
                p.next
            })
            &&& n->External_0.prev == (if o == i + 1 {
                nodes[row[i]]->External_0.prev
            } else {
                p.prev
            })
        }),
{
    assert(0 <= row[i] < nodes.len());
    assert(0 <= row[o] < nodes.len());
    assert(nodes[row[i]] is External);
    assert(nodes[row[o]] is External);
    if i > 0 {
        assert(0 <= row[i - 1] < nodes.len());
        assert(nodes[row[i - 1]] is External);
        assert(o != i - 1 ==> row[o] != row[i - 1]);
    }
    if i + 1 < row.len() {
        assert(0 <= row[i + 1] < nodes.len());
        assert(nodes[row[i + 1]] is External);
        assert(o != i + 1 ==> row[o] != row[i + 1]);
        assert(i > 0 ==> row[i - 1] != row[i + 1]);
    }
}

/// Taking a page out of a row leaves the rest of the row linked on both sides.
#[verifier::spinoff_prover]
pub proof fn lemma_unlink_keeps_row(nodes: Seq<NodeData>, row: Seq<int>, i: int)
    requires
        double_linked(nodes, row),
        nodes.len() <= usize::MAX,
        0 <= i < row.len(),
    ensures
        double_linked(unlinked(nodes, row[i]), row.remove(i)),
{
    let after = unlinked(nodes, row[i]);
    let rest = row.remove(i);
    assert(after.len() == nodes.len());
    assert(in_arena(after, rest)) by {
        assert forall|j: int| 0 <= j < rest.len() implies 0 <= #[trigger] rest[j] < after.len() by {
            assert(rest[j] == row[if j < i { j } else { j + 1 }]);
        }
    }
    assert(rest.no_duplicates()) by {
        assert forall|j: int, k: int| 0 <= j < rest.len() && 0 <= k < rest.len() && j != k implies rest[j]
            != rest[k] by {
            assert(rest[j] == row[if j < i { j } else { j + 1 }]);
            assert(rest[k] == row[if k < i { k } else { k + 1 }]);
        }
    }
    assert forall|j: int| 0 <= j < rest.len() implies {
        let n = after[#[trigger] rest[j]];
        &&& n is External
        &&& n->External_0.next == (if j + 1 < rest.len() {
            slot_ref(rest[j + 1])
        } else {
            NodeCellRef::Nil
        })
        &&& n->External_0.prev == (if j > 0 {
            slot_ref(rest[j - 1])
        } else {
            NodeCellRef::Nil
        })
    } by {
        let o = if j < i { j } else { j + 1 };
        assert(rest[j] == row[o]);
        lemma_unlinked_at(nodes, row, i, o);
        assert(nodes[row[o]] is External);
        assert(nodes[row[i]] is External);
        if j + 1 < rest.len() {
            assert(rest[j + 1] == row[if j + 1 < i { j + 1 } else { j + 2 }]);
        }
        if j > 0 {
            assert(rest[j - 1] == row[if j - 1 < i { j - 1 } else { j }]);
        }
    }
}

/// A split loses no key and keeps their order: the two halves together are the page with the key
/// put in.
pub proof fn lemma_split_keeps_keys(keys: Seq<Seq<u8>>, key: Seq<u8>, pos: int)
    requires
        0 <= pos <= keys.len(),
    ensures
        split_keys(keys, key, pos).0 + split_keys(keys, key, pos).1 == keys.insert(pos, key),
{
    let (left, right) = split_keys(keys, key, pos);
    assert(left + right =~= keys.insert(pos, key));
}

/// Taking out what was put in gives the page back.
pub proof fn lemma_insert_then_remove(keys: Seq<Seq<u8>>, key: Seq<u8>, pos: int)
    requires
        0 <= pos <= keys.len(),
    ensures
        keys.insert(pos, key).remove(pos) == keys,
{
    assert(keys.insert(pos, key).remove(pos) =~= keys);
}

/// A page comes back from its stored form with the same id and keys, its neighbours named by
/// their ids.
pub proof fn lemma_cell_round_trip(page: ExtNode, nodes: Seq<NodeData>, cell: PageCell, back: ExtNode)
    requires
        cell.id == page.id,
        cell.next == ext_id(nodes, page.next),
        cell.prev == ext_id(nodes, page.prev),
        byte_views(cell.keys@) == page@.keys,
        back@ == (ExtView {
            id: cell.id,
            keys: byte_views(cell.keys@),
            next: page_ref(cell.next),
            prev: page_ref(cell.prev),
            dirty: false,
            bound: None,
        }),
    ensures
        back@.id == page@.id,
        back@.keys == page@.keys,
        ext_id(nodes, back.next) == ext_id(nodes, page.next),
        ext_id(nodes, back.prev) == ext_id(nodes, page.prev),
        names_page(nodes, page.next, cell.next),
        names_page(nodes, page.prev, cell.prev),
        back.next is Nil <==> cell.next == (Id { higher: 0, lower: 0 }),
        back.prev is Nil <==> cell.prev == (Id { higher: 0, lower: 0 }),
        !(back.next is Nil) ==> back.next == NodeCellRef::Page(cell.next),
        !(back.prev is Nil) ==> back.prev == NodeCellRef::Page(cell.prev),
        page.next matches NodeCellRef::Slot(s) ==> (nodes[s as int] matches NodeData::External(n)
            ==> (n.id != (Id { higher: 0, lower: 0 }) ==> back.next == NodeCellRef::Page(n.id))),
        page.prev matches NodeCellRef::Slot(s) ==> (nodes[s as int] matches NodeData::External(n)
            ==> (n.id != (Id { higher: 0, lower: 0 }) ==> back.prev == NodeCellRef::Page(n.id))),
{
    assert(back.next == back@.next && back.prev == back@.prev);
}

/// The cells of a row of pages, as they are stored.
pub open spec fn cells_of(nodes: Seq<NodeData>, row: Seq<int>, cells: Seq<PageCell>) -> bool {
    &&& cells.len() == row.len()
    &&& forall|i: int|
        0 <= i < row.len() ==> {
            let page = nodes[row[i]]->External_0;
            &&& (#[trigger] cells[i]).id == page.id
            &&& cells[i].next == ext_id(nodes, page.next)
            &&& cells[i].prev == ext_id(nodes, page.prev)
            &&& byte_views(cells[i].keys@) == page@.keys
        }
}

/// The stored pages of a row form the row: each cell names the cells to its left and right, the
/// first one has none to its left and the last one none to its right, so that following the ids
/// from the first cell on meets the cells of all pages in order.
pub proof fn lemma_stored_row(nodes: Seq<NodeData>, row: Seq<int>, cells: Seq<PageCell>, i: int)
    requires
        nodes.len() <= usize::MAX,
        double_linked(nodes, row),
        cells_of(nodes, row, cells),
        0 <= i < row.len(),
    ensures
        cells[i].id == nodes[row[i]]->External_0.id,
        byte_views(cells[i].keys@) == keys_of(nodes[row[i]]),
        i + 1 < row.len() ==> cells[i].next == cells[i + 1].id && cells[i + 1].prev == cells[i].id,
        i + 1 == row.len() ==> cells[i].next.higher == 0 && cells[i].next.lower == 0,
        i == 0 ==> cells[i].prev.higher == 0 && cells[i].prev.lower == 0,
{
    assert(cells[i].id == nodes[row[i]]->External_0.id);
    assert(nodes[row[i]] is External);
    assert(0 <= row[i] < nodes.len());
    if i + 1 < row.len() {
        assert(cells[i + 1].id == nodes[row[i + 1]]->External_0.id);
        assert(nodes[row[i + 1]] is External);
        assert(0 <= row[i + 1] < nodes.len());
    }
}

/// Taking a page out of its row changes no page but for whom it refers to.
pub proof fn lemma_unlink_keeps_pages(nodes: Seq<NodeData>, slot: int, x: int)
    requires
        0 <= slot < nodes.len(),
        nodes[slot] is External,
        neighbour_ok(nodes, slot, nodes[slot]->External_0.prev),
        neighbour_ok(nodes, slot, nodes[slot]->External_0.next),
        0 <= x < nodes.len(),
    ensures
        unlinked(nodes, slot).len() == nodes.len(),
        unlinked(nodes, slot)[slot] == nodes[slot],
        nodes[x] is External ==> {
            let page = nodes[x]->External_0;
            let now = unlinked(nodes, slot)[x];
            &&& now is External
            &&& now->External_0.id == page.id
            &&& now->External_0.keys == page.keys
            &&& now->External_0.dirty == page.dirty
            &&& now->External_0.right_bound == page.right_bound
        },
        !(nodes[x] is External) ==> unlinked(nodes, slot)[x] == nodes[x],
{
}

/// A split parts the keys about evenly: both pages get some, and neither has more than two keys
/// more than the other. All keys of the first page stand before those of the second.
pub proof fn lemma_split_is_even(keys: Seq<Seq<u8>>, key: Seq<u8>, pos: int)
    requires
        2 <= keys.len(),
        0 <= pos <= keys.len(),
    ensures
        ({
            let (left, right) = split_keys(keys, key, pos);
            &&& left.len() >= 1 && right.len() >= 1
            &&& -2 <= left.len() - right.len() <= 2
            &&& left.len() + right.len() == keys.len() + 1
            &&& left.len() <= keys.len() && right.len() <= keys.len()
            &&& left == keys.insert(pos, key).take(left.len() as int)
            &&& right == keys.insert(pos, key).skip(left.len() as int)
        }),
{
    let (left, right) = split_keys(keys, key, pos);
    lemma_split_keeps_keys(keys, key, pos);
    let all = keys.insert(pos, key);
    assert(all == left + right);
    assert(left =~= all.take(left.len() as int));
    assert(right =~= all.skip(left.len() as int));
}

/// A page that was split stands in its row with the new page right behind it, and the row stays
/// linked on both sides. The new page has the id that was given, and takes over the bound; the first
/// of its keys bounds the page that was split.
#[verifier::spinoff_prover]
#[verifier::rlimit(50)]
pub proof fn lemma_split_page_in_row(
    nodes: Seq<NodeData>,
    after: Seq<NodeData>,
    row: Seq<int>,
    i: int,
    key: Seq<u8>,
    pos: int,
    id: Id,
)
    requires
        nodes.len() < usize::MAX,
        double_linked(nodes, row),
        0 <= i < row.len(),
        2 <= keys_of(nodes[row[i]]).len(),
        0 <= pos <= keys_of(nodes[row[i]]).len(),
        page_split(nodes, after, row[i], key, pos, id),
    ensures
        double_linked(after, row.insert(i + 1, nodes.len() as int)),
        keys_of(after[row[i]]) + keys_of(after[nodes.len() as int]) == keys_of(nodes[row[i]]).insert(
            pos,
            key,
        ),
        after[row[i]]->External_0.id == nodes[row[i]]->External_0.id,
        after[nodes.len() as int]->External_0.id == id,
        after[row[i]]->External_0@.bound == Some(keys_of(after[nodes.len() as int])[0]),
        after[nodes.len() as int]->External_0@.bound == nodes[row[i]]->External_0@.bound,
        after[nodes.len() as int]->External_0.dirty,
        after[row[i]]->External_0.dirty == nodes[row[i]]->External_0.dirty,
        forall|x: int|
            0 <= x < nodes.len() && x != row[i] && nodes[x] is External ==> {
                &&& (#[trigger] after[x]) is External
                &&& after[x]->External_0.id == nodes[x]->External_0.id
                &&& after[x]->External_0.keys == nodes[x]->External_0.keys
            },
{
    let n = nodes.len() as int;
    let page = nodes[row[i]]->External_0;
    let row2 = row.insert(i + 1, n);
    assert(nodes[row[i]] is External);
    assert(0 <= row[i] < n);
    lemma_split_keeps_keys(page@.keys, key, pos);
    lemma_split_is_even(page@.keys, key, pos);
    assert(after[row[i]]->External_0@.id == after[row[i]]->External_0.id);
    assert(after[n]->External_0@.id == after[n]->External_0.id);
    assert(after[n]->External_0@.dirty == after[n]->External_0.dirty);
    assert(after[row[i]]->External_0@.dirty == after[row[i]]->External_0.dirty);
    assert(after[row[i]]->External_0@.next == after[row[i]]->External_0.next);
    assert(after[row[i]]->External_0@.prev == after[row[i]]->External_0.prev);
    assert(after[n]->External_0@.next == after[n]->External_0.next);
    assert(after[n]->External_0@.prev == after[n]->External_0.prev);
    if i + 1 < row.len() {
        assert(0 <= row[i + 1] < n);
        assert(nodes[row[i + 1]] is External);
        assert(page.next == slot_ref(row[i + 1]));
    }
    assert forall|x: int| 0 <= x < n && x != row[i] && nodes[x] is External implies {
        &&& (#[trigger] after[x]) is External
        &&& after[x]->External_0.id == nodes[x]->External_0.id
        &&& after[x]->External_0.keys == nodes[x]->External_0.keys
    } by {
        if page.next == slot_ref(x) {
            assert(i + 1 < row.len());
        }
    }
    assert forall|j: int| 0 <= j < row2.len() implies {
        let m = after[#[trigger] row2[j]];
        &&& 0 <= row2[j] < after.len()
        &&& m is External
        &&& m->External_0.next == (if j + 1 < row2.len() {
            slot_ref(row2[j + 1])
        } else {
            NodeCellRef::Nil
        })
        &&& m->External_0.prev == (if j > 0 {
            slot_ref(row2[j - 1])
        } else {
            NodeCellRef::Nil
        })
    } by {
        if j == i + 1 {
            if j + 1 < row2.len() {
                assert(row2[j + 1] == row[i + 1]);
            }
            assert(row2[j - 1] == row[i]);
        } else {
            let o = if j <= i {
                j
            } else {
                j - 1
            };
            assert(row2[j] == row[o]);
            assert(nodes[row[o]] is External);
            assert(0 <= row[o] < n);
            if j + 1 < row2.len() {
                assert(row2[j + 1] == if j == i {
                    n
                } else {
                    row[o + 1]
                });
            }
            if j > 0 {
                assert(row2[j - 1] == if j == i + 2 {
                    n
                } else {
                    row[o - 1]
                });
            }
            if o != i && o != i + 1 {
                if i + 1 < row.len() {
                    assert(row[o] != row[i + 1]);
                }
                assert(page.next != slot_ref(row[o]));
                assert(row[o] != row[i]);
                assert(after[row[o]] == nodes[row[o]]);
            }
        }
    }
    assert(row2.no_duplicates()) by {
        assert forall|a: int, b: int|
            0 <= a < row2.len() && 0 <= b < row2.len() && a != b implies row2[a] != row2[b] by {
            if a != i + 1 && b != i + 1 {
                let a0 = if a <= i { a } else { a - 1 };
                let b0 = if b <= i { b } else { b - 1 };
                assert(row[a0] != row[b0]);
            } else if a == i + 1 {
                let b0 = if b <= i { b } else { b - 1 };
                assert(0 <= row[b0] < n);
            } else {
                let a0 = if a <= i { a } else { a - 1 };
                assert(0 <= row[a0] < n);
            }
        }
    }
}

/// A page that is not full takes a key in: the keys before its place stay, those from there on move
/// by one, and all else of the page and all other pages stay as they are.
pub proof fn lemma_grown_page(
    nodes: Seq<NodeData>,
    after: Seq<NodeData>,
    slot: int,
    key: Seq<u8>,
    pos: int,
    i: int,
)
    requires
        page_grown(nodes, after, slot, key, pos),
        0 <= slot < nodes.len(),
        nodes[slot] is External,
        0 <= pos <= keys_of(nodes[slot]).len(),
    ensures
        after[slot] is External,
        keys_of(after[slot]).len() == keys_of(nodes[slot]).len() + 1,
        keys_of(after[slot])[pos] == key,
        0 <= i < pos ==> keys_of(after[slot])[i] == keys_of(nodes[slot])[i],
        pos <= i < keys_of(nodes[slot]).len() ==> keys_of(after[slot])[i + 1] == keys_of(nodes[slot])[i],
        after[slot]->External_0.id == nodes[slot]->External_0.id,
        after[slot]->External_0.next == nodes[slot]->External_0.next,
        after[slot]->External_0.prev == nodes[slot]->External_0.prev,
        after[slot]->External_0.dirty == nodes[slot]->External_0.dirty,
        bound_of(after[slot]) == bound_of(nodes[slot]),
        0 <= i < nodes.len() && i != slot ==> after[i] == nodes[i],
{
}

} // verus!
