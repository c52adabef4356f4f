//! Which pages are to be stored, and which to be dropped from storage.
use super::external::{byte_views, ext_id, names_page, PageCell};
use super::node::{NodeCellRef, NodeData};
use super::tree::{BPlusTree, ChangingNode};
use crate::ram::types::Id;
use vstd::prelude::*;

verus! {

/// What storage is to do about a page that has changed.
pub enum PageChange {
    /// The page is to be stored as this cell.
    Store(PageCell),
    /// The cell of the page is to be removed.
    Remove(Id),
    /// The page has gone since.
    Nothing,
}

/// The reference leads to a slot of the arena or to none.
pub open spec fn in_reach(nodes: Seq<NodeData>, r: NodeCellRef) -> bool {
    r matches NodeCellRef::Slot(s) ==> s < nodes.len()
}

/// The slot holds a page whose neighbours are there.
pub open spec fn storable(nodes: Seq<NodeData>, slot: int) -> bool {
    &&& 0 <= slot < nodes.len()
    &&& nodes[slot] matches NodeData::External(page) && in_reach(nodes, page.next) && in_reach(
        nodes,
        page.prev,
    )
}

/// What storage is to do about a change.
pub open spec fn change_of(
    nodes: Seq<NodeData>,
    change: ChangingNode,
    schema_id: u32,
    r: PageChange,
) -> bool {
    match change {
        ChangingNode::Deleted(id) => r == PageChange::Remove(id),
        ChangingNode::Modified(slot) => if storable(nodes, slot as int) {
            let page = nodes[slot as int]->External_0;
            &&& r is Store
            &&& r->Store_0.schema_id == schema_id
            &&& r->Store_0.id == page.id
            &&& r->Store_0.next == ext_id(nodes, page.next)
            &&& r->Store_0.prev == ext_id(nodes, page.prev)
            &&& byte_views(r->Store_0.keys@) == page@.keys
        } else {
            r == PageChange::Nothing
        },
    }
}

fn reachable(nodes: &Vec<NodeData>, r: NodeCellRef) -> (ok: bool)
    ensures
        ok == in_reach(nodes@, r),
{
    match r {
        NodeCellRef::Slot(s) => s < nodes.len(),
        _ => true,
    }
}

impl BPlusTree {
    /// Takes the oldest of the changes that await storage.
    pub fn next_change(&mut self, schema_id: u32) -> (r: Option<PageChange>)
        ensures
            final(self).nodes == old(self).nodes,
            final(self).root == old(self).root,
            final(self).page_size == old(self).page_size,
            final(self).len == old(self).len,
            final(self).deleted == old(self).deleted,
            final(self).head_page_id == old(self).head_page_id,
            final(self).rows == old(self).rows,
            match r {
                Some(change) => {
                    &&& old(self).changed@.len() > 0
                    &&& final(self).changed@ == old(self).changed@.drop_first()
                    &&& change_of(old(self).nodes@, old(self).changed@[0], schema_id, change)
                    &&& change matches PageChange::Store(cell) ==> (old(
                        self,
                    ).changed@[0] matches ChangingNode::Modified(slot) && {
                        let page = old(self).nodes@[slot as int]->External_0;
                        &&& cell.id == page.id
                        &&& names_page(old(self).nodes@, page.next, cell.next)
                        &&& names_page(old(self).nodes@, page.prev, cell.prev)
                    })
                },
                None => old(self).changed@.len() == 0 && final(self).changed == old(self).changed,
            },
    {
        if self.changed.len() == 0 {
            return None;
        }
        let change = self.changed.remove(0);
        assert(self.changed@ =~= old(self).changed@.drop_first());
        match change {
            ChangingNode::Deleted(id) => Some(PageChange::Remove(id)),
            ChangingNode::Modified(slot) => {
                if slot < self.nodes.len() {
                    match &self.nodes[slot] {
                        NodeData::External(page) => {
                            if reachable(&self.nodes, page.next) && reachable(&self.nodes, page.prev) {
                                return Some(
                                    PageChange::Store(page.to_cell(&self.nodes, schema_id)),
                                );
                            }
                        },
                        _ => {},
                    }
                }
                Some(PageChange::Nothing)
            },
        }
    }
}

/// Storage drops the cell of a page that has gone, and none other; it stores a page that has changed
/// under the page's own id with the page's own keys, and with the ids of the pages beside it.
pub proof fn lemma_change_is_of_page(
    nodes: Seq<NodeData>,
    change: ChangingNode,
    schema_id: u32,
    r: PageChange,
)
    requires
        change_of(nodes, change, schema_id, r),
    ensures
        r matches PageChange::Remove(id) ==> change == ChangingNode::Deleted(id),
        change matches ChangingNode::Deleted(id) ==> r == PageChange::Remove(id),
        r matches PageChange::Store(cell) ==> {
            &&& change matches ChangingNode::Modified(slot) && slot < nodes.len()
                && (nodes[slot as int] matches NodeData::External(page) && {
                &&& cell.schema_id == schema_id
                &&& cell.id == page.id
                &&& byte_views(cell.keys@) == page@.keys
                &&& names_page(nodes, page.next, cell.next)
                &&& names_page(nodes, page.prev, cell.prev)
            })
        },
        change matches ChangingNode::Modified(slot) && slot < nodes.len() && nodes[slot as int] is External
            && neighbours_in(nodes, slot as int) ==> r is Store,
        change matches ChangingNode::Modified(slot) && (slot >= nodes.len() || !(
        nodes[slot as int] is External)) ==> r is Nothing,
{
}

/// The pages beside the page stand in the arena.
pub open spec fn neighbours_in(nodes: Seq<NodeData>, slot: int) -> bool {
    let page = nodes[slot]->External_0;
    &&& page.next matches NodeCellRef::Slot(s) ==> s < nodes.len()
    &&& page.prev matches NodeCellRef::Slot(s) ==> s < nodes.len()
}

} // verus!
