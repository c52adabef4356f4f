//! Nodes that splits below made come into a row of inner nodes that lost children.
use super::external::same_but_nodes;
use super::grow::{child_put, cut_row, put_child, split_view};
use super::node::{below, bound_of, is_below, keys_of, ptrs_of, NodeCellRef, NodeData};
use super::prune_any::node_sane;
use super::prune_state::{stands_from, walk_of};
use super::removal::RemovalView;
use super::shape::link_at;
use super::tree::BPlusTree;
use crate::index::key::{group_key_order, is_upper_bound, key_le, key_lt, not_descending, EntryKey};
use vstd::prelude::*;

verus! {

/// An inner node into which a child can come.
pub open spec fn node_open(n: NodeData) -> bool {
    &&& n is Internal
    &&& not_descending(keys_of(n))
    &&& ptrs_of(n).len() == keys_of(n).len() + 1
}

/// The nodes lead to each other from left to right, and the last one to none.
pub open spec fn open_walk(nodes: Seq<NodeData>, walk: Seq<int>) -> bool {
    &&& walk.len() >= 1
    &&& forall|x: int|
        0 <= x < walk.len() ==> {
            &&& 0 <= #[trigger] walk[x] < nodes.len()
            &&& link_at(nodes, walk, x)
            &&& nodes[walk[x]] is Empty || node_open(nodes[walk[x]])
        }
}

/// The node is not the one for `key`: it is emptied, or all of its range comes before `key`.
pub open spec fn passes(n: NodeData, key: Seq<u8>) -> bool {
    n is Empty || !below(key, bound_of(n))
}

pub proof fn lemma_sane_open(n: NodeData)
    requires
        node_sane(n),
    ensures
        node_open(n),
{
    broadcast use group_key_order;

    let keys = keys_of(n);
    assert forall|i: int, j: int| 0 <= i < j < keys.len() implies key_le(
        #[trigger] keys[i],
        #[trigger] keys[j],
    ) by {
        assert(key_lt(keys[i], keys[j]));
    }
}

/// A walk meets no node twice.
proof fn lemma_walk_once(nodes: Seq<NodeData>, walk: Seq<int>, p: int, q: int)
    requires
        nodes.len() <= usize::MAX,
        open_walk(nodes, walk),
        0 <= p < q < walk.len(),
    ensures
        walk[p] != walk[q],
    decreases walk.len() - q,
{
    assert(0 <= walk[p] < nodes.len());
    assert(0 <= walk[q] < nodes.len());
    assert(link_at(nodes, walk, p));
    assert(link_at(nodes, walk, q));
    if walk[p] == walk[q] {
        assert(0 <= walk[p + 1] < nodes.len());
        if q + 1 < walk.len() {
            assert(0 <= walk[q + 1] < nodes.len());
            lemma_walk_once(nodes, walk, p + 1, q + 1);
        }
    }
}

/// Follows a walk to the first node that `key` is not past, if there is one.
fn find_in_walk(nodes: &Vec<NodeData>, slot: usize, key: &EntryKey, Ghost(walk): Ghost<Seq<int>>) -> (r: Option<
    usize,
>)
    requires
        open_walk(nodes@, walk),
        slot == walk[0],
    ensures
        r matches Some(s) ==> exists|k: int|
            0 <= k < walk.len() && s == #[trigger] walk[k] && !passes(nodes@[walk[k]], key@)
                && forall|x: int| 0 <= x < k ==> passes(nodes@[#[trigger] walk[x]], key@),
        r is None ==> forall|x: int| 0 <= x < walk.len() ==> passes(nodes@[#[trigger] walk[x]], key@),
{
    let mut at: usize = slot;
    let ghost mut k: int = 0;
    loop
        invariant
            open_walk(nodes@, walk),
            0 <= k < walk.len(),
            at == walk[k],
            forall|x: int| 0 <= x < k ==> passes(nodes@[#[trigger] walk[x]], key@),
        decreases walk.len() - k,
    {
        proof {
            assert(0 <= walk[k] < nodes@.len());
            assert(link_at(nodes@, walk, k));
            assert(nodes.len() == nodes@.len());
            if k + 1 < walk.len() {
                assert(0 <= walk[k + 1] < nodes@.len());
            }
        }
        let right = match &nodes[at] {
            NodeData::Empty(e) => e.right,
            NodeData::Internal(n) => {
                if is_below(key, &n.right_bound) {
                    return Some(at);
                }
                n.right
            },
            _ => {
                assert(false);
                return None;
            },
        };
        match right {
            NodeCellRef::Slot(s) => {
                at = s;
                proof {
                    k = k + 1;
                }
            },
            _ => {
                return None;
            },
        }
    }
}

/// What a row makes of the node that a split below made: a node that its key is not past takes it,
/// and is split in turn if it is full.
pub open spec fn split_put(
    nodes: Seq<NodeData>,
    after: Seq<NodeData>,
    page_size: int,
    row: Seq<int>,
    row2: Seq<int>,
    start: int,
    given: (NodeCellRef, Seq<u8>),
    r: Option<(NodeCellRef, Seq<u8>)>,
) -> bool {
    ||| exists|k: int, pos: int|
        {
            &&& start <= k < row.len()
            &&& below(given.1, bound_of(nodes[#[trigger] row[k]]))
            &&& #[trigger] is_upper_bound(keys_of(nodes[row[k]]), given.1, pos)
            &&& child_put(nodes, after, page_size, row[k], given.1, given.0, pos, 1, r)
            &&& row2 == cut_row(row, k, nodes.len() as int, r)
        }
    ||| {
        &&& forall|k: int| start <= k < row.len() ==> !below(given.1, bound_of(nodes[#[trigger] row[k]]))
        &&& after == nodes
        &&& row2 == row
        &&& r is None
    }
}

pub open spec fn with_split(out: RemovalView, r: Option<(NodeCellRef, Seq<u8>)>) -> RemovalView {
    RemovalView {
        split: match r {
            Some(s) => out.split.push(s),
            None => out.split,
        },
        ..out
    }
}

/// The same for the first `k` of several such nodes, one after the other.
pub open spec fn splits_put(
    nodes: Seq<NodeData>,
    after: Seq<NodeData>,
    page_size: int,
    row: Seq<int>,
    row2: Seq<int>,
    start: int,
    given: Seq<(NodeCellRef, Seq<u8>)>,
    k: nat,
    out: RemovalView,
    out2: RemovalView,
) -> bool
    decreases k,
{
    if k == 0 {
        after == nodes && row2 == row && out2 == out
    } else {
        exists|mid: Seq<NodeData>, row1: Seq<int>, out1: RemovalView, r: Option<
            (NodeCellRef, Seq<u8>),
        >|
            {
                &&& splits_put(
                    nodes,
                    mid,
                    page_size,
                    row,
                    row1,
                    start,
                    given,
                    (k - 1) as nat,
                    out,
                    out1,
                )
                &&& #[trigger] split_put(mid, after, page_size, row1, row2, start, given[k - 1], r)
                &&& out2 == #[trigger] with_split(out1, r)
            }
    }
}

pub proof fn lemma_splits_step(
    nodes: Seq<NodeData>,
    mid: Seq<NodeData>,
    after: Seq<NodeData>,
    page_size: int,
    row: Seq<int>,
    row1: Seq<int>,
    row2: Seq<int>,
    start: int,
    given: Seq<(NodeCellRef, Seq<u8>)>,
    k: nat,
    out: RemovalView,
    out1: RemovalView,
    r: Option<(NodeCellRef, Seq<u8>)>,
)
    requires
        splits_put(nodes, mid, page_size, row, row1, start, given, k, out, out1),
        split_put(mid, after, page_size, row1, row2, start, given[k as int], r),
    ensures
        splits_put(
            nodes,
            after,
            page_size,
            row,
            row2,
            start,
            given,
            k + 1,
            out,
            with_split(out1, r),
        ),
{
    let l = k + 1;
    assert(splits_put(nodes, mid, page_size, row, row1, start, given, (l - 1) as nat, out, out1));
    assert(split_put(mid, after, page_size, row1, row2, start, given[l - 1], r));
}

/// A walk along a row stays one when a child comes into a node of it.
#[verifier::spinoff_prover]
#[verifier::rlimit(50)]
proof fn lemma_put_walk(
    nodes: Seq<NodeData>,
    after: Seq<NodeData>,
    page_size: int,
    row: Seq<int>,
    start: int,
    walk: Seq<int>,
    k: int,
    i: int,
    key: Seq<u8>,
    child: NodeCellRef,
    pos: int,
    r: Option<(NodeCellRef, Seq<u8>)>,
) -> (walk2: Seq<int>)
    requires
        after.len() <= usize::MAX,
        page_size >= 2,
        open_walk(nodes, walk),
        walk_of(nodes, row, start, walk),
        0 <= start,
        0 <= k < walk.len(),
        start <= i < row.len(),
        row[i] == walk[k],
        node_open(nodes[walk[k]]),
        is_upper_bound(keys_of(nodes[walk[k]]), key, pos),
        child_put(nodes, after, page_size, walk[k], key, child, pos, 1, r),
    ensures
        open_walk(after, walk2),
        walk_of(after, cut_row(row, i, nodes.len() as int, r), start, walk2),
        walk2[0] == walk[0],
        after.len() >= nodes.len(),
        forall|x: int|
            0 <= x < walk2.len() ==> walk.contains(#[trigger] walk2[x]) || walk2[x] >= nodes.len(),
{
    let n = nodes.len() as int;
    let slot = walk[k];
    let row2 = cut_row(row, i, n, r);
    let keys = keys_of(nodes[slot]).insert(pos, key);
    let ptrs = ptrs_of(nodes[slot]).insert(pos + 1, child);
    let mid = keys_of(nodes[slot]).len() as int / 2;
    assert(0 <= slot < nodes.len());
    assert(link_at(nodes, walk, k));
    assert(not_descending(keys)) by {
        broadcast use group_key_order;

        let old_keys = keys_of(nodes[slot]);
        assert forall|x: int, y: int| 0 <= x < y < keys.len() implies key_le(
            #[trigger] keys[x],
            #[trigger] keys[y],
        ) by {
            if y < pos {
                assert(key_le(old_keys[x], old_keys[y]));
            } else if y == pos {
                assert(key_le(old_keys[x], key));
            } else if x < pos {
                assert(key_le(old_keys[x], old_keys[y - 1]));
            } else if x == pos {
                assert(key_lt(key, old_keys[y - 1]));
            } else {
                assert(key_le(old_keys[x - 1], old_keys[y - 1]));
            }
        }
    }
    assert forall|x: int| 0 <= x < walk.len() && x != k implies #[trigger] walk[x] != slot by {
        if x < k {
            lemma_walk_once(nodes, walk, x, k);
        } else {
            lemma_walk_once(nodes, walk, k, x);
        }
    }
    if r is None {
        assert(keys_of(after[slot]) == after[slot]->Internal_0@.keys);
        assert(node_open(after[slot]));
        assert forall|x: int| 0 <= x < walk.len() implies {
            &&& 0 <= #[trigger] walk[x] < after.len()
            &&& link_at(after, walk, x)
            &&& after[walk[x]] is Empty || node_open(after[walk[x]])
        } by {
            assert(link_at(nodes, walk, x));
        }
        assert forall|x: int| 0 <= x < walk.len() implies walk.contains(#[trigger] walk[x]) by {}
        walk
    } else {
        let walk2 = walk.insert(k + 1, n);
        assert(not_descending(keys.take(mid)));
        assert(not_descending(keys.skip(mid + 1)));
        assert(node_open(after[slot]));
        assert(node_open(after[n]));
        assert forall|x: int| 0 <= x < walk2.len() implies {
            &&& 0 <= #[trigger] walk2[x] < after.len()
            &&& link_at(after, walk2, x)
            &&& after[walk2[x]] is Empty || node_open(after[walk2[x]])
        } by {
            if x < k {
                assert(walk2[x] == walk[x]);
                assert(link_at(nodes, walk, x));
                assert(walk2[x + 1] == walk[x + 1]);
            } else if x > k + 1 {
                assert(walk2[x] == walk[x - 1]);
                assert(link_at(nodes, walk, x - 1));
                if x + 1 < walk2.len() {
                    assert(walk2[x + 1] == walk[x]);
                }
            } else if x == k {
                assert(walk2[k + 1] == n);
            } else {
                if x + 1 < walk2.len() {
                    assert(walk2[x + 1] == walk[k + 1]);
                }
            }
        }
        assert(row2 == row.insert(i + 1, n));
        assert forall|x: int| 0 <= x < walk2.len() implies after[#[trigger] walk2[x]] is Empty
            || stands_from(row2, start, walk2[x]) by {
            if x == k + 1 {
                assert(row2[i + 1] == n);
            } else {
                let y = if x <= k {
                    x
                } else {
                    x - 1
                };
                assert(walk2[x] == walk[y]);
                if stands_from(row, start, walk[y]) {
                    let z = choose|z: int| start <= z < row.len() && #[trigger] row[z] == walk[y];
                    if z <= i {
                        assert(row2[z] == row[z]);
                    } else {
                        assert(row2[z + 1] == row[z]);
                    }
                }
            }
        }
        assert forall|x: int| start <= x < row2.len() implies walk2.contains(#[trigger] row2[x]) by {
            if x == i + 1 {
                assert(walk2[k + 1] == n);
            } else {
                let y = if x <= i {
                    x
                } else {
                    x - 1
                };
                assert(row2[x] == row[y]);
                assert(walk.contains(row[y]));
                let z = choose|z: int| 0 <= z < walk.len() && walk[z] == row[y];
                if z <= k {
                    assert(walk2[z] == walk[z]);
                } else {
                    assert(walk2[z + 1] == walk[z]);
                }
            }
        }
        assert forall|x: int| 0 <= x < walk2.len() implies walk.contains(#[trigger] walk2[x]) || walk2[x]
            >= nodes.len() by {
            if x <= k {
                assert(walk2[x] == walk[x]);
            } else if x > k + 1 {
                assert(walk2[x] == walk[x - 1]);
            }
        }
        walk2
    }
}

/// The first node of a walk that the key is not past.
pub open spec fn walk_end(nodes: Seq<NodeData>, walk: Seq<int>, key: Seq<u8>, k: int) -> bool {
    &&& 0 <= k < walk.len()
    &&& !passes(nodes[walk[k]], key)
    &&& forall|x: int| 0 <= x < k ==> passes(nodes[#[trigger] walk[x]], key)
}

/// The node at `slot` took the child.
pub open spec fn took(
    nodes: Seq<NodeData>,
    after: Seq<NodeData>,
    page_size: int,
    slot: int,
    given: (NodeCellRef, Seq<u8>),
    r: Option<(NodeCellRef, Seq<u8>)>,
) -> bool {
    exists|pos: int|
        #[trigger] is_upper_bound(keys_of(nodes[slot]), given.1, pos) && child_put(
            nodes,
            after,
            page_size,
            slot,
            given.1,
            given.0,
            pos,
            1,
            r,
        )
}

/// All nodes of a row are inner nodes.
pub open spec fn live_row(nodes: Seq<NodeData>, row: Seq<int>) -> bool {
    forall|x: int|
        0 <= x < row.len() ==> 0 <= #[trigger] row[x] < nodes.len() && nodes[row[x]] is Internal
}

pub proof fn lemma_put_row(
    nodes: Seq<NodeData>,
    after: Seq<NodeData>,
    page_size: int,
    row: Seq<int>,
    row2: Seq<int>,
    start: int,
    given: (NodeCellRef, Seq<u8>),
    r: Option<(NodeCellRef, Seq<u8>)>,
)
    requires
        live_row(nodes, row),
        0 <= start,
        split_put(nodes, after, page_size, row, row2, start, given, r),
    ensures
        live_row(after, row2),
        after.len() == nodes.len() + if r is Some {
            1int
        } else {
            0int
        },
        forall|x: int| 0 <= x < row2.len() ==> row.contains(#[trigger] row2[x]) || row2[x] >= nodes.len(),
        forall|x: int| 0 <= x < nodes.len() && !row.contains(x) ==> #[trigger] after[x] == nodes[x],
        forall|x: int| 0 <= x < nodes.len() && nodes[x] is Empty ==> #[trigger] after[x] == nodes[x],
{
    if after == nodes && row2 == row && r is None {
        assert forall|x: int| 0 <= x < row2.len() implies row.contains(#[trigger] row2[x]) by {}
    } else {
        let (k, pos) = choose|k: int, pos: int|
            {
                &&& start <= k < row.len()
                &&& below(given.1, bound_of(nodes[#[trigger] row[k]]))
                &&& #[trigger] is_upper_bound(keys_of(nodes[row[k]]), given.1, pos)
                &&& child_put(nodes, after, page_size, row[k], given.1, given.0, pos, 1, r)
                &&& row2 == cut_row(row, k, nodes.len() as int, r)
            };
        assert(0 <= row[k] < nodes.len());
        assert forall|x: int| 0 <= x < row2.len() implies {
            &&& 0 <= #[trigger] row2[x] < after.len()
            &&& after[row2[x]] is Internal
            &&& row.contains(row2[x]) || row2[x] >= nodes.len()
        } by {
            if r is Some && x == k + 1 {
                assert(row2[x] == nodes.len());
            } else {
                let y = if r is None || x <= k {
                    x
                } else {
                    x - 1
                };
                assert(row2[x] == row[y]);
                assert(0 <= row[y] < nodes.len());
            }
        }
    }
}

proof fn lemma_walk_took(
    nodes: Seq<NodeData>,
    after: Seq<NodeData>,
    page_size: int,
    row: Seq<int>,
    start: int,
    walk: Seq<int>,
    k: int,
    i: int,
    given: (NodeCellRef, Seq<u8>),
    pos: int,
    r: Option<(NodeCellRef, Seq<u8>)>,
)
    requires
        walk_end(nodes, walk, given.1, k),
        start <= i < row.len(),
        row[i] == walk[k],
        is_upper_bound(keys_of(nodes[walk[k]]), given.1, pos),
        child_put(nodes, after, page_size, walk[k], given.1, given.0, pos, 1, r),
    ensures
        split_put(
            nodes,
            after,
            page_size,
            row,
            cut_row(row, i, nodes.len() as int, r),
            start,
            given,
            r,
        ),
        forall|e: int| #[trigger]
            walk_end(nodes, walk, given.1, e) ==> took(nodes, after, page_size, walk[e], given, r),
{
    assert(is_upper_bound(keys_of(nodes[row[i]]), given.1, pos));
    assert forall|e: int| #[trigger] walk_end(nodes, walk, given.1, e) implies took(
        nodes,
        after,
        page_size,
        walk[e],
        given,
        r,
    ) by {
        if e < k {
            assert(passes(nodes[walk[e]], given.1));
        } else if k < e {
            assert(passes(nodes[walk[k]], given.1));
        }
        assert(e == k);
        assert(is_upper_bound(keys_of(nodes[walk[e]]), given.1, pos));
    }
}

/// Puts the node that a split below made in the first node of the walk that its key is not past.
#[verifier::spinoff_prover]
#[verifier::rlimit(50)]
pub(crate) fn put_split(
    tree: &mut BPlusTree,
    node: usize,
    child: NodeCellRef,
    pivot: &EntryKey,
    Ghost(row): Ghost<Seq<int>>,
    Ghost(start): Ghost<int>,
    Ghost(walk): Ghost<Seq<int>>,
) -> (r: (Option<(NodeCellRef, EntryKey)>, Ghost<Seq<int>>, Ghost<Seq<int>>))
    requires
        old(tree).page_size >= 2,
        open_walk(old(tree).nodes@, walk),
        walk_of(old(tree).nodes@, row, start, walk),
        live_row(old(tree).nodes@, row),
        0 <= start,
        node == walk[0],
    ensures
        same_but_nodes(*final(tree), *old(tree)),
        split_put(
            old(tree).nodes@,
            final(tree).nodes@,
            old(tree).page_size as int,
            row,
            r.1@,
            start,
            (child, pivot@),
            split_view(r.0),
        ),
        forall|k: int| #[trigger]
            walk_end(old(tree).nodes@, walk, pivot@, k) ==> took(
                old(tree).nodes@,
                final(tree).nodes@,
                old(tree).page_size as int,
                walk[k],
                (child, pivot@),
                split_view(r.0),
            ),
        open_walk(final(tree).nodes@, r.2@),
        walk_of(final(tree).nodes@, r.1@, start, r.2@),
        r.2@[0] == walk[0],
        forall|x: int|
            0 <= x < r.2@.len() ==> walk.contains(#[trigger] r.2@[x]) || r.2@[x] >= old(
                tree,
            ).nodes@.len(),
{
    let ghost before = tree.nodes@;
    let ghost page_size = tree.page_size as int;
    match find_in_walk(&tree.nodes, node, pivot, Ghost(walk)) {
        None => {
            proof {
                assert forall|k: int| start <= k < row.len() implies !below(
                    pivot@,
                    bound_of(before[#[trigger] row[k]]),
                ) by {
                    assert(walk.contains(row[k]));
                    let z = choose|z: int| 0 <= z < walk.len() && walk[z] == row[k];
                    assert(passes(before[walk[z]], pivot@));
                    assert(before[row[k]] is Internal);
                }
            }
            (None, Ghost(row), Ghost(walk))
        },
        Some(slot) => {
            let ghost k = choose|k: int|
                0 <= k < walk.len() && slot == #[trigger] walk[k] && !passes(
                    before[walk[k]],
                    pivot@,
                ) && forall|x: int| 0 <= x < k ==> passes(before[#[trigger] walk[x]], pivot@);
            proof {
                assert(0 <= walk[k] < before.len());
                assert(node_open(before[walk[k]]));
                assert(tree.nodes.len() == before.len());
            }
            let pos: usize = match &tree.nodes[slot] {
                NodeData::Internal(n) => n.search(pivot),
                _ => 0,
            };
            let r = put_child(tree, slot, pivot.duplicate(), child, pos, true);
            let ghost s = split_view(r);
            let ghost given = (child, pivot@);
            proof {
                assert(super::node::pad(true) == 1);
                assert(tree.nodes.len() == tree.nodes@.len());
                assert(stands_from(row, start, walk[k]));
            }
            let ghost i = choose|i: int| start <= i < row.len() && #[trigger] row[i] == walk[k];
            let ghost walk2 = lemma_put_walk(
                before,
                tree.nodes@,
                page_size,
                row,
                start,
                walk,
                k,
                i,
                pivot@,
                child,
                pos as int,
                s,
            );
            proof {
                lemma_walk_took(before, tree.nodes@, page_size, row, start, walk, k, i, given, pos as int, s);
            }
            (r, Ghost(cut_row(row, i, before.len() as int, split_view(r))), Ghost(walk2))
        },
    }
}

} // verus!
