//! Search from a node downwards.
use super::cursor::{ahead_of, lemma_leaf_keys_in_flat, offset, RTCursor, ScanOrder};
use super::node::{below, bound_of, is_below, keys_of, ptrs_of, right_of, NodeCellRef, NodeData};
use super::shape::{
    bounds, bounds_ok, covers, kids_before, leaf_at, link_at, lemma_node_keys_ascend,
    lemma_over_at, lemma_shape_row, node_over, reaches, row_ok, shape_ok, slot_ref,
};
use super::tree::{lemma_leaf, live, BPlusTree};
use crate::index::key::{
    ascending, group_key_order, is_lower_bound, is_upper_bound, key_le, key_lt, lower_bound,
    EntryKey,
};
use vstd::prelude::*;

verus! {

/// The slot that a reference leads to past at most `n` emptied nodes.
pub open spec fn live_slot(nodes: Seq<NodeData>, r: NodeCellRef, n: nat) -> Option<int>
    decreases n,
{
    match r {
        NodeCellRef::Slot(s) => if s >= nodes.len() {
            None
        } else {
            match nodes[s as int] {
                NodeData::Empty(e) => if n == 0 {
                    None
                } else {
                    live_slot(nodes, e.right, (n - 1) as nat)
                },
                NodeData::Nil => None,
                _ => Some(s as int),
            }
        },
        _ => None,
    }
}

/// The reference leads to the node at `slot`, past emptied nodes if need be.
pub open spec fn lands(nodes: Seq<NodeData>, r: NodeCellRef, slot: int) -> bool {
    exists|n: nat| live_slot(nodes, r, n) == Some(slot)
}

/// The reference leads to no node, past at most `n` emptied nodes.
pub open spec fn leads_nowhere(nodes: Seq<NodeData>, r: NodeCellRef, n: nat) -> bool
    decreases n,
{
    match r {
        NodeCellRef::Nil => true,
        NodeCellRef::Slot(s) => s < nodes.len() && match nodes[s as int] {
            NodeData::Nil => true,
            NodeData::Empty(e) => n > 0 && leads_nowhere(nodes, e.right, (n - 1) as nat),
            _ => false,
        },
        NodeCellRef::Page(_) => false,
    }
}

/// The reference leads to no node.
pub open spec fn ends(nodes: Seq<NodeData>, r: NodeCellRef) -> bool {
    exists|n: nat| leads_nowhere(nodes, r, n)
}

/// The reference leads to the node at `i` of the row `h`.
pub open spec fn stands(tree: &BPlusTree, r: NodeCellRef, h: int, i: int) -> bool {
    &&& 0 <= h < tree.rows@.len()
    &&& 0 <= i < tree.rows@[h].len()
    &&& lands(tree.nodes@, r, tree.rows@[h][i])
}

/// The leftmost leaf under the node at `i` of the row `h`.
pub open spec fn first_leaf(nodes: Seq<NodeData>, rows: Seq<Seq<int>>, h: int, i: int) -> int
    decreases h,
{
    if h <= 0 {
        i
    } else {
        first_leaf(nodes, rows, h - 1, kids_before(nodes, rows[h], i))
    }
}

/// The leaf at `i` is the one whose range holds `key`, and `q` of its keys come before it.
pub open spec fn found(tree: &BPlusTree, key: Seq<u8>, i: int, q: int) -> bool {
    &&& 0 <= i < tree.leaves().len()
    &&& covers(bounds(tree.nodes@, tree.leaves()), i, key)
    &&& is_lower_bound(keys_of(tree.nodes@[tree.leaves()[i]]), key, q)
}

/// Where in a page a cursor starts that looks for `key`: walking backward it takes one step left
/// of a greater key, but does not leave the page.
pub open spec fn start_in(keys: Seq<Seq<u8>>, key: Seq<u8>, q: int, ordering: ScanOrder) -> int {
    match ordering {
        ScanOrder::Forward => q,
        ScanOrder::Backward => if q > 0 && (q >= keys.len() || keys[q] != key) {
            q - 1
        } else {
            q
        },
    }
}

/// What a search for `key` gives.
pub open spec fn search_result(tree: &BPlusTree, key: Seq<u8>, ordering: ScanOrder, c: RTCursor) -> bool {
    exists|i: int, q: int|
        #[trigger] found(tree, key, i, q) && c.ahead(tree) == live(
            ahead_of(
                tree,
                i,
                start_in(keys_of(tree.nodes@[tree.leaves()[i]]), key, q, ordering),
                ordering,
            ),
            tree.deleted@,
        )
}

/// The leaf at `i` is where a search for `key` ends that does not go left of the leaf at `from`: the
/// later one of that leaf and the leaf whose range holds the key. Of its keys, `q` come before `key`.
pub open spec fn found_from(tree: &BPlusTree, key: Seq<u8>, from: int, i: int, q: int) -> bool {
    let b = bounds(tree.nodes@, tree.leaves());
    &&& 0 <= i < tree.leaves().len()
    &&& from <= i && covers(b, i, key) || from == i && !reaches(b, i, key)
    &&& is_lower_bound(keys_of(tree.nodes@[tree.leaves()[i]]), key, q)
}

/// What a search for `key` gives that does not go left of the leaf at `from`.
pub open spec fn search_result_from(
    tree: &BPlusTree,
    key: Seq<u8>,
    ordering: ScanOrder,
    from: int,
    c: RTCursor,
) -> bool {
    exists|i: int, q: int|
        #[trigger] found_from(tree, key, from, i, q) && c.ahead(tree) == live(
            ahead_of(
                tree,
                i,
                start_in(keys_of(tree.nodes@[tree.leaves()[i]]), key, q, ordering),
                ordering,
            ),
            tree.deleted@,
        )
}

/// The facts of a row that a search uses.
pub proof fn lemma_row(tree: &BPlusTree, h: int, i: int)
    requires
        tree.wf(),
        0 <= h < tree.rows@.len(),
        0 <= i < tree.rows@[h].len(),
    ensures
        ({
            let row = tree.rows@[h];
            let n = tree.nodes@[row[i]];
            &&& 0 <= row[i] < tree.nodes@.len() <= usize::MAX
            &&& bounds_ok(bounds(tree.nodes@, row))
            &&& bounds(tree.nodes@, row)[i] == bound_of(n)
            &&& h == 0 <==> n is External
            &&& h > 0 <==> n is Internal
            &&& ascending(keys_of(n))
            &&& right_of(n) == (if i + 1 < row.len() {
                slot_ref(row[i + 1])
            } else {
                NodeCellRef::Nil
            })
            &&& i + 1 < row.len() ==> 0 <= row[i + 1] < tree.nodes@.len() && !(
            tree.nodes@[row[i + 1]] is Empty) && !(tree.nodes@[row[i + 1]] is Nil)
        }),
{
    lemma_shape_row(tree.nodes@, tree.rows@, tree.page_size as int, h);
    let row = tree.rows@[h];
    assert(tree.nodes.len() == tree.nodes@.len());
    assert(0 <= row[i] < tree.nodes@.len());
    if h > 0 {
        let crow = tree.rows@[h - 1];
        let b = bounds(tree.nodes@, crow);
        let a = lemma_over_at(tree.nodes@, row, crow, b, i);
        let m = ptrs_of(tree.nodes@[row[i]]).len() as int;
        assert forall|x: int, y: int| 0 <= x < y < m implies super::node::bound_lt(
            #[trigger] b.subrange(a, a + m)[x],
            #[trigger] b.subrange(a, a + m)[y],
        ) by {
            assert(super::node::bound_lt(b[a + x], b[a + y]));
        }
        lemma_node_keys_ascend(
            tree.nodes@[row[i]],
            crow.subrange(a, a + m),
            b.subrange(a, a + m),
        );
    } else {
        assert(leaf_at(tree.nodes@, row, tree.page_size as int, i));
    }
    assert(link_at(tree.nodes@, row, i));
    if i + 1 < row.len() {
        let next = tree.nodes@[row[i + 1]];
        assert(0 <= row[i + 1] < tree.nodes@.len());
        assert(if h == 0 {
            next is External
        } else {
            next is Internal
        });
    }
}

/// The child to follow for `key` stands in the row below.
pub proof fn lemma_child(tree: &BPlusTree, h: int, i: int, key: Seq<u8>, pos: int) -> (c: int)
    requires
        tree.wf(),
        0 < h < tree.rows@.len(),
        0 <= i < tree.rows@[h].len(),
        is_upper_bound(keys_of(tree.nodes@[tree.rows@[h][i]]), key, pos),
    ensures
        0 <= c < tree.rows@[h - 1].len(),
        pos < ptrs_of(tree.nodes@[tree.rows@[h][i]]).len(),
        ptrs_of(tree.nodes@[tree.rows@[h][i]])[pos] == slot_ref(tree.rows@[h - 1][c]),
        c == kids_before(tree.nodes@, tree.rows@[h], i) + pos,
        pos > 0 ==> reaches(bounds(tree.nodes@, tree.rows@[h - 1]), c, key),
{
    lemma_shape_row(tree.nodes@, tree.rows@, tree.page_size as int, h);
    let row = tree.rows@[h];
    let crow = tree.rows@[h - 1];
    let n = tree.nodes@[row[i]];
    let b = bounds(tree.nodes@, crow);
    let a = lemma_over_at(tree.nodes@, row, crow, b, i);
    let m = ptrs_of(n).len() as int;
    let kids = crow.subrange(a, a + m);
    let c = a + pos;
    assert(node_over(n, kids, b.subrange(a, a + m)));
    assert(ptrs_of(n)[pos] == slot_ref(kids[pos]));
    if pos > 0 {
        assert(keys_of(n)[pos - 1] == keys_of(n)[pos - 1]);
        assert(b.subrange(a, a + m)[pos - 1] == b[c - 1]);
    }
    c
}

/// The leftmost leaf under a node begins where the node begins.
pub proof fn lemma_first_leaf(tree: &BPlusTree, h: int, i: int, key: Seq<u8>)
    requires
        tree.wf(),
        0 <= h < tree.rows@.len(),
        0 <= i < tree.rows@[h].len(),
    ensures
        0 <= first_leaf(tree.nodes@, tree.rows@, h, i) < tree.leaves().len(),
        reaches(bounds(tree.nodes@, tree.rows@[h]), i, key) <==> reaches(
            bounds(tree.nodes@, tree.leaves()),
            first_leaf(tree.nodes@, tree.rows@, h, i),
            key,
        ),
    decreases h,
{
    if h > 0 {
        lemma_shape_row(tree.nodes@, tree.rows@, tree.page_size as int, h);
        let row = tree.rows@[h];
        let crow = tree.rows@[h - 1];
        let b = bounds(tree.nodes@, crow);
        let a = lemma_over_at(tree.nodes@, row, crow, b, i);
        lemma_first_leaf(tree, h - 1, a, key);
        if i > 0 {
            assert(bounds(tree.nodes@, row)[i - 1] == bound_of(tree.nodes@[row[i - 1]]));
        }
    }
}

/// Leaves under nodes further right stand further right.
proof fn lemma_first_leaf_order(tree: &BPlusTree, h: int, i: int, j: int)
    requires
        tree.wf(),
        0 <= h < tree.rows@.len(),
        0 <= i <= j < tree.rows@[h].len(),
    ensures
        first_leaf(tree.nodes@, tree.rows@, h, i) <= first_leaf(tree.nodes@, tree.rows@, h, j),
    decreases h, j - i,
{
    if h > 0 && i < j {
        lemma_shape_row(tree.nodes@, tree.rows@, tree.page_size as int, h);
        let row = tree.rows@[h];
        let crow = tree.rows@[h - 1];
        let b = bounds(tree.nodes@, crow);
        let a = lemma_over_at(tree.nodes@, row, crow, b, i);
        let c = lemma_over_at(tree.nodes@, row, crow, b, j);
        lemma_kids_before_order(tree.nodes@, row, i, j);
        lemma_first_leaf_order(tree, h - 1, a, c);
    }
}

proof fn lemma_kids_before_order(nodes: Seq<NodeData>, row: Seq<int>, i: int, j: int)
    requires
        i <= j,
    ensures
        0 <= kids_before(nodes, row, i) <= kids_before(nodes, row, j),
    decreases row.len(),
{
    if row.len() > 0 && j > 0 {
        lemma_kids_before_order(nodes, row.drop_first(), i - 1, j - 1);
        lemma_kids_before_order(nodes, row.drop_first(), j - 1, j - 1);
    }
}

/// Where a later leaf still is not right of the key, a search may as well start there.
proof fn lemma_start_later(tree: &BPlusTree, key: Seq<u8>, from: int, later: int, i: int, q: int)
    requires
        tree.wf(),
        0 <= from <= later < tree.leaves().len(),
        from == later || reaches(bounds(tree.nodes@, tree.leaves()), later, key),
    ensures
        found_from(tree, key, from, i, q) <==> found_from(tree, key, later, i, q),
{
    broadcast use group_key_order;

    let b = bounds(tree.nodes@, tree.leaves());
    assert(bounds_ok(b)) by {
        reveal(shape_ok);
        assert(row_ok(tree.nodes@, tree.rows@[0], true));
    }
    if from < later {
        if 0 < from {
            assert(super::node::bound_lt(b[from - 1], b[later - 1]));
        }
        if 0 <= i < later - 1 {
            assert(super::node::bound_lt(b[i], b[later - 1]));
        }
    }
}

proof fn lemma_result_later(
    tree: &BPlusTree,
    key: Seq<u8>,
    ordering: ScanOrder,
    from: int,
    later: int,
    c: RTCursor,
)
    requires
        tree.wf(),
        0 <= from <= later < tree.leaves().len(),
        from == later || reaches(bounds(tree.nodes@, tree.leaves()), later, key),
    ensures
        search_result_from(tree, key, ordering, from, c) <==> search_result_from(
            tree,
            key,
            ordering,
            later,
            c,
        ),
{
    assert forall|i: int, q: int|
        #[trigger] found_from(tree, key, from, i, q) <==> found_from(tree, key, later, i, q) by {
        lemma_start_later(tree, key, from, later, i, q);
    }
    if search_result_from(tree, key, ordering, later, c) {
        let (i, q) = choose|i: int, q: int|
            #[trigger] found_from(tree, key, later, i, q) && c.ahead(tree) == live(
                ahead_of(
                    tree,
                    i,
                    start_in(keys_of(tree.nodes@[tree.leaves()[i]]), key, q, ordering),
                    ordering,
                ),
                tree.deleted@,
            );
        assert(found_from(tree, key, from, i, q));
    }
}

/// A search from an inner node is one from the child to follow, whichever way it then walks.
pub proof fn lemma_search_descends(
    tree: &BPlusTree,
    h: int,
    i: int,
    key: Seq<u8>,
    pos: int,
    ordering: ScanOrder,
    c: RTCursor,
)
    requires
        tree.wf(),
        0 < h < tree.rows@.len(),
        0 <= i < tree.rows@[h].len(),
        is_upper_bound(keys_of(tree.nodes@[tree.rows@[h][i]]), key, pos),
    ensures
        ({
            let child = kids_before(tree.nodes@, tree.rows@[h], i) + pos;
            &&& 0 <= child < tree.rows@[h - 1].len()
            &&& ptrs_of(tree.nodes@[tree.rows@[h][i]])[pos] == slot_ref(tree.rows@[h - 1][child])
            &&& search_result_from(
                tree,
                key,
                ordering,
                first_leaf(tree.nodes@, tree.rows@, h, i),
                c,
            ) <==> search_result_from(
                tree,
                key,
                ordering,
                first_leaf(tree.nodes@, tree.rows@, h - 1, child),
                c,
            )
        }),
{
    let child = lemma_child(tree, h, i, key, pos);
    let first = kids_before(tree.nodes@, tree.rows@[h], i);
    lemma_kids_before_order(tree.nodes@, tree.rows@[h], 0, i);
    lemma_first_leaf(tree, h, i, key);
    lemma_first_leaf(tree, h - 1, child, key);
    lemma_first_leaf_order(tree, h - 1, first, child);
    lemma_result_later(
        tree,
        key,
        ordering,
        first_leaf(tree.nodes@, tree.rows@, h, i),
        first_leaf(tree.nodes@, tree.rows@, h - 1, child),
        c,
    );
}

/// A search from a node whose range ends at or before the key is one from its right neighbour.
pub proof fn lemma_search_goes_right(
    tree: &BPlusTree,
    h: int,
    i: int,
    key: Seq<u8>,
    ordering: ScanOrder,
    c: RTCursor,
)
    requires
        tree.wf(),
        0 <= h < tree.rows@.len(),
        0 <= i < tree.rows@[h].len(),
        !below(key, bound_of(tree.nodes@[tree.rows@[h][i]])),
    ensures
        i + 1 < tree.rows@[h].len(),
        search_result_from(tree, key, ordering, first_leaf(tree.nodes@, tree.rows@, h, i), c)
            <==> search_result_from(
            tree,
            key,
            ordering,
            first_leaf(tree.nodes@, tree.rows@, h, i + 1),
            c,
        ),
{
    broadcast use group_key_order;

    lemma_row(tree, h, i);
    assert(i + 1 < tree.rows@[h].len());
    lemma_first_leaf(tree, h, i, key);
    lemma_first_leaf(tree, h, i + 1, key);
    lemma_first_leaf_order(tree, h, i, i + 1);
    assert(bounds(tree.nodes@, tree.rows@[h])[i] == bound_of(tree.nodes@[tree.rows@[h][i]]));
    lemma_result_later(
        tree,
        key,
        ordering,
        first_leaf(tree.nodes@, tree.rows@, h, i),
        first_leaf(tree.nodes@, tree.rows@, h, i + 1),
        c,
    );
}

/// A reference to an emptied node stands wherever the emptied node leads.
pub proof fn lemma_search_skips_emptied(tree: &BPlusTree, s: usize, h: int, i: int)
    requires
        s < tree.nodes@.len(),
        tree.nodes@[s as int] is Empty,
    ensures
        stands(tree, NodeCellRef::Slot(s), h, i) <==> stands(
            tree,
            tree.nodes@[s as int]->Empty_0.right,
            h,
            i,
        ),
{
    let right = tree.nodes@[s as int]->Empty_0.right;
    let goal = tree.rows@[h][i];
    if stands(tree, right, h, i) {
        let n = choose|n: nat| live_slot(tree.nodes@, right, n) == Some(goal);
        assert(live_slot(tree.nodes@, NodeCellRef::Slot(s), n + 1) == Some(goal));
    }
    if stands(tree, NodeCellRef::Slot(s), h, i) {
        let n = choose|n: nat| live_slot(tree.nodes@, NodeCellRef::Slot(s), n) == Some(goal);
        assert(live_slot(tree.nodes@, right, (n - 1) as nat) == Some(goal));
    }
}

/// A reference leads to one slot at most.
proof fn lemma_lands_once(nodes: Seq<NodeData>, r: NodeCellRef, n: nat, m: nat)
    requires
        live_slot(nodes, r, n) is Some,
        live_slot(nodes, r, m) is Some,
    ensures
        live_slot(nodes, r, n) == live_slot(nodes, r, m),
    decreases n,
{
    match r {
        NodeCellRef::Slot(s) => {
            match nodes[s as int] {
                NodeData::Empty(e) => {
                    lemma_lands_once(nodes, e.right, (n - 1) as nat, (m - 1) as nat);
                },
                _ => {},
            }
        },
        _ => {},
    }
}

/// A reference stands at one place of a tree at most.
pub proof fn lemma_stands_once(tree: &BPlusTree, r: NodeCellRef, h: int, i: int, g: int, j: int)
    requires
        tree.wf(),
        stands(tree, r, h, i),
        stands(tree, r, g, j),
    ensures
        h == g,
        i == j,
{
    let n = choose|n: nat| live_slot(tree.nodes@, r, n) == Some(tree.rows@[h][i]);
    let m = choose|m: nat| live_slot(tree.nodes@, r, m) == Some(tree.rows@[g][j]);
    lemma_lands_once(tree.nodes@, r, n, m);
    reveal(shape_ok);
    assert(tree.rows@[h][i] == tree.rows@[g][j]);
}

/// A reference to a node that is not emptied leads to that node alone.
pub proof fn lemma_lands_on_live(nodes: Seq<NodeData>, s: usize, slot: int)
    requires
        s < nodes.len(),
        nodes[s as int] is External || nodes[s as int] is Internal,
    ensures
        lands(nodes, NodeCellRef::Slot(s), slot) <==> slot == s,
{
    assert(live_slot(nodes, NodeCellRef::Slot(s), 0) == Some(s as int));
}

/// A reference leads to a node or to none, not both.
proof fn lemma_ends_or_lands(nodes: Seq<NodeData>, r: NodeCellRef, n: nat, m: nat)
    requires
        leads_nowhere(nodes, r, n),
    ensures
        live_slot(nodes, r, m) is None,
    decreases n,
{
    match r {
        NodeCellRef::Slot(s) => {
            match nodes[s as int] {
                NodeData::Empty(e) => {
                    if m > 0 {
                        lemma_ends_or_lands(nodes, e.right, (n - 1) as nat, (m - 1) as nat);
                    }
                },
                _ => {},
            }
        },
        _ => {},
    }
}

/// The node that a reference leads to past emptied ones, if it leads to one.
fn first_live(nodes: &Vec<NodeData>, r: NodeCellRef) -> (out: Option<usize>)
    requires
        ends(nodes@, r) || exists|slot: int| lands(nodes@, r, slot),
    ensures
        match out {
            Some(s) => lands(nodes@, r, s as int) && live_slot(nodes@, NodeCellRef::Slot(s), 0)
                == Some(s as int) && !ends(nodes@, r),
            None => ends(nodes@, r) && forall|slot: int| !lands(nodes@, r, slot),
        },
{
    let mut at = r;
    let ghost (dead, slot, mut n): (bool, int, nat) = if ends(nodes@, r) {
        (true, 0, choose|n: nat| leads_nowhere(nodes@, r, n))
    } else {
        let slot = choose|slot: int| lands(nodes@, r, slot);
        (false, slot, choose|n: nat| live_slot(nodes@, r, n) == Some(slot))
    };
    loop
        invariant
            dead == ends(nodes@, r),
            dead ==> leads_nowhere(nodes@, at, n),
            !dead ==> live_slot(nodes@, at, n) == Some(slot) && lands(nodes@, r, slot),
        decreases n,
    {
        let out = match at {
            NodeCellRef::Slot(s) => {
                match &nodes[s] {
                    NodeData::Empty(e) => {
                        at = e.right;
                        proof {
                            n = (n - 1) as nat;
                        }
                        continue;
                    },
                    NodeData::Nil => None,
                    _ => Some(s),
                }
            },
            _ => None,
        };
        proof {
            if dead {
                assert forall|slot: int| !lands(nodes@, r, slot) by {
                    if lands(nodes@, r, slot) {
                        let k = choose|k: nat| leads_nowhere(nodes@, r, k);
                        let m = choose|m: nat| live_slot(nodes@, r, m) == Some(slot);
                        lemma_ends_or_lands(nodes@, r, k, m);
                    }
                }
            }
        }
        return out;
    }
}

/// Looks for `key` from a node on, down and to the right, and gives a cursor in the page where that
/// ends: at the first key that does not come before it or, walking backward, at the last one of the
/// page that does not come after it. From no node on there is nothing to show.
pub fn search_node(tree: &BPlusTree, node_ref: NodeCellRef, key: &EntryKey, ordering: ScanOrder) -> (c:
    RTCursor)
    requires
        tree.wf(),
        ends(tree.nodes@, node_ref) || exists|h: int, i: int| stands(tree, node_ref, h, i),
    ensures
        c.wf(tree),
        c.ordering == ordering,
        ends(tree.nodes@, node_ref) ==> c.index == 0 && c.page is None && c.current is None,
        forall|h: int, i: int| #[trigger]
            stands(tree, node_ref, h, i) ==> search_result_from(
                tree,
                key@,
                ordering,
                first_leaf(tree.nodes@, tree.rows@, h, i),
                c,
            ),
{
    let slot: usize = match first_live(&tree.nodes, node_ref) {
        Some(s) => s,
        None => {
            return RTCursor { index: 0, ordering, page: None, current: None };
        },
    };
    let ghost (h, i) = choose|h: int, i: int| stands(tree, node_ref, h, i);
    proof {
        let n = choose|n: nat| live_slot(tree.nodes@, node_ref, n) == Some(tree.rows@[h][i]);
        let m = choose|m: nat| live_slot(tree.nodes@, node_ref, m) == Some(slot as int);
        lemma_lands_once(tree.nodes@, node_ref, n, m);
        lemma_row(tree, h, i);
    }
    let c = search_from(tree, slot, key, ordering, Ghost(h), Ghost(i), Ghost(0));
    proof {
        assert forall|g: int, j: int| #[trigger] stands(tree, node_ref, g, j) implies search_result_from(
            tree,
            key@,
            ordering,
            first_leaf(tree.nodes@, tree.rows@, g, j),
            c,
        ) by {
            lemma_stands_once(tree, node_ref, h, i, g, j);
        }
    }
    c
}

fn search_from(
    tree: &BPlusTree,
    slot: usize,
    key: &EntryKey,
    ordering: ScanOrder,
    Ghost(h): Ghost<int>,
    Ghost(i): Ghost<int>,
    Ghost(n): Ghost<nat>,
) -> (c: RTCursor)
    requires
        tree.wf(),
        0 <= h < tree.rows@.len(),
        0 <= i < tree.rows@[h].len(),
        live_slot(tree.nodes@, NodeCellRef::Slot(slot), n) == Some(tree.rows@[h][i]),
    ensures
        c.wf(tree),
        c.ordering == ordering,
        search_result_from(
            tree,
            key@,
            ordering,
            first_leaf(tree.nodes@, tree.rows@, h, i),
            c,
        ),
    decreases h, tree.rows@[h].len() - i, n,
{
    proof {
        lemma_row(tree, h, i);
    }
    match &tree.nodes[slot] {
        NodeData::External(page) => {
            if !is_below(key, &page.right_bound) {
                match page.next {
                    NodeCellRef::Slot(s) => {
                        proof {
                            broadcast use group_key_order;

                            assert(i + 1 < tree.rows@[h].len());
                            assert(live_slot(tree.nodes@, NodeCellRef::Slot(s), 0) == Some(
                                tree.rows@[h][i + 1],
                            ));
                        }
                        let c = search_from(
                            tree,
                            s,
                            key,
                            ordering,
                            Ghost(h),
                            Ghost(i + 1),
                            Ghost(0),
                        );
                        proof {
                            lemma_search_goes_right(tree, h, i, key@, ordering, c);
                        }
                        return c;
                    },
                    _ => {
                        proof {
                            assert(false);
                        }
                    },
                }
            }
            let q: usize = lower_bound(&page.keys, key);
            let mut pos: usize = q;
            match ordering {
                ScanOrder::Backward => {
                    if pos > 0 && (pos >= page.keys.len() || !page.keys[pos].same(key)) {
                        pos -= 1;
                    }
                },
                ScanOrder::Forward => {},
            }
            proof {
                lemma_leaf(tree, i);
                lemma_leaf_keys_in_flat(tree, i);
                assert(bounds(tree.nodes@, tree.leaves())[i] == bound_of(tree.nodes@[slot as int]));
                assert(found_from(tree, key@, i, i, q as int));
                if tree.leaves().len() == 1 {
                    assert(offset(tree, 1) == tree.keys().len());
                }
            }
            RTCursor::new(pos, slot, ordering, tree)
        },
        NodeData::Internal(node) => {
            if !is_below(key, &node.right_bound) {
                match node.right {
                    NodeCellRef::Slot(s) => {
                        proof {
                            broadcast use group_key_order;

                            assert(i + 1 < tree.rows@[h].len());
                            assert(live_slot(tree.nodes@, NodeCellRef::Slot(s), 0) == Some(
                                tree.rows@[h][i + 1],
                            ));
                        }
                        let c = search_from(
                            tree,
                            s,
                            key,
                            ordering,
                            Ghost(h),
                            Ghost(i + 1),
                            Ghost(0),
                        );
                        proof {
                            lemma_search_goes_right(tree, h, i, key@, ordering, c);
                        }
                        return c;
                    },
                    _ => {
                        proof {
                            assert(false);
                        }
                    },
                }
            }
            let pos: usize = node.search(key);
            let ghost c = lemma_child(tree, h, i, key@, pos as int);
            proof {
                lemma_row(tree, h - 1, c);
            }
            match node.ptrs[pos] {
                NodeCellRef::Slot(s) => {
                    assert(live_slot(tree.nodes@, NodeCellRef::Slot(s), 0) == Some(
                        tree.rows@[h - 1][c],
                    ));
                    let r = search_from(tree, s, key, ordering, Ghost(h - 1), Ghost(c), Ghost(0));
                    proof {
                        lemma_search_descends(tree, h, i, key@, pos as int, ordering, r);
                    }
                    r
                },
                _ => {
                    proof {
                        assert(false);
                    }
                    RTCursor { index: 0, ordering, page: None, current: None }
                },
            }
        },
        NodeData::Empty(node) => {
            assert(live_slot(tree.nodes@, node.right, (n - 1) as nat) == Some(tree.rows@[h][i]));
            match node.right {
                NodeCellRef::Slot(s) => search_from(
                    tree,
                    s,
                    key,
                    ordering,
                    Ghost(h),
                    Ghost(i),
                    Ghost((n - 1) as nat),
                ),
                _ => {
                    proof {
                        assert(false);
                    }
                    RTCursor { index: 0, ordering, page: None, current: None }
                },
            }
        },
        NodeData::Nil => {
            proof {
                assert(false);
            }
            RTCursor { index: 0, ordering, page: None, current: None }
        },
    }
}

/// A key of a leaf lies in the leaf's range.
pub proof fn lemma_leaf_covers(tree: &BPlusTree, i: int, j: int)
    requires
        tree.wf(),
        0 <= i < tree.leaves().len(),
        0 <= j < keys_of(tree.nodes@[tree.leaves()[i]]).len(),
    ensures
        covers(
            bounds(tree.nodes@, tree.leaves()),
            i,
            keys_of(tree.nodes@[tree.leaves()[i]])[j],
        ),
{
    reveal(shape_ok);
    assert(leaf_at(tree.nodes@, tree.rows@[0], tree.page_size as int, i));
}

/// What lies in the range of a node comes before what lies in the range of one further right.
pub proof fn lemma_covers_order(b: Seq<Option<Seq<u8>>>, x: int, y: int, k: Seq<u8>, l: Seq<u8>)
    requires
        bounds_ok(b),
        covers(b, x, k),
        covers(b, y, l),
        x < y,
    ensures
        key_lt(k, l),
{
    broadcast use group_key_order;

    if x < y - 1 {
        assert(super::node::bound_lt(b[x], b[y - 1]));
    }
    assert(super::node::bound_lt(b[x], b[y]));
}

/// The leaf and the position in it of the key at `p`.
proof fn lemma_place_of(tree: &BPlusTree, p: int, i: int) -> (r: (int, int))
    requires
        0 <= i <= tree.leaves().len(),
        0 <= p < offset(tree, i),
    ensures
        0 <= r.0 < i,
        0 <= r.1 < keys_of(tree.nodes@[tree.leaves()[r.0]]).len(),
        p == offset(tree, r.0) + r.1,
        tree.keys()[p] == keys_of(tree.nodes@[tree.leaves()[r.0]])[r.1],
    decreases i,
{
    if i == 0 {
        assert(tree.leaves().take(0) =~= Seq::<int>::empty());
        (0, 0)
    } else {
        lemma_leaf_keys_in_flat(tree, i - 1);
        if p < offset(tree, i - 1) {
            lemma_place_of(tree, p, i - 1)
        } else {
            let j = p - offset(tree, i - 1);
            let here = keys_of(tree.nodes@[tree.leaves()[i - 1]]);
            assert(here[j] == tree.keys()[p]);
            (i - 1, j)
        }
    }
}

/// The keys of a tree ascend from leaf to leaf.
pub proof fn lemma_tree_keys_ascend(tree: &BPlusTree)
    requires
        tree.wf(),
    ensures
        ascending(tree.keys()),
{
    reveal(shape_ok);
    let b = bounds(tree.nodes@, tree.leaves());
    assert(row_ok(tree.nodes@, tree.rows@[0], true));
    lemma_leaf_keys_in_flat(tree, 0);
    assert forall|p: int, r: int| 0 <= p < r < tree.keys().len() implies key_lt(
        #[trigger] tree.keys()[p],
        #[trigger] tree.keys()[r],
    ) by {
        let n = tree.leaves().len() as int;
        let (i, j) = lemma_place_of(tree, p, n);
        let (x, y) = lemma_place_of(tree, r, n);
        lemma_leaf_covers(tree, i, j);
        lemma_leaf_covers(tree, x, y);
        if i == x {
            lemma_row(tree, 0, i);
        } else if i < x {
            lemma_covers_order(b, i, x, tree.keys()[p], tree.keys()[r]);
        } else {
            lemma_offset_monotone(tree, x + 1, i);
            lemma_leaf_keys_in_flat(tree, x);
        }
    }
}

proof fn lemma_offset_monotone(tree: &BPlusTree, i: int, j: int)
    requires
        0 <= i <= j <= tree.leaves().len(),
    ensures
        offset(tree, i) <= offset(tree, j),
    decreases j - i,
{
    if i < j {
        lemma_offset_monotone(tree, i, j - 1);
        lemma_leaf_keys_in_flat(tree, j - 1);
    }
}

/// What a search finds in a page, seen from the whole tree: the keys left of the place come before
/// the sought key, and no other.
pub proof fn lemma_found_in_tree(tree: &BPlusTree, key: Seq<u8>, i: int, q: int)
    requires
        tree.wf(),
        found(tree, key, i, q),
    ensures
        is_lower_bound(tree.keys(), key, offset(tree, i) + q),
{
    let b = bounds(tree.nodes@, tree.leaves());
    let n = tree.leaves().len() as int;
    assert(bounds_ok(b)) by {
        reveal(shape_ok);
        assert(row_ok(tree.nodes@, tree.rows@[0], true));
    }
    lemma_leaf_keys_in_flat(tree, i);
    lemma_offset_monotone(tree, i + 1, n);
    lemma_leaf_keys_in_flat(tree, 0);
    assert forall|p: int| 0 <= p < offset(tree, i) + q implies key_lt(
        #[trigger] tree.keys()[p],
        key,
    ) by {
        let (x, j) = lemma_place_of(tree, p, i + 1);
        lemma_leaf_covers(tree, x, j);
        if x < i {
            lemma_covers_order(b, x, i, tree.keys()[p], key);
        }
    }
    assert forall|p: int| offset(tree, i) + q <= p < tree.keys().len() implies key_le(
        key,
        #[trigger] tree.keys()[p],
    ) by {
        broadcast use group_key_order;

        let (x, j) = lemma_place_of(tree, p, n);
        lemma_leaf_covers(tree, x, j);
        if x > i {
            lemma_covers_order(b, i, x, key, tree.keys()[p]);
        } else if x < i {
            lemma_leaf_keys_in_flat(tree, x);
            lemma_offset_monotone(tree, x + 1, i);
        }
    }
}

/// A forward search shows, in order, the present keys from the sought one on.
pub proof fn lemma_forward_search(tree: &BPlusTree, key: Seq<u8>, c: RTCursor, p: int)
    requires
        tree.wf(),
        search_result(tree, key, ScanOrder::Forward, c),
        is_lower_bound(tree.keys(), key, p),
    ensures
        c.ahead(tree) == live(tree.keys().skip(p), tree.deleted@),
{
    let (i, q) = choose|i: int, q: int|
        #[trigger] found(tree, key, i, q) && c.ahead(tree) == live(
            ahead_of(
                tree,
                i,
                start_in(keys_of(tree.nodes@[tree.leaves()[i]]), key, q, ScanOrder::Forward),
                ScanOrder::Forward,
            ),
            tree.deleted@,
        );
    lemma_found_in_tree(tree, key, i, q);
    let r = offset(tree, i) + q;
    if r < p {
        assert(key_lt(tree.keys()[r], key));
    } else if p < r {
        assert(key_lt(tree.keys()[p], key));
    }
}

/// A backward search shows, from the greatest down, the present keys up to the sought one, unless
/// all keys of the page that it lands on come after the sought one.
pub proof fn lemma_backward_search(tree: &BPlusTree, key: Seq<u8>, c: RTCursor, p: int)
    requires
        tree.wf(),
        search_result(tree, key, ScanOrder::Backward, c),
        is_upper_bound(tree.keys(), key, p),
        forall|i: int, q: int|
            #[trigger] found(tree, key, i, q) ==> {
                let here = keys_of(tree.nodes@[tree.leaves()[i]]);
                here.len() == 0 || key_le(here[0], key)
            },
    ensures
        c.ahead(tree) == live(tree.keys().take(p).reverse(), tree.deleted@),
{
    broadcast use group_key_order;

    let (i, q) = choose|i: int, q: int|
        #[trigger] found(tree, key, i, q) && c.ahead(tree) == live(
            ahead_of(
                tree,
                i,
                start_in(keys_of(tree.nodes@[tree.leaves()[i]]), key, q, ScanOrder::Backward),
                ScanOrder::Backward,
            ),
            tree.deleted@,
        );
    lemma_found_in_tree(tree, key, i, q);
    lemma_leaf_keys_in_flat(tree, i);
    lemma_tree_keys_ascend(tree);
    let keys = tree.keys();
    let here = keys_of(tree.nodes@[tree.leaves()[i]]);
    let r = offset(tree, i) + q;
    if here.len() == 0 {
        lemma_leaf(tree, i);
        assert(tree.leaves().len() == 1);
        assert(offset(tree, 1) == keys.len());
    } else if q < here.len() && here[q] == key {
        assert(keys[r] == key);
        assert(p == r + 1) by {
            if p <= r {
                assert(key_lt(key, keys[r]));
            } else if p > r + 1 {
                assert(key_le(keys[r + 1], key));
                assert(key_lt(keys[r], keys[r + 1]));
            }
        }
    } else {
        assert(q > 0);
        assert(p == r) by {
            if p < r {
                assert(key_lt(keys[p], key));
            } else if p > r {
                assert(key_le(keys[r], key));
                assert(keys[r] == key);
                lemma_same_place(tree, key, i, q);
            }
        }
    }
}

/// A backward search shows, from the greatest down, the present keys up to the sought one; there may
/// be one greater key before them, if the page that the search lands on holds greater keys only: that
/// key is then the first of its page.
pub proof fn lemma_backward_place(tree: &BPlusTree, key: Seq<u8>, c: RTCursor, p: int) -> (e: int)
    requires
        tree.wf(),
        search_result(tree, key, ScanOrder::Backward, c),
        is_upper_bound(tree.keys(), key, p),
    ensures
        c.ahead(tree) == live(tree.keys().take(e).reverse(), tree.deleted@),
        e == p || (e == p + 1 && p < tree.keys().len() && !tree.keys().contains(key)),
        e == p + 1 ==> exists|i: int|
            0 <= i < tree.leaves().len() && #[trigger] offset(tree, i) == p,
{
    broadcast use group_key_order;

    let (i, q) = choose|i: int, q: int|
        #[trigger] found(tree, key, i, q) && c.ahead(tree) == live(
            ahead_of(
                tree,
                i,
                start_in(keys_of(tree.nodes@[tree.leaves()[i]]), key, q, ScanOrder::Backward),
                ScanOrder::Backward,
            ),
            tree.deleted@,
        );
    lemma_found_in_tree(tree, key, i, q);
    lemma_leaf_keys_in_flat(tree, i);
    lemma_tree_keys_ascend(tree);
    let keys = tree.keys();
    let here = keys_of(tree.nodes@[tree.leaves()[i]]);
    let r = offset(tree, i) + q;
    if here.len() == 0 {
        lemma_leaf(tree, i);
        assert(tree.leaves().len() == 1);
        assert(offset(tree, 1) == keys.len());
        p
    } else if q < here.len() && here[q] == key {
        assert(keys[r] == key);
        assert(p == r + 1) by {
            if p <= r {
                assert(key_lt(key, keys[r]));
            } else if p > r + 1 {
                assert(key_le(keys[r + 1], key));
                assert(key_lt(keys[r], keys[r + 1]));
            }
        }
        p
    } else {
        assert(p == r) by {
            if p < r {
                assert(key_lt(keys[p], key));
            } else if p > r {
                assert(key_le(keys[r], key));
                assert(keys[r] == key);
                lemma_same_place(tree, key, i, q);
            }
        }
        if q > 0 {
            p
        } else {
            assert(here[0] == keys[r]);
            assert(offset(tree, i) == p);
            assert(!keys.contains(key)) by {
                if keys.contains(key) {
                    let x = choose|x: int| 0 <= x < keys.len() && keys[x] == key;
                    if x < r {
                        assert(key_lt(keys[x], key));
                    } else {
                        assert(key_lt(key, keys[x]));
                    }
                }
            }
            p + 1
        }
    }
}

/// If the key at a search's place is the sought one, the page holds it.
pub proof fn lemma_same_place(tree: &BPlusTree, key: Seq<u8>, i: int, q: int)
    requires
        tree.wf(),
        found(tree, key, i, q),
        offset(tree, i) + q < tree.keys().len(),
        tree.keys()[offset(tree, i) + q] == key,
    ensures
        q < keys_of(tree.nodes@[tree.leaves()[i]]).len(),
        keys_of(tree.nodes@[tree.leaves()[i]])[q] == key,
{
    broadcast use group_key_order;

    let p = offset(tree, i) + q;
    let n = tree.leaves().len() as int;
    let here = keys_of(tree.nodes@[tree.leaves()[i]]);
    lemma_leaf_keys_in_flat(tree, i);
    lemma_leaf_keys_in_flat(tree, 0);
    if q < here.len() {
        assert(here[q] == tree.keys()[p]);
    } else {
        let (x, j) = lemma_place_of(tree, p, n);
        lemma_leaf_covers(tree, x, j);
        assert(bounds_ok(bounds(tree.nodes@, tree.leaves()))) by {
            reveal(shape_ok);
            assert(row_ok(tree.nodes@, tree.rows@[0], true));
        }
        if x > i {
            lemma_covers_order(bounds(tree.nodes@, tree.leaves()), i, x, key, tree.keys()[p]);
        } else if x < i {
            lemma_leaf_keys_in_flat(tree, x);
            lemma_offset_monotone(tree, x + 1, i);
        }
    }
}

/// The root of a tree stands over all leaves.
pub proof fn lemma_root_stands(tree: &BPlusTree)
    requires
        tree.wf(),
    ensures
        stands(tree, NodeCellRef::Slot(tree.root), tree.rows@.len() - 1, 0),
        first_leaf(tree.nodes@, tree.rows@, tree.rows@.len() - 1, 0) == 0,
{
    let top = tree.rows@.len() - 1;
    assert(tree.rows@.len() >= 1 && tree.rows@.last().len() == 1) by {
        reveal(shape_ok);
    }
    lemma_row(tree, top, 0);
    lemma_lands_on_live(tree.nodes@, tree.root, tree.root as int);
    lemma_first_leaf_zero(tree.nodes@, tree.rows@, top);
}

pub proof fn lemma_first_leaf_zero(nodes: Seq<NodeData>, rows: Seq<Seq<int>>, h: int)
    ensures
        first_leaf(nodes, rows, h, 0) == 0,
    decreases h,
{
    if h > 0 {
        lemma_first_leaf_zero(nodes, rows, h - 1);
    }
}

/// A search that may reach all leaves ends where the key belongs.
pub proof fn lemma_search_from_start(tree: &BPlusTree, key: Seq<u8>, ordering: ScanOrder, c: RTCursor)
    ensures
        search_result_from(tree, key, ordering, 0, c) <==> search_result(tree, key, ordering, c),
{
    assert forall|i: int, q: int|
        #[trigger] found_from(tree, key, 0, i, q) <==> found(tree, key, i, q) by {}
    if search_result(tree, key, ordering, c) {
        let (i, q) = choose|i: int, q: int|
            #[trigger] found(tree, key, i, q) && c.ahead(tree) == live(
                ahead_of(
                    tree,
                    i,
                    start_in(keys_of(tree.nodes@[tree.leaves()[i]]), key, q, ordering),
                    ordering,
                ),
                tree.deleted@,
            );
        assert(found_from(tree, key, 0, i, q));
    }
}

/// What a step down a tree comes to.
#[derive(Clone, Copy, Debug, PartialEq, Eq, Structural)]
pub enum MutSearchResult {
    External,
    Internal(NodeCellRef),
}

/// What a step down from the node at `slot` for `key` gives: a leaf is the end, and an inner node
/// leads to the child whose range holds the key.
pub open spec fn step_down(n: NodeData, key: Seq<u8>, r: MutSearchResult) -> bool {
    match r {
        MutSearchResult::External => n is External,
        MutSearchResult::Internal(child) => n is Internal && exists|pos: int|
            #[trigger] is_upper_bound(keys_of(n), key, pos) && child == ptrs_of(n)[pos],
    }
}

/// One step down for a key that will be changed.
pub fn mut_search(tree: &BPlusTree, node_ref: NodeCellRef, key: &EntryKey) -> (r: MutSearchResult)
    requires
        tree.wf(),
        exists|h: int, i: int| stands(tree, node_ref, h, i),
    ensures
        exists|slot: int|
            #[trigger] lands(tree.nodes@, node_ref, slot) && step_down(
                tree.nodes@[slot],
                key@,
                r,
            ),
{
    let ghost (h, i) = choose|h: int, i: int| stands(tree, node_ref, h, i);
    let ghost goal = tree.rows@[h][i];
    let ghost mut n: nat = choose|n: nat| live_slot(tree.nodes@, node_ref, n) == Some(goal);
    let mut at = node_ref;
    loop
        invariant
            tree.wf(),
            0 <= h < tree.rows@.len(),
            0 <= i < tree.rows@[h].len(),
            goal == tree.rows@[h][i],
            lands(tree.nodes@, node_ref, goal),
            live_slot(tree.nodes@, at, n) == Some(goal),
        decreases n,
    {
        proof {
            lemma_row(tree, h, i);
        }
        match at {
            NodeCellRef::Slot(s) => {
                match &tree.nodes[s] {
                    NodeData::Internal(node) => {
                        let pos: usize = node.search(key);
                        proof {
                            assert(keys_of(tree.nodes@[goal]).len() + 1 == ptrs_of(
                                tree.nodes@[goal],
                            ).len()) by {
                                lemma_shape_row(
                                    tree.nodes@,
                                    tree.rows@,
                                    tree.page_size as int,
                                    h,
                                );
                                let crow = tree.rows@[h - 1];
                                let a = lemma_over_at(
                                    tree.nodes@,
                                    tree.rows@[h],
                                    crow,
                                    bounds(tree.nodes@, crow),
                                    i,
                                );
                            }
                        }
                        let child = node.ptrs[pos];
                        assert(is_upper_bound(keys_of(tree.nodes@[goal]), key@, pos as int));
                        return MutSearchResult::Internal(child);
                    },
                    NodeData::External(_) => {
                        return MutSearchResult::External;
                    },
                    NodeData::Empty(node) => {
                        at = node.right;
                        proof {
                            n = (n - 1) as nat;
                        }
                    },
                    NodeData::Nil => {
                        proof {
                            assert(false);
                        }
                        return MutSearchResult::External;
                    },
                }
            },
            _ => {
                proof {
                    assert(false);
                }
                return MutSearchResult::External;
            },
        }
    }
}

/// A step down ends at a leaf, and at an inner node leads to the child that stands behind the keys up
/// to the sought one, itself among them, and before the greater ones.
pub proof fn lemma_step_down(n: NodeData, key: Seq<u8>, r: MutSearchResult) -> (pos: int)
    requires
        step_down(n, key, r),
    ensures
        r is External <==> n is External,
        r matches MutSearchResult::Internal(child) ==> {
            &&& 0 <= pos <= keys_of(n).len()
            &&& child == ptrs_of(n)[pos]
            &&& forall|j: int| 0 <= j < pos ==> key_le(#[trigger] keys_of(n)[j], key)
            &&& forall|j: int| pos <= j < keys_of(n).len() ==> key_lt(key, #[trigger] keys_of(n)[j])
        },
{
    match r {
        MutSearchResult::External => 0,
        MutSearchResult::Internal(child) => choose|pos: int|
            #[trigger] is_upper_bound(keys_of(n), key, pos) && child == ptrs_of(n)[pos],
    }
}

} // verus!
