//! Pruning one row of inner nodes: emptied children go, and a node that a split below made comes in.
use super::external::same_but_nodes;
use super::grow::{child_put, cut_bounds, cut_row, lemma_put_over, split_view};
use super::node::{below, bound_lt, bound_of, is_below, keys_of, ptrs_of, NodeCellRef, NodeData};
use super::prune::{
    added_split, emptied_in, first_poses, gone_at, lemma_bounds_skip, lemma_child_pos,
    lemma_covers_parent, lemma_covers_unique, lemma_emptied_frame, lemma_first_node,
    lemma_removed_first, lemma_row_over_at, lemma_without_first, lost, row_over, step_frame,
    write_targeted,
};
use super::prune_any::{
    kept, lemma_kept_sane, lemma_over_ptrs, lemma_place, place, places, refs, row_ptrs,
};
use super::prune_split::{
    lemma_put_row, lemma_sane_open, lemma_splits_step, live_row, node_open, open_walk, passes, put_split, splits_put,
    took, walk_end, with_split,
};
use super::prune_state::{
    cut_ok, end_known, job_ok, lemma_cut_look, lemma_cut_mark, lemma_cut_start, noted, own_slot,
    walk_of, Cut, Job,
};
use super::prune_step::{
    finished, lemma_cut_advance, lemma_cut_apply, lemma_cut_end, lemma_cut_idle, lemma_cut_last,
    lemma_cut_reach, lemma_cut_ready, lemma_cut_target, lemma_end_known_more,
};
use super::removal::{
    apply_removal, drop_children, last_child_alone, lemma_kept_len, lemma_shortcut_frame, opt_ref,
    removal_applied, without, NodeRemoval, RemovalView,
};

use super::shape::{
    bounds, bounds_ok, covers, link_at, node_over, row_ok, slot_ref,
};
use super::tree::BPlusTree;
use crate::index::key::{group_key_order, is_upper_bound, key_views, EntryKey};
use std::collections::BTreeSet;
use vstd::prelude::*;

verus! {

/// The split that a removal asks for, if any.
pub open spec fn split_of(r: RemovalView) -> Option<(NodeCellRef, Seq<u8>)> {
    if r.split.len() > 0 {
        Some(r.split[0])
    } else {
        None
    }
}

/// What is given to a row to prune: keys under its first children, in order.
pub open spec fn first_children(b: Seq<Option<Seq<u8>>>, keys: Seq<Seq<u8>>) -> bool {
    &&& keys.len() < b.len()
    &&& forall|j: int| 0 <= j < keys.len() ==> #[trigger] covers(b, j, keys[j])
}

/// Two arenas agree but for the nodes of a row and, with `shortcuts`, emptied nodes among `kids`.
pub open spec fn agree_outside(
    before: Seq<NodeData>,
    after: Seq<NodeData>,
    row: Seq<int>,
    kids: Seq<int>,
    shortcuts: bool,
) -> bool {
    &&& after.len() >= before.len()
    &&& forall|x: int|
        0 <= x < before.len() && !row.contains(x) && !(before[x] is Empty) ==> #[trigger] after[x]
            == before[x]
    &&& forall|x: int|
        0 <= x < before.len() && before[x] is Empty ==> (#[trigger] after[x]) is Empty && (!shortcuts
            || !kids.contains(x) ==> after[x] == before[x])
}

/// What pruning the first children of a row comes to.
pub open spec fn children_removed(
    before: Seq<NodeData>,
    after: Seq<NodeData>,
    page_size: int,
    row: Seq<int>,
    kids: Seq<int>,
    b: Seq<Option<Seq<u8>>>,
    r: int,
    out: RemovalView,
) -> bool {
    let e = emptied_in(before, row, r);
    let s = split_of(out);
    let row2 = cut_row(row.skip(e), 0, before.len() as int, s);
    &&& 0 <= e < row.len()
    &&& row_over(after, page_size, row2, kids.skip(r), b.skip(r))
    &&& bounds(after, row2) == cut_bounds(bounds(before, row).skip(e), 0, s)
    &&& out.empty_pages.len() == e
    &&& forall|j: int|
        0 <= j < e ==> #[trigger] covers(bounds(before, row), j, out.empty_pages[j])
    &&& out.split.len() <= 1
    &&& s matches Some(p) ==> p.0 == slot_ref(before.len() as int) && keys_of(after[row2[0]]).len()
        < page_size && e > 0
    &&& after.len() == before.len() + out.split.len()
    &&& forall|j: int|
        0 <= j < e ==> #[trigger] gone_at(after, row, j)
    &&& e == 0 && r > 0 ==> keys_of(after[row[0]]).len() < page_size
}

proof fn lemma_covers_skip(b: Seq<Option<Seq<u8>>>, a: int, t: int, key: Seq<u8>)
    requires
        covers(b, t, key),
        0 <= a <= t,
    ensures
        covers(b.skip(a), t - a, key),
{
}

proof fn lemma_skip_skip<T>(s: Seq<T>, a: int, q: int)
    requires
        0 <= a,
        0 <= q,
        a + q <= s.len(),
    ensures
        s.skip(a).skip(q) == s.skip(a + q),
{
    assert(s.skip(a).skip(q) =~= s.skip(a + q));
}

/// Where the loop over the emptied children of a row stands: its first `c` nodes are gone with the
/// first `a` children, and of the next node the children up to the `t`th are marked.
spec fn pruning(
    before: Seq<NodeData>,
    nodes: Seq<NodeData>,
    page_size: int,
    row: Seq<int>,
    kids: Seq<int>,
    b: Seq<Option<Seq<u8>>>,
    r: int,
    out: RemovalView,
    c: int,
    a: int,
    t: int,
) -> bool {
    let above = bounds(before, row);
    &&& 0 <= c < row.len()
    &&& 0 <= a <= t <= r < kids.len()
    &&& t - a <= ptrs_of(nodes[row[c]]).len()
    &&& nodes.len() == before.len()
    &&& row_over(nodes, page_size, row.skip(c), kids.skip(a), b.skip(a))
    &&& bounds(nodes, row.skip(c)) == above.skip(c)
    &&& c > 0 ==> a > 0 && above[c - 1] == b[a - 1]
    &&& out.split.len() == 0
    &&& out.empty_pages.len() == c
    &&& forall|j: int| 0 <= j < c ==> #[trigger] covers(above, j, out.empty_pages[j])
    &&& emptied_in(before, row, r) == c + emptied_in(nodes, row.skip(c), r - a)
    &&& forall|j: int|
        0 <= j < c ==> #[trigger] gone_at(nodes, row, j)
}

/// What a row and its children must be like for pruning.
pub open spec fn prunable_row(
    nodes: Seq<NodeData>,
    page_size: int,
    row: Seq<int>,
    kids: Seq<int>,
    b: Seq<Option<Seq<u8>>>,
    r: int,
) -> bool {
    &&& row_over(nodes, page_size, row, kids, b)
    &&& bounds_ok(b)
    &&& page_size >= 2
    &&& nodes.len() <= usize::MAX
    &&& 0 <= r < kids.len()
    &&& emptied_in(nodes, row, r) < row.len()
    &&& forall|j: int| 0 <= j < kids.len() ==> 0 <= #[trigger] kids[j] < nodes.len()
    &&& forall|j: int| 0 <= j < row.len() ==> !kids.contains(#[trigger] row[j])
}

proof fn lemma_skip_contains(kids: Seq<int>, a: int, x: int)
    requires
        0 <= a <= kids.len(),
        !kids.contains(x),
    ensures
        !kids.skip(a).contains(x),
{
    if kids.skip(a).contains(x) {
        let i = choose|i: int| 0 <= i < kids.skip(a).len() && kids.skip(a)[i] == x;
        assert(kids[a + i] == x);
    }
}

/// What agrees outside a row still does after a step in the row.
proof fn lemma_step_agrees(
    before: Seq<NodeData>,
    nodes: Seq<NodeData>,
    after: Seq<NodeData>,
    row: Seq<int>,
    c: int,
    kids: Seq<int>,
    a: int,
    shortcuts: bool,
)
    requires
        0 <= c < row.len(),
        0 <= a <= kids.len(),
        nodes.len() == before.len(),
        after.len() >= nodes.len(),
        agree_outside(before, nodes, row, kids, shortcuts),
        step_frame(nodes, after, row.skip(c), kids.skip(a), shortcuts),
    ensures
        agree_outside(before, after, row, kids, shortcuts),
{
    let rest = row.skip(c);
    assert forall|x: int|
        0 <= x < before.len() && !row.contains(x) && !(before[x] is Empty) implies #[trigger] after[x]
        == before[x] by {
        assert(nodes[x] == before[x]);
        assert(rest[0] == row[c]);
        if rest.len() > 1 {
            assert(rest[1] == row[c + 1]);
        }
    }
    assert forall|x: int| 0 <= x < before.len() && before[x] is Empty implies (#[trigger] after[x]) is Empty
        && (!shortcuts || !kids.contains(x) ==> after[x] == before[x]) by {
        assert(nodes[x] is Empty);
        if !kids.contains(x) {
            lemma_skip_contains(kids, a, x);
        }
    }
}

/// The emptied nodes of a row stay as they are in a step further right.
proof fn lemma_step_chain(
    nodes: Seq<NodeData>,
    after: Seq<NodeData>,
    row: Seq<int>,
    c: int,
    kids: Seq<int>,
    a: int,
    shortcuts: bool,
)
    requires
        0 <= c < row.len(),
        0 <= a <= kids.len(),
        step_frame(nodes, after, row.skip(c), kids.skip(a), shortcuts),
        forall|j: int| 0 <= j < row.len() ==> 0 <= #[trigger] row[j] < nodes.len(),
        forall|j: int| 0 <= j < row.len() ==> !kids.contains(#[trigger] row[j]),
        forall|j: int|
            0 <= j < c ==> #[trigger] gone_at(nodes, row, j),
    ensures
        forall|j: int|
            0 <= j < c ==> #[trigger] gone_at(after, row, j),
{
    assert forall|j: int| 0 <= j < c implies #[trigger] gone_at(after, row, j) by {
        assert(gone_at(nodes, row, j));
        assert(0 <= row[j] < nodes.len());
        lemma_skip_contains(kids, a, row[j]);
    }
}

/// One node has lost its marked children; if it is gone, the next node's turn comes.
#[verifier::spinoff_prover]
proof fn lemma_pruning_step(
    before: Seq<NodeData>,
    nodes: Seq<NodeData>,
    after: Seq<NodeData>,
    page_size: int,
    row: Seq<int>,
    kids: Seq<int>,
    b: Seq<Option<Seq<u8>>>,
    r: int,
    given: RemovalView,
    out: RemovalView,
    c: int,
    a: int,
    t: int,
    key: Seq<u8>,
    shortcuts: bool,
)
    requires
        prunable_row(before, page_size, row, kids, b, r),
        pruning(before, nodes, page_size, row, kids, b, r, given, c, a, t),
        agree_outside(before, nodes, row, kids, shortcuts),
        t - a >= 1,
        covers(b, t - 1, key),
        lost(nodes, row.skip(c), t - a) < row.len() - c,
        removal_applied(
            nodes,
            after,
            page_size,
            row[c],
            first_poses(t - a),
            given,
            out,
            Some(key),
            shortcuts,
        ),
    ensures
        ({
            let d = lost(nodes, row.skip(c), t - a);
            let s = added_split(given, out);
            let row2 = cut_row(row.skip(c + d), 0, before.len() as int, s);
            let above = bounds(before, row);
            &&& row_over(after, page_size, row2, kids.skip(t), b.skip(t))
            &&& bounds(after, row2) == cut_bounds(above.skip(c + d), 0, s)
            &&& d == 0 ==> out == given && keys_of(after[row[c]]).len() < page_size
            &&& d == 1 ==> out.empty_pages == given.empty_pages.push(key) && covers(above, c, key)
            &&& s is None ==> out.split.len() == 0 && after.len() == before.len()
            &&& s matches Some(p) ==> out.split == seq![p] && p.0 == slot_ref(before.len() as int)
                && after.len() == before.len() + 1 && keys_of(after[row2[0]]).len() < page_size && d
                == 1 && ptrs_of(nodes[row[c]]).len() == t - a + 1
            &&& forall|j: int|
                0 <= j < c + d ==> #[trigger] gone_at(after, row, j)
            &&& agree_outside(before, after, row, kids, shortcuts)
        }),
{
    let rest = row.skip(c);
    let q = t - a;
    let above = bounds(before, row);
    lemma_bounds_skip(b, a);
    assert(rest[0] == row[c]);
    lemma_first_node(nodes, page_size, rest, kids.skip(a), b.skip(a));
    assert forall|j: int| 0 <= j < kids.skip(a).len() implies 0 <= #[trigger] kids.skip(a)[j]
        < nodes.len() by {
        assert(kids.skip(a)[j] == kids[a + j]);
    }
    lemma_removed_first(
        nodes,
        after,
        page_size,
        rest,
        kids.skip(a),
        b.skip(a),
        q,
        given,
        out,
        key,
        shortcuts,
    );
    let d = lost(nodes, rest, q);
    lemma_skip_skip(kids, a, q);
    lemma_skip_skip(b, a, q);
    lemma_skip_skip(row, c, d);
    lemma_skip_skip(above, c, d);
    let m = ptrs_of(nodes[row[c]]).len() as int;
    if d == 1 {
        assert(above.skip(c)[0] == bounds(nodes, rest)[0]);
        assert(above[c] == bound_of(nodes[row[c]]));
        assert(b.skip(a)[m - 1] == b[a + m - 1]);
        lemma_covers_parent(b, above, c, a, m, t - 1, key);
        assert(rest[1] == row[c + 1]);
    }
    assert(row_ok(before, row, false));
    assert forall|j: int| 0 <= j < row.len() implies 0 <= #[trigger] row[j] < nodes.len() by {}
    lemma_step_agrees(before, nodes, after, row, c, kids, a, shortcuts);
    lemma_step_chain(nodes, after, row, c, kids, a, shortcuts);
}

/// The count of nodes that go, after one went.
proof fn lemma_next_emptied(
    nodes: Seq<NodeData>,
    after: Seq<NodeData>,
    page_size: int,
    row: Seq<int>,
    kids: Seq<int>,
    b: Seq<Option<Seq<u8>>>,
    r: int,
    given: RemovalView,
    out: RemovalView,
    key: Seq<u8>,
    shortcuts: bool,
)
    requires
        row_over(nodes, page_size, row, kids, b),
        r > ptrs_of(nodes[row[0]]).len() >= 1,
        forall|j: int| 0 <= j < kids.len() ==> 0 <= #[trigger] kids[j] < nodes.len(),
        removal_applied(
            nodes,
            after,
            page_size,
            row[0],
            first_poses(ptrs_of(nodes[row[0]]).len() as int),
            given,
            out,
            Some(key),
            shortcuts,
        ),
    ensures
        emptied_in(nodes, row, r) == 1 + emptied_in(
            after,
            row.drop_first(),
            r - ptrs_of(nodes[row[0]]).len(),
        ),
{
    let m = ptrs_of(nodes[row[0]]).len() as int;
    lemma_gone_frame(nodes, after, page_size, row, kids, b, m, given, out, key, shortcuts);
    let rest = row.drop_first();
    assert forall|j: int| 0 <= j < rest.len() implies nodes[#[trigger] rest[j]] == after[rest[j]] by {
        assert(rest[j] == row[j + 1]);
    }
    lemma_emptied_frame(nodes, after, rest, r - m);
}

/// After the node at `c` is gone, pruning goes on at the next one.
#[verifier::spinoff_prover]
proof fn lemma_pruning_next(
    before: Seq<NodeData>,
    nodes: Seq<NodeData>,
    after: Seq<NodeData>,
    page_size: int,
    row: Seq<int>,
    kids: Seq<int>,
    b: Seq<Option<Seq<u8>>>,
    r: int,
    given: RemovalView,
    out: RemovalView,
    c: int,
    a: int,
    t: int,
    key: Seq<u8>,
    shortcuts: bool,
)
    requires
        prunable_row(before, page_size, row, kids, b, r),
        pruning(before, nodes, page_size, row, kids, b, r, given, c, a, t),
        agree_outside(before, nodes, row, kids, shortcuts),
        t - a == ptrs_of(nodes[row[c]]).len(),
        t < r,
        covers(b, t - 1, key),
        removal_applied(
            nodes,
            after,
            page_size,
            row[c],
            first_poses(t - a),
            given,
            out,
            Some(key),
            shortcuts,
        ),
    ensures
        pruning(before, after, page_size, row, kids, b, r, out, c + 1, t, t),
        agree_outside(before, after, row, kids, shortcuts),
{
    let rest = row.skip(c);
    let above = bounds(before, row);
    assert(rest[0] == row[c]);
    assert(rest.len() > 1 && t - a >= 1 && bound_of(nodes[row[c]]) == b[t - 1]) by {
        lemma_first_node(nodes, page_size, rest, kids.skip(a), b.skip(a));
        assert(b.skip(a)[t - a - 1] == b[t - 1]);
    }
    lemma_pruning_step(
        before,
        nodes,
        after,
        page_size,
        row,
        kids,
        b,
        r,
        given,
        out,
        c,
        a,
        t,
        key,
        shortcuts,
    );
    assert(added_split(given, out) is None);
    assert(above[c] == b[t - 1]) by {
        assert(above.skip(c)[0] == bounds(nodes, rest)[0]);
    }
    assert(emptied_in(nodes, rest, r - a) == 1 + emptied_in(after, row.skip(c + 1), r - t)) by {
        assert forall|j: int| 0 <= j < kids.skip(a).len() implies 0 <= #[trigger] kids.skip(a)[j]
            < nodes.len() by {
            assert(kids.skip(a)[j] == kids[a + j]);
        }
        lemma_next_emptied(
            nodes,
            after,
            page_size,
            rest,
            kids.skip(a),
            b.skip(a),
            r - a,
            given,
            out,
            key,
            shortcuts,
        );
        assert(rest.drop_first() =~= row.skip(c + 1));
    }
    assert forall|j: int| 0 <= j < c + 1 implies #[trigger] covers(above, j, out.empty_pages[j]) by {
        if j < c {
            assert(covers(above, j, given.empty_pages[j]));
            assert(out.empty_pages[j] == given.empty_pages[j]);
        }
    }
}

/// When a node goes with all its children, the nodes to its right stay as they are.
proof fn lemma_gone_frame(
    nodes: Seq<NodeData>,
    after: Seq<NodeData>,
    page_size: int,
    row: Seq<int>,
    kids: Seq<int>,
    b: Seq<Option<Seq<u8>>>,
    q: int,
    given: RemovalView,
    out: RemovalView,
    key: Seq<u8>,
    shortcuts: bool,
)
    requires
        row_over(nodes, page_size, row, kids, b),
        q == ptrs_of(nodes[row[0]]).len(),
        forall|j: int| 0 <= j < kids.len() ==> 0 <= #[trigger] kids[j] < nodes.len(),
        removal_applied(
            nodes,
            after,
            page_size,
            row[0],
            first_poses(q),
            given,
            out,
            Some(key),
            shortcuts,
        ),
    ensures
        forall|j: int| 0 < j < row.len() ==> nodes[#[trigger] row[j]] == after[row[j]],
{
    reveal(removal_applied);
    lemma_first_node(nodes, page_size, row, kids, b);
    let n = nodes[row[0]];
    let node = n->Internal_0;
    assert(node.ptrs.len() == node.ptrs@.len());
    assert(first_poses(q).contains(0usize));
    assert(!first_poses(q).is_empty());
    lemma_without_first(ptrs_of(n), q);
    lemma_kept_len(keys_of(n), ptrs_of(n), first_poses(q));
    if shortcuts {
        assert forall|i: int| 0 <= i < ptrs_of(n).len() implies (#[trigger] ptrs_of(n)[i] matches NodeCellRef::Slot(
            s,
        ) ==> s < nodes.len()) by {
            assert(ptrs_of(n)[i] == slot_ref(kids.take(q)[i]));
            assert(0 <= kids[i] < nodes.len());
        }
        lemma_shortcut_frame(nodes, ptrs_of(n), first_poses(q), ptrs_of(n).len());
    }
    assert forall|j: int| 0 < j < row.len() implies nodes[#[trigger] row[j]] == after[row[j]] by {
        assert(row[j] != row[0]);
        assert(0 <= row[j] < nodes.len());
        assert(nodes[row[j]] is Internal);
    }
}

/// The end of the loop over the emptied children of a row.
#[verifier::spinoff_prover]
proof fn lemma_pruning_end(
    before: Seq<NodeData>,
    nodes: Seq<NodeData>,
    after: Seq<NodeData>,
    page_size: int,
    row: Seq<int>,
    kids: Seq<int>,
    b: Seq<Option<Seq<u8>>>,
    r: int,
    given: RemovalView,
    out: RemovalView,
    c: int,
    a: int,
    key: Seq<u8>,
    shortcuts: bool,
)
    requires
        prunable_row(before, page_size, row, kids, b, r),
        pruning(before, nodes, page_size, row, kids, b, r, given, c, a, r),
        agree_outside(before, nodes, row, kids, shortcuts),
        r - a >= 1,
        covers(b, r - 1, key),
        removal_applied(
            nodes,
            after,
            page_size,
            row[c],
            first_poses(r - a),
            given,
            out,
            Some(key),
            shortcuts,
        ),
    ensures
        children_removed(before, after, page_size, row, kids, b, r, out),
        agree_outside(before, after, row, kids, shortcuts),
{
    let rest = row.skip(c);
    lemma_lost_is_emptied(before, nodes, page_size, row, kids, b, r, given, c, a);
    lemma_pruning_step(
        before,
        nodes,
        after,
        page_size,
        row,
        kids,
        b,
        r,
        given,
        out,
        c,
        a,
        r,
        key,
        shortcuts,
    );
    assert(split_of(out) == added_split(given, out));
    assert forall|j: int|
        0 <= j < emptied_in(before, row, r) implies #[trigger] covers(
        bounds(before, row),
        j,
        out.empty_pages[j],
    ) by {
        if j < c {
            assert(covers(bounds(before, row), j, given.empty_pages[j]));
            assert(out.empty_pages[j] == given.empty_pages[j]);
        }
    }
}

proof fn lemma_lost_is_emptied(
    before: Seq<NodeData>,
    nodes: Seq<NodeData>,
    page_size: int,
    row: Seq<int>,
    kids: Seq<int>,
    b: Seq<Option<Seq<u8>>>,
    r: int,
    given: RemovalView,
    c: int,
    a: int,
)
    requires
        prunable_row(before, page_size, row, kids, b, r),
        pruning(before, nodes, page_size, row, kids, b, r, given, c, a, r),
        r - a >= 1,
    ensures
        emptied_in(before, row, r) == c + lost(nodes, row.skip(c), r - a),
        lost(nodes, row.skip(c), r - a) < row.len() - c,
{
    let rest = row.skip(c);
    assert(rest[0] == row[c]);
    assert(emptied_in(nodes, rest.drop_first(), 0) == 0);
}

/// Takes the children under the given keys out of the row, from the node at `i` on. With `first`,
/// these are the first children.
#[verifier::spinoff_prover]
#[verifier::rlimit(60)]
fn remove_children(
    tree: &mut BPlusTree,
    node: usize,
    pages: &Vec<EntryKey>,
    deepest: bool,
    Ghost(row): Ghost<Seq<int>>,
    Ghost(kids): Ghost<Seq<int>>,
    Ghost(b): Ghost<Seq<Option<Seq<u8>>>>,
    Ghost(i): Ghost<int>,
    Ghost(first): Ghost<bool>,
) -> (r: (NodeRemoval, Ghost<Cut>))
    requires
        job_ok(row_job(*old(tree), row, kids, b, key_views(pages@), i, !deepest)),
        node == row[i],
        first ==> i == 0 && prunable_row(
            old(tree).nodes@,
            old(tree).page_size as int,
            row,
            kids,
            b,
            pages@.len() as int,
        ) && first_children(b, key_views(pages@)),
    ensures
        same_but_nodes(*final(tree), *old(tree)),
        finished(
            row_job(*old(tree), row, kids, b, key_views(pages@), i, !deepest),
            final(tree).nodes@,
            r.0@,
            r.1@,
        ),
        first ==> children_removed(
            old(tree).nodes@,
            final(tree).nodes@,
            old(tree).page_size as int,
            row,
            kids,
            b,
            pages@.len() as int,
            r.0@,
        ),
{
    broadcast use vstd::std_specs::btree::group_btree_axioms;

    let ghost before = tree.nodes@;
    let ghost r = pages@.len() as int;
    let ghost keys = key_views(pages@);
    let ghost page_size = tree.page_size as int;
    let ghost job = row_job(*tree, row, kids, b, keys, i, !deepest);
    let mut upper = NodeRemoval::new();
    let mut cursor: usize = node;
    let mut poses: BTreeSet<usize> = BTreeSet::new();
    let mut prev_key: Option<&EntryKey> = None;
    let ghost mut c: int = 0;
    let ghost mut a: int = 0;
    let ghost mut cut = lemma_cut_start(job, upper@, Set::<usize>::empty());
    let mut t: usize = 0;
    proof {
        assert(row.skip(0) =~= row);
        assert(kids.skip(0) =~= kids);
        assert(b.skip(0) =~= b);
        assert(bounds(before, row).skip(0) =~= bounds(before, row));
        assert(poses@ =~= first_poses(0));
        assert(poses@ =~= Set::<usize>::empty());
    }
    while t < pages.len()
        invariant
            t <= r == pages@.len(),
            keys == key_views(pages@),
            page_size == old(tree).page_size,
            before == old(tree).nodes@,
            same_but_nodes(*tree, *old(tree)),
            job == row_job(*old(tree), row, kids, b, keys, i, !deepest),
            job_ok(job),
            cut_ok(job, tree.nodes@, upper@, cut, t as int, poses@),
            cursor == cut.rest[0],
            t > 0 ==> opt_ref(prev_key) == Some(keys[t - 1]),
            t > 0 ==> !poses@.is_empty(),
            first ==> {
                &&& prunable_row(before, page_size, row, kids, b, r)
                &&& first_children(b, keys)
                &&& pruning(before, tree.nodes@, page_size, row, kids, b, r, upper@, c, a, t as int)
                &&& agree_outside(before, tree.nodes@, row, kids, !deepest)
                &&& cut.rest == row.skip(c)
                &&& poses@ == first_poses(t - a)
                &&& t > 0 ==> t > a
            },
        decreases pages@.len() - t,
    {
        broadcast use vstd::std_specs::btree::group_btree_axioms;

        let key = &pages[t];
        proof {
            assert(key@ == keys[t as int]);
            assert(tree.nodes.len() == tree.nodes@.len());
            lemma_cut_look(job, tree.nodes@, upper@, cut, t as int, poses@);
        }
        let inside = match &tree.nodes[cursor] {
            NodeData::Internal(n) => is_below(key, &n.right_bound),
            _ => true,
        };
        assert(inside == below(key@, bound_of(tree.nodes@[cut.rest[0]])));
        if !inside {
            let ghost nodes = tree.nodes@;
            let ghost given = upper@;
            let ghost marked = poses@;
            let ghost cut0 = cut;
            proof {
                lemma_cut_ready(job, nodes, given, cut, t as int, marked);
                if first {
                    lemma_first_before(before, nodes, page_size, row, kids, b, r, given, c, a, t as int, keys);
                }
            }
            apply_removal(tree, cursor, &mut poses, &mut upper, prev_key, !deepest);
            proof {
                assert(poses@ =~= Set::<usize>::empty());
                cut =
                lemma_cut_apply(
                    job,
                    nodes,
                    tree.nodes@,
                    given,
                    upper@,
                    cut0,
                    t as int,
                    marked,
                    opt_ref(prev_key),
                );
                lemma_cut_look(job, tree.nodes@, upper@, cut, t as int, poses@);
                assert(tree.nodes.len() == tree.nodes@.len());
                if first {
                    assert(t > 0);
                    lemma_pruning_next(
                        before,
                        nodes,
                        tree.nodes@,
                        page_size,
                        row,
                        kids,
                        b,
                        r,
                        given,
                        upper@,
                        c,
                        a,
                        t as int,
                        keys[t - 1],
                        !deepest,
                    );
                    assert(row.skip(c).drop_first() =~= row.skip(c + 1));
                    assert(gone_at(tree.nodes@, row, c));
                    assert(cut0.rest[0] == row[c]);
                }
            }
            let ghost gone = tree.nodes@[cut0.rest[0]] is Empty;
            let ghost ahead = if gone {
                cut.rest
            } else {
                cut0.rest
            };
            proof {
                lemma_cut_reach(job, tree.nodes@, upper@, cut0, cut, t as int, ahead);
            }
            let next: usize = write_targeted(
                &tree.nodes,
                cursor,
                key,
                Ghost(ahead),
                Ghost(if gone {
                    1nat
                } else {
                    0nat
                }),
            );
            proof {
                assert(!gone ==> bound_of(tree.nodes@[cut0.rest[0]]) == bound_of(nodes[cut0.rest[0]])) by {
                    if !gone {
                        assert(bounds(tree.nodes@, cut0.rest)[0] == bounds(nodes, cut0.rest)[0]);
                    }
                }
                let k = lemma_cut_target(
                    job,
                    tree.nodes@,
                    cut0,
                    cut,
                    ahead,
                    next as int,
                    key@,
                );
                if first {
                    lemma_first_next(
                        before,
                        tree.nodes@,
                        page_size,
                        row,
                        kids,
                        b,
                        r,
                        upper@,
                        c + 1,
                        t as int,
                        keys,
                        k,
                    );
                    c = c + 1;
                    a = t as int;
                    assert(poses@ =~= first_poses(0));
                }
                assert(bounds(tree.nodes@, cut.rest)[k] == bound_of(tree.nodes@[cut.rest[k]]));
                cut = lemma_cut_advance(job, tree.nodes@, upper@, cut, t as int, k);
            }
            cursor = next;
        }
        proof {
            lemma_cut_look(job, tree.nodes@, upper@, cut, t as int, poses@);
            assert(tree.nodes.len() == tree.nodes@.len());
        }
        let pos: usize = match &tree.nodes[cursor] {
            NodeData::Internal(n) => n.search(key),
            _ => 0,
        };
        let ghost marked = poses@;
        proof {
            lemma_cut_mark(job, tree.nodes@, upper@, cut, t as int, marked, pos);
            if first {
                lemma_first_place(b, keys, t as int);
                lemma_first_same(before, tree.nodes@, page_size, row, kids, b, r, upper@, c, a, t as int, cut, job, marked);
            }
        }
        poses.insert(pos);
        proof {
            assert(poses@ =~= marked.insert(pos));
            assert(poses@.contains(pos));
            if first {
                assert(poses@ =~= first_poses(t + 1 - a));
            }
        }
        prev_key = Some(key);
        t += 1;
    }
    let ghost nodes = tree.nodes@;
    let ghost given = upper@;
    let ghost marked = poses@;
    let ghost cut0 = cut;
    proof {
        assert(tree.nodes.len() == nodes.len());
        lemma_cut_look(job, nodes, given, cut, r, marked);
        lemma_cut_ready(job, nodes, given, cut, r, marked);
        if first {
            assert(row.skip(c)[0] == row[c]);
            let n = nodes[row[c]]->Internal_0;
            assert(n.ptrs.len() == n.ptrs@.len());
            assert(covers(b, r - 1, keys[r - 1]));
            lemma_lost_is_emptied(before, nodes, page_size, row, kids, b, r, given, c, a);
            lemma_without_first(ptrs_of(nodes[row[c]]), r - a);
        }
    }
    if last_child_alone(&tree.nodes, cursor, &poses) {
        drop_children(tree, cursor, &poses);
        proof {
            let n = nodes[cut.rest[0]];
            let n2 = tree.nodes@[cut.rest[0]];
            lemma_kept_sane(n, n2, marked);
            cut = lemma_cut_last(job, nodes, tree.nodes@, given, upper@, cut0, marked, false);
        }
    } else {
        apply_removal(tree, cursor, &mut poses, &mut upper, prev_key, !deepest);
        proof {
            if first {
                lemma_pruning_end(
                    before,
                    nodes,
                    tree.nodes@,
                    page_size,
                    row,
                    kids,
                    b,
                    r,
                    given,
                    upper@,
                    c,
                    a,
                    keys[r - 1],
                    !deepest,
                );
            }
            cut = lemma_cut_end(job, nodes, tree.nodes@, given, upper@, cut0, marked);
        }
    }
    (upper, Ghost(cut))
}

/// The work in a row of a tree.
pub open spec fn row_job(
    tree: BPlusTree,
    row: Seq<int>,
    kids: Seq<int>,
    b: Seq<Option<Seq<u8>>>,
    keys: Seq<Seq<u8>>,
    start: int,
    shortcuts: bool,
) -> Job {
    Job {
        before: tree.nodes@,
        page_size: tree.page_size as int,
        row,
        kids,
        b,
        keys,
        start,
        shortcuts,
    }
}

/// The place of a key under one of the first children.
proof fn lemma_first_place(b: Seq<Option<Seq<u8>>>, keys: Seq<Seq<u8>>, t: int)
    requires
        bounds_ok(b),
        first_children(b, keys),
        0 <= t < keys.len(),
    ensures
        place(b, keys[t]) == t,
        covers(b, t, keys[t]),
{
    assert(covers(b, t, keys[t]));
    lemma_place(b, keys[t]);
}

/// The marked children of the node at hand are all of its children.
proof fn lemma_first_before(
    before: Seq<NodeData>,
    nodes: Seq<NodeData>,
    page_size: int,
    row: Seq<int>,
    kids: Seq<int>,
    b: Seq<Option<Seq<u8>>>,
    r: int,
    out: RemovalView,
    c: int,
    a: int,
    t: int,
    keys: Seq<Seq<u8>>,
)
    requires
        prunable_row(before, page_size, row, kids, b, r),
        first_children(b, keys),
        pruning(before, nodes, page_size, row, kids, b, r, out, c, a, t),
        0 <= t < keys.len(),
        keys.len() == r,
        t > 0 ==> t > a,
        !below(keys[t], bound_of(nodes[row[c]])),
    ensures
        t - a == ptrs_of(nodes[row[c]]).len(),
        t > 0,
        covers(b, t - 1, keys[t - 1]),
        without(ptrs_of(nodes[row[c]]), first_poses(t - a)).len() == 0,
{
    assert(row.skip(c)[0] == row[c]);
    lemma_first_node(nodes, page_size, row.skip(c), kids.skip(a), b.skip(a));
    lemma_bounds_skip(b, a);
    assert(covers(b, t, keys[t]));
    lemma_covers_skip(b, a, t, keys[t]);
    lemma_out_of_range(nodes[row[c]], kids.skip(a), b.skip(a), t - a, keys[t]);
    assert(covers(b, t - 1, keys[t - 1]));
    let n = nodes[row[c]]->Internal_0;
    assert(n.ptrs.len() == n.ptrs@.len());
    lemma_without_first(ptrs_of(nodes[row[c]]), t - a);
}

/// After a node is gone with all its children, the next key lies under the next node.
proof fn lemma_first_next(
    before: Seq<NodeData>,
    nodes: Seq<NodeData>,
    page_size: int,
    row: Seq<int>,
    kids: Seq<int>,
    b: Seq<Option<Seq<u8>>>,
    r: int,
    out: RemovalView,
    c: int,
    t: int,
    keys: Seq<Seq<u8>>,
    k: int,
)
    requires
        prunable_row(before, page_size, row, kids, b, r),
        first_children(b, keys),
        pruning(before, nodes, page_size, row, kids, b, r, out, c, t, t),
        0 <= t < keys.len(),
        covers(bounds(nodes, row.skip(c)), k, keys[t]),
    ensures
        k == 0,
{
    let rest = row.skip(c);
    let above = bounds(nodes, rest);
    assert(covers(b, t, keys[t]));
    lemma_bounds_skip(b, t);
    lemma_first_node(nodes, page_size, rest, kids.skip(t), b.skip(t));
    lemma_covers_skip(b, t, t, keys[t]);
    let m = ptrs_of(nodes[rest[0]]).len() as int;
    lemma_covers_parent(b.skip(t), above, 0, 0, m, 0, keys[t]);
    lemma_covers_unique(above, 0, k, keys[t]);
}

/// Among the first children, both counts of the work agree.
proof fn lemma_first_same(
    before: Seq<NodeData>,
    nodes: Seq<NodeData>,
    page_size: int,
    row: Seq<int>,
    kids: Seq<int>,
    b: Seq<Option<Seq<u8>>>,
    r: int,
    out: RemovalView,
    c: int,
    a: int,
    t: int,
    cut: Cut,
    job: Job,
    poses: Set<usize>,
)
    requires
        prunable_row(before, page_size, row, kids, b, r),
        first_children(b, job.keys),
        job_ok(job),
        job.b == b,
        job.page_size == page_size,
        cut_ok(job, nodes, out, cut, t, poses),
        pruning(before, nodes, page_size, row, kids, b, r, out, c, a, t),
        cut.rest == row.skip(c),
        0 <= t < job.keys.len(),
        job.keys.len() == r,
        below(job.keys[t], bound_of(nodes[cut.rest[0]])),
    ensures
        cut.a == a,
        t + 1 - a <= ptrs_of(nodes[row[c]]).len(),
        pruning(before, nodes, page_size, row, kids, b, r, out, c, a, t + 1),
{
    lemma_cut_look(job, nodes, out, cut, t, poses);
    assert(row.skip(c)[0] == row[c]);
    lemma_first_node(nodes, page_size, row.skip(c), kids.skip(a), b.skip(a));
    lemma_first_node(nodes, page_size, cut.rest, cut.held, b.skip(cut.a));
    lemma_bounds_skip(b, a);
    assert(covers(b, t, job.keys[t]));
    lemma_covers_skip(b, a, t, job.keys[t]);
    lemma_over_ptrs(nodes, cut.rest, cut.held, b.skip(cut.a));
    lemma_over_ptrs(nodes, cut.rest, kids.skip(a), b.skip(a));
    assert(refs(cut.held).len() == refs(kids.skip(a)).len());
    lemma_first_place(b, job.keys, t);
}

/// A key that is not below the bound of a node lies under a child further right.
proof fn lemma_out_of_range(
    n: NodeData,
    kids: Seq<int>,
    b: Seq<Option<Seq<u8>>>,
    t: int,
    key: Seq<u8>,
)
    requires
        bounds_ok(b),
        ptrs_of(n).len() <= kids.len(),
        kids.len() == b.len(),
        node_over(n, kids.take(ptrs_of(n).len() as int), b.take(ptrs_of(n).len() as int)),
        covers(b, t, key),
        t <= ptrs_of(n).len(),
        !below(key, bound_of(n)),
    ensures
        t == ptrs_of(n).len(),
{
    broadcast use group_key_order;

    let m = ptrs_of(n).len() as int;
    assert(b.take(m).last() == b[m - 1]);
    if t < m - 1 {
        assert(bound_lt(b[t], b[m - 1]));
    }
}

proof fn lemma_bounds_insert_first(b: Seq<Option<Seq<u8>>>, key: Seq<u8>)
    requires
        bounds_ok(b),
        bound_lt(Some(key), b[0]),
    ensures
        bounds_ok(b.insert(0, Some(key))),
{
    broadcast use group_key_order;

    let b2 = b.insert(0, Some(key));
    assert forall|x: int, y: int| 0 <= x < y < b2.len() implies bound_lt(
        #[trigger] b2[x],
        #[trigger] b2[y],
    ) by {
        assert(b2[y] == b[y - 1]);
        if x > 0 {
            assert(b2[x] == b[x - 1]);
            assert(bound_lt(b[x - 1], b[y - 1]));
        } else if y > 1 {
            assert(bound_lt(b[0], b[y - 1]));
        }
    }
    assert(b2.last() == b.last());
}

/// A key below the first child's bound lies under the first child of the first node.
proof fn lemma_first_child_of_all(
    nodes: Seq<NodeData>,
    page_size: int,
    row: Seq<int>,
    kids: Seq<int>,
    b: Seq<Option<Seq<u8>>>,
    key: Seq<u8>,
)
    requires
        row_over(nodes, page_size, row, kids, b),
        bounds_ok(b),
        below(key, b[0]),
    ensures
        covers(bounds(nodes, row), 0, key),
        covers(b, 0, key),
        kids.len() == b.len() >= 1,
{
    lemma_first_node(nodes, page_size, row, kids, b);
    let m = ptrs_of(nodes[row[0]]).len() as int;
    lemma_covers_parent(b, bounds(nodes, row), 0, 0, m, 0, key);
}

/// What adding a node that a split made below comes to.
pub open spec fn split_added(
    before: Seq<NodeData>,
    after: Seq<NodeData>,
    page_size: int,
    row: Seq<int>,
    kids: Seq<int>,
    b: Seq<Option<Seq<u8>>>,
    child: int,
    pivot: Seq<u8>,
    s: Option<(NodeCellRef, Seq<u8>)>,
) -> bool {
    let row2 = cut_row(row, 0, before.len() as int, s);
    &&& row_over(after, page_size, row2, kids.insert(1, child), b.insert(0, Some(pivot)))
    &&& bounds(after, row2) == cut_bounds(bounds(before, row), 0, s)
    &&& s is None <==> keys_of(before[row[0]]).len() < page_size
    &&& s matches Some(p) ==> p.0 == slot_ref(before.len() as int)
    &&& after.len() == before.len() + if s is None {
        0int
    } else {
        1int
    }
    &&& forall|x: int| 0 <= x < before.len() && x != row[0] ==> #[trigger] after[x] == before[x]
}

/// The node that a split below made came behind its left neighbour, which is the first child of the
/// first node of the row.
proof fn lemma_split_added(
    before: Seq<NodeData>,
    after: Seq<NodeData>,
    page_size: int,
    row: Seq<int>,
    kids: Seq<int>,
    b: Seq<Option<Seq<u8>>>,
    c: int,
    pivot: Seq<u8>,
    r: Option<(NodeCellRef, Seq<u8>)>,
)
    requires
        row_over(before, page_size, row, kids, b),
        bounds_ok(b),
        page_size >= 2,
        before.len() <= usize::MAX,
        bound_lt(Some(pivot), b[0]),
        took(before, after, page_size, row[0], (slot_ref(c), pivot), r),
    ensures
        split_added(before, after, page_size, row, kids, b, c, pivot, r),
{
    let pos = choose|pos: int|
        #[trigger] is_upper_bound(keys_of(before[row[0]]), pivot, pos) && child_put(
            before,
            after,
            page_size,
            row[0],
            pivot,
            slot_ref(c),
            pos,
            1,
            r,
        );
    lemma_first_child_of_all(before, page_size, row, kids, b, pivot);
    lemma_first_node(before, page_size, row, kids, b);
    assert(bounds(before, row)[0] == bound_of(before[row[0]]));
    lemma_child_pos(before[row[0]], kids, b, 0, pivot, pos);
    lemma_bounds_insert_first(b, pivot);
    lemma_row_over_at(before, page_size, row, kids, b);
    lemma_put_over(before, after, page_size, row, 0, kids, b, 0, 0, 1, pivot, c, r);
}

/// The children of a row after the row below was pruned.
pub open spec fn pruned_kids(kids: Seq<int>, r: int, s: Option<(NodeCellRef, Seq<u8>)>) -> Seq<int> {
    match s {
        None => kids.skip(r),
        Some(p) => kids.skip(r).insert(1, p.0->Slot_0 as int),
    }
}

/// What pruning a row comes to.
pub open spec fn row_pruned(
    before: Seq<NodeData>,
    after: Seq<NodeData>,
    page_size: int,
    row: Seq<int>,
    kids: Seq<int>,
    b: Seq<Option<Seq<u8>>>,
    given: RemovalView,
    out: RemovalView,
) -> bool {
    let r = given.empty_pages.len() as int;
    let e = emptied_in(before, row, r);
    let s = split_of(out);
    let row2 = cut_row(row.skip(e), 0, before.len() as int, s);
    &&& 0 <= e < row.len()
    &&& row_over(
        after,
        page_size,
        row2,
        pruned_kids(kids, r, split_of(given)),
        cut_bounds(b.skip(r), 0, split_of(given)),
    )
    &&& bounds(after, row2) == cut_bounds(bounds(before, row).skip(e), 0, s)
    &&& out.empty_pages.len() == e
    &&& forall|j: int|
        0 <= j < e ==> #[trigger] covers(bounds(before, row), j, out.empty_pages[j])
    &&& out.split.len() <= 1
    &&& s matches Some(p) ==> p.0 == slot_ref(before.len() as int) && e > 0
    &&& after.len() == before.len() + out.split.len()
    &&& forall|j: int| 0 <= j < e ==> after[#[trigger] row[j]] is Empty
}

/// What may be given to a row to prune.
pub open spec fn removal_given(b: Seq<Option<Seq<u8>>>, given: RemovalView) -> bool {
    &&& first_children(b, given.empty_pages)
    &&& given.split.len() <= 1
    &&& split_of(given) matches Some(p) ==> given.empty_pages.len() > 0 && p.0 is Slot && bound_lt(
        Some(p.1),
        b[given.empty_pages.len() as int],
    )
}

/// A row from which nothing is taken.
proof fn lemma_nothing_removed(
    nodes: Seq<NodeData>,
    page_size: int,
    row: Seq<int>,
    kids: Seq<int>,
    b: Seq<Option<Seq<u8>>>,
    out: RemovalView,
)
    requires
        prunable_row(nodes, page_size, row, kids, b, 0),
        out.empty_pages.len() == 0,
        out.split.len() == 0,
    ensures
        children_removed(nodes, nodes, page_size, row, kids, b, 0, out),
        agree_outside(nodes, nodes, row, kids, true),
        agree_outside(nodes, nodes, row, kids, false),
{
    assert(row.skip(0) =~= row);
    assert(kids.skip(0) =~= kids);
    assert(b.skip(0) =~= b);
    assert(bounds(nodes, row).skip(0) =~= bounds(nodes, row));
}

/// A walk along a pruned row meets the emptied nodes, then the first node that stays.
proof fn lemma_removed_walk(
    before: Seq<NodeData>,
    after: Seq<NodeData>,
    page_size: int,
    row: Seq<int>,
    kids: Seq<int>,
    b: Seq<Option<Seq<u8>>>,
    r: int,
    out: RemovalView,
    walk: Seq<int>,
    pivot: Seq<u8>,
)
    requires
        row_ok(before, row, false),
        bounds_ok(b),
        0 <= r < b.len(),
        after.len() <= usize::MAX,
        children_removed(before, after, page_size, row, kids, b, r, out),
        open_walk(after, walk),
        walk[0] == row[0],
        bound_lt(Some(pivot), b[r]),
    ensures
        ({
            let e = emptied_in(before, row, r);
            let row2 = cut_row(row.skip(e), 0, before.len() as int, split_of(out));
            &&& row2[0] == row[e]
            &&& walk_end(after, walk, pivot, e)
            &&& walk[e] == row2[0]
        }),
{
    let e = emptied_in(before, row, r);
    let row2 = cut_row(row.skip(e), 0, before.len() as int, split_of(out));
    assert(row2[0] == row[e]);
    assert(row_ok(after, row2, false));
    assert(after[row2[0]] is Internal);
    lemma_bounds_skip(b, r);
    lemma_first_child_of_all(after, page_size, row2, kids.skip(r), b.skip(r), pivot);
    assert(bounds(after, row2)[0] == bound_of(after[row2[0]]));
    lemma_walk_along(before, after, row, e, walk, e);
    assert forall|x: int| 0 <= x < e implies passes(after[#[trigger] walk[x]], pivot) by {
        lemma_walk_along(before, after, row, e, walk, x);
        assert(gone_at(after, row, x));
    }
}

proof fn lemma_walk_along(
    before: Seq<NodeData>,
    after: Seq<NodeData>,
    row: Seq<int>,
    e: int,
    walk: Seq<int>,
    x: int,
)
    requires
        row_ok(before, row, false),
        before.len() <= after.len() <= usize::MAX,
        0 <= x <= e < row.len(),
        open_walk(after, walk),
        walk[0] == row[0],
        forall|j: int| 0 <= j < e ==> #[trigger] gone_at(after, row, j),
    ensures
        x < walk.len(),
        walk[x] == row[x],
    decreases x,
{
    if x > 0 {
        lemma_walk_along(before, after, row, e, walk, x - 1);
        assert(gone_at(after, row, x - 1));
        assert(0 <= walk[x - 1] < after.len());
        assert(link_at(after, walk, x - 1));
        assert(0 <= row[x] < before.len());
        if x < walk.len() {
            assert(0 <= walk[x] < after.len());
        }
    }
}

/// What taking children out of a row and putting others in comes to, whichever they are.
pub open spec fn row_cut(j: Job, after: Seq<NodeData>, given: RemovalView, out: RemovalView, c: Cut) -> bool {
    &&& agree_outside(j.before, after, j.row, j.kids, j.shortcuts)
    &&& after.len() == j.before.len() + out.split.len()
    &&& live_row(after, c.done)
    &&& forall|x: int| 0 <= x < c.done.len() ==> own_slot(j, #[trigger] c.done[x])
    &&& noted(j, after, out, c)
    &&& exists|mid: Seq<NodeData>, row: Seq<int>, out1: RemovalView|
        {
            &&& row_ptrs(mid, row) == refs(kept(j.kids, places(j.b, j.keys), 0, j.kids.len() as int))
            &&& #[trigger] splits_put(
                mid,
                after,
                j.page_size,
                row,
                c.done,
                j.start,
                given.split,
                given.split.len(),
                out1,
                out,
            )
        }
}

/// Takes emptied children out of a row, from the node at `i` on, then adds the nodes that splits
/// below made. With `first`, the children are the first ones of the row.
#[verifier::spinoff_prover]
#[verifier::rlimit(60)]
pub(crate) fn prune_row(
    tree: &mut BPlusTree,
    node: usize,
    removal: &NodeRemoval,
    deepest: bool,
    Ghost(row): Ghost<Seq<int>>,
    Ghost(kids): Ghost<Seq<int>>,
    Ghost(b): Ghost<Seq<Option<Seq<u8>>>>,
    Ghost(i): Ghost<int>,
    Ghost(first): Ghost<bool>,
) -> (r: (NodeRemoval, Ghost<Cut>))
    requires
        row_over(old(tree).nodes@, old(tree).page_size as int, row, kids, b),
        bounds_ok(b),
        old(tree).page_size >= 2,
        0 <= i < row.len(),
        removal@.empty_pages.len() > 0 ==> job_ok(
            row_job(*old(tree), row, kids, b, removal@.empty_pages, i, !deepest),
        ),
        node == row[i],
        first ==> i == 0 && prunable_row(
            old(tree).nodes@,
            old(tree).page_size as int,
            row,
            kids,
            b,
            removal@.empty_pages.len() as int,
        ) && removal_given(b, removal@),
    ensures
        same_but_nodes(*final(tree), *old(tree)),
        row_cut(
            row_job(*old(tree), row, kids, b, removal@.empty_pages, i, !deepest),
            final(tree).nodes@,
            removal@,
            r.0@,
            r.1@,
        ),
        first ==> row_pruned(
            old(tree).nodes@,
            final(tree).nodes@,
            old(tree).page_size as int,
            row,
            kids,
            b,
            removal@,
            r.0@,
        ),
{
    let ghost before = tree.nodes@;
    let ghost page_size = tree.page_size as int;
    let ghost keys = removal@.empty_pages;
    let ghost job = row_job(*tree, row, kids, b, keys, i, !deepest);
    let ghost pages = keys.len() as int;
    let mut upper = NodeRemoval::new();
    let ghost mut cut: Cut;
    if removal.empty_pages.len() > 0 {
        let (u, c) = remove_children(
            tree,
            node,
            &removal.empty_pages,
            deepest,
            Ghost(row),
            Ghost(kids),
            Ghost(b),
            Ghost(i),
            Ghost(first),
        );
        upper = u;
        proof {
            cut = c@;
        }
    } else {
        proof {
            if first {
                lemma_nothing_removed(before, page_size, row, kids, b, upper@);
            }
            cut = lemma_cut_idle(job, upper@);
        }
    }
    let ghost middle = tree.nodes@;
    let ghost out1 = upper@;
    let ghost mut walk = cut.walked;
    let ghost mut now = cut.done;
    proof {
        assert forall|x: int| 0 <= x < walk.len() implies {
            &&& 0 <= #[trigger] walk[x] < middle.len()
            &&& link_at(middle, walk, x)
            &&& middle[walk[x]] is Empty || node_open(middle[walk[x]])
        } by {
            if !(middle[walk[x]] is Empty) {
                lemma_sane_open(middle[walk[x]]);
            }
        }
        assert(live_row(middle, now));
        if first && removal@.split.len() == 0 {
            lemma_no_split(before, middle, page_size, row, kids, b, removal@, out1);
        }
    }
    let mut k: usize = 0;
    while k < removal.split.len()
        invariant
            k <= removal.split@.len() == removal@.split.len(),
            forall|x: int|
                0 <= x < removal.split@.len() ==> #[trigger] removal@.split[x] == (
                    removal.split@[x].0,
                    removal.split@[x].1@,
                ),
            same_but_nodes(*tree, *old(tree)),
            before == old(tree).nodes@,
            page_size == old(tree).page_size,
            page_size >= 2,
            keys == removal@.empty_pages,
            job == row_job(*old(tree), row, kids, b, keys, i, !deepest),
            pages == keys.len(),
            0 <= i < row.len(),
            node == row[i],
            open_walk(tree.nodes@, walk),
            walk[0] == row[i],
            walk_of(tree.nodes@, now, i, walk),
            live_row(tree.nodes@, now),
            forall|x: int| 0 <= x < now.len() ==> own_slot(job, #[trigger] now[x]),
            agree_outside(before, tree.nodes@, row, kids, !deepest),
            tree.nodes@.len() == before.len() + upper@.split.len(),
            noted(job, tree.nodes@, upper@, cut),
            splits_put(
                middle,
                tree.nodes@,
                page_size,
                cut.done,
                now,
                i,
                removal@.split,
                k as nat,
                out1,
                upper@,
            ),
            first ==> {
                &&& i == 0
                &&& prunable_row(before, page_size, row, kids, b, pages)
                &&& removal_given(b, removal@)
                &&& agree_outside(before, middle, row, kids, !deepest)
                &&& children_removed(before, middle, page_size, row, kids, b, pages, out1)
                &&& k == 0 ==> tree.nodes@ == middle && upper@ == out1
                &&& k == 0 && removal@.split.len() == 0 || k == 1 ==> row_pruned(
                    before,
                    tree.nodes@,
                    page_size,
                    row,
                    kids,
                    b,
                    removal@,
                    upper@,
                )
            },
        decreases removal.split@.len() - k,
    {
        let child = removal.split[k].0;
        let ghost nodes = tree.nodes@;
        let ghost out = upper@;
        let ghost walk0 = walk;
        let ghost now0 = now;
        proof {
            assert(removal@.split[k as int] == (removal.split@[k as int].0, removal.split@[k as int].1@));
        }
        let (split, row2, walk2) = put_split(
            tree,
            node,
            child,
            &removal.split[k].1,
            Ghost(now),
            Ghost(i),
            Ghost(walk),
        );
        let ghost s = split_view(split);
        upper.push_split(split);
        proof {
            now = row2@;
            walk = walk2@;
            lemma_put_row(nodes, tree.nodes@, page_size, now0, now, i, removal@.split[k as int], s);
            lemma_put_agrees(job, nodes, tree.nodes@, now0, now, out, upper@, cut, s);
            assert(upper@ == with_split(out, s));
            lemma_splits_step(
                middle,
                nodes,
                tree.nodes@,
                page_size,
                cut.done,
                now0,
                now,
                i,
                removal@.split,
                k as nat,
                out1,
                out,
                s,
            );
            if first {
                let e = emptied_in(before, row, pages);
                let kept_row = cut_row(row.skip(e), 0, before.len() as int, split_of(out1));
                let pivot = removal@.split[0].1;
                assert(tree.nodes.len() == tree.nodes@.len());
                lemma_removed_walk(before, nodes, page_size, row, kids, b, pages, out1, walk0, pivot);
                assert(took(nodes, tree.nodes@, page_size, walk0[e], (child, pivot), s));
                lemma_bounds_skip(b, pages);
                lemma_split_added(
                    nodes,
                    tree.nodes@,
                    page_size,
                    kept_row,
                    kids.skip(pages),
                    b.skip(pages),
                    child->Slot_0 as int,
                    pivot,
                    s,
                );
                lemma_split_after_removal(
                    before,
                    middle,
                    tree.nodes@,
                    page_size,
                    row,
                    kids,
                    b,
                    removal@,
                    out1,
                    upper@,
                    s,
                    !deepest,
                );
            }
        }
        k += 1;
    }
    let ghost done = Cut { done: now, walked: walk, ..cut };
    proof {
        assert(noted(job, tree.nodes@, upper@, done));
        assert(k as nat == removal@.split.len());
        assert(splits_put(
            middle,
            tree.nodes@,
            job.page_size,
            cut.done,
            done.done,
            job.start,
            removal@.split,
            removal@.split.len(),
            out1,
            upper@,
        ));
    }
    (upper, Ghost(done))
}

proof fn lemma_no_split(
    before: Seq<NodeData>,
    middle: Seq<NodeData>,
    page_size: int,
    row: Seq<int>,
    kids: Seq<int>,
    b: Seq<Option<Seq<u8>>>,
    given: RemovalView,
    out: RemovalView,
)
    requires
        given.split.len() == 0,
        children_removed(
            before,
            middle,
            page_size,
            row,
            kids,
            b,
            given.empty_pages.len() as int,
            out,
        ),
    ensures
        row_pruned(before, middle, page_size, row, kids, b, given, out),
{
    let e = emptied_in(before, row, given.empty_pages.len() as int);
    assert forall|j: int| 0 <= j < e implies middle[#[trigger] row[j]] is Empty by {
        assert(gone_at(middle, row, j));
    }
}

/// What is known of a row still is when a child comes into one of its nodes.
proof fn lemma_put_agrees(
    j: Job,
    nodes: Seq<NodeData>,
    after: Seq<NodeData>,
    row: Seq<int>,
    row2: Seq<int>,
    out: RemovalView,
    out2: RemovalView,
    c: Cut,
    r: Option<(NodeCellRef, Seq<u8>)>,
)
    requires
        nodes.len() >= j.before.len(),
        after.len() >= nodes.len(),
        live_row(nodes, row),
        forall|x: int| 0 <= x < row.len() ==> own_slot(j, #[trigger] row[x]),
        agree_outside(j.before, nodes, j.row, j.kids, j.shortcuts),
        noted(j, nodes, out, c),
        out2 == with_split(out, r),
        forall|x: int| 0 <= x < row2.len() ==> row.contains(#[trigger] row2[x]) || row2[x] >= nodes.len(),
        forall|x: int| 0 <= x < nodes.len() && !row.contains(x) ==> #[trigger] after[x] == nodes[x],
        forall|x: int| 0 <= x < nodes.len() && nodes[x] is Empty ==> #[trigger] after[x] == nodes[x],
    ensures
        forall|x: int| 0 <= x < row2.len() ==> own_slot(j, #[trigger] row2[x]),
        agree_outside(j.before, after, j.row, j.kids, j.shortcuts),
        noted(j, after, out2, c),
{
    assert forall|x: int| 0 <= x < row2.len() implies own_slot(j, #[trigger] row2[x]) by {
        if row.contains(row2[x]) {
            let k = choose|k: int| 0 <= k < row.len() && row[k] == row2[x];
            assert(own_slot(j, row[k]));
        }
    }
    assert forall|x: int|
        0 <= x < j.before.len() && !j.row.contains(x) && !(j.before[x] is Empty) implies #[trigger] after[x]
        == j.before[x] by {
        assert(nodes[x] == j.before[x]);
        if row.contains(x) {
            let k = choose|k: int| 0 <= k < row.len() && row[k] == x;
            assert(own_slot(j, row[k]));
        }
    }
    assert forall|x: int| 0 <= x < c.last.len() implies {
        &&& 0 <= #[trigger] c.last[x] < j.keys.len()
        &&& out2.empty_pages[x] == j.keys[c.last[x]]
        &&& below(j.keys[c.last[x]], c.ends[x])
        &&& c.last[x] + 1 < j.keys.len() ==> !below(j.keys[c.last[x] + 1], c.ends[x])
        &&& end_known(j, out2, c.emptied[x], c.ends[x])
    } by {
        assert(0 <= c.last[x] < j.keys.len());
        lemma_end_known_more(j, out, out2, c.emptied[x], c.ends[x]);
    }
}

/// Removal and addition together.
#[verifier::spinoff_prover]
proof fn lemma_split_after_removal(
    before: Seq<NodeData>,
    middle: Seq<NodeData>,
    after: Seq<NodeData>,
    page_size: int,
    row: Seq<int>,
    kids: Seq<int>,
    b: Seq<Option<Seq<u8>>>,
    given: RemovalView,
    first: RemovalView,
    out: RemovalView,
    s: Option<(NodeCellRef, Seq<u8>)>,
    shortcuts: bool,
)
    requires
        prunable_row(before, page_size, row, kids, b, given.empty_pages.len() as int),
        removal_given(b, given),
        given.split.len() > 0,
        children_removed(
            before,
            middle,
            page_size,
            row,
            kids,
            b,
            given.empty_pages.len() as int,
            first,
        ),
        agree_outside(before, middle, row, kids, shortcuts),
        split_added(
            middle,
            after,
            page_size,
            cut_row(
                row.skip(emptied_in(before, row, given.empty_pages.len() as int)),
                0,
                before.len() as int,
                split_of(first),
            ),
            kids.skip(given.empty_pages.len() as int),
            b.skip(given.empty_pages.len() as int),
            given.split[0].0->Slot_0 as int,
            given.split[0].1,
            s,
        ),
        out == (RemovalView {
            split: match s {
                Some(p) => first.split.push(p),
                None => first.split,
            },
            ..first
        }),
    ensures
        row_pruned(before, after, page_size, row, kids, b, given, out),
        agree_outside(before, after, row, kids, shortcuts),
{
    let r = given.empty_pages.len() as int;
    let e = emptied_in(before, row, r);
    let row2 = cut_row(row.skip(e), 0, before.len() as int, split_of(first));
    assert(row2[0] == row[e]);
    assert(row.contains(row[e]));
    assert(given.split[0].0 == slot_ref(given.split[0].0->Slot_0 as int));
    if split_of(first) is Some {
        assert(s is None);
    } else if s is Some {
        assert(e > 0);
        assert(middle.len() == before.len());
    }
    assert(split_of(out) == (match split_of(first) {
        Some(p) => Some(p),
        None => s,
    }));
    assert forall|j: int| 0 <= j < e implies after[#[trigger] row[j]] is Empty by {
        assert(gone_at(middle, row, j));
        assert(row_ok(before, row, false));
        assert(0 <= row[j] < before.len());
        assert(row[j] != row[e]);
        assert(after[row[j]] == middle[row[j]]);
    }
    assert forall|x: int|
        0 <= x < before.len() && !row.contains(x) && !(before[x] is Empty) implies #[trigger] after[x]
        == before[x] by {
        assert(middle[x] == before[x]);
    }
    assert forall|x: int| 0 <= x < before.len() && before[x] is Empty implies (#[trigger] after[x]) is Empty
        && (!shortcuts || !kids.contains(x) ==> after[x] == before[x]) by {
        assert(middle[x] is Empty);
        assert(row_ok(middle, row2, false));
        assert(middle[row2[0]] is Internal);
        assert(after[x] == middle[x]);
    }
}

} // verus!
