//! One node of a row after the other loses children.
use super::grow::{cut_bounds, cut_row};
use super::node::{below, bound_of, keys_of, ptrs_of, right_of, NodeCellRef, NodeData};
use super::prune::{lemma_bounds_skip, lemma_first_node, lemma_second_node, row_over, step_frame};
use super::prune_any::{
    first_stays, kept, lemma_any_goes, lemma_any_moves, lemma_any_stays, lemma_first_sane,
    lemma_kept_all, lemma_kept_join, lemma_kept_refs, lemma_over_ptrs, lemma_row_ptrs_frame,
    lemma_row_ptrs_join, node_sane, place, places, refs, row_ptrs,
};
use super::prune_row::agree_outside;
use super::prune_state::{
    cut_held, cut_marks, cut_notes, cut_ok, cut_slots, cut_walk, end_known, job_ok, lead_ref,
    leads_on, lemma_cut_left, lemma_cut_look, lemma_place_right, lemma_places_ascend,
    lemma_row_over_skip, noted, one, own_slot, same_nodes,
    stands_from, Cut, Job,
};
use super::removal::{past_empty, removal_applied, right_node_ok, without, RemovalView};
use super::search::live_slot;
use super::shape::{bounds, bounds_ok, covers, kids_before, link_at, row_ok, slot_ref};
use crate::index::key::group_key_order;
use vstd::prelude::*;

verus! {

/// A step changes none of the nodes that the work has left behind.
proof fn lemma_cut_frames(
    j: Job,
    nodes: Seq<NodeData>,
    after: Seq<NodeData>,
    out: RemovalView,
    c: Cut,
    t: int,
    poses: Set<usize>,
)
    requires
        job_ok(j),
        cut_ok(j, nodes, out, c, t, poses),
        after.len() >= nodes.len(),
        step_frame(nodes, after, c.rest, c.held, j.shortcuts),
    ensures
        forall|x: int|
            0 <= x < c.done.len() ==> nodes[#[trigger] c.done[x]] == after[c.done[x]],
        row_ptrs(after, c.done) == row_ptrs(nodes, c.done),
        forall|x: int|
            0 <= x < c.walked.len() ==> nodes[#[trigger] c.walked[x]] == after[c.walked[x]],
        forall|x: int| 0 <= x < c.emptied.len() ==> after[#[trigger] c.emptied[x]] is Empty,
        agree_outside(j.before, after, j.row, j.kids, j.shortcuts),
        nodes.len() >= j.before.len(),
{
    lemma_cut_look(j, nodes, out, c, t, poses);
    assert(c.rest.contains(c.rest[0]));
    if c.rest.len() > 1 {
        assert(c.rest.contains(c.rest[1]));
    }
    assert forall|x: int| 0 <= x < c.done.len() implies nodes[#[trigger] c.done[x]]
        == after[c.done[x]] by {
        reveal(cut_slots);
    }
    lemma_row_ptrs_frame(nodes, after, c.done);
    assert forall|x: int| own_slot(j, x) implies !c.held.contains(x) by {
        if c.held.contains(x) {
            let k = choose|k: int| 0 <= k < c.held.len() && c.held[k] == x;
            assert(j.kids.contains(c.held[k])) by {
                reveal(cut_held);
            }
            let i = choose|i: int| 0 <= i < j.kids.len() && j.kids[i] == x;
            assert(0 <= j.kids[i] < j.before.len());
            let r = choose|r: int| 0 <= r < j.row.len() && j.row[r] == x;
            assert(!j.kids.contains(j.row[r]));
        }
    }
    assert forall|x: int| 0 <= x < c.walked.len() implies nodes[#[trigger] c.walked[x]]
        == after[c.walked[x]] by {
        reveal(cut_walk);
        assert(leads_on(j, nodes, c.walked[x], c.walked.push(c.rest[0])[x + 1]));
        assert(!c.held.contains(c.walked[x]));
    }
    assert forall|x: int| 0 <= x < c.emptied.len() implies after[#[trigger] c.emptied[x]] is Empty by {
        reveal(cut_notes);
        assert(nodes[c.emptied[x]] is Empty);
    }
    reveal(cut_slots);
    assert(row_ok(nodes, c.rest, false)) by {
        reveal(cut_held);
    }
    assert forall|x: int|
        0 <= x < j.before.len() && !j.row.contains(x) && !(j.before[x] is Empty) implies #[trigger] after[x]
        == j.before[x] by {
        assert(nodes[x] == j.before[x]);
        assert(own_slot(j, c.rest[0]));
        if c.rest.len() > 1 {
            assert(own_slot(j, c.rest[1]));
        }
    }
    assert forall|x: int| 0 <= x < j.before.len() && j.before[x] is Empty implies (#[trigger] after[x]) is Empty
        && (!j.shortcuts || !j.kids.contains(x) ==> after[x] == j.before[x]) by {
        assert(nodes[x] is Empty);
        if !j.kids.contains(x) && c.held.contains(x) {
            let k = choose|k: int| 0 <= k < c.held.len() && c.held[k] == x;
            reveal(cut_held);
            assert(j.kids.contains(c.held[k]));
        }
    }
}

/// More nodes were walked, of which those that are not emptied stay.
proof fn lemma_same_nodes(
    j: Job,
    nodes: Seq<NodeData>,
    after: Seq<NodeData>,
    c: Cut,
    c2: Cut,
    more: Seq<int>,
    stay: bool,
)
    requires
        same_nodes(j, nodes, c),
        0 <= j.start,
        forall|x: int|
            0 <= x < c.walked.len() ==> nodes[#[trigger] c.walked[x]] == after[c.walked[x]],
        c2.walked == c.walked + more,
        stay ==> c2.done == c.done + more,
        !stay ==> c2.done == c.done && forall|x: int|
            0 <= x < more.len() ==> after[#[trigger] more[x]] is Empty,
    ensures
        same_nodes(j, after, c2),
{
    assert forall|x: int| 0 <= x < c2.walked.len() implies after[#[trigger] c2.walked[x]] is Empty
        || stands_from(c2.done, j.start, c2.walked[x]) by {
        if x < c.walked.len() {
            assert(c2.walked[x] == c.walked[x]);
            if stands_from(c.done, j.start, c.walked[x]) {
                let k = choose|k: int|
                    j.start <= k < c.done.len() && #[trigger] c.done[k] == c.walked[x];
                assert(c2.done[k] == c.done[k]);
            }
        } else {
            let y = x - c.walked.len();
            assert(c2.walked[x] == more[y]);
            if stay {
                assert(c2.done[c.done.len() + y] == more[y]);
            }
        }
    }
    assert forall|x: int| j.start <= x < c2.done.len() implies c2.walked.contains(
        #[trigger] c2.done[x],
    ) by {
        if x < c.done.len() {
            assert(c2.done[x] == c.done[x]);
            assert(c.walked.contains(c.done[x]));
            let k = choose|k: int| 0 <= k < c.walked.len() && c.walked[k] == c.done[x];
            assert(c2.walked[k] == c.walked[k]);
        } else {
            let y = x - c.done.len();
            assert(c2.done[x] == more[y]);
            assert(c2.walked[c.walked.len() + y] == more[y]);
        }
    }
}

/// The slots after a step.
proof fn lemma_step_slots(
    j: Job,
    nodes: Seq<NodeData>,
    after: Seq<NodeData>,
    out: RemovalView,
    out2: RemovalView,
    c: Cut,
    c2: Cut,
    t: int,
    poses: Set<usize>,
    r: Option<(NodeCellRef, Seq<u8>)>,
    stays: bool,
)
    requires
        job_ok(j),
        cut_ok(j, nodes, out, c, t, poses),
        c.rest.len() > 1,
        step_frame(nodes, after, c.rest, c.held, j.shortcuts),
        after.len() == nodes.len() + if r is Some {
            1int
        } else {
            0int
        },
        out2.split == (match r {
            Some(s) => out.split.push(s),
            None => out.split,
        }),
        c2.rest == cut_row(c.rest.drop_first(), 0, nodes.len() as int, r),
        bounds(after, c2.rest) == cut_bounds(bounds(nodes, c.rest).skip(1), 0, r),
        row_ok(after, c2.rest, false),
        stays ==> after[c.rest[0]] is Internal && c2.done == c.done.push(c.rest[0]),
        !stays ==> c2.done == c.done && after[c.rest[0]] is Empty,
        after[c.rest[0]] is Empty || node_sane(after[c.rest[0]]),
        right_of(after[c.rest[0]]) == right_of(nodes[c.rest[0]]),
        c2.walked == c.walked.push(c.rest[0]),
    ensures
        cut_slots(j, after, out2, c2),
        cut_walk(j, after, c2),
        c2.rest[0] == c.rest[1],
{
    lemma_cut_frames(j, nodes, after, out, c, t, poses);
    lemma_cut_look(j, nodes, out, c, t, poses);
    assert(row_ok(nodes, c.rest, false)) by {
        reveal(cut_held);
    }
    let tail = c.rest.drop_first();
    assert forall|x: int| 0 <= x < c2.rest.len() implies (#[trigger] c2.rest[x] == nodes.len() && r is Some
        && x == 1) || (exists|k: int| 0 < k < c.rest.len() && c2.rest[x] == #[trigger] c.rest[k]) by {
        if r is None {
            assert(c2.rest[x] == c.rest[x + 1]);
        } else if x == 0 {
            assert(c2.rest[x] == c.rest[1]);
        } else if x > 1 {
            assert(c2.rest[x] == c.rest[x]);
        }
    }
    assert forall|y: int| 0 <= y < nodes.len() && !c.rest.contains(y) implies !c2.rest.contains(y) by {
        if c2.rest.contains(y) {
            let x = choose|x: int| 0 <= x < c2.rest.len() && c2.rest[x] == y;
            assert(c2.rest[x] == y);
        }
    }
    assert(!c2.rest.contains(c.rest[0])) by {
        if c2.rest.contains(c.rest[0]) {
            let x = choose|x: int| 0 <= x < c2.rest.len() && c2.rest[x] == c.rest[0];
            assert(c2.rest[x] == c.rest[0]);
            let k = choose|k: int| 0 < k < c.rest.len() && c2.rest[x] == #[trigger] c.rest[k];
            assert(c.rest[k] != c.rest[0]);
        }
    }
    assert(own_slot(j, c.rest[0])) by {
        reveal(cut_slots);
    }
    assert(c2.rest[0] == c.rest[1]) by {
        if r is None {
            assert(c2.rest[0] == tail[0]);
        }
    }
    assert(cut_walk(j, after, c2)) by {
        reveal(cut_walk);
        assert(link_at(nodes, c.rest, 0));
        let path = c.walked.push(c.rest[0]);
        let path2 = c2.walked.push(c2.rest[0]);
        assert forall|x: int| 0 <= x < c2.walked.len() implies !c2.rest.contains(
            #[trigger] c2.walked[x],
        ) && leads_on(j, after, c2.walked[x], path2[x + 1]) by {
            if x < c.walked.len() {
                assert(c2.walked[x] == c.walked[x]);
                assert(leads_on(j, nodes, c.walked[x], path[x + 1]));
                assert(nodes[c.walked[x]] == after[c.walked[x]]);
                assert(path2[x + 1] == path[x + 1]);
            } else {
                assert(c2.walked[x] == c.rest[0]);
                assert(path2[x + 1] == c2.rest[0]);
            }
        }
        assert(path2[0] == path[0]);
        let more = seq![c.rest[0]];
        assert(c2.walked =~= c.walked + more);
        if stays {
            assert(c2.done =~= c.done + more);
        }
        lemma_same_nodes(j, nodes, after, c, c2, more, stays);
    }
    reveal(cut_slots);
    assert forall|x: int| 0 <= x < c2.rest.len() implies own_slot(j, #[trigger] c2.rest[x]) && end_known(
        j,
        out2,
        c2.rest[x],
        bound_of(after[c2.rest[x]]),
    ) by {
        let ends = bounds(after, c2.rest);
        assert(ends[x] == bound_of(after[c2.rest[x]]));
        if r is Some && x == 1 {
            assert(c2.rest[1] == nodes.len());
        } else {
            let k = if r is None || x == 0 {
                x + 1
            } else {
                x
            };
            assert(c2.rest[x] == c.rest[k]);
            assert(end_known(j, out, c.rest[k], bound_of(nodes[c.rest[k]])));
            if r is Some && x == 0 {
                let s = r->0;
                assert(ends[0] == Some(s.1));
                assert(out2.split[out.split.len() as int] == s);
            } else {
                assert(ends[x] == bounds(nodes, c.rest)[k]);
                if exists|s: int|
                    0 <= s < out.split.len() && ends[x] == Some((#[trigger] out.split[s]).1) {
                    let s = choose|s: int|
                        0 <= s < out.split.len() && ends[x] == Some((#[trigger] out.split[s]).1);
                    assert(out2.split[s] == out.split[s]);
                }
            }
        }
    }
    assert forall|x: int| 0 <= x < c2.done.len() implies {
        &&& 0 <= #[trigger] c2.done[x] < after.len()
        &&& after[c2.done[x]] is Internal
        &&& own_slot(j, c2.done[x])
        &&& !c2.rest.contains(c2.done[x])
    } by {
        if x < c.done.len() {
            assert(c2.done[x] == c.done[x]);
            assert(nodes[c.done[x]] == after[c.done[x]]);
        }
    }
}

/// What the row above is told after a step.
proof fn lemma_step_notes(
    j: Job,
    nodes: Seq<NodeData>,
    after: Seq<NodeData>,
    out: RemovalView,
    out2: RemovalView,
    c: Cut,
    c2: Cut,
    t: int,
    poses: Set<usize>,
    goes: bool,
)
    requires
        job_ok(j),
        cut_ok(j, nodes, out, c, t, poses),
        t < j.keys.len() ==> !below(j.keys[t], bound_of(nodes[c.rest[0]])),
        after.len() >= nodes.len(),
        step_frame(nodes, after, c.rest, c.held, j.shortcuts),
        out.split.len() <= out2.split.len(),
        forall|s: int| 0 <= s < out.split.len() ==> #[trigger] out2.split[s] == out.split[s],
        !goes ==> out2.empty_pages == out.empty_pages && c2.emptied == c.emptied && c2.last == c.last
            && c2.ends == c.ends,
        goes ==> !poses.is_empty() && t > 0 && out2.empty_pages == out.empty_pages.push(j.keys[t - 1])
            && c2.emptied == c.emptied.push(c.rest[0]) && c2.last == c.last.push(t - 1) && c2.ends
            == c.ends.push(bound_of(nodes[c.rest[0]])) && after[c.rest[0]] is Empty,
    ensures
        cut_notes(j, after, out2, c2, t, Set::<usize>::empty()),
{
    lemma_cut_frames(j, nodes, after, out, c, t, poses);
    lemma_cut_look(j, nodes, out, c, t, poses);
    reveal(cut_notes);
    assert(Set::<usize>::empty().is_empty());
    assert(own_slot(j, c.rest[0]) && end_known(j, out, c.rest[0], bound_of(nodes[c.rest[0]]))) by {
        reveal(cut_slots);
    }
    if goes {
        assert(below(j.keys[t - 1], bound_of(nodes[c.rest[0]]))) by {
            lemma_last_below(j, nodes, out, c, t, poses);
        }
    }
    assert forall|x: int| 0 <= x < c2.last.len() implies {
        &&& 0 <= #[trigger] c2.last[x] < j.keys.len()
        &&& out2.empty_pages[x] == j.keys[c2.last[x]]
        &&& below(j.keys[c2.last[x]], c2.ends[x])
        &&& c2.last[x] + 1 < j.keys.len() ==> !below(j.keys[c2.last[x] + 1], c2.ends[x])
        &&& end_known(j, out2, c2.emptied[x], c2.ends[x])
    } by {
        if x < c.last.len() {
            assert(c2.last[x] == c.last[x]);
            lemma_end_known_more(j, out, out2, c.emptied[x], c.ends[x]);
        } else {
            lemma_end_known_more(j, out, out2, c.rest[0], bound_of(nodes[c.rest[0]]));
        }
    }
    assert forall|x: int, y: int| 0 <= x < y < c2.last.len() implies #[trigger] c2.last[x]
        < #[trigger] c2.last[y] by {
        if y < c.last.len() {
            assert(c.last[x] < c.last[y]);
        } else {
            assert(c2.last[x] == c.last[x]);
        }
    }
    assert forall|x: int| 0 <= x < c2.emptied.len() implies {
        &&& 0 <= #[trigger] c2.emptied[x] < after.len()
        &&& after[c2.emptied[x]] is Empty
        &&& own_slot(j, c2.emptied[x])
    } by {
        if x < c.emptied.len() {
            assert(c2.emptied[x] == c.emptied[x]);
        }
    }
    assert forall|x: int| 0 <= x < c2.last.len() implies #[trigger] c2.last[x] < t by {
        if x < c.last.len() {
            assert(c2.last[x] == c.last[x]);
        }
    }
}

pub proof fn lemma_end_known_more(
    j: Job,
    out: RemovalView,
    out2: RemovalView,
    x: int,
    end: Option<Seq<u8>>,
)
    requires
        end_known(j, out, x, end),
        out.split.len() <= out2.split.len(),
        forall|s: int| 0 <= s < out.split.len() ==> #[trigger] out2.split[s] == out.split[s],
    ensures
        end_known(j, out2, x, end),
{
    if exists|s: int| 0 <= s < out.split.len() && end == Some((#[trigger] out.split[s]).1) {
        let s = choose|s: int| 0 <= s < out.split.len() && end == Some((#[trigger] out.split[s]).1);
        assert(out2.split[s] == out.split[s]);
    }
}

/// The last key that was marked lies under the node at hand.
proof fn lemma_last_below(
    j: Job,
    nodes: Seq<NodeData>,
    out: RemovalView,
    c: Cut,
    t: int,
    poses: Set<usize>,
)
    requires
        job_ok(j),
        cut_ok(j, nodes, out, c, t, poses),
        t > 0,
    ensures
        below(j.keys[t - 1], bound_of(nodes[c.rest[0]])),
{
    broadcast use group_key_order;

    lemma_cut_look(j, nodes, out, c, t, poses);
    lemma_first_node(nodes, j.page_size, c.rest, c.held, j.b.skip(c.a));
    let m = ptrs_of(nodes[c.rest[0]]).len() as int;
    assert(place(j.b, j.keys[t - 1]) < c.a + m) by {
        reveal(cut_marks);
    }
    super::prune_any::lemma_place(j.b, j.keys[t - 1]);
    let p = place(j.b, j.keys[t - 1]);
    assert(c.held.len() == j.kids.len() - c.a) by {
        reveal(cut_held);
    }
    assert(j.b.skip(c.a)[m - 1] == j.b[c.a + m - 1]);
    if p < c.a + m - 1 {
        assert(super::node::bound_lt(j.b[p], j.b[c.a + m - 1]));
    }
}

/// The marks after a step.
proof fn lemma_step_marks(
    j: Job,
    nodes: Seq<NodeData>,
    out: RemovalView,
    c: Cut,
    c2: Cut,
    t: int,
    poses: Set<usize>,
    m2: int,
)
    requires
        job_ok(j),
        nodes.len() <= usize::MAX,
        cut_ok(j, nodes, out, c, t, poses),
        t < j.keys.len() ==> !below(j.keys[t], bound_of(nodes[c.rest[0]])),
        c2.a + one(c2.lead) == c.a + ptrs_of(nodes[c.rest[0]]).len(),
        m2 >= 1,
    ensures
        cut_marks(j, m2, c2, t, Set::<usize>::empty()),
{
    lemma_cut_look(j, nodes, out, c, t, poses);
    lemma_cut_left(j, nodes, out, c, t, poses);
    reveal(cut_marks);
}

/// The node at hand loses the marked children, and the next one's turn comes.
#[verifier::spinoff_prover]
pub proof fn lemma_cut_apply(
    j: Job,
    nodes: Seq<NodeData>,
    after: Seq<NodeData>,
    out: RemovalView,
    out2: RemovalView,
    c: Cut,
    t: int,
    poses: Set<usize>,
    prev: Option<Seq<u8>>,
) -> (c2: Cut)
    requires
        job_ok(j),
        nodes.len() <= usize::MAX,
        cut_ok(j, nodes, out, c, t, poses),
        t < j.keys.len() ==> !below(j.keys[t], bound_of(nodes[c.rest[0]])),
        c.rest.len() > 1,
        t > 0 ==> prev == Some(j.keys[t - 1]),
        removal_applied(
            nodes,
            after,
            j.page_size,
            c.rest[0],
            poses,
            out,
            out2,
            prev,
            j.shortcuts,
        ),
    ensures
        cut_ok(j, after, out2, c2, t, Set::<usize>::empty()),
        after.len() >= nodes.len(),
        c2.rest[0] == c.rest[1],
        c2.walked == c.walked.push(c.rest[0]),
        without(ptrs_of(nodes[c.rest[0]]), poses).len() == 0 ==> c2.rest == c.rest.drop_first(),
        after[c.rest[0]] is Empty ==> right_of(after[c.rest[0]]) == slot_ref(c2.rest[0]),
        !(after[c.rest[0]] is Empty) ==> row_ok(after, c.rest, false) && bounds(after, c.rest) == bounds(
            nodes,
            c.rest,
        ) && c2.rest == c.rest.drop_first(),
{
    lemma_cut_look(j, nodes, out, c, t, poses);
    lemma_cut_left(j, nodes, out, c, t, poses);
    let b = j.b.skip(c.a);
    lemma_first_sane(nodes, j.page_size, c.rest, c.held, b);
    lemma_first_node(nodes, j.page_size, c.rest, c.held, b);
    let m = ptrs_of(nodes[c.rest[0]]).len() as int;
    let left = without(ptrs_of(nodes[c.rest[0]]), poses);
    assert(link_at(nodes, c.rest, 0));
    if first_stays(poses, left) {
        lemma_any_stays(
            nodes,
            after,
            j.page_size,
            c.rest,
            c.held,
            b,
            poses,
            out,
            out2,
            prev,
            j.shortcuts,
        );
        let c2 = Cut {
            done: c.done.push(c.rest[0]),
            rest: c.rest.drop_first(),
            held: c.held.skip(m),
            a: c.a + m,
            lead: false,
            walked: c.walked.push(c.rest[0]),
            ..c
        };
        lemma_step_slots(j, nodes, after, out, out2, c, c2, t, poses, None, true);
        lemma_step_notes(j, nodes, after, out, out2, c, c2, t, poses, false);
        lemma_cut_frames(j, nodes, after, out, c, t, poses);
        lemma_row_ptrs_push(after, c.done, c.rest[0]);
        lemma_step_held(j, nodes, after, out, c, c2, t, poses);
        assert(b.skip(m) =~= j.b.skip(c2.a));
        lemma_first_node(after, j.page_size, c2.rest, c2.held, j.b.skip(c2.a));
        lemma_step_marks(
            j,
            nodes,
            out,
            c,
            c2,
            t,
            poses,
            ptrs_of(after[c2.rest[0]]).len() as int,
        );
        c2
    } else if left.len() == 0 {
        assert(t > 0) by {
            lemma_marks_need_keys(j, m, c, t, poses);
        }
        lemma_any_goes(
            nodes,
            after,
            j.page_size,
            c.rest,
            c.held,
            b,
            poses,
            out,
            out2,
            j.keys[t - 1],
            j.shortcuts,
        );
        let c2 = Cut {
            rest: c.rest.drop_first(),
            held: c.held.skip(m),
            a: c.a + m,
            lead: false,
            walked: c.walked.push(c.rest[0]),
            emptied: c.emptied.push(c.rest[0]),
            last: c.last.push(t - 1),
            ends: c.ends.push(bound_of(nodes[c.rest[0]])),
            ..c
        };
        lemma_step_slots(j, nodes, after, out, out2, c, c2, t, poses, None, false);
        lemma_step_notes(j, nodes, after, out, out2, c, c2, t, poses, true);
        lemma_cut_frames(j, nodes, after, out, c, t, poses);
        assert(row_ptrs(after, c2.done) + left =~= row_ptrs(after, c2.done));
        lemma_step_held(j, nodes, after, out, c, c2, t, poses);
        assert(b.skip(m) =~= j.b.skip(c2.a));
        lemma_first_node(after, j.page_size, c2.rest, c2.held, j.b.skip(c2.a));
        lemma_step_marks(
            j,
            nodes,
            out,
            c,
            c2,
            t,
            poses,
            ptrs_of(after[c2.rest[0]]).len() as int,
        );
        c2
    } else {
        assert(t > 0) by {
            lemma_marks_need_keys(j, m, c, t, poses);
        }
        let w = lemma_left_slot(j, nodes, out, c, t, poses);
        assert(left =~= seq![slot_ref(w)]);
        let r = lemma_any_moves(
            nodes,
            after,
            j.page_size,
            c.rest,
            c.held,
            b,
            poses,
            out,
            out2,
            j.keys[t - 1],
            j.shortcuts,
            w,
        );
        let c2 = Cut {
            rest: cut_row(c.rest.drop_first(), 0, nodes.len() as int, r),
            held: c.held.skip(m - 1).update(0, w),
            a: c.a + m - 1,
            lead: true,
            walked: c.walked.push(c.rest[0]),
            emptied: c.emptied.push(c.rest[0]),
            last: c.last.push(t - 1),
            ends: c.ends.push(bound_of(nodes[c.rest[0]])),
            ..c
        };
        lemma_step_slots(j, nodes, after, out, out2, c, c2, t, poses, r, false);
        lemma_step_notes(j, nodes, after, out, out2, c, c2, t, poses, true);
        lemma_cut_frames(j, nodes, after, out, c, t, poses);
        lemma_step_held_lead(j, nodes, after, out, c, c2, t, poses, w);
        assert(b.skip(m - 1) =~= j.b.skip(c2.a));
        lemma_first_node(after, j.page_size, c2.rest, c2.held, j.b.skip(c2.a));
        lemma_step_marks(
            j,
            nodes,
            out,
            c,
            c2,
            t,
            poses,
            ptrs_of(after[c2.rest[0]]).len() as int,
        );
        c2
    }
}

proof fn lemma_row_ptrs_push(nodes: Seq<NodeData>, row: Seq<int>, x: int)
    ensures
        row_ptrs(nodes, row.push(x)) == row_ptrs(nodes, row) + ptrs_of(nodes[x]),
{
    assert(row.push(x).drop_last() =~= row);
}

proof fn lemma_marks_need_keys(j: Job, m: int, c: Cut, t: int, poses: Set<usize>)
    requires
        cut_marks(j, m, c, t, poses),
        !poses.is_empty(),
    ensures
        t > 0,
{
    reveal(cut_marks);
    let x = choose|x: usize| poses.contains(x);
    assert(poses.contains(x));
}

/// The children that are held after a step that moved none.
proof fn lemma_step_held(
    j: Job,
    nodes: Seq<NodeData>,
    after: Seq<NodeData>,
    out: RemovalView,
    c: Cut,
    c2: Cut,
    t: int,
    poses: Set<usize>,
)
    requires
        job_ok(j),
        nodes.len() <= usize::MAX,
        cut_ok(j, nodes, out, c, t, poses),
        t < j.keys.len() ==> !below(j.keys[t], bound_of(nodes[c.rest[0]])),
        c2.rest.len() >= 1,
        c2.a == c.a + ptrs_of(nodes[c.rest[0]]).len(),
        c2.held == c.held.skip(ptrs_of(nodes[c.rest[0]]).len() as int),
        !c2.lead,
        row_over(
            after,
            j.page_size,
            c2.rest,
            c2.held,
            j.b.skip(c.a).skip(ptrs_of(nodes[c.rest[0]]).len() as int),
        ),
        row_ptrs(after, c2.done) == row_ptrs(nodes, c.done) + without(
            ptrs_of(nodes[c.rest[0]]),
            poses,
        ),
    ensures
        cut_held(j, after, c2),
{
    lemma_cut_look(j, nodes, out, c, t, poses);
    lemma_cut_left(j, nodes, out, c, t, poses);
    let m = ptrs_of(nodes[c.rest[0]]).len() as int;
    reveal(cut_held);
    assert(j.b.skip(c.a).skip(m) =~= j.b.skip(c2.a));
    lemma_first_node(after, j.page_size, c2.rest, c2.held, j.b.skip(c2.a));
    assert(row_ptrs(after, c2.done) + lead_ref(c2) =~= row_ptrs(after, c2.done));
    assert forall|x: int| 0 <= x < c2.held.len() implies j.kids.contains(#[trigger] c2.held[x])
        && c2.held[x] == j.kids[c2.a + x] by {
        assert(c2.held[x] == c.held[m + x]);
        assert(c.held[m + x] == j.kids[c.a + m + x]);
    }
}

/// The children that are held after a step that moved one.
proof fn lemma_step_held_lead(
    j: Job,
    nodes: Seq<NodeData>,
    after: Seq<NodeData>,
    out: RemovalView,
    c: Cut,
    c2: Cut,
    t: int,
    poses: Set<usize>,
    w: int,
)
    requires
        job_ok(j),
        nodes.len() <= usize::MAX,
        cut_ok(j, nodes, out, c, t, poses),
        t < j.keys.len() ==> !below(j.keys[t], bound_of(nodes[c.rest[0]])),
        c2.rest.len() >= 1,
        c2.a == c.a + ptrs_of(nodes[c.rest[0]]).len() - 1,
        c2.held == c.held.skip(ptrs_of(nodes[c.rest[0]]).len() - 1).update(0, w),
        c2.lead,
        j.kids.contains(w),
        row_over(
            after,
            j.page_size,
            c2.rest,
            c2.held,
            j.b.skip(c.a).skip(ptrs_of(nodes[c.rest[0]]).len() - 1),
        ),
        row_ptrs(after, c2.done) == row_ptrs(nodes, c.done),
        without(ptrs_of(nodes[c.rest[0]]), poses) == seq![slot_ref(w)],
    ensures
        cut_held(j, after, c2),
{
    lemma_cut_look(j, nodes, out, c, t, poses);
    lemma_cut_left(j, nodes, out, c, t, poses);
    let m = ptrs_of(nodes[c.rest[0]]).len() as int;
    reveal(cut_held);
    assert(j.b.skip(c.a).skip(m - 1) =~= j.b.skip(c2.a));
    lemma_first_node(after, j.page_size, c2.rest, c2.held, j.b.skip(c2.a));
    assert(lead_ref(c2) == seq![slot_ref(w)]);
    assert forall|x: int| 0 <= x < c2.held.len() implies j.kids.contains(#[trigger] c2.held[x]) && (x
        > 0 ==> c2.held[x] == j.kids[c2.a + x]) by {
        if x > 0 {
            assert(c2.held[x] == c.held[m - 1 + x]);
            assert(c.held[m - 1 + x] == j.kids[c.a + m - 1 + x]);
        }
    }
}

/// The child that is left.
proof fn lemma_left_slot(
    j: Job,
    nodes: Seq<NodeData>,
    out: RemovalView,
    c: Cut,
    t: int,
    poses: Set<usize>,
) -> (w: int)
    requires
        job_ok(j),
        cut_ok(j, nodes, out, c, t, poses),
        without(ptrs_of(nodes[c.rest[0]]), poses).len() == 1,
    ensures
        without(ptrs_of(nodes[c.rest[0]]), poses)[0] == slot_ref(w),
        j.kids.contains(w),
{
    lemma_cut_look(j, nodes, out, c, t, poses);
    lemma_first_sane(nodes, j.page_size, c.rest, c.held, j.b.skip(c.a));
    let ptrs = ptrs_of(nodes[c.rest[0]]);
    let left = without(ptrs, poses);
    assert(left.contains(left[0]));
    super::prune_any::lemma_without_from(ptrs, poses, left[0]);
    let i = choose|i: int| 0 <= i < ptrs.len() && ptrs[i] == left[0];
    assert(ptrs[i] == refs(c.held).take(ptrs.len() as int)[i]);
    assert(j.kids.contains(c.held[i])) by {
        reveal(cut_held);
    }
    c.held[i]
}

/// The work goes on at the node at `k` of those that are left.
#[verifier::spinoff_prover]
pub proof fn lemma_cut_advance(
    j: Job,
    nodes: Seq<NodeData>,
    out: RemovalView,
    c: Cut,
    t: int,
    k: int,
) -> (c2: Cut)
    requires
        job_ok(j),
        cut_ok(j, nodes, out, c, t, Set::<usize>::empty()),
        t < j.keys.len(),
        covers(bounds(nodes, c.rest), k, j.keys[t]),
    ensures
        cut_ok(j, nodes, out, c2, t, Set::<usize>::empty()),
        c2.rest[0] == c.rest[k],
        k == 0 ==> c2 == c,
{
    let none = Set::<usize>::empty();
    lemma_cut_look(j, nodes, out, c, t, none);
    if k == 0 {
        c
    } else {
        let b = j.b.skip(c.a);
        let x = kids_before(nodes, c.rest, k);
        lemma_row_over_skip(nodes, j.page_size, c.rest, c.held, b, k);
        let c2 = Cut {
            done: c.done + c.rest.take(k),
            rest: c.rest.skip(k),
            held: c.held.skip(x),
            a: c.a + x,
            lead: false,
            walked: c.walked + c.rest.take(k),
            ..c
        };
        assert(c2.rest[0] == c.rest[k]);
        assert(bounds(nodes, c.rest)[k - 1] == bound_of(nodes[c.rest[k - 1]]));
        assert(b[x - 1] == j.b[c.a + x - 1]);
        assert(c.held.len() == j.kids.len() - c.a) by {
            reveal(cut_held);
        }
        assert(!below(j.keys[t], j.b[c.a + x - 1])) by {
            broadcast use group_key_order;

        }
        lemma_place_right(j.b, c.a + x, j.keys[t]);
        lemma_first_node(nodes, j.page_size, c2.rest, c2.held, b.skip(x));
        let n = nodes[c.rest[0]]->Internal_0;
        assert(n.ptrs.len() == n.ptrs@.len());
        lemma_past_before(j, ptrs_of(nodes[c.rest[0]]).len() as int, c, t);
        lemma_advance_held(j, nodes, out, c, c2, t, k, x);
        assert(cut_marks(j, ptrs_of(nodes[c2.rest[0]]).len() as int, c2, t, none)) by {
            reveal(cut_marks);
        }
        lemma_advance_slots(j, nodes, out, c, c2, t, k);
        assert(cut_notes(j, nodes, out, c2, t, none)) by {
            reveal(cut_notes);
        }
        c2
    }
}

/// Without marks, the keys so far lie left of what is left.
proof fn lemma_past_before(j: Job, m: int, c: Cut, t: int)
    requires
        job_ok(j),
        cut_marks(j, m, c, t, Set::<usize>::empty()),
        0 <= c.a,
        m <= usize::MAX,
        j.kids.len() == j.b.len(),
    ensures
        t > 0 ==> place(j.b, j.keys[t - 1]) < c.a + one(c.lead),
{
    reveal(cut_marks);
    if t > 0 {
        let p = place(j.b, j.keys[t - 1]);
        super::prune_any::lemma_place(j.b, j.keys[t - 1]);
        if p >= c.a + one(c.lead) {
            let x = (p - c.a) as usize;
            assert(places(j.b, j.keys).contains(c.a + x));
            assert(Set::<usize>::empty().contains(x));
        }
    }
}

proof fn lemma_advance_held(
    j: Job,
    nodes: Seq<NodeData>,
    out: RemovalView,
    c: Cut,
    c2: Cut,
    t: int,
    k: int,
    x: int,
)
    requires
        job_ok(j),
        cut_held(j, nodes, c),
        0 <= t < j.keys.len(),
        0 < k < c.rest.len(),
        0 < x < c.held.len(),
        c.held.len() == j.kids.len() - c.a,
        row_over(nodes, j.page_size, c2.rest, c2.held, j.b.skip(c.a).skip(x)),
        row_ptrs(nodes, c.rest.take(k)) == refs(c.held.take(x)),
        c2.done == c.done + c.rest.take(k),
        c2.rest == c.rest.skip(k),
        c2.held == c.held.skip(x),
        c2.a == c.a + x,
        !c2.lead,
        place(j.b, j.keys[t]) >= c.a + x,
        t > 0 ==> place(j.b, j.keys[t - 1]) < c.a + one(c.lead),
    ensures
        cut_held(j, nodes, c2),
{
    reveal(cut_held);
    let gone = places(j.b, j.keys);
    let all = refs(j.kids);
    assert(j.b.skip(c.a).skip(x) =~= j.b.skip(c2.a));
    lemma_row_ptrs_join(nodes, c.done, c.rest.take(k));
    let lo = c.a + one(c.lead);
    assert forall|z: int| lo <= z < c.a + x implies !gone.contains(z) by {
        if gone.contains(z) {
            let q = choose|q: int| 0 <= q < j.keys.len() && z == place(j.b, #[trigger] j.keys[q]);
            if q < t {
                lemma_places_ascend(j, q, t - 1);
            } else {
                lemma_places_ascend(j, t, q);
            }
        }
    }
    lemma_kept_all(all, gone, lo, c.a + x);
    lemma_kept_join(all, gone, 0, lo, c.a + x);
    assert(refs(c.held.take(x)) =~= lead_ref(c) + all.subrange(lo, c.a + x)) by {
        assert forall|z: int| 0 <= z < x implies refs(c.held.take(x))[z] == (lead_ref(c) + all.subrange(
            lo,
            c.a + x,
        ))[z] by {
            if z > 0 || !c.lead {
                assert(c.held[z] == j.kids[c.a + z]);
            }
        }
    }
    assert(row_ptrs(nodes, c.done) + (lead_ref(c) + all.subrange(lo, c.a + x)) =~= (row_ptrs(
        nodes,
        c.done,
    ) + lead_ref(c)) + all.subrange(lo, c.a + x));
    assert(row_ptrs(nodes, c2.done) + lead_ref(c2) =~= row_ptrs(nodes, c2.done));
    assert forall|z: int| 0 <= z < c2.held.len() implies j.kids.contains(#[trigger] c2.held[z])
        && c2.held[z] == j.kids[c2.a + z] by {
        assert(c2.held[z] == c.held[x + z]);
        assert(c.held[x + z] == j.kids[c.a + x + z]);
    }
}

#[verifier::spinoff_prover]
#[verifier::rlimit(40)]
proof fn lemma_advance_slots(
    j: Job,
    nodes: Seq<NodeData>,
    out: RemovalView,
    c: Cut,
    c2: Cut,
    t: int,
    k: int,
)
    requires
        job_ok(j),
        cut_ok(j, nodes, out, c, t, Set::<usize>::empty()),
        0 < k < c.rest.len(),
        c2.done == c.done + c.rest.take(k),
        c2.rest == c.rest.skip(k),
        c2.walked == c.walked + c.rest.take(k),
    ensures
        cut_slots(j, nodes, out, c2),
        cut_walk(j, nodes, c2),
{
    lemma_cut_look(j, nodes, out, c, t, Set::<usize>::empty());
    assert(row_ok(nodes, c.rest, false)) by {
        reveal(cut_held);
    }
    assert forall|y: int| !c.rest.contains(y) implies !c2.rest.contains(y) by {
        if c2.rest.contains(y) {
            let x = choose|x: int| 0 <= x < c2.rest.len() && c2.rest[x] == y;
            assert(c.rest[k + x] == y);
        }
    }
    assert forall|x: int| 0 <= x < k implies !c2.rest.contains(#[trigger] c.rest[x]) by {
        if c2.rest.contains(c.rest[x]) {
            let y = choose|y: int| 0 <= y < c2.rest.len() && c2.rest[y] == c.rest[x];
            assert(c.rest[k + y] == c.rest[x]);
        }
    }
    assert(cut_walk(j, nodes, c2)) by {
        reveal(cut_walk);
        let path = c.walked.push(c.rest[0]);
        let path2 = c2.walked.push(c2.rest[0]);
        let w = c.walked.len() as int;
        assert forall|x: int| 0 <= x < c2.walked.len() implies !c2.rest.contains(
            #[trigger] c2.walked[x],
        ) && leads_on(j, nodes, c2.walked[x], path2[x + 1]) by {
            if x < w {
                assert(c2.walked[x] == c.walked[x]);
                assert(leads_on(j, nodes, c.walked[x], path[x + 1]));
                assert(path2[x + 1] == path[x + 1]);
            } else {
                let y = x - w;
                assert(c2.walked[x] == c.rest[y]);
                assert(link_at(nodes, c.rest, y));
                assert(path2[x + 1] == c.rest[y + 1]);
                assert(own_slot(j, c.rest[y])) by {
                    reveal(cut_slots);
                }
                assert(0 <= c.rest[y] < nodes.len());
                lemma_nth_sane(nodes, j.page_size, c.rest, c.held, j.b.skip(c.a), y);
            }
        }
        assert(path2[0] == path[0]);
        assert(same_nodes(j, nodes, c2)) by {
            lemma_same_nodes(j, nodes, nodes, c, c2, c.rest.take(k), true);
        }
    }
    reveal(cut_slots);
    assert forall|x: int| 0 <= x < c2.rest.len() implies own_slot(j, #[trigger] c2.rest[x]) && end_known(
        j,
        out,
        c2.rest[x],
        bound_of(nodes[c2.rest[x]]),
    ) by {
        assert(c2.rest[x] == c.rest[k + x]);
    }
    assert forall|x: int| 0 <= x < c2.done.len() implies {
        &&& 0 <= #[trigger] c2.done[x] < nodes.len()
        &&& nodes[c2.done[x]] is Internal
        &&& own_slot(j, c2.done[x])
        &&& !c2.rest.contains(c2.done[x])
    } by {
        if x < c.done.len() {
            assert(c2.done[x] == c.done[x]);
        } else {
            let y = x - c.done.len();
            assert(c2.done[x] == c.rest[y]);
            assert(own_slot(j, c.rest[y]));
            assert(nodes[c.rest[y]] is Internal);
            assert(0 <= c.rest[y] < nodes.len());
        }
    }
}

proof fn lemma_nth_sane(
    nodes: Seq<NodeData>,
    page_size: int,
    row: Seq<int>,
    kids: Seq<int>,
    b: Seq<Option<Seq<u8>>>,
    i: int,
)
    requires
        row_over(nodes, page_size, row, kids, b),
        bounds_ok(b),
        0 <= i < row.len(),
    ensures
        node_sane(nodes[row[i]]),
{
    lemma_row_over_skip(nodes, page_size, row, kids, b, i);
    let x = kids_before(nodes, row, i);
    lemma_bounds_skip(b, x);
    lemma_first_sane(nodes, page_size, row.skip(i), kids.skip(x), b.skip(x));
    assert(row.skip(i)[0] == row[i]);
}

/// What `apply_removal` asks of the node at hand.
pub proof fn lemma_cut_ready(
    j: Job,
    nodes: Seq<NodeData>,
    out: RemovalView,
    c: Cut,
    t: int,
    poses: Set<usize>,
)
    requires
        job_ok(j),
        nodes.len() <= usize::MAX,
        cut_ok(j, nodes, out, c, t, poses),
    ensures
        ({
            let n = nodes[c.rest[0]];
            &&& 0 <= c.rest[0] < nodes.len()
            &&& n is Internal
            &&& ptrs_of(n).len() == keys_of(n).len() + 1
            &&& forall|i: int|
                0 <= i < ptrs_of(n).len() ==> (#[trigger] ptrs_of(n)[i] matches NodeCellRef::Slot(s)
                    ==> s < nodes.len())
            &&& c.rest.len() > 1 ==> right_node_ok(nodes, c.rest[0]) && right_of(n) == slot_ref(
                c.rest[1],
            )
            &&& c.rest.len() == 1 ==> right_of(n) is Nil
            &&& c.rest.len() >= 1
        }),
{
    lemma_cut_look(j, nodes, out, c, t, poses);
    let b = j.b.skip(c.a);
    lemma_first_sane(nodes, j.page_size, c.rest, c.held, b);
    let n = nodes[c.rest[0]];
    let m = ptrs_of(n).len() as int;
    assert forall|i: int| 0 <= i < m implies (#[trigger] ptrs_of(n)[i] matches NodeCellRef::Slot(s)
        ==> s < nodes.len()) by {
        assert(ptrs_of(n)[i] == refs(c.held).take(m)[i]);
        assert(0 <= c.held[i] < nodes.len());
    }
    assert(link_at(nodes, c.rest, 0));
    if c.rest.len() > 1 {
        lemma_second_node(nodes, j.page_size, c.rest, c.held, b);
        assert(past_empty(nodes, slot_ref(c.rest[1]), nodes.len()) == slot_ref(c.rest[1]));
    }
}

/// The row as it is when the work is done: the nodes `done` hold the children that are left, and the
/// nodes `walked` are all from the first one on, emptied ones included.
pub open spec fn finished(j: Job, nodes: Seq<NodeData>, out: RemovalView, c: Cut) -> bool {
    &&& row_ptrs(nodes, c.done) == refs(
        kept(j.kids, places(j.b, j.keys), 0, j.kids.len() as int),
    )
    &&& forall|x: int|
        0 <= x < c.done.len() ==> {
            &&& 0 <= #[trigger] c.done[x] < nodes.len()
            &&& nodes[c.done[x]] is Internal
            &&& own_slot(j, c.done[x])
        }
    &&& walkable(j, nodes, c.walked)
    &&& c.walked[0] == j.row[j.start]
    &&& same_nodes(j, nodes, c)
    &&& nodes.len() == j.before.len() + out.split.len()
    &&& agree_outside(j.before, nodes, j.row, j.kids, j.shortcuts)
    &&& noted(j, nodes, out, c)
}

/// The nodes lead to each other from left to right, and the last one to none.
pub open spec fn walkable(j: Job, nodes: Seq<NodeData>, walk: Seq<int>) -> bool {
    &&& walk.len() >= 1
    &&& forall|x: int|
        0 <= x < walk.len() ==> {
            &&& 0 <= #[trigger] walk[x] < nodes.len()
            &&& own_slot(j, walk[x])
            &&& link_at(nodes, walk, x)
            &&& nodes[walk[x]] is Empty || node_sane(nodes[walk[x]])
        }
}

/// All keys are worked off.
#[verifier::spinoff_prover]
pub proof fn lemma_cut_finish(j: Job, nodes: Seq<NodeData>, out: RemovalView, c: Cut) -> (c2: Cut)
    requires
        job_ok(j),
        cut_ok(j, nodes, out, c, j.keys.len() as int, Set::<usize>::empty()),
    ensures
        finished(j, nodes, out, c2),
{
    let none = Set::<usize>::empty();
    let t = j.keys.len() as int;
    lemma_cut_look(j, nodes, out, c, t, none);
    let c2 = Cut { done: c.done + c.rest, walked: c.walked + c.rest, ..c };
    let gone = places(j.b, j.keys);
    let all = refs(j.kids);
    let lo = c.a + one(c.lead);
    let n = j.kids.len() as int;
    let first = nodes[c.rest[0]]->Internal_0;
    assert(first.ptrs.len() == first.ptrs@.len());
    lemma_past_before(j, ptrs_of(nodes[c.rest[0]]).len() as int, c, t);
    lemma_over_ptrs(nodes, c.rest, c.held, j.b.skip(c.a));
    lemma_row_ptrs_join(nodes, c.done, c.rest);
    assert(c.held.len() == n - c.a && lo <= n) by {
        reveal(cut_held);
    }
    assert forall|z: int| lo <= z < n implies !gone.contains(z) by {
        if gone.contains(z) {
            let q = choose|q: int| 0 <= q < j.keys.len() && z == place(j.b, #[trigger] j.keys[q]);
            lemma_places_ascend(j, q, t - 1);
        }
    }
    lemma_kept_all(all, gone, lo, n);
    lemma_kept_join(all, gone, 0, lo, n);
    lemma_kept_refs(j.kids, gone, 0, n);
    assert(row_ptrs(nodes, c2.done) == kept(all, gone, 0, n)) by {
        reveal(cut_held);
        assert(refs(c.held) =~= lead_ref(c) + all.subrange(lo, n)) by {
            assert forall|z: int| 0 <= z < c.held.len() implies refs(c.held)[z] == (lead_ref(c)
                + all.subrange(lo, n))[z] by {
                if z > 0 || !c.lead {
                    assert(c.held[z] == j.kids[c.a + z]);
                }
            }
        }
        assert(row_ptrs(nodes, c.done) + (lead_ref(c) + all.subrange(lo, n)) =~= (row_ptrs(
            nodes,
            c.done,
        ) + lead_ref(c)) + all.subrange(lo, n));
    }
    assert(row_ok(nodes, c.rest, false));
    assert forall|x: int| 0 <= x < c2.done.len() implies {
        &&& 0 <= #[trigger] c2.done[x] < nodes.len()
        &&& nodes[c2.done[x]] is Internal
        &&& own_slot(j, c2.done[x])
    } by {
        reveal(cut_slots);
        if x < c.done.len() {
            assert(c2.done[x] == c.done[x]);
        } else {
            let y = x - c.done.len();
            assert(c2.done[x] == c.rest[y]);
            assert(own_slot(j, c.rest[y]));
            assert(nodes[c.rest[y]] is Internal);
            assert(0 <= c.rest[y] < nodes.len());
        }
    }
    let w = c.walked.len() as int;
    let path = c.walked.push(c.rest[0]);
    assert(walkable(j, nodes, c2.walked) && c2.walked[0] == j.row[j.start] && same_nodes(j, nodes, c2)) by {
        reveal(cut_walk);
        lemma_same_nodes(j, nodes, nodes, c, c2, c.rest, true);
        assert(c2.walked[0] == path[0]);
        assert forall|x: int| 0 <= x < c2.walked.len() implies {
            &&& 0 <= #[trigger] c2.walked[x] < nodes.len()
            &&& own_slot(j, c2.walked[x])
            &&& link_at(nodes, c2.walked, x)
            &&& nodes[c2.walked[x]] is Empty || node_sane(nodes[c2.walked[x]])
        } by {
            if x < w {
                assert(c2.walked[x] == c.walked[x]);
                assert(leads_on(j, nodes, c.walked[x], path[x + 1]));
                assert(c2.walked[x + 1] == path[x + 1]);
            } else {
                let y = x - w;
                assert(c2.walked[x] == c.rest[y]);
                assert(link_at(nodes, c.rest, y));
                if y + 1 < c.rest.len() {
                    assert(c2.walked[x + 1] == c.rest[y + 1]);
                }
                assert(0 <= c.rest[y] < nodes.len());
                assert(own_slot(j, c.rest[y])) by {
                    reveal(cut_slots);
                }
                lemma_nth_sane(nodes, j.page_size, c.rest, c.held, j.b.skip(c.a), y);
            }
        }
    }
    assert(nodes.len() == j.before.len() + out.split.len() && agree_outside(
        j.before,
        nodes,
        j.row,
        j.kids,
        j.shortcuts,
    )) by {
        reveal(cut_slots);
    }
    assert(noted(j, nodes, out, c2)) by {
        reveal(cut_notes);
    }
    c2
}

/// All keys are worked off, and the node at hand is the last one of the row.
#[verifier::spinoff_prover]
pub proof fn lemma_cut_last(
    j: Job,
    nodes: Seq<NodeData>,
    after: Seq<NodeData>,
    out: RemovalView,
    out2: RemovalView,
    c: Cut,
    poses: Set<usize>,
    goes: bool,
) -> (c2: Cut)
    requires
        job_ok(j),
        nodes.len() <= usize::MAX,
        cut_ok(j, nodes, out, c, j.keys.len() as int, poses),
        !poses.is_empty(),
        c.rest.len() == 1,
        after.len() == nodes.len(),
        step_frame(nodes, after, c.rest, c.held, j.shortcuts),
        right_of(after[c.rest[0]]) == right_of(nodes[c.rest[0]]),
        goes ==> after[c.rest[0]] is Empty && without(ptrs_of(nodes[c.rest[0]]), poses).len() == 0
            && out2 == (RemovalView {
            empty_pages: out.empty_pages.push(j.keys.last()),
            ..out
        }),
        !goes ==> node_sane(after[c.rest[0]]) && ptrs_of(after[c.rest[0]]) == without(
            ptrs_of(nodes[c.rest[0]]),
            poses,
        ) && out2 == out,
    ensures
        finished(j, after, out2, c2),
{
    let t = j.keys.len() as int;
    lemma_cut_look(j, nodes, out, c, t, poses);
    lemma_cut_left(j, nodes, out, c, t, poses);
    lemma_cut_ready(j, nodes, out, c, t, poses);
    lemma_cut_frames(j, nodes, after, out, c, t, poses);
    lemma_first_node(nodes, j.page_size, c.rest, c.held, j.b.skip(c.a));
    let m = ptrs_of(nodes[c.rest[0]]).len() as int;
    let c2 = if goes {
        Cut {
            walked: c.walked.push(c.rest[0]),
            emptied: c.emptied.push(c.rest[0]),
            last: c.last.push(t - 1),
            ends: c.ends.push(bound_of(nodes[c.rest[0]])),
            ..c
        }
    } else {
        Cut { done: c.done.push(c.rest[0]), walked: c.walked.push(c.rest[0]), ..c }
    };
    lemma_step_notes(j, nodes, after, out, out2, c, c2, t, poses, goes);
    let gone = places(j.b, j.keys);
    lemma_kept_refs(j.kids, gone, 0, j.kids.len() as int);
    if goes {
        assert(row_ptrs(after, c2.done) + without(ptrs_of(nodes[c.rest[0]]), poses) =~= row_ptrs(
            after,
            c2.done,
        ));
    } else {
        lemma_row_ptrs_push(after, c.done, c.rest[0]);
    }
    assert(own_slot(j, c.rest[0])) by {
        reveal(cut_slots);
    }
    assert forall|x: int| 0 <= x < c2.done.len() implies {
        &&& 0 <= #[trigger] c2.done[x] < after.len()
        &&& after[c2.done[x]] is Internal
        &&& own_slot(j, c2.done[x])
    } by {
        if x < c.done.len() {
            assert(c2.done[x] == c.done[x]);
            assert(nodes[c.done[x]] == after[c.done[x]]);
            reveal(cut_slots);
        }
    }
    assert(walkable(j, after, c2.walked) && c2.walked[0] == j.row[j.start] && same_nodes(j, after, c2)) by {
        reveal(cut_walk);
        let more = seq![c.rest[0]];
        assert(c2.walked =~= c.walked + more);
        if !goes {
            assert(c2.done =~= c.done + more);
        }
        lemma_same_nodes(j, nodes, after, c, c2, more, !goes);
        assert forall|x: int| 0 <= x < c2.walked.len() implies {
            &&& 0 <= #[trigger] c2.walked[x] < after.len()
            &&& own_slot(j, c2.walked[x])
            &&& link_at(after, c2.walked, x)
            &&& after[c2.walked[x]] is Empty || node_sane(after[c2.walked[x]])
        } by {
            if x < c.walked.len() {
                assert(c2.walked[x] == c.walked[x]);
                assert(leads_on(j, nodes, c.walked[x], c2.walked[x + 1]));
                assert(nodes[c.walked[x]] == after[c.walked[x]]);
            }
        }
    }
    assert(after.len() == j.before.len() + out2.split.len()) by {
        reveal(cut_slots);
    }
    assert(noted(j, after, out2, c2)) by {
        reveal(cut_notes);
    }
    c2
}

/// Where the node stands that a key beyond the node at hand leads to.
pub proof fn lemma_cut_target(
    j: Job,
    after: Seq<NodeData>,
    c: Cut,
    c2: Cut,
    row: Seq<int>,
    next: int,
    key: Seq<u8>,
) -> (k: int)
    requires
        c.rest.len() > 1,
        after[c.rest[0]] is Empty ==> row == c2.rest,
        !(after[c.rest[0]] is Empty) ==> row == c.rest && c2.rest == c.rest.drop_first() && !below(
            key,
            bound_of(after[c.rest[0]]),
        ),
        exists|x: int| #[trigger] covers(bounds(after, row), x, key) && next == row[x],
    ensures
        covers(bounds(after, c2.rest), k, key),
        next == c2.rest[k],
{
    let x = choose|x: int| #[trigger] covers(bounds(after, row), x, key) && next == row[x];
    if after[c.rest[0]] is Empty {
        x
    } else {
        assert(bounds(after, row)[0] == bound_of(after[c.rest[0]]));
        let k = x - 1;
        assert(c2.rest[k] == row[x]);
        if k > 0 {
            assert(bounds(after, c2.rest)[k - 1] == bounds(after, row)[x - 1]);
        }
        assert(bounds(after, c2.rest)[k] == bounds(after, row)[x]);
        k
    }
}

/// The node at hand leads to the nodes further right.
pub proof fn lemma_cut_reach(
    j: Job,
    after: Seq<NodeData>,
    out: RemovalView,
    c: Cut,
    c2: Cut,
    t: int,
    row: Seq<int>,
)
    requires
        job_ok(j),
        after.len() <= usize::MAX,
        0 <= c.rest[0] < after.len(),
        cut_ok(j, after, out, c2, t, Set::<usize>::empty()),
        after[c.rest[0]] is Empty ==> right_of(after[c.rest[0]]) == slot_ref(c2.rest[0]) && row
            == c2.rest,
        !(after[c.rest[0]] is Empty) ==> row == c.rest && row_ok(after, c.rest, false),
    ensures
        row_ok(after, row, false),
        live_slot(
            after,
            slot_ref(c.rest[0]),
            if after[c.rest[0]] is Empty {
                1nat
            } else {
                0nat
            },
        ) == Some(row[0]),
{
    lemma_cut_look(j, after, out, c2, t, Set::<usize>::empty());
    if after[c.rest[0]] is Empty {
        assert(row_ok(after, c2.rest, false));
        assert(after[c2.rest[0]] is Internal);
        assert(live_slot(after, slot_ref(c2.rest[0]), 0) == Some(c2.rest[0]));
    } else {
        assert(after[c.rest[0]] is Internal);
    }
}

/// The last step of the work.
pub proof fn lemma_cut_end(
    j: Job,
    nodes: Seq<NodeData>,
    after: Seq<NodeData>,
    out: RemovalView,
    out2: RemovalView,
    c: Cut,
    poses: Set<usize>,
) -> (c2: Cut)
    requires
        job_ok(j),
        nodes.len() <= usize::MAX,
        cut_ok(j, nodes, out, c, j.keys.len() as int, poses),
        !poses.is_empty(),
        c.rest.len() == 1 ==> without(ptrs_of(nodes[c.rest[0]]), poses).len() != 1,
        removal_applied(
            nodes,
            after,
            j.page_size,
            c.rest[0],
            poses,
            out,
            out2,
            Some(j.keys.last()),
            j.shortcuts,
        ),
    ensures
        finished(j, after, out2, c2),
{
    let t = j.keys.len() as int;
    let key = Some(j.keys.last());
    lemma_cut_look(j, nodes, out, c, t, poses);
    if c.rest.len() > 1 {
        let c1 = lemma_cut_apply(j, nodes, after, out, out2, c, t, poses, key);
        lemma_cut_finish(j, after, out2, c1)
    } else {
        let b = j.b.skip(c.a);
        let left = without(ptrs_of(nodes[c.rest[0]]), poses);
        assert(c.rest.len() == 1);
        if left.len() == 0 {
            lemma_any_goes(
                nodes,
                after,
                j.page_size,
                c.rest,
                c.held,
                b,
                poses,
                out,
                out2,
                j.keys.last(),
                j.shortcuts,
            );
            lemma_cut_last(j, nodes, after, out, out2, c, poses, true)
        } else {
            lemma_any_stays(
                nodes,
                after,
                j.page_size,
                c.rest,
                c.held,
                b,
                poses,
                out,
                out2,
                key,
                j.shortcuts,
            );
            lemma_cut_last(j, nodes, after, out, out2, c, poses, false)
        }
    }
}

/// Without keys nothing is done.
pub proof fn lemma_cut_idle(j: Job, out: RemovalView) -> (c: Cut)
    requires
        row_over(j.before, j.page_size, j.row, j.kids, j.b),
        bounds_ok(j.b),
        j.keys.len() == 0,
        0 <= j.start < j.row.len(),
        out.empty_pages.len() == 0,
        out.split.len() == 0,
    ensures
        finished(j, j.before, out, c),
{
    let none = Seq::<int>::empty();
    let c = Cut {
        done: j.row,
        rest: none,
        held: none,
        a: 0,
        lead: false,
        walked: j.row.skip(j.start),
        emptied: none,
        last: none,
        ends: Seq::empty(),
    };
    let gone = places(j.b, j.keys);
    let n = j.kids.len() as int;
    lemma_over_ptrs(j.before, j.row, j.kids, j.b);
    assert forall|z: int| 0 <= z < n implies !gone.contains(z) by {}
    lemma_kept_all(j.kids, gone, 0, n);
    assert(j.kids.subrange(0, n) =~= j.kids);
    assert(row_ok(j.before, j.row, false));
    assert forall|x: int| 0 <= x < c.done.len() implies {
        &&& 0 <= #[trigger] c.done[x] < j.before.len()
        &&& j.before[c.done[x]] is Internal
        &&& own_slot(j, c.done[x])
    } by {
        assert(j.before[j.row[x]] is Internal);
    }
    assert forall|x: int| 0 <= x < c.walked.len() implies {
        &&& 0 <= #[trigger] c.walked[x] < j.before.len()
        &&& own_slot(j, c.walked[x])
        &&& link_at(j.before, c.walked, x)
        &&& j.before[c.walked[x]] is Empty || node_sane(j.before[c.walked[x]])
    } by {
        let y = x + j.start;
        assert(c.walked[x] == j.row[y]);
        assert(link_at(j.before, j.row, y));
        if x + 1 < c.walked.len() {
            assert(c.walked[x + 1] == j.row[y + 1]);
        }
        assert(0 <= j.row[y] < j.before.len());
        lemma_nth_sane(j.before, j.page_size, j.row, j.kids, j.b, y);
    }
    assert forall|x: int| 0 <= x < c.walked.len() implies j.before[#[trigger] c.walked[x]] is Empty
        || stands_from(c.done, j.start, c.walked[x]) by {
        assert(c.done[x + j.start] == c.walked[x]);
    }
    assert forall|x: int| j.start <= x < c.done.len() implies c.walked.contains(#[trigger] c.done[x]) by {
        assert(c.walked[x - j.start] == c.done[x]);
    }
    c
}

} // verus!
