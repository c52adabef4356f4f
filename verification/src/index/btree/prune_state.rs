//! How taking children out of a row of inner nodes goes on, node by node.
use super::node::{below, bound_lt, bound_of, keys_of, ptrs_of, right_of, NodeCellRef, NodeData};
use super::prune::{lemma_bounds_skip, lemma_child_pos, lemma_first_node, lemma_row_tail, row_over};
use super::prune_any::{
    kept, lemma_first_sane, lemma_kept_all, lemma_kept_join, lemma_place, lemma_place_order,
    lemma_row_ptrs_join, lemma_row_ptrs_one, node_sane, place, places, refs, row_ptrs,
};
use super::prune_row::agree_outside;
use super::removal::{without, RemovalView};
use super::shape::{bounds, bounds_ok, covers, kids_before, reaches, row_ok, slot_ref};
use crate::index::key::{ascending, group_key_order, is_upper_bound};
use vstd::prelude::*;

verus! {

/// What is to be done in a row: the children under `keys` go, from the node at `start` on.
pub struct Job {
    pub before: Seq<NodeData>,
    pub page_size: int,
    pub row: Seq<int>,
    pub kids: Seq<int>,
    pub b: Seq<Option<Seq<u8>>>,
    pub keys: Seq<Seq<u8>>,
    pub start: int,
    pub shortcuts: bool,
}

/// The row is over its children, and the keys ascend from the node at `start` on.
pub open spec fn job_ok(j: Job) -> bool {
    &&& row_over(j.before, j.page_size, j.row, j.kids, j.b)
    &&& bounds_ok(j.b)
    &&& j.page_size >= 2
    &&& forall|x: int| 0 <= x < j.kids.len() ==> 0 <= #[trigger] j.kids[x] < j.before.len()
    &&& forall|x: int| 0 <= x < j.row.len() ==> !j.kids.contains(#[trigger] j.row[x])
    &&& ascending(j.keys)
    &&& j.keys.len() >= 1
    &&& 0 <= j.start < j.row.len()
    &&& reaches(bounds(j.before, j.row), j.start, j.keys[0])
}

/// Where the work stands: the nodes `done` keep their children, the nodes `rest` are over the
/// children `held`, which are those from `a` on, but that with `lead` the first one came from a node
/// that is gone. The nodes `walked` lead to `rest`. The nodes `emptied` are gone; of each, `last` is
/// the position of the last key under it, and `ends` its right bound at the time.
pub struct Cut {
    pub done: Seq<int>,
    pub rest: Seq<int>,
    pub held: Seq<int>,
    pub a: int,
    pub lead: bool,
    pub walked: Seq<int>,
    pub emptied: Seq<int>,
    pub last: Seq<int>,
    pub ends: Seq<Option<Seq<u8>>>,
}

pub open spec fn one(lead: bool) -> int {
    if lead {
        1
    } else {
        0
    }
}

pub open spec fn lead_ref(c: Cut) -> Seq<NodeCellRef> {
    if c.lead {
        seq![slot_ref(c.held[0])]
    } else {
        Seq::empty()
    }
}

/// A slot of the row or a new one.
pub open spec fn own_slot(j: Job, x: int) -> bool {
    j.row.contains(x) || x >= j.before.len()
}

/// A right bound that a node of the row had or got from a split.
pub open spec fn end_known(
    j: Job,
    out: RemovalView,
    x: int,
    end: Option<Seq<u8>>,
) -> bool {
    ||| x >= j.before.len()
    ||| end == bound_of(j.before[x])
    ||| exists|s: int| 0 <= s < out.split.len() && end == Some((#[trigger] out.split[s]).1)
}

/// What the row above is told: the last key under each emptied node.
pub open spec fn noted(j: Job, nodes: Seq<NodeData>, out: RemovalView, c: Cut) -> bool {
    &&& out.empty_pages.len() == c.last.len()
    &&& c.emptied.len() == c.last.len()
    &&& c.ends.len() == c.last.len()
    &&& forall|x: int|
        0 <= x < c.last.len() ==> {
            &&& 0 <= #[trigger] c.last[x] < j.keys.len()
            &&& out.empty_pages[x] == j.keys[c.last[x]]
            &&& below(j.keys[c.last[x]], c.ends[x])
            &&& c.last[x] + 1 < j.keys.len() ==> !below(j.keys[c.last[x] + 1], c.ends[x])
            &&& end_known(j, out, c.emptied[x], c.ends[x])
        }
    &&& forall|x: int, y: int| 0 <= x < y < c.last.len() ==> #[trigger] c.last[x] < #[trigger] c.last[y]
    &&& forall|x: int|
        0 <= x < c.emptied.len() ==> {
            &&& 0 <= #[trigger] c.emptied[x] < nodes.len()
            &&& nodes[c.emptied[x]] is Empty
            &&& own_slot(j, c.emptied[x])
        }
}

/// The node leads to `next` and is emptied or can be searched.
pub open spec fn leads_on(j: Job, nodes: Seq<NodeData>, x: int, next: int) -> bool {
    &&& 0 <= x < nodes.len()
    &&& own_slot(j, x)
    &&& right_of(nodes[x]) == slot_ref(next)
    &&& nodes[x] is Empty || node_sane(nodes[x])
}

/// The nodes that are left are over the children that are left.
#[verifier::opaque]
pub open spec fn cut_held(j: Job, nodes: Seq<NodeData>, c: Cut) -> bool {
    let gone = places(j.b, j.keys);
    &&& c.rest.len() >= 1
    &&& 0 <= c.a < j.kids.len()
    &&& row_over(nodes, j.page_size, c.rest, c.held, j.b.skip(c.a))
    &&& forall|x: int| 0 <= x < c.held.len() ==> j.kids.contains(#[trigger] c.held[x])
    &&& forall|x: int|
        0 <= x < c.held.len() && (x > 0 || !c.lead) ==> #[trigger] c.held[x] == j.kids[c.a + x]
    &&& row_ptrs(nodes, c.done) + lead_ref(c) == kept(refs(j.kids), gone, 0, c.a + one(c.lead))
}

/// Of the first `t` keys, those under the node at hand are marked.
#[verifier::opaque]
pub open spec fn cut_marks(j: Job, m: int, c: Cut, t: int, poses: Set<usize>) -> bool {
    &&& 0 <= t <= j.keys.len()
    &&& t < j.keys.len() ==> place(j.b, j.keys[t]) >= c.a + one(c.lead)
    &&& t > 0 ==> place(j.b, j.keys[t - 1]) < c.a + m
    &&& forall|x: usize| #[trigger]
        poses.contains(x) <==> one(c.lead) <= x && t > 0 && c.a + x <= place(j.b, j.keys[t - 1])
            && places(j.b, j.keys).contains(c.a + x)
}

/// The slots of the nodes that the work has met.
#[verifier::opaque]
pub open spec fn cut_slots(j: Job, nodes: Seq<NodeData>, out: RemovalView, c: Cut) -> bool {
    &&& nodes.len() == j.before.len() + out.split.len()
    &&& agree_outside(j.before, nodes, j.row, j.kids, j.shortcuts)
    &&& forall|x: int|
        0 <= x < c.rest.len() ==> own_slot(j, #[trigger] c.rest[x]) && end_known(
            j,
            out,
            c.rest[x],
            bound_of(nodes[c.rest[x]]),
        )
    &&& forall|x: int|
        0 <= x < c.done.len() ==> {
            &&& 0 <= #[trigger] c.done[x] < nodes.len()
            &&& nodes[c.done[x]] is Internal
            &&& own_slot(j, c.done[x])
            &&& !c.rest.contains(c.done[x])
        }
}

/// The nodes that were walked lead to the node at hand.
#[verifier::opaque]
pub open spec fn cut_walk(j: Job, nodes: Seq<NodeData>, c: Cut) -> bool {
    &&& forall|x: int|
        0 <= x < c.walked.len() ==> !c.rest.contains(#[trigger] c.walked[x]) && leads_on(
            j,
            nodes,
            c.walked[x],
            c.walked.push(c.rest[0])[x + 1],
        )
    &&& c.walked.push(c.rest[0])[0] == j.row[j.start]
    &&& same_nodes(j, nodes, c)
}

/// The nodes that were walked and are not emptied are those of `done` from the first one on.
pub open spec fn same_nodes(j: Job, nodes: Seq<NodeData>, c: Cut) -> bool {
    walk_of(nodes, c.done, j.start, c.walked)
}

/// The nodes `walk` that are not emptied are those of the row from the one at `start` on.
pub open spec fn walk_of(nodes: Seq<NodeData>, row: Seq<int>, start: int, walk: Seq<int>) -> bool {
    &&& forall|x: int|
        0 <= x < walk.len() ==> nodes[#[trigger] walk[x]] is Empty || stands_from(
            row,
            start,
            walk[x],
        )
    &&& forall|x: int| start <= x < row.len() ==> walk.contains(#[trigger] row[x])
    &&& row.len() >= start
}

pub open spec fn stands_from(row: Seq<int>, start: int, x: int) -> bool {
    exists|k: int| start <= k < row.len() && #[trigger] row[k] == x
}

#[verifier::opaque]
pub open spec fn cut_notes(
    j: Job,
    nodes: Seq<NodeData>,
    out: RemovalView,
    c: Cut,
    t: int,
    poses: Set<usize>,
) -> bool {
    &&& noted(j, nodes, out, c)
    &&& forall|x: int| 0 <= x < c.last.len() ==> #[trigger] c.last[x] < t - one(!poses.is_empty())
}

pub open spec fn cut_ok(
    j: Job,
    nodes: Seq<NodeData>,
    out: RemovalView,
    c: Cut,
    t: int,
    poses: Set<usize>,
) -> bool {
    &&& cut_held(j, nodes, c)
    &&& cut_marks(j, ptrs_of(nodes[c.rest[0]]).len() as int, c, t, poses)
    &&& cut_slots(j, nodes, out, c)
    &&& cut_walk(j, nodes, c)
    &&& cut_notes(j, nodes, out, c, t, poses)
}

/// The nodes of a row from the one at `i` on.
pub proof fn lemma_row_over_skip(
    nodes: Seq<NodeData>,
    page_size: int,
    row: Seq<int>,
    kids: Seq<int>,
    b: Seq<Option<Seq<u8>>>,
    i: int,
)
    requires
        row_over(nodes, page_size, row, kids, b),
        0 <= i < row.len(),
    ensures
        ({
            let x = kids_before(nodes, row, i);
            &&& 0 <= x < kids.len()
            &&& row_over(nodes, page_size, row.skip(i), kids.skip(x), b.skip(x))
            &&& bounds(nodes, row.skip(i)) == bounds(nodes, row).skip(i)
            &&& row_ptrs(nodes, row.take(i)) == refs(kids.take(x))
            &&& i == 0 ==> x == 0
            &&& i > 0 ==> x > 0 && bound_of(nodes[row[i - 1]]) == b[x - 1]
        }),
    decreases i,
{
    let x = kids_before(nodes, row, i);
    lemma_first_node(nodes, page_size, row, kids, b);
    if i == 0 {
        assert(row.skip(0) =~= row);
        assert(kids.skip(0) =~= kids);
        assert(b.skip(0) =~= b);
        assert(bounds(nodes, row).skip(0) =~= bounds(nodes, row));
        assert(row_ptrs(nodes, row.take(0)) =~= refs(kids.take(0)));
    } else {
        let m = ptrs_of(nodes[row[0]]).len() as int;
        let tail = row.drop_first();
        lemma_row_tail(nodes, page_size, row, kids, b);
        lemma_row_over_skip(nodes, page_size, tail, kids.skip(m), b.skip(m), i - 1);
        let y = kids_before(nodes, tail, i - 1);
        assert(tail.skip(i - 1) =~= row.skip(i));
        assert(kids.skip(m).skip(y) =~= kids.skip(x));
        assert(b.skip(m).skip(y) =~= b.skip(x));
        assert(bounds(nodes, row).skip(1).skip(i - 1) =~= bounds(nodes, row).skip(i));
        assert(row.take(i) =~= seq![row[0]] + tail.take(i - 1));
        lemma_row_ptrs_join(nodes, seq![row[0]], tail.take(i - 1));
        lemma_row_ptrs_one(nodes, row[0]);
        assert forall|z: int| 0 <= z < m implies ptrs_of(nodes[row[0]])[z] == slot_ref(kids[z]) by {
            assert(ptrs_of(nodes[row[0]])[z] == slot_ref(kids.take(m)[z]));
        }
        assert(ptrs_of(nodes[row[0]]) + refs(kids.skip(m).take(y)) =~= refs(kids.take(x)));
        if i == 1 {
            assert(b.take(m).last() == b[m - 1]);
        } else {
            assert(tail[i - 2] == row[i - 1]);
        }
    }
}

/// A key that is not below a bound has its place right of it.
pub proof fn lemma_place_right(b: Seq<Option<Seq<u8>>>, x: int, key: Seq<u8>)
    requires
        bounds_ok(b),
        0 < x < b.len(),
        !below(key, b[x - 1]),
    ensures
        place(b, key) >= x,
{
    broadcast use group_key_order;

    lemma_place(b, key);
    let p = place(b, key);
    if p < x - 1 {
        assert(bound_lt(b[p], b[x - 1]));
    }
}

proof fn lemma_place_left(b: Seq<Option<Seq<u8>>>, x: int, key: Seq<u8>)
    requires
        bounds_ok(b),
        0 <= x < b.len(),
        below(key, b[x]),
    ensures
        place(b, key) <= x,
{
    broadcast use group_key_order;

    lemma_place(b, key);
    let p = place(b, key);
    if p > x {
        if p - 1 > x {
            assert(bound_lt(b[x], b[p - 1]));
        }
    }
}

/// The places of keys that ascend ascend.
pub proof fn lemma_places_ascend(j: Job, x: int, y: int)
    requires
        job_ok(j),
        0 <= x <= y < j.keys.len(),
    ensures
        place(j.b, j.keys[x]) <= place(j.b, j.keys[y]),
{
    broadcast use group_key_order;

    if x < y {
        assert(crate::index::key::key_lt(j.keys[x], j.keys[y]));
    }
    lemma_place_order(j.b, j.keys[x], j.keys[y]);
}

/// The work before the first key.
pub proof fn lemma_cut_start(j: Job, out: RemovalView, poses: Set<usize>) -> (c: Cut)
    requires
        job_ok(j),
        out.empty_pages.len() == 0,
        out.split.len() == 0,
        poses == Set::<usize>::empty(),
    ensures
        cut_ok(j, j.before, out, c, 0, poses),
        c.rest[0] == j.row[j.start],
        j.start == 0 ==> c.rest == j.row && c.held == j.kids && c.a == 0 && !c.lead,
{
    let x = kids_before(j.before, j.row, j.start);
    lemma_row_over_skip(j.before, j.page_size, j.row, j.kids, j.b, j.start);
    let none = Seq::<int>::empty();
    let c = Cut {
        done: j.row.take(j.start),
        rest: j.row.skip(j.start),
        held: j.kids.skip(x),
        a: x,
        lead: false,
        walked: none,
        emptied: none,
        last: none,
        ends: Seq::empty(),
    };
    reveal(cut_held);
    reveal(cut_marks);
    reveal(cut_slots);
    reveal(cut_walk);
    reveal(cut_notes);
    let gone = places(j.b, j.keys);
    if j.start > 0 {
        assert(bounds(j.before, j.row)[j.start - 1] == bound_of(j.before[j.row[j.start - 1]]));
        lemma_place_right(j.b, x, j.keys[0]);
    } else {
        lemma_place(j.b, j.keys[0]);
        assert(j.row.skip(0) =~= j.row);
        assert(j.kids.skip(0) =~= j.kids);
    }
    assert forall|z: int| 0 <= z < x implies !gone.contains(z) by {
        if gone.contains(z) {
            let q = choose|q: int| 0 <= q < j.keys.len() && z == place(j.b, #[trigger] j.keys[q]);
            lemma_places_ascend(j, 0, q);
        }
    }
    lemma_kept_all(refs(j.kids), gone, 0, x);
    assert(refs(j.kids).subrange(0, x) =~= refs(j.kids.take(x)));
    assert(row_ptrs(j.before, c.done) + lead_ref(c) =~= kept(refs(j.kids), gone, 0, x));
    assert(row_ok(j.before, j.row, false));
    assert forall|z: int| 0 <= z < c.held.len() implies j.kids.contains(#[trigger] c.held[z]) by {
        assert(c.held[z] == j.kids[x + z]);
    }
    assert forall|z: int| 0 <= z < c.rest.len() implies own_slot(j, #[trigger] c.rest[z]) && end_known(
        j,
        out,
        c.rest[z],
        bound_of(j.before[c.rest[z]]),
    ) by {
        assert(c.rest[z] == j.row[j.start + z]);
    }
    assert forall|z: int| 0 <= z < c.done.len() implies {
        &&& 0 <= #[trigger] c.done[z] < j.before.len()
        &&& j.before[c.done[z]] is Internal
        &&& own_slot(j, c.done[z])
        &&& !c.rest.contains(c.done[z])
    } by {
        assert(c.done[z] == j.row[z]);
        assert(0 <= j.row[z] < j.before.len());
        assert(j.before[j.row[z]] is Internal);
        if c.rest.contains(c.done[z]) {
            let k = choose|k: int| 0 <= k < c.rest.len() && c.rest[k] == c.done[z];
            assert(c.rest[k] == j.row[j.start + k]);
        }
    }
    c
}

/// What the node at hand and the next key are like.
pub proof fn lemma_cut_look(
    j: Job,
    nodes: Seq<NodeData>,
    out: RemovalView,
    c: Cut,
    t: int,
    poses: Set<usize>,
)
    requires
        job_ok(j),
        cut_ok(j, nodes, out, c, t, poses),
    ensures
        0 <= t <= j.keys.len(),
        0 <= c.a < j.kids.len() == j.b.len(),
        0 <= c.rest[0] < nodes.len(),
        node_sane(nodes[c.rest[0]]),
        row_over(nodes, j.page_size, c.rest, c.held, j.b.skip(c.a)),
        bounds_ok(j.b.skip(c.a)),
        forall|x: int| 0 <= x < c.held.len() ==> 0 <= #[trigger] c.held[x] < nodes.len(),
        nodes.len() >= j.before.len(),
        ({
            let m = ptrs_of(nodes[c.rest[0]]).len() as int;
            t < j.keys.len() ==> {
                &&& below(j.keys[t], bound_of(nodes[c.rest[0]])) ==> place(j.b, j.keys[t]) < c.a + m
                &&& !below(j.keys[t], bound_of(nodes[c.rest[0]])) ==> place(j.b, j.keys[t]) >= c.a + m
                    && c.rest.len() > 1
            }
        }),
{
    reveal(cut_held);
    assert(0 <= t <= j.keys.len()) by {
        reveal(cut_marks);
    }
    assert(nodes.len() >= j.before.len()) by {
        reveal(cut_slots);
    }
    lemma_bounds_skip(j.b, c.a);
    lemma_first_sane(nodes, j.page_size, c.rest, c.held, j.b.skip(c.a));
    lemma_first_node(nodes, j.page_size, c.rest, c.held, j.b.skip(c.a));
    let m = ptrs_of(nodes[c.rest[0]]).len() as int;
    assert(j.b.skip(c.a)[m - 1] == j.b[c.a + m - 1]);
    assert forall|x: int| 0 <= x < c.held.len() implies 0 <= #[trigger] c.held[x] < nodes.len() by {
        assert(j.kids.contains(c.held[x]));
        let k = choose|k: int| 0 <= k < j.kids.len() && j.kids[k] == c.held[x];
        assert(0 <= j.kids[k] < j.before.len());
    }
    if t < j.keys.len() {
        if below(j.keys[t], bound_of(nodes[c.rest[0]])) {
            lemma_place_left(j.b, c.a + m - 1, j.keys[t]);
        } else {
            assert(c.a + m < j.b.len()) by {
                if c.a + m == j.b.len() {
                    assert(j.b.last() is None);
                }
            }
            lemma_place_right(j.b, c.a + m, j.keys[t]);
        }
    }
}

/// The next key's child is marked.
pub proof fn lemma_cut_mark(
    j: Job,
    nodes: Seq<NodeData>,
    out: RemovalView,
    c: Cut,
    t: int,
    poses: Set<usize>,
    pos: usize,
)
    requires
        job_ok(j),
        cut_ok(j, nodes, out, c, t, poses),
        t < j.keys.len(),
        below(j.keys[t], bound_of(nodes[c.rest[0]])),
        is_upper_bound(keys_of(nodes[c.rest[0]]), j.keys[t], pos as int),
    ensures
        cut_ok(j, nodes, out, c, t + 1, poses.insert(pos)),
        pos == place(j.b, j.keys[t]) - c.a,
{
    lemma_cut_look(j, nodes, out, c, t, poses);
    let key = j.keys[t];
    let b = j.b.skip(c.a);
    lemma_place(j.b, key);
    let p = place(j.b, key);
    assert(p >= c.a) by {
        reveal(cut_marks);
    }
    assert(covers(b, p - c.a, key));
    lemma_first_node(nodes, j.page_size, c.rest, c.held, b);
    lemma_child_pos(nodes[c.rest[0]], c.held, b, p - c.a, key, pos as int);
    let gone = places(j.b, j.keys);
    assert(gone.contains(p));
    reveal(cut_marks);
    let poses2 = poses.insert(pos);
    assert forall|x: usize| #[trigger] poses2.contains(x) <==> one(c.lead) <= x && t + 1 > 0 && c.a + x
        <= place(j.b, j.keys[t]) && gone.contains(c.a + x) by {
        if t > 0 {
            lemma_places_ascend(j, t - 1, t);
        }
        if gone.contains(c.a + x) && c.a + x <= p && one(c.lead) <= x {
            let q = choose|q: int| 0 <= q < j.keys.len() && c.a + x == place(j.b, #[trigger] j.keys[q]);
            if q >= t {
                lemma_places_ascend(j, t, q);
                assert(x == pos);
            } else {
                lemma_places_ascend(j, q, t - 1);
                assert(poses.contains(x));
            }
        }
    }
    if t + 1 < j.keys.len() {
        lemma_places_ascend(j, t, t + 1);
    }
    assert(poses2.contains(pos));
    assert(!poses2.is_empty());
    assert(cut_notes(j, nodes, out, c, t + 1, poses2)) by {
        reveal(cut_notes);
    }
}

/// The children that the node at hand has left when those that are marked go.
pub proof fn lemma_cut_left(
    j: Job,
    nodes: Seq<NodeData>,
    out: RemovalView,
    c: Cut,
    t: int,
    poses: Set<usize>,
)
    requires
        job_ok(j),
        nodes.len() <= usize::MAX,
        cut_ok(j, nodes, out, c, t, poses),
        t < j.keys.len() ==> !below(j.keys[t], bound_of(nodes[c.rest[0]])),
    ensures
        ({
            let m = ptrs_of(nodes[c.rest[0]]).len() as int;
            let gone = places(j.b, j.keys);
            let left = without(ptrs_of(nodes[c.rest[0]]), poses);
            &&& left == lead_ref(c) + kept(refs(j.kids), gone, c.a + one(c.lead), c.a + m)
            &&& row_ptrs(nodes, c.done) + left == kept(refs(j.kids), gone, 0, c.a + m)
            &&& poses.is_empty() ==> left == ptrs_of(nodes[c.rest[0]])
            &&& c.a + m <= j.kids.len()
            &&& c.held.len() == j.kids.len() - c.a
            &&& t > 0 ==> place(j.b, j.keys[t - 1]) < c.a + m
            &&& forall|x: int| c.a + m <= x && gone.contains(x) ==> exists|q: int|
                t <= q < j.keys.len() && x == place(j.b, #[trigger] j.keys[q])
        }),
{
    lemma_cut_look(j, nodes, out, c, t, poses);
    let b = j.b.skip(c.a);
    lemma_first_sane(nodes, j.page_size, c.rest, c.held, b);
    let m = ptrs_of(nodes[c.rest[0]]).len() as int;
    let gone = places(j.b, j.keys);
    let n = nodes[c.rest[0]]->Internal_0;
    assert(n.ptrs.len() == n.ptrs@.len());
    assert(c.held.len() == j.kids.len() - c.a && one(c.lead) <= m && j.kids.len() == j.b.len()) by {
        reveal(cut_held);
    }
    assert forall|x: int| 0 <= x < m implies (#[trigger] poses.contains(x as usize) <==> one(c.lead)
        <= x && gone.contains(c.a + x)) by {
        reveal(cut_marks);
        if one(c.lead) <= x && gone.contains(c.a + x) {
            let q = choose|q: int| 0 <= q < j.keys.len() && c.a + x == place(j.b, #[trigger] j.keys[q]);
            if q >= t {
                lemma_places_ascend(j, t, q);
            } else {
                lemma_places_ascend(j, q, t - 1);
            }
        }
    }
    assert forall|x: int| 0 <= x < c.held.len() && (x > 0 || !c.lead) implies #[trigger] c.held[x]
        == j.kids[c.a + x] by {
        reveal(cut_held);
    }
    lemma_left_upto(j, c, poses, m, m);
    assert(refs(c.held).take(m) =~= ptrs_of(nodes[c.rest[0]]));
    let left = without(ptrs_of(nodes[c.rest[0]]), poses);
    let mid = kept(refs(j.kids), gone, c.a + one(c.lead), c.a + m);
    assert(row_ptrs(nodes, c.done) + left == kept(refs(j.kids), gone, 0, c.a + m)) by {
        reveal(cut_held);
        assert(row_ptrs(nodes, c.done) + (lead_ref(c) + mid) =~= (row_ptrs(nodes, c.done)
            + lead_ref(c)) + mid);
        lemma_kept_join(refs(j.kids), gone, 0, c.a + one(c.lead), c.a + m);
    }
    if poses.is_empty() {
        lemma_without_none(ptrs_of(nodes[c.rest[0]]), poses);
    }
    assert(t > 0 ==> place(j.b, j.keys[t - 1]) < c.a + m) by {
        reveal(cut_marks);
    }
    assert forall|x: int| c.a + m <= x && gone.contains(x) implies exists|q: int|
        t <= q < j.keys.len() && x == place(j.b, #[trigger] j.keys[q]) by {
        let q = choose|q: int| 0 <= q < j.keys.len() && x == place(j.b, #[trigger] j.keys[q]);
        if q < t {
            lemma_places_ascend(j, q, t - 1);
        }
    }
}

proof fn lemma_without_none<T>(s: Seq<T>, poses: Set<usize>)
    requires
        poses.is_empty(),
    ensures
        without(s, poses) == s,
    decreases s.len(),
{
    if s.len() > 0 {
        lemma_without_none(s.drop_last(), poses);
        assert(!poses.contains((s.len() - 1) as usize));
        assert(s.drop_last().push(s.last()) =~= s);
    }
}

proof fn lemma_left_upto(j: Job, c: Cut, poses: Set<usize>, m: int, x: int)
    requires
        0 <= x <= m <= c.held.len(),
        m <= usize::MAX,
        0 <= c.a,
        c.a + c.held.len() <= j.kids.len(),
        forall|x: int|
            0 <= x < m ==> (#[trigger] poses.contains(x as usize) <==> one(c.lead) <= x && places(
                j.b,
                j.keys,
            ).contains(c.a + x)),
        forall|x: int|
            0 <= x < c.held.len() && (x > 0 || !c.lead) ==> #[trigger] c.held[x] == j.kids[c.a + x],
    ensures
        x >= one(c.lead) ==> without(refs(c.held).take(x), poses) == lead_ref(c) + kept(
            refs(j.kids),
            places(j.b, j.keys),
            c.a + one(c.lead),
            c.a + x,
        ),
        x == 0 ==> without(refs(c.held).take(x), poses) == Seq::<NodeCellRef>::empty(),
    decreases x,
{
    let gone = places(j.b, j.keys);
    let s = refs(c.held).take(x);
    if x == 0 {
        assert(s =~= Seq::<NodeCellRef>::empty());
        if !c.lead {
            assert(lead_ref(c) + kept(refs(j.kids), gone, c.a, c.a) =~= Seq::<NodeCellRef>::empty());
        }
    } else {
        lemma_left_upto(j, c, poses, m, x - 1);
        assert(s.drop_last() =~= refs(c.held).take(x - 1));
        assert(s.last() == slot_ref(c.held[x - 1]));
        assert(poses.contains((x - 1) as usize) <==> one(c.lead) <= x - 1 && gone.contains(
            c.a + x - 1,
        ));
        let r = kept(refs(j.kids), gone, c.a + one(c.lead), c.a + x);
        if x - 1 >= one(c.lead) {
            let r0 = kept(refs(j.kids), gone, c.a + one(c.lead), c.a + x - 1);
            assert(c.held[x - 1] == j.kids[c.a + x - 1]);
            assert(lead_ref(c) + r0.push(s.last()) =~= (lead_ref(c) + r0).push(s.last()));
        } else {
            assert(without(s, poses) =~= lead_ref(c) + r);
        }
    }
}

} // verus!
