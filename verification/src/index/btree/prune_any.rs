//! Taking any children out of a row of inner nodes.
use super::grow::{cut_bounds, cut_row, lemma_put_over};
use super::node::{
    below, bound_lt, bound_of, keys_of, ptrs_of, right_of, EmptyNode, InView, NodeCellRef, NodeData,
};
use super::prune::{
    lemma_bounds_skip, lemma_covers_unique, lemma_first_node, lemma_prefix_goes, lemma_rest_same,
    lemma_row_over_at, lemma_row_over_frame, lemma_row_same, row_over, step_frame,
};
use super::removal::{
    given_away, kept_keys, lemma_kept_len, lemma_shortcut_frame, past_empty, remnant_given,
    removal_applied, shortcut_all, without, RemovalView,
};
use super::shape::{
    bounds, bounds_ok, covers, lemma_node_keys_ascend, link_at, over, row_ok, slot_ref,
};
use crate::index::key::{ascending, group_key_order, is_upper_bound, key_le, key_lt};
use vstd::prelude::*;

verus! {

pub open spec fn refs(kids: Seq<int>) -> Seq<NodeCellRef> {
    Seq::new(kids.len(), |i: int| slot_ref(kids[i]))
}

/// The children of a row's nodes, from left to right.
pub open spec fn row_ptrs(nodes: Seq<NodeData>, row: Seq<int>) -> Seq<NodeCellRef>
    decreases row.len(),
{
    if row.len() == 0 {
        Seq::empty()
    } else {
        row_ptrs(nodes, row.drop_last()) + ptrs_of(nodes[row.last()])
    }
}

/// The items from `lo` up to `hi` whose positions are not in `gone`.
pub open spec fn kept<T>(s: Seq<T>, gone: Set<int>, lo: int, hi: int) -> Seq<T>
    decreases hi - lo,
{
    if hi <= lo {
        Seq::empty()
    } else if gone.contains(hi - 1) {
        kept(s, gone, lo, hi - 1)
    } else {
        kept(s, gone, lo, hi - 1).push(s[hi - 1])
    }
}

/// Where the node stands whose range holds `key`.
pub open spec fn place(b: Seq<Option<Seq<u8>>>, key: Seq<u8>) -> int {
    choose|j: int| covers(b, j, key)
}

/// Where the nodes stand whose ranges hold the keys.
pub open spec fn places(b: Seq<Option<Seq<u8>>>, keys: Seq<Seq<u8>>) -> Set<int> {
    Set::new(|x: int| exists|j: int| 0 <= j < keys.len() && x == place(b, #[trigger] keys[j]))
}

proof fn lemma_some_covers(b: Seq<Option<Seq<u8>>>, i: int, key: Seq<u8>) -> (j: int)
    requires
        bounds_ok(b),
        0 <= i < b.len(),
        super::shape::reaches(b, i, key),
    ensures
        covers(b, j, key),
    decreases b.len() - i,
{
    if below(key, b[i]) {
        i
    } else {
        broadcast use group_key_order;

        lemma_some_covers(b, i + 1, key)
    }
}

/// Every key has its place, and only one.
pub proof fn lemma_place(b: Seq<Option<Seq<u8>>>, key: Seq<u8>)
    requires
        bounds_ok(b),
    ensures
        covers(b, place(b, key), key),
        forall|j: int| #[trigger] covers(b, j, key) ==> j == place(b, key),
{
    let j = lemma_some_covers(b, 0, key);
    assert forall|j: int| #[trigger] covers(b, j, key) implies j == place(b, key) by {
        lemma_covers_unique(b, j, place(b, key), key);
    }
}

pub proof fn lemma_place_order(b: Seq<Option<Seq<u8>>>, k: Seq<u8>, l: Seq<u8>)
    requires
        bounds_ok(b),
        key_le(k, l),
    ensures
        place(b, k) <= place(b, l),
{
    broadcast use group_key_order;

    lemma_place(b, k);
    lemma_place(b, l);
    if place(b, l) < place(b, k) {
        super::search::lemma_covers_order(b, place(b, l), place(b, k), l, k);
    }
}

pub proof fn lemma_kept_join<T>(s: Seq<T>, gone: Set<int>, lo: int, mid: int, hi: int)
    requires
        lo <= mid <= hi,
    ensures
        kept(s, gone, lo, mid) + kept(s, gone, mid, hi) == kept(s, gone, lo, hi),
    decreases hi - mid,
{
    if mid < hi {
        lemma_kept_join(s, gone, lo, mid, hi - 1);
        assert(kept(s, gone, lo, mid) + kept(s, gone, mid, hi) =~= kept(s, gone, lo, hi));
    } else {
        assert(kept(s, gone, lo, mid) + kept(s, gone, mid, hi) =~= kept(s, gone, lo, hi));
    }
}

pub proof fn lemma_kept_all<T>(s: Seq<T>, gone: Set<int>, lo: int, hi: int)
    requires
        0 <= lo <= hi <= s.len(),
        forall|x: int| lo <= x < hi ==> !gone.contains(x),
    ensures
        kept(s, gone, lo, hi) == s.subrange(lo, hi),
    decreases hi - lo,
{
    if lo < hi {
        lemma_kept_all(s, gone, lo, hi - 1);
        assert(s.subrange(lo, hi - 1).push(s[hi - 1]) =~= s.subrange(lo, hi));
    } else {
        assert(s.subrange(lo, hi) =~= Seq::<T>::empty());
    }
}

pub proof fn lemma_kept_refs(kids: Seq<int>, gone: Set<int>, lo: int, hi: int)
    requires
        0 <= lo <= hi <= kids.len(),
    ensures
        kept(refs(kids), gone, lo, hi) == refs(kept(kids, gone, lo, hi)),
    decreases hi - lo,
{
    if lo < hi {
        lemma_kept_refs(kids, gone, lo, hi - 1);
    }
    assert(kept(refs(kids), gone, lo, hi) =~= refs(kept(kids, gone, lo, hi)));
}

/// Without its first items, what is kept is the rest.
pub proof fn lemma_kept_suffix<T>(s: Seq<T>, gone: Set<int>, p: int)
    requires
        0 <= p <= s.len(),
        forall|x: int| 0 <= x < s.len() ==> (gone.contains(x) <==> x < p),
    ensures
        kept(s, gone, 0, s.len() as int) == s.skip(p),
{
    lemma_kept_join(s, gone, 0, p, s.len() as int);
    lemma_kept_all(s, gone, p, s.len() as int);
    lemma_kept_nothing(s, gone, 0, p);
    assert(kept(s, gone, 0, p) + kept(s, gone, p, s.len() as int) =~= s.skip(p));
}

pub proof fn lemma_kept_nothing<T>(s: Seq<T>, gone: Set<int>, lo: int, hi: int)
    requires
        forall|x: int| lo <= x < hi ==> gone.contains(x),
    ensures
        kept(s, gone, lo, hi) == Seq::<T>::empty(),
    decreases hi - lo,
{
    if lo < hi {
        lemma_kept_nothing(s, gone, lo, hi - 1);
    }
}

pub proof fn lemma_row_ptrs_join(nodes: Seq<NodeData>, x: Seq<int>, y: Seq<int>)
    ensures
        row_ptrs(nodes, x + y) == row_ptrs(nodes, x) + row_ptrs(nodes, y),
    decreases y.len(),
{
    if y.len() == 0 {
        assert(x + y =~= x);
        assert(row_ptrs(nodes, x) + row_ptrs(nodes, y) =~= row_ptrs(nodes, x));
    } else {
        lemma_row_ptrs_join(nodes, x, y.drop_last());
        assert((x + y).drop_last() =~= x + y.drop_last());
        assert(row_ptrs(nodes, x) + (row_ptrs(nodes, y.drop_last()) + ptrs_of(nodes[y.last()]))
            =~= (row_ptrs(nodes, x) + row_ptrs(nodes, y.drop_last())) + ptrs_of(nodes[y.last()]));
    }
}

pub proof fn lemma_row_ptrs_one(nodes: Seq<NodeData>, x: int)
    ensures
        row_ptrs(nodes, seq![x]) == ptrs_of(nodes[x]),
{
    let one = seq![x];
    assert(one.drop_last() =~= Seq::<int>::empty());
    assert(row_ptrs(nodes, one.drop_last()) =~= Seq::<NodeCellRef>::empty());
    assert(row_ptrs(nodes, one) =~= ptrs_of(nodes[x]));
}

pub proof fn lemma_row_ptrs_frame(before: Seq<NodeData>, after: Seq<NodeData>, row: Seq<int>)
    requires
        forall|j: int| 0 <= j < row.len() ==> before[#[trigger] row[j]] == after[row[j]],
    ensures
        row_ptrs(before, row) == row_ptrs(after, row),
    decreases row.len(),
{
    if row.len() > 0 {
        assert(before[row[row.len() - 1]] == after[row[row.len() - 1]]);
        assert forall|j: int| 0 <= j < row.drop_last().len() implies before[#[trigger] row.drop_last()[j]]
            == after[row.drop_last()[j]] by {
            assert(row.drop_last()[j] == row[j]);
        }
        lemma_row_ptrs_frame(before, after, row.drop_last());
    }
}

/// A row over children refers to them in order.
pub proof fn lemma_over_ptrs(
    nodes: Seq<NodeData>,
    row: Seq<int>,
    kids: Seq<int>,
    b: Seq<Option<Seq<u8>>>,
)
    requires
        over(nodes, row, kids, b),
    ensures
        row_ptrs(nodes, row) == refs(kids),
    decreases row.len(),
{
    if row.len() == 0 {
        assert(refs(kids) =~= Seq::<NodeCellRef>::empty());
    } else {
        let m = ptrs_of(nodes[row[0]]).len() as int;
        lemma_over_ptrs(nodes, row.drop_first(), kids.skip(m), b.skip(m));
        assert(row =~= seq![row[0]] + row.drop_first());
        lemma_row_ptrs_join(nodes, seq![row[0]], row.drop_first());
        lemma_row_ptrs_one(nodes, row[0]);
        assert forall|j: int| 0 <= j < m implies ptrs_of(nodes[row[0]])[j] == slot_ref(kids[j]) by {
            assert(ptrs_of(nodes[row[0]])[j] == slot_ref(kids.take(m)[j]));
        }
        assert(ptrs_of(nodes[row[0]]) + refs(kids.skip(m)) =~= refs(kids));
    }
}

/// An inner node that can be searched.
pub open spec fn node_sane(n: NodeData) -> bool {
    &&& n is Internal
    &&& ascending(keys_of(n))
    &&& ptrs_of(n).len() == keys_of(n).len() + 1
}

pub proof fn lemma_without_from<T>(s: Seq<T>, poses: Set<usize>, x: T)
    requires
        without(s, poses).contains(x),
    ensures
        s.contains(x),
    decreases s.len(),
{
    if s.len() > 0 {
        let rest = without(s.drop_last(), poses);
        if rest.contains(x) {
            lemma_without_from(s.drop_last(), poses, x);
            let i = choose|i: int| 0 <= i < s.drop_last().len() && s.drop_last()[i] == x;
            assert(s[i] == x);
        } else {
            let w = without(s, poses);
            let i = choose|i: int| 0 <= i < w.len() && w[i] == x;
            if i < rest.len() {
                assert(rest[i] == x);
            }
            assert(s[s.len() - 1] == x);
        }
    }
}

proof fn lemma_without_ascends(s: Seq<Seq<u8>>, poses: Set<usize>)
    requires
        ascending(s),
    ensures
        ascending(without(s, poses)),
    decreases s.len(),
{
    if s.len() > 0 {
        let front = s.drop_last();
        lemma_without_ascends(front, poses);
        let rest = without(front, poses);
        let w = without(s, poses);
        assert forall|i: int, j: int| 0 <= i < j < w.len() implies key_lt(
            #[trigger] w[i],
            #[trigger] w[j],
        ) by {
            if j < rest.len() {
                assert(key_lt(rest[i], rest[j]));
            } else {
                assert(rest.contains(rest[i]));
                lemma_without_from(front, poses, rest[i]);
                let k = choose|k: int| 0 <= k < front.len() && front[k] == rest[i];
                assert(s[k] == rest[i]);
                assert(key_lt(s[k], s[s.len() - 1]));
            }
        }
    }
}

/// The first node of a row, searched and followed.
pub proof fn lemma_first_sane(
    nodes: Seq<NodeData>,
    page_size: int,
    row: Seq<int>,
    kids: Seq<int>,
    b: Seq<Option<Seq<u8>>>,
)
    requires
        row_over(nodes, page_size, row, kids, b),
        bounds_ok(b),
    ensures
        node_sane(nodes[row[0]]),
        ptrs_of(nodes[row[0]]) == refs(kids).take(ptrs_of(nodes[row[0]]).len() as int),
        ptrs_of(nodes[row[0]]).len() <= kids.len(),
{
    lemma_first_node(nodes, page_size, row, kids, b);
    let n = nodes[row[0]];
    let m = ptrs_of(n).len() as int;
    let b1 = b.take(m);
    assert forall|x: int, y: int| 0 <= x < y < b1.len() implies bound_lt(
        #[trigger] b1[x],
        #[trigger] b1[y],
    ) by {
        assert(bound_lt(b[x], b[y]));
    }
    lemma_node_keys_ascend(n, kids.take(m), b1);
    assert forall|j: int| 0 <= j < m implies ptrs_of(n)[j] == slot_ref(kids[j]) by {
        assert(ptrs_of(n)[j] == slot_ref(kids.take(m)[j]));
    }
    assert(ptrs_of(n) =~= refs(kids).take(m));
}

/// What the arena with the shortcuts agrees on.
proof fn lemma_base_frame(
    nodes: Seq<NodeData>,
    base: Seq<NodeData>,
    row: Seq<int>,
    kids: Seq<int>,
    poses: Set<usize>,
    shortcuts: bool,
)
    requires
        ptrs_of(nodes[row[0]]).len() <= kids.len(),
        ptrs_of(nodes[row[0]]) == refs(kids).take(ptrs_of(nodes[row[0]]).len() as int),
        forall|j: int| 0 <= j < kids.len() ==> 0 <= #[trigger] kids[j] < nodes.len(),
        nodes.len() <= usize::MAX,
        shortcuts ==> base == shortcut_all(
            nodes,
            ptrs_of(nodes[row[0]]),
            poses,
            ptrs_of(nodes[row[0]]).len(),
        ),
        !shortcuts ==> base == nodes,
    ensures
        base.len() == nodes.len(),
        forall|x: int|
            0 <= x < nodes.len() && !(nodes[x] is Empty) ==> #[trigger] base[x] == nodes[x],
        forall|x: int|
            0 <= x < nodes.len() && nodes[x] is Empty ==> (#[trigger] base[x]) is Empty && (!shortcuts
                || !kids.contains(x) ==> base[x] == nodes[x]),
{
    let n = nodes[row[0]];
    if shortcuts {
        assert forall|i: int| 0 <= i < ptrs_of(n).len() implies #[trigger] ptrs_of(n)[i] == slot_ref(
            kids[i],
        ) && 0 <= kids[i] < nodes.len() by {
            assert(ptrs_of(n)[i] == refs(kids).take(ptrs_of(n).len() as int)[i]);
        }
        lemma_shortcut_frame(nodes, ptrs_of(n), poses, ptrs_of(n).len());
        assert forall|x: int| 0 <= x < nodes.len() && nodes[x] is Empty implies (#[trigger] base[x]) is Empty
            && (!shortcuts || !kids.contains(x) ==> base[x] == nodes[x]) by {
            if !kids.contains(x) {
                assert forall|i: int| 0 <= i < ptrs_of(n).len() implies #[trigger] ptrs_of(n)[i]
                    != NodeCellRef::Slot(x as usize) by {
                    assert(ptrs_of(n)[i] == slot_ref(kids[i]));
                    assert(kids.contains(kids[i]));
                }
            }
        }
    }
}

/// The first node of a row stays, with fewer children or all of them.
pub open spec fn first_stays(poses: Set<usize>, left: Seq<NodeCellRef>) -> bool {
    poses.is_empty() || left.len() >= 2
}

/// What an inner node is like that lost children.
pub proof fn lemma_kept_sane(n: NodeData, n2: NodeData, poses: Set<usize>)
    requires
        node_sane(n),
        without(ptrs_of(n), poses).len() >= 1,
        n2 is Internal,
        n2->Internal_0@ == (InView {
            keys: kept_keys(keys_of(n), ptrs_of(n), poses),
            ptrs: without(ptrs_of(n), poses),
            ..n->Internal_0@
        }),
    ensures
        node_sane(n2),
        ptrs_of(n2) == without(ptrs_of(n), poses),
        right_of(n2) == right_of(n),
        bound_of(n2) == bound_of(n),
{
    lemma_kept_len(keys_of(n), ptrs_of(n), poses);
    lemma_without_ascends(keys_of(n), poses);
    let keys = kept_keys(keys_of(n), ptrs_of(n), poses);
    let w = without(keys_of(n), poses);
    assert forall|i: int, j: int| 0 <= i < j < keys.len() implies key_lt(
        #[trigger] keys[i],
        #[trigger] keys[j],
    ) by {
        assert(key_lt(w[i], w[j]));
    }
    assert(keys_of(n2) == n2->Internal_0@.keys);
    assert(ptrs_of(n2) == n2->Internal_0@.ptrs);
}

/// The first node of a row lost children and stays.
#[verifier::spinoff_prover]
pub proof fn lemma_any_stays(
    nodes: Seq<NodeData>,
    after: Seq<NodeData>,
    page_size: int,
    row: Seq<int>,
    kids: Seq<int>,
    b: Seq<Option<Seq<u8>>>,
    poses: Set<usize>,
    given: RemovalView,
    out: RemovalView,
    prev: Option<Seq<u8>>,
    shortcuts: bool,
)
    requires
        row_over(nodes, page_size, row, kids, b),
        bounds_ok(b),
        nodes.len() <= usize::MAX,
        forall|j: int| 0 <= j < kids.len() ==> 0 <= #[trigger] kids[j] < nodes.len(),
        first_stays(poses, without(ptrs_of(nodes[row[0]]), poses)),
        removal_applied(nodes, after, page_size, row[0], poses, given, out, prev, shortcuts),
    ensures
        after.len() == nodes.len(),
        out == given,
        node_sane(after[row[0]]),
        ptrs_of(after[row[0]]) == if poses.is_empty() {
            ptrs_of(nodes[row[0]])
        } else {
            without(ptrs_of(nodes[row[0]]), poses)
        },
        bound_of(after[row[0]]) == bound_of(nodes[row[0]]),
        right_of(after[row[0]]) == right_of(nodes[row[0]]),
        row_ok(after, row, false),
        bounds(after, row) == bounds(nodes, row),
        forall|j: int| 0 < j < row.len() ==> nodes[#[trigger] row[j]] == after[row[j]],
        step_frame(nodes, after, row, kids, shortcuts),
        row.len() > 1 ==> ({
            let m = ptrs_of(nodes[row[0]]).len() as int;
            &&& row_over(after, page_size, row.drop_first(), kids.skip(m), b.skip(m))
            &&& bounds(after, row.drop_first()) == bounds(nodes, row).skip(1)
        }),
{
    reveal(removal_applied);
    lemma_first_sane(nodes, page_size, row, kids, b);
    lemma_first_node(nodes, page_size, row, kids, b);
    let n = nodes[row[0]];
    if !poses.is_empty() {
        let base = if shortcuts {
            shortcut_all(nodes, ptrs_of(n), poses, ptrs_of(n).len())
        } else {
            nodes
        };
        lemma_base_frame(nodes, base, row, kids, poses, shortcuts);
        lemma_kept_len(keys_of(n), ptrs_of(n), poses);
        lemma_without_ascends(keys_of(n), poses);
        let keys = kept_keys(keys_of(n), ptrs_of(n), poses);
        assert(keys_of(after[row[0]]) == keys);
        assert(ascending(keys)) by {
            let w = without(keys_of(n), poses);
            assert forall|i: int, j: int| 0 <= i < j < keys.len() implies key_lt(
                #[trigger] keys[i],
                #[trigger] keys[j],
            ) by {
                assert(key_lt(w[i], w[j]));
            }
        }
        lemma_without_shorter(ptrs_of(n), poses);
    }
    lemma_rest_same(nodes, after, row);
    lemma_row_same(nodes, after, page_size, row);
    if row.len() > 1 {
        lemma_prefix_goes(nodes, after, page_size, row, kids, b);
    }
}

pub proof fn lemma_without_shorter<T>(s: Seq<T>, poses: Set<usize>)
    ensures
        without(s, poses).len() <= s.len(),
    decreases s.len(),
{
    if s.len() > 0 {
        lemma_without_shorter(s.drop_last(), poses);
    }
}

/// The first node of a row lost all children and is gone.
#[verifier::spinoff_prover]
pub proof fn lemma_any_goes(
    nodes: Seq<NodeData>,
    after: Seq<NodeData>,
    page_size: int,
    row: Seq<int>,
    kids: Seq<int>,
    b: Seq<Option<Seq<u8>>>,
    poses: Set<usize>,
    given: RemovalView,
    out: RemovalView,
    key: Seq<u8>,
    shortcuts: bool,
)
    requires
        row_over(nodes, page_size, row, kids, b),
        bounds_ok(b),
        nodes.len() <= usize::MAX,
        forall|j: int| 0 <= j < kids.len() ==> 0 <= #[trigger] kids[j] < nodes.len(),
        !poses.is_empty(),
        without(ptrs_of(nodes[row[0]]), poses).len() == 0,
        removal_applied(nodes, after, page_size, row[0], poses, given, out, Some(key), shortcuts),
    ensures
        after.len() == nodes.len(),
        out == (RemovalView { empty_pages: given.empty_pages.push(key), ..given }),
        after[row[0]] is Empty,
        right_of(after[row[0]]) == right_of(nodes[row[0]]),
        step_frame(nodes, after, row, kids, shortcuts),
        forall|j: int| 0 < j < row.len() ==> nodes[#[trigger] row[j]] == after[row[j]],
        row.len() > 1 ==> ({
            let m = ptrs_of(nodes[row[0]]).len() as int;
            &&& row_over(after, page_size, row.drop_first(), kids.skip(m), b.skip(m))
            &&& bounds(after, row.drop_first()) == bounds(nodes, row).skip(1)
        }),
{
    reveal(removal_applied);
    lemma_first_sane(nodes, page_size, row, kids, b);
    lemma_first_node(nodes, page_size, row, kids, b);
    let n = nodes[row[0]];
    let base = if shortcuts {
        shortcut_all(nodes, ptrs_of(n), poses, ptrs_of(n).len())
    } else {
        nodes
    };
    lemma_base_frame(nodes, base, row, kids, poses, shortcuts);
    lemma_kept_len(keys_of(n), ptrs_of(n), poses);
    lemma_rest_same(nodes, after, row);
    if row.len() > 1 {
        lemma_prefix_goes(nodes, after, page_size, row, kids, b);
    }
}

/// The second node of a row takes the only child that the first one has left.
#[verifier::spinoff_prover]
proof fn lemma_child_moves(
    nodes: Seq<NodeData>,
    bare: Seq<NodeData>,
    put: Seq<NodeData>,
    after: Seq<NodeData>,
    page_size: int,
    row: Seq<int>,
    kids: Seq<int>,
    b: Seq<Option<Seq<u8>>>,
    w: int,
    r: Option<(NodeCellRef, Seq<u8>)>,
)
    requires
        row_over(nodes, page_size, row, kids, b),
        bounds_ok(b),
        page_size >= 2,
        nodes.len() <= usize::MAX,
        row.len() > 1,
        bare.len() == nodes.len(),
        forall|x: int|
            0 <= x < nodes.len() && x != row[0] && nodes[x] is Internal ==> #[trigger] bare[x] == nodes[x],
        bare[row[0]] is Internal,
        ptrs_of(bare[row[0]]) == seq![slot_ref(w)],
        bound_of(bare[row[0]]) == bound_of(nodes[row[0]]),
        right_of(bare[row[0]]) == right_of(nodes[row[0]]),
        remnant_given(bare, put, page_size, row[0], r),
        after.len() == put.len(),
        forall|x: int| 0 <= x < put.len() && x != row[0] ==> #[trigger] after[x] == put[x],
    ensures
        ({
            let m = ptrs_of(nodes[row[0]]).len() as int;
            let row2 = cut_row(row.drop_first(), 0, nodes.len() as int, r);
            &&& row_over(after, page_size, row2, kids.skip(m - 1).update(0, w), b.skip(m - 1))
            &&& bounds(after, row2) == cut_bounds(bounds(nodes, row).skip(1), 0, r)
        }),
        forall|x: int|
            0 <= x < bare.len() && x != row[0] && x != row[1] ==> #[trigger] put[x] == bare[x],
        put.len() == bare.len() + if r is Some {
            1int
        } else {
            0int
        },
        r matches Some(p) ==> p.0 == slot_ref(bare.len() as int),
{
    let row1 = row.drop_first();
    lemma_first_node(nodes, page_size, row, kids, b);
    let m = ptrs_of(nodes[row[0]]).len() as int;
    assert(link_at(nodes, row, 0));
    assert(right_of(nodes[row[0]]) == slot_ref(row[1]));
    assert(0 <= row[1] < nodes.len());
    assert(nodes[row[1]] is Internal);
    assert(row[1] != row[0]);
    assert(past_empty(bare, slot_ref(row[1]), bare.len()) == slot_ref(row[1]));
    assert(bound_lt(b[m - 1], b[m]));
    let bound = b[m - 1]->0;
    assert(Some(bound) == b[m - 1]);
    let t = row[1];
    let (mid, pos) = choose|mid: Seq<NodeData>, pos: int|
        #[trigger] given_away(bare, mid, row[0]) && #[trigger] is_upper_bound(
            keys_of(bare[t]),
            bound,
            pos,
        ) && super::grow::child_put(
            mid,
            put,
            page_size,
            t,
            bound,
            ptrs_of(bare[row[0]])[0],
            pos,
            0,
            r,
        );
    assert(mid[t] == bare[t]);
    lemma_prefix_goes(nodes, mid, page_size, row, kids, b);
    lemma_first_node(mid, page_size, row1, kids.skip(m), b.skip(m));
    assert(row1[0] == row[1]);
    assert(pos == 0) by {
        broadcast use group_key_order;

        if pos > 0 {
            let m1 = ptrs_of(mid[t]).len() as int;
            assert(Some(keys_of(mid[t])[0]) == b.skip(m).take(m1)[0]);
            assert(b.skip(m).take(m1)[0] == b[m]);
        }
    }
    lemma_skip_put(kids, m, w);
    lemma_skip_put(b, m, b[m - 1]);
    assert(b.skip(m - 1).update(0, b[m - 1]) =~= b.skip(m - 1));
    lemma_bounds_skip(b, m - 1);
    lemma_row_over_at(mid, page_size, row1, kids.skip(m), b.skip(m));
    lemma_put_over(
        mid,
        put,
        page_size,
        row1,
        0,
        kids.skip(m),
        b.skip(m),
        0,
        0,
        0,
        bound,
        w,
        r,
    );
    let row2 = cut_row(row1, 0, nodes.len() as int, r);
    assert forall|j: int| 0 <= j < row2.len() implies put[#[trigger] row2[j]] == after[row2[j]] by {
        assert(0 <= row2[j] < put.len());
        if r is None {
            assert(row2[j] == row[j + 1]);
            assert(row[j + 1] != row[0]);
        } else if j == 0 {
            assert(row2[j] == row[1]);
        } else if j > 1 {
            assert(row2[j] == row[j]);
            assert(row[j] != row[0]);
        }
    }
    lemma_row_over_frame(put, after, page_size, row2, kids.skip(m - 1).update(0, w), b.skip(m - 1));
}

proof fn lemma_skip_put<T>(s: Seq<T>, m: int, w: T)
    requires
        0 < m <= s.len(),
    ensures
        s.skip(m).insert(0, w) == s.skip(m - 1).update(0, w),
{
    assert(s.skip(m).insert(0, w) =~= s.skip(m - 1).update(0, w));
}

/// The first node of a row has one child left, which moves to the second node.
#[verifier::spinoff_prover]
pub proof fn lemma_any_moves(
    nodes: Seq<NodeData>,
    after: Seq<NodeData>,
    page_size: int,
    row: Seq<int>,
    kids: Seq<int>,
    b: Seq<Option<Seq<u8>>>,
    poses: Set<usize>,
    given: RemovalView,
    out: RemovalView,
    key: Seq<u8>,
    shortcuts: bool,
    w: int,
) -> (r: Option<(NodeCellRef, Seq<u8>)>)
    requires
        row_over(nodes, page_size, row, kids, b),
        bounds_ok(b),
        page_size >= 2,
        nodes.len() <= usize::MAX,
        forall|j: int| 0 <= j < kids.len() ==> 0 <= #[trigger] kids[j] < nodes.len(),
        !poses.is_empty(),
        without(ptrs_of(nodes[row[0]]), poses) == seq![slot_ref(w)],
        row.len() > 1,
        removal_applied(nodes, after, page_size, row[0], poses, given, out, Some(key), shortcuts),
    ensures
        ({
            let m = ptrs_of(nodes[row[0]]).len() as int;
            let row2 = cut_row(row.drop_first(), 0, nodes.len() as int, r);
            &&& row_over(after, page_size, row2, kids.skip(m - 1).update(0, w), b.skip(m - 1))
            &&& bounds(after, row2) == cut_bounds(bounds(nodes, row).skip(1), 0, r)
        }),
        out.empty_pages == given.empty_pages.push(key),
        out.split == (match r {
            Some(s) => given.split.push(s),
            None => given.split,
        }),
        r matches Some(s) ==> s.0 == slot_ref(nodes.len() as int),
        after.len() == nodes.len() + if r is Some {
            1int
        } else {
            0int
        },
        after[row[0]] is Empty,
        right_of(after[row[0]]) == right_of(nodes[row[0]]),
        step_frame(nodes, after, row, kids, shortcuts),
{
    lemma_first_sane(nodes, page_size, row, kids, b);
    lemma_first_node(nodes, page_size, row, kids, b);
    let n = nodes[row[0]];
    let nn = n->Internal_0;
    let base = if shortcuts {
        shortcut_all(nodes, ptrs_of(n), poses, ptrs_of(n).len())
    } else {
        nodes
    };
    lemma_base_frame(nodes, base, row, kids, poses, shortcuts);
    lemma_kept_len(keys_of(n), ptrs_of(n), poses);
    let (bare, put, r) = lemma_moved_parts(
        nodes,
        after,
        base,
        page_size,
        row[0],
        poses,
        given,
        out,
        key,
        shortcuts,
    );
    assert forall|x: int|
        0 <= x < nodes.len() && x != row[0] && nodes[x] is Internal implies #[trigger] bare[x]
        == nodes[x] by {
        assert(bare[x] == base[x]);
    }
    assert(ptrs_of(bare[row[0]]) == bare[row[0]]->Internal_0@.ptrs);
    assert(bound_of(bare[row[0]]) == bare[row[0]]->Internal_0@.bound);
    assert(right_of(bare[row[0]]) == bare[row[0]]->Internal_0@.right);
    lemma_child_moves(nodes, bare, put, after, page_size, row, kids, b, w, r);
    assert forall|x: int|
        0 <= x < nodes.len() && x != row[0] && x != row[1] && !(nodes[x] is Empty) implies #[trigger] after[x]
        == nodes[x] by {
        assert(put[x] == bare[x]);
        assert(bare[x] == base[x]);
    }
    assert(nodes[row[1]] is Internal);
    assert forall|x: int| 0 <= x < nodes.len() && nodes[x] is Empty implies (#[trigger] after[x]) is Empty
        && (!shortcuts || !kids.contains(x) ==> after[x] == nodes[x]) by {
        assert(put[x] == bare[x]);
        assert(bare[x] == base[x]);
    }
    r
}

/// The steps of a removal that moves a child.
proof fn lemma_moved_parts(
    nodes: Seq<NodeData>,
    after: Seq<NodeData>,
    base: Seq<NodeData>,
    page_size: int,
    slot: int,
    poses: Set<usize>,
    given: RemovalView,
    out: RemovalView,
    key: Seq<u8>,
    shortcuts: bool,
) -> (parts: (Seq<NodeData>, Seq<NodeData>, Option<(NodeCellRef, Seq<u8>)>))
    requires
        0 <= slot < nodes.len(),
        nodes[slot] is Internal,
        !poses.is_empty(),
        without(ptrs_of(nodes[slot]), poses).len() == 1,
        kept_keys(keys_of(nodes[slot]), ptrs_of(nodes[slot]), poses).len() == 0,
        shortcuts ==> base == shortcut_all(
            nodes,
            ptrs_of(nodes[slot]),
            poses,
            ptrs_of(nodes[slot]).len(),
        ),
        !shortcuts ==> base == nodes,
        base.len() == nodes.len(),
        removal_applied(nodes, after, page_size, slot, poses, given, out, Some(key), shortcuts),
    ensures
        ({
            let (bare, put, r) = parts;
            let nn = nodes[slot]->Internal_0;
            &&& bare.len() == base.len()
            &&& bare[slot] is Internal
            &&& bare[slot]->Internal_0@ == (InView {
                keys: kept_keys(nn@.keys, nn@.ptrs, poses),
                ptrs: without(nn@.ptrs, poses),
                ..nn@
            })
            &&& forall|x: int| 0 <= x < base.len() && x != slot ==> #[trigger] bare[x] == base[x]
            &&& remnant_given(bare, put, page_size, slot, r)
            &&& after == put.update(
                slot,
                NodeData::Empty(EmptyNode { left: None, right: nn.right }),
            )
            &&& out.split == (match r {
                Some(s) => given.split.push(s),
                None => given.split,
            })
            &&& out.empty_pages == given.empty_pages.push(key)
        }),
{
    reveal(removal_applied);
    let nn = nodes[slot]->Internal_0;
    let emptied = NodeData::Empty(EmptyNode { left: None, right: nn.right });
    choose|bare: Seq<NodeData>, put: Seq<NodeData>, r: Option<(NodeCellRef, Seq<u8>)>|
        {
            &&& bare.len() == base.len()
            &&& bare[slot] is Internal
            &&& bare[slot]->Internal_0@ == (InView {
                keys: kept_keys(nn@.keys, nn@.ptrs, poses),
                ptrs: without(nn@.ptrs, poses),
                ..nn@
            })
            &&& forall|x: int| 0 <= x < base.len() && x != slot ==> #[trigger] bare[x] == base[x]
            &&& #[trigger] remnant_given(bare, put, page_size, slot, r)
            &&& after == put.update(slot, emptied)
            &&& out.split == (match r {
                Some(s) => given.split.push(s),
                None => given.split,
            })
        }
}

} // verus!
