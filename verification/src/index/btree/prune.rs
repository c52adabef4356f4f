//! Pruning: taking emptied pages, and the inner nodes that this empties, out of the rows above.
use super::grow::{child_put, cut_bounds, cut_row, lemma_put_over, row_at};
use super::node::{
    below, bound_lt, bound_of, is_below, keys_of, ptrs_of, right_of, EmptyNode, InView,
    NodeCellRef, NodeData,
};
use super::removal::{
    given_away, kept_keys, lemma_kept_len, lemma_shortcut_frame, past_empty, remnant_given, removal_applied,
    shortcut_all, without, RemovalView,
};
use super::search::live_slot;
use super::shape::{
    bounds, bounds_ok, covers, in_arena, lemma_node_keys_ascend, lemma_over_frame, link_at, linked,
    node_over, over, reaches, row_ok, sized, slot_ref,
};
use crate::index::key::{ascending, group_key_order, is_upper_bound, key_le, key_lt, EntryKey};
use vstd::prelude::*;

verus! {

/// A row of inner nodes over its children.
pub open spec fn row_over(
    nodes: Seq<NodeData>,
    page_size: int,
    row: Seq<int>,
    kids: Seq<int>,
    b: Seq<Option<Seq<u8>>>,
) -> bool {
    &&& row_ok(nodes, row, false)
    &&& sized(nodes, row, page_size)
    &&& kids.len() == b.len()
    &&& over(nodes, row, kids, b)
}

pub proof fn lemma_row_over_at(
    nodes: Seq<NodeData>,
    page_size: int,
    row: Seq<int>,
    kids: Seq<int>,
    b: Seq<Option<Seq<u8>>>,
)
    requires
        row_over(nodes, page_size, row, kids, b),
    ensures
        row_at(nodes, page_size, row, 0, kids, b, 0),
{
    assert(row.take(0) =~= Seq::<int>::empty());
    assert(kids.take(0) =~= Seq::<int>::empty());
    assert(b.take(0) =~= Seq::<Option<Seq<u8>>>::empty());
    assert(row.skip(0) =~= row);
    assert(kids.skip(0) =~= kids);
    assert(b.skip(0) =~= b);
}

/// The first node of a row and its children.
pub proof fn lemma_first_node(
    nodes: Seq<NodeData>,
    page_size: int,
    row: Seq<int>,
    kids: Seq<int>,
    b: Seq<Option<Seq<u8>>>,
)
    requires
        row_over(nodes, page_size, row, kids, b),
    ensures
        ({
            let n = nodes[row[0]];
            let m = ptrs_of(n).len() as int;
            &&& 0 <= row[0] < nodes.len()
            &&& n is Internal
            &&& keys_of(n).len() <= page_size
            &&& m == keys_of(n).len() + 1
            &&& m <= kids.len()
            &&& node_over(n, kids.take(m), b.take(m))
            &&& bound_of(n) == b[m - 1]
            &&& over(nodes, row.drop_first(), kids.skip(m), b.skip(m))
            &&& row.len() > 1 <==> m < kids.len()
        }),
{
    assert(nodes[row[0]] is Internal);
    assert(keys_of(nodes[row[0]]).len() <= page_size);
    let m = ptrs_of(nodes[row[0]]).len() as int;
    assert(b.take(m).last() == b[m - 1]);
    super::shape::lemma_over_len(nodes, row.drop_first(), kids.skip(m), b.skip(m));
}

/// What holds of a row looks at no node outside it.
pub proof fn lemma_row_over_frame(
    before: Seq<NodeData>,
    after: Seq<NodeData>,
    page_size: int,
    row: Seq<int>,
    kids: Seq<int>,
    b: Seq<Option<Seq<u8>>>,
)
    requires
        row_over(before, page_size, row, kids, b),
        after.len() >= before.len(),
        forall|j: int| 0 <= j < row.len() ==> before[#[trigger] row[j]] == after[row[j]],
    ensures
        row_over(after, page_size, row, kids, b),
        bounds(after, row) == bounds(before, row),
{
    lemma_over_frame(before, after, row, kids, b);
    assert(bounds(after, row) =~= bounds(before, row)) by {
        assert forall|j: int| 0 <= j < row.len() implies bounds(after, row)[j] == bounds(
            before,
            row,
        )[j] by {
            assert(before[row[j]] == after[row[j]]);
        }
    }
    assert(in_arena(after, row)) by {
        assert forall|j: int| 0 <= j < row.len() implies 0 <= #[trigger] row[j] < after.len() by {
            assert(0 <= row[j] < before.len());
        }
    }
    assert forall|j: int| 0 <= j < row.len() implies (#[trigger] after[row[j]]) is Internal by {
        assert(before[row[j]] == after[row[j]]);
        assert(before[row[j]] is Internal);
    }
    assert forall|j: int| 0 <= j < row.len() implies #[trigger] link_at(after, row, j) by {
        assert(link_at(before, row, j));
        assert(before[row[j]] == after[row[j]]);
    }
}

pub proof fn lemma_bounds_skip(b: Seq<Option<Seq<u8>>>, q: int)
    requires
        bounds_ok(b),
        0 <= q < b.len(),
    ensures
        bounds_ok(b.skip(q)),
{
    let s = b.skip(q);
    assert forall|i: int, j: int| 0 <= i < j < s.len() implies bound_lt(
        #[trigger] s[i],
        #[trigger] s[j],
    ) by {
        assert(bound_lt(b[q + i], b[q + j]));
    }
}

/// A row without its first node.
pub proof fn lemma_row_tail(
    nodes: Seq<NodeData>,
    page_size: int,
    row: Seq<int>,
    kids: Seq<int>,
    b: Seq<Option<Seq<u8>>>,
)
    requires
        row_over(nodes, page_size, row, kids, b),
        row.len() > 1,
    ensures
        ({
            let m = ptrs_of(nodes[row[0]]).len() as int;
            row_over(nodes, page_size, row.drop_first(), kids.skip(m), b.skip(m))
        }),
        bounds(nodes, row.drop_first()) == bounds(nodes, row).skip(1),
{
    let rest = row.drop_first();
    lemma_first_node(nodes, page_size, row, kids, b);
    lemma_bounds_skip(bounds(nodes, row), 1);
    assert(bounds(nodes, rest) =~= bounds(nodes, row).skip(1));
    assert forall|j: int| 0 <= j < rest.len() implies #[trigger] rest[j] == row[j + 1] && 0 <= rest[j]
        < nodes.len() && nodes[rest[j]] is Internal && keys_of(nodes[rest[j]]).len() <= page_size by {
        assert(0 <= row[j + 1] < nodes.len());
        assert(nodes[row[j + 1]] is Internal);
    }
    assert(rest.no_duplicates()) by {
        assert forall|i: int, j: int| 0 <= i < rest.len() && 0 <= j < rest.len() && i != j implies rest[i]
            != rest[j] by {
            assert(row[i + 1] != row[j + 1]);
        }
    }
    assert(linked(nodes, rest)) by {
        assert forall|j: int| 0 <= j < rest.len() implies #[trigger] link_at(nodes, rest, j) by {
            assert(link_at(nodes, row, j + 1));
            assert(rest[j] == row[j + 1]);
            if j + 1 < rest.len() {
                assert(rest[j + 1] == row[j + 2]);
            }
        }
    }
}

/// The positions before `q`.
pub open spec fn first_poses(q: int) -> Set<usize> {
    Set::new(|x: usize| x < q)
}

pub proof fn lemma_without_first<T>(s: Seq<T>, q: int)
    requires
        0 <= q,
        s.len() <= usize::MAX,
    ensures
        q <= s.len() ==> without(s, first_poses(q)) == s.skip(q),
        q >= s.len() ==> without(s, first_poses(q)) == Seq::<T>::empty(),
    decreases s.len(),
{
    if s.len() > 0 {
        lemma_without_first(s.drop_last(), q);
        let last = s.len() - 1;
        assert(first_poses(q).contains(last as usize) <==> last < q);
        if q <= last {
            assert(s.drop_last().skip(q).push(s.last()) =~= s.skip(q));
        } else if q == last + 1 {
            assert(s.skip(q) =~= Seq::<T>::empty());
        }
    } else if q == 0 {
        assert(s.skip(0) =~= Seq::<T>::empty());
    }
}

/// What taking its first `q` children out of a node leaves of it.
proof fn lemma_kept_first(n: NodeData, q: int)
    requires
        n is Internal,
        ptrs_of(n).len() == keys_of(n).len() + 1,
        0 <= q <= ptrs_of(n).len(),
    ensures
        without(ptrs_of(n), first_poses(q)) == ptrs_of(n).skip(q),
        kept_keys(keys_of(n), ptrs_of(n), first_poses(q)) == if q < ptrs_of(n).len() {
            keys_of(n).skip(q)
        } else {
            Seq::empty()
        },
{
    let node = n->Internal_0;
    assert(node.ptrs.len() == node.ptrs@.len());
    assert(node.keys.len() == node.keys@.len());
    assert(keys_of(n).len() == node.keys@.len());
    lemma_without_first(ptrs_of(n), q);
    lemma_without_first(keys_of(n), q);
    lemma_kept_len(keys_of(n), ptrs_of(n), first_poses(q));
}

/// A node over its children without the first `q` of them.
proof fn lemma_node_over_skip(
    n: NodeData,
    n2: NodeData,
    kids: Seq<int>,
    b: Seq<Option<Seq<u8>>>,
    q: int,
)
    requires
        node_over(n, kids, b),
        0 <= q < kids.len(),
        n2 is Internal,
        keys_of(n2) == keys_of(n).skip(q),
        ptrs_of(n2) == ptrs_of(n).skip(q),
        bound_of(n2) == bound_of(n),
    ensures
        node_over(n2, kids.skip(q), b.skip(q)),
{
    assert forall|j: int| 0 <= j < kids.skip(q).len() implies #[trigger] ptrs_of(n2)[j] == slot_ref(
        kids.skip(q)[j],
    ) by {
        assert(ptrs_of(n)[q + j] == slot_ref(kids[q + j]));
    }
    assert forall|j: int| 0 <= j < keys_of(n2).len() implies Some(#[trigger] keys_of(n2)[j])
        == b.skip(q)[j] by {
        assert(Some(keys_of(n)[q + j]) == b[q + j]);
    }
}

/// How many nodes of a row lose so many of the row's first `r` children that they have no key left.
pub open spec fn emptied_in(nodes: Seq<NodeData>, row: Seq<int>, r: int) -> int
    decreases row.len(),
{
    if row.len() == 0 || r <= 0 {
        0
    } else {
        let m = ptrs_of(nodes[row[0]]).len() as int;
        if m <= r {
            1 + emptied_in(nodes, row.drop_first(), r - m)
        } else if m == r + 1 {
            1
        } else {
            0
        }
    }
}

/// The nodes behind the first one do not change with it.
pub proof fn lemma_rest_same(nodes: Seq<NodeData>, after: Seq<NodeData>, row: Seq<int>)
    requires
        row_ok(nodes, row, false),
        forall|x: int|
            0 <= x < nodes.len() && x != row[0] && nodes[x] is Internal ==> #[trigger] after[x] == nodes[x],
    ensures
        forall|j: int| 0 < j < row.len() ==> nodes[#[trigger] row[j]] == after[row[j]],
        forall|j: int|
            0 <= j < row.drop_first().len() ==> nodes[#[trigger] row.drop_first()[j]]
                == after[row.drop_first()[j]],
{
    assert forall|j: int| 0 < j < row.len() implies nodes[#[trigger] row[j]] == after[row[j]] by {
        assert(row[j] != row[0]);
        assert(nodes[row[j]] is Internal);
        assert(0 <= row[j] < nodes.len());
    }
    assert forall|j: int| 0 <= j < row.drop_first().len() implies nodes[#[trigger] row.drop_first()[j]]
        == after[row.drop_first()[j]] by {
        assert(row.drop_first()[j] == row[j + 1]);
    }
}

/// A row of which the first node lost its first `q` children and stays.
proof fn lemma_prefix_stays(
    nodes: Seq<NodeData>,
    after: Seq<NodeData>,
    page_size: int,
    row: Seq<int>,
    kids: Seq<int>,
    b: Seq<Option<Seq<u8>>>,
    q: int,
)
    requires
        row_over(nodes, page_size, row, kids, b),
        0 < q,
        q + 1 < ptrs_of(nodes[row[0]]).len(),
        after.len() == nodes.len(),
        forall|x: int|
            0 <= x < nodes.len() && x != row[0] && nodes[x] is Internal ==> #[trigger] after[x] == nodes[x],
        after[row[0]] is Internal,
        after[row[0]]->Internal_0@ == (InView {
            keys: keys_of(nodes[row[0]]).skip(q),
            ptrs: ptrs_of(nodes[row[0]]).skip(q),
            ..nodes[row[0]]->Internal_0@
        }),
    ensures
        row_over(after, page_size, row, kids.skip(q), b.skip(q)),
        bounds(after, row) == bounds(nodes, row),
        keys_of(after[row[0]]).len() < page_size,
{
    lemma_first_node(nodes, page_size, row, kids, b);
    lemma_rest_same(nodes, after, row);
    let n = nodes[row[0]];
    let n2 = after[row[0]];
    assert(keys_of(n2) == keys_of(n).skip(q));
    assert(ptrs_of(n2) == ptrs_of(n).skip(q));
    assert(over(after, row, kids.skip(q), b.skip(q))) by {
        let m = ptrs_of(n).len() as int;
        let k2 = kids.skip(q);
        let b2 = b.skip(q);
        lemma_node_over_skip(n, n2, kids.take(m), b.take(m), q);
        lemma_skip_in_take(kids, m, q);
        lemma_skip_in_take(b, m, q);
        lemma_over_frame(nodes, after, row.drop_first(), kids.skip(m), b.skip(m));
    }
    lemma_row_same(nodes, after, page_size, row);
}

proof fn lemma_skip_in_take<T>(s: Seq<T>, m: int, q: int)
    requires
        0 <= q <= m <= s.len(),
    ensures
        s.take(m).skip(q) == s.skip(q).take(m - q),
        s.skip(m) == s.skip(q).skip(m - q),
{
    assert(s.take(m).skip(q) =~= s.skip(q).take(m - q));
    assert(s.skip(m) =~= s.skip(q).skip(m - q));
}

/// A row whose first node kept its place but not all of its children.
pub proof fn lemma_row_same(nodes: Seq<NodeData>, after: Seq<NodeData>, page_size: int, row: Seq<int>)
    requires
        row_ok(nodes, row, false),
        sized(nodes, row, page_size),
        after.len() == nodes.len(),
        forall|j: int| 0 < j < row.len() ==> nodes[#[trigger] row[j]] == after[row[j]],
        after[row[0]] is Internal,
        bound_of(after[row[0]]) == bound_of(nodes[row[0]]),
        right_of(after[row[0]]) == right_of(nodes[row[0]]),
        keys_of(after[row[0]]).len() <= keys_of(nodes[row[0]]).len(),
    ensures
        row_ok(after, row, false),
        sized(after, row, page_size),
        bounds(after, row) == bounds(nodes, row),
{
    assert(keys_of(nodes[row[0]]).len() <= page_size);
    assert(bounds(after, row) =~= bounds(nodes, row)) by {
        assert forall|j: int| 0 <= j < row.len() implies bounds(after, row)[j] == bounds(
            nodes,
            row,
        )[j] by {
            if j > 0 {
                assert(nodes[row[j]] == after[row[j]]);
            }
        }
    }
    assert forall|j: int| 0 <= j < row.len() implies (#[trigger] after[row[j]]) is Internal by {
        if j > 0 {
            assert(nodes[row[j]] == after[row[j]]);
        }
        assert(nodes[row[j]] is Internal);
    }
    assert(linked(after, row)) by {
        assert forall|j: int| 0 <= j < row.len() implies #[trigger] link_at(after, row, j) by {
            assert(link_at(nodes, row, j));
            if j > 0 {
                assert(nodes[row[j]] == after[row[j]]);
            }
        }
    }
    assert forall|j: int| 0 <= j < row.len() implies keys_of(after[#[trigger] row[j]]).len()
        <= page_size by {
        if j > 0 {
            assert(nodes[row[j]] == after[row[j]]);
        }
    }
}

/// A row of which the first node lost all children and is gone.
pub proof fn lemma_prefix_goes(
    nodes: Seq<NodeData>,
    after: Seq<NodeData>,
    page_size: int,
    row: Seq<int>,
    kids: Seq<int>,
    b: Seq<Option<Seq<u8>>>,
)
    requires
        row_over(nodes, page_size, row, kids, b),
        row.len() > 1,
        after.len() == nodes.len(),
        forall|x: int|
            0 <= x < nodes.len() && x != row[0] && nodes[x] is Internal ==> #[trigger] after[x] == nodes[x],
    ensures
        ({
            let m = ptrs_of(nodes[row[0]]).len() as int;
            row_over(after, page_size, row.drop_first(), kids.skip(m), b.skip(m))
        }),
        bounds(after, row.drop_first()) == bounds(nodes, row).skip(1),
{
    let m = ptrs_of(nodes[row[0]]).len() as int;
    let rest = row.drop_first();
    lemma_row_tail(nodes, page_size, row, kids, b);
    assert forall|j: int| 0 <= j < rest.len() implies nodes[#[trigger] rest[j]] == after[rest[j]] by {
        assert(rest[j] == row[j + 1]);
        assert(row[j + 1] != row[0]);
        assert(nodes[row[j + 1]] is Internal);
        assert(0 <= row[j + 1] < nodes.len());
    }
    lemma_row_over_frame(nodes, after, page_size, rest, kids.skip(m), b.skip(m));
}

/// The node to the right takes the only child that a node has left.
#[verifier::spinoff_prover]
proof fn lemma_prefix_moves(
    nodes: Seq<NodeData>,
    bare: Seq<NodeData>,
    put: Seq<NodeData>,
    after: Seq<NodeData>,
    page_size: int,
    row: Seq<int>,
    kids: Seq<int>,
    b: Seq<Option<Seq<u8>>>,
    q: int,
    r: Option<(NodeCellRef, Seq<u8>)>,
)
    requires
        row_over(nodes, page_size, row, kids, b),
        bounds_ok(b),
        page_size >= 2,
        nodes.len() <= usize::MAX,
        0 <= q,
        q + 1 == ptrs_of(nodes[row[0]]).len(),
        row.len() > 1,
        bare.len() == nodes.len(),
        forall|x: int|
            0 <= x < nodes.len() && x != row[0] && nodes[x] is Internal ==> #[trigger] bare[x] == nodes[x],
        bare[row[0]] is Internal,
        ptrs_of(bare[row[0]]) == ptrs_of(nodes[row[0]]).skip(q),
        bound_of(bare[row[0]]) == bound_of(nodes[row[0]]),
        right_of(bare[row[0]]) == right_of(nodes[row[0]]),
        remnant_given(bare, put, page_size, row[0], r),
        after.len() == put.len(),
        forall|x: int| 0 <= x < put.len() && x != row[0] ==> #[trigger] after[x] == put[x],
    ensures
        ({
            let row2 = cut_row(row.drop_first(), 0, nodes.len() as int, r);
            &&& row_over(after, page_size, row2, kids.skip(q), b.skip(q))
            &&& bounds(after, row2) == cut_bounds(bounds(nodes, row).skip(1), 0, r)
            &&& r is Some ==> keys_of(after[row2[0]]).len() < page_size
        }),
        forall|x: int|
            0 <= x < bare.len() && x != row[0] && x != row[1] ==> #[trigger] put[x] == bare[x],
        put.len() == bare.len() + if r is Some {
            1int
        } else {
            0int
        },
        r matches Some(p) ==> p.0 == slot_ref(bare.len() as int),
{
    let m = q + 1;
    let row1 = row.drop_first();
    let n = nodes.len() as int;
    lemma_first_node(nodes, page_size, row, kids, b);
    assert(link_at(nodes, row, 0));
    assert(right_of(nodes[row[0]]) == slot_ref(row[1]));
    assert(0 <= row[1] < nodes.len());
    assert(nodes[row[1]] is Internal);
    assert(row[1] != row[0]);
    assert(past_empty(bare, slot_ref(row[1]), bare.len()) == slot_ref(row[1]));
    assert(bound_lt(b[q], b[m]));
    let key = b[q]->0;
    assert(Some(key) == b[q]);
    let t = row[1];
    let (mid, pos) = choose|mid: Seq<NodeData>, pos: int|
        #[trigger] given_away(bare, mid, row[0]) && #[trigger] is_upper_bound(
            keys_of(bare[t]),
            key,
            pos,
        ) && child_put(
            mid,
            put,
            page_size,
            t,
            key,
            ptrs_of(bare[row[0]])[0],
            pos,
            0,
            r,
        );
    assert(mid[t] == bare[t]);
    lemma_prefix_goes(nodes, mid, page_size, row, kids, b);
    lemma_first_node(mid, page_size, row1, kids.skip(m), b.skip(m));
    assert(row1[0] == row[1]);
    assert(pos == 0) by {
        broadcast use group_key_order;

        if pos > 0 {
            let m1 = ptrs_of(bare[t]).len() as int;
            assert(Some(keys_of(bare[t])[0]) == b.skip(m).take(m1)[0]);
            assert(b.skip(m).take(m1)[0] == b[m]);
        }
    }
    assert(ptrs_of(bare[row[0]])[0] == slot_ref(kids[q])) by {
        assert(ptrs_of(nodes[row[0]])[q] == slot_ref(kids.take(m)[q]));
    }
    lemma_skip_insert(kids, q);
    lemma_skip_insert(b, q);
    lemma_bounds_skip(b, q);
    lemma_row_over_at(mid, page_size, row1, kids.skip(m), b.skip(m));
    lemma_put_over(
        mid,
        put,
        page_size,
        row1,
        0,
        kids.skip(m),
        b.skip(m),
        0,
        0,
        0,
        key,
        kids[q],
        r,
    );
    let row2 = cut_row(row1, 0, n, r);
    assert forall|j: int| 0 <= j < row2.len() implies put[#[trigger] row2[j]] == after[row2[j]] by {
        assert(0 <= row2[j] < put.len());
        if r is None {
            assert(row2[j] == row[j + 1]);
            assert(row[j + 1] != row[0]);
        } else if j == 0 {
            assert(row2[j] == row[1]);
        } else if j > 1 {
            assert(row2[j] == row[j]);
            assert(row[j] != row[0]);
        }
    }
    lemma_row_over_frame(put, after, page_size, row2, kids.skip(q), b.skip(q));
    assert(row2[0] == row[1]);
}

proof fn lemma_skip_insert<T>(s: Seq<T>, q: int)
    requires
        0 <= q < s.len(),
    ensures
        s.skip(q + 1).insert(0, s[q]) == s.skip(q),
{
    assert(s.skip(q + 1).insert(0, s[q]) =~= s.skip(q));
}

/// How many nodes a row loses when its first node loses `q` children.
pub open spec fn lost(nodes: Seq<NodeData>, row: Seq<int>, q: int) -> int {
    if ptrs_of(nodes[row[0]]).len() <= q + 1 {
        1
    } else {
        0
    }
}

/// The split that a removal added, if any.
pub open spec fn added_split(given: RemovalView, out: RemovalView) -> Option<(NodeCellRef, Seq<u8>)> {
    if out.split.len() > given.split.len() {
        Some(out.split.last())
    } else {
        None
    }
}

/// Of the nodes in the arena, only the first two of the row change, and emptied children.
pub open spec fn step_frame(
    nodes: Seq<NodeData>,
    after: Seq<NodeData>,
    row: Seq<int>,
    kids: Seq<int>,
    shortcuts: bool,
) -> bool {
    &&& forall|x: int|
        0 <= x < nodes.len() && x != row[0] && (row.len() > 1 ==> x != row[1]) && !(nodes[x] is Empty)
            ==> #[trigger] after[x] == nodes[x]
    &&& forall|x: int|
        0 <= x < nodes.len() && nodes[x] is Empty ==> (#[trigger] after[x]) is Empty && (!shortcuts
            || !kids.contains(x) ==> after[x] == nodes[x])
}

/// What a row is once its first node lost its first `q` children.
#[verifier::spinoff_prover]
pub proof fn lemma_removed_first(
    nodes: Seq<NodeData>,
    after: Seq<NodeData>,
    page_size: int,
    row: Seq<int>,
    kids: Seq<int>,
    b: Seq<Option<Seq<u8>>>,
    q: int,
    given: RemovalView,
    out: RemovalView,
    key: Seq<u8>,
    shortcuts: bool,
)
    requires
        row_over(nodes, page_size, row, kids, b),
        bounds_ok(b),
        page_size >= 2,
        nodes.len() <= usize::MAX,
        1 <= q <= ptrs_of(nodes[row[0]]).len(),
        q < kids.len(),
        lost(nodes, row, q) < row.len(),
        forall|j: int| 0 <= j < kids.len() ==> 0 <= #[trigger] kids[j] < nodes.len(),
        removal_applied(
            nodes,
            after,
            page_size,
            row[0],
            first_poses(q),
            given,
            out,
            Some(key),
            shortcuts,
        ),
    ensures
        ({
            let d = lost(nodes, row, q);
            let r = added_split(given, out);
            let row2 = cut_row(row.skip(d), 0, nodes.len() as int, r);
            &&& row_over(after, page_size, row2, kids.skip(q), b.skip(q))
            &&& bounds(after, row2) == cut_bounds(bounds(nodes, row).skip(d), 0, r)
            &&& d == 0 ==> out == given && keys_of(after[row[0]]).len() < page_size
            &&& d == 1 ==> out.empty_pages == given.empty_pages.push(key)
            &&& d == 1 ==> after[row[0]] is Empty && after[row[0]]->Empty_0.right == slot_ref(row[1])
            &&& r is None ==> out.split == given.split && after.len() == nodes.len()
            &&& r matches Some(p) ==> out.split == given.split.push(p) && p.0 == slot_ref(
                nodes.len() as int,
            ) && after.len() == nodes.len() + 1 && keys_of(after[row2[0]]).len() < page_size && d == 1
                && ptrs_of(nodes[row[0]]).len() == q + 1
        }),
        step_frame(nodes, after, row, kids, shortcuts),
{
    reveal(removal_applied);
    lemma_first_node(nodes, page_size, row, kids, b);
    let n = nodes[row[0]];
    let m = ptrs_of(n).len() as int;
    let poses = first_poses(q);
    assert(poses.contains(0usize));
    assert(!poses.is_empty());
    lemma_kept_first(n, q);
    let base = if shortcuts {
        shortcut_all(nodes, ptrs_of(n), poses, ptrs_of(n).len())
    } else {
        nodes
    };
    assert forall|i: int| 0 <= i < ptrs_of(n).len() implies #[trigger] ptrs_of(n)[i] == slot_ref(
        kids[i],
    ) && 0 <= kids[i] < nodes.len() by {
        assert(ptrs_of(n)[i] == slot_ref(kids.take(m)[i]));
        assert(kids[i] == kids.take(m)[i]);
    }
    assert(base.len() == nodes.len() && forall|x: int|
        0 <= x < nodes.len() ==> (!(nodes[x] is Empty) ==> #[trigger] base[x] == nodes[x])) by {
        if shortcuts {
            lemma_shortcut_frame(nodes, ptrs_of(n), poses, ptrs_of(n).len());
        }
    }
    assert forall|x: int| 0 <= x < nodes.len() && nodes[x] is Empty implies (#[trigger] base[x]) is Empty
        && (!shortcuts || !kids.contains(x) ==> base[x] == nodes[x]) by {
        if shortcuts {
            lemma_shortcut_frame(nodes, ptrs_of(n), poses, ptrs_of(n).len());
            if !kids.contains(x) {
                assert forall|i: int| 0 <= i < ptrs_of(n).len() implies #[trigger] ptrs_of(n)[i]
                    != NodeCellRef::Slot(x as usize) by {
                    assert(ptrs_of(n)[i] == slot_ref(kids[i]));
                }
            }
        }
    }
    assert(link_at(nodes, row, 0));
    if m > q + 1 {
        lemma_prefix_stays(nodes, after, page_size, row, kids, b, q);
        assert(row.skip(0) =~= row);
        assert(bounds(nodes, row).skip(0) =~= bounds(nodes, row));
    } else if m == q {
        lemma_prefix_goes(nodes, after, page_size, row, kids, b);
        assert(row.skip(1) =~= row.drop_first());
    } else {
        let (bare, put, r) = choose|
            bare: Seq<NodeData>,
            put: Seq<NodeData>,
            r: Option<(NodeCellRef, Seq<u8>)>,
        |
            {
                let nn = n->Internal_0;
                &&& bare.len() == base.len()
                &&& bare[row[0]] is Internal
                &&& bare[row[0]]->Internal_0@ == (InView {
                    keys: kept_keys(nn@.keys, nn@.ptrs, poses),
                    ptrs: without(nn@.ptrs, poses),
                    ..nn@
                })
                &&& forall|x: int|
                    0 <= x < base.len() && x != row[0] ==> #[trigger] bare[x] == base[x]
                &&& #[trigger] remnant_given(bare, put, page_size, row[0], r)
                &&& after == put.update(
                    row[0],
                    NodeData::Empty(EmptyNode { left: None, right: nn.right }),
                )
                &&& out.split == (match r {
                    Some(s) => given.split.push(s),
                    None => given.split,
                })
            };
        lemma_prefix_moves(nodes, bare, put, after, page_size, row, kids, b, q, r);
        assert(row.skip(1) =~= row.drop_first());
        assert(r == added_split(given, out));
    }
}

/// A key lies in the range of one node only.
pub proof fn lemma_covers_unique(b: Seq<Option<Seq<u8>>>, i: int, j: int, key: Seq<u8>)
    requires
        bounds_ok(b),
        covers(b, i, key),
        covers(b, j, key),
    ensures
        i == j,
{
    broadcast use group_key_order;

    if i < j {
        super::search::lemma_covers_order(b, i, j, key, key);
    } else if j < i {
        super::search::lemma_covers_order(b, j, i, key, key);
    }
}

/// Follows a row of inner nodes to the right, past emptied ones, to the node whose range holds
/// `key`.
pub(crate) fn write_targeted(
    nodes: &Vec<NodeData>,
    slot: usize,
    key: &EntryKey,
    Ghost(row): Ghost<Seq<int>>,
    Ghost(steps): Ghost<nat>,
) -> (r: usize)
    requires
        row_ok(nodes@, row, false),
        live_slot(nodes@, NodeCellRef::Slot(slot), steps) == Some(row[0]),
    ensures
        exists|j: int| #[trigger] covers(bounds(nodes@, row), j, key@) && r == row[j],
{
    let mut at: usize = slot;
    let ghost mut i: int = 0;
    let ghost mut n: nat = steps;
    loop
        invariant
            row_ok(nodes@, row, false),
            0 <= i < row.len(),
            live_slot(nodes@, NodeCellRef::Slot(at), n) == Some(row[i]),
            reaches(bounds(nodes@, row), i, key@),
        decreases row.len() - i, n,
    {
        match &nodes[at] {
            NodeData::Empty(e) => {
                assert(live_slot(nodes@, e.right, (n - 1) as nat) == Some(row[i]));
                match e.right {
                    NodeCellRef::Slot(s) => {
                        at = s;
                        proof {
                            n = (n - 1) as nat;
                        }
                    },
                    _ => {
                        assert(false);
                        return at;
                    },
                }
            },
            NodeData::Internal(node) => {
                assert(at == row[i]);
                assert(bounds(nodes@, row)[i] == bound_of(nodes@[row[i]]));
                if is_below(key, &node.right_bound) {
                    assert(covers(bounds(nodes@, row), i, key@));
                    return at;
                }
                assert(link_at(nodes@, row, i));
                assert(right_of(nodes@[row[i]]) == node.right);
                match node.right {
                    NodeCellRef::Slot(s) => {
                        proof {
                            assert(i + 1 < row.len());
                            assert(0 <= row[i + 1] < nodes@.len());
                            assert(nodes.len() == nodes@.len());
                            assert(nodes@[row[i + 1]] is Internal);
                            assert(live_slot(nodes@, NodeCellRef::Slot(s), 0) == Some(row[i + 1]));
                            i = i + 1;
                            n = 0;
                        }
                        at = s;
                    },
                    _ => {
                        assert(i + 1 == row.len());
                        assert(false);
                        return at;
                    },
                }
            },
            _ => {
                assert(nodes@[row[i]] is Internal);
                assert(false);
                return at;
            },
        }
    }
}

/// The node at `j` of a row is emptied and leads to its right neighbour.
pub open spec fn gone_at(nodes: Seq<NodeData>, row: Seq<int>, j: int) -> bool {
    nodes[row[j]] is Empty && nodes[row[j]]->Empty_0.right == slot_ref(row[j + 1])
}

pub proof fn lemma_emptied_frame(before: Seq<NodeData>, after: Seq<NodeData>, row: Seq<int>, r: int)
    requires
        forall|j: int| 0 <= j < row.len() ==> before[#[trigger] row[j]] == after[row[j]],
    ensures
        emptied_in(before, row, r) == emptied_in(after, row, r),
    decreases row.len(),
{
    if row.len() > 0 && r > 0 {
        let m = ptrs_of(before[row[0]]).len() as int;
        assert(before[row[0]] == after[row[0]]);
        assert forall|j: int| 0 <= j < row.drop_first().len() implies before[#[trigger] row.drop_first()[j]]
            == after[row.drop_first()[j]] by {
            assert(row.drop_first()[j] == row[j + 1]);
        }
        lemma_emptied_frame(before, after, row.drop_first(), r - m);
    }
}

/// The second node of a row as a right neighbour.
pub proof fn lemma_second_node(
    nodes: Seq<NodeData>,
    page_size: int,
    row: Seq<int>,
    kids: Seq<int>,
    b: Seq<Option<Seq<u8>>>,
)
    requires
        row_over(nodes, page_size, row, kids, b),
        bounds_ok(b),
        row.len() > 1,
        nodes.len() <= usize::MAX,
    ensures
        ({
            let n = nodes[row[0]];
            let r = nodes[row[1]];
            &&& bound_of(n) is Some
            &&& right_of(n) == slot_ref(row[1])
            &&& 0 <= row[1] < nodes.len()
            &&& row[1] != row[0]
            &&& r is Internal
            &&& ascending(keys_of(r))
            &&& ptrs_of(r).len() == keys_of(r).len() + 1
            &&& below(bound_of(n)->0, bound_of(r))
        }),
{
    lemma_first_node(nodes, page_size, row, kids, b);
    lemma_row_tail(nodes, page_size, row, kids, b);
    let m = ptrs_of(nodes[row[0]]).len() as int;
    let rest = row.drop_first();
    assert(rest[0] == row[1]);
    lemma_first_node(nodes, page_size, rest, kids.skip(m), b.skip(m));
    let m1 = ptrs_of(nodes[row[1]]).len() as int;
    let b1 = b.skip(m).take(m1);
    assert forall|x: int, y: int| 0 <= x < y < b1.len() implies bound_lt(
        #[trigger] b1[x],
        #[trigger] b1[y],
    ) by {
        assert(bound_lt(b[m + x], b[m + y]));
    }
    lemma_node_keys_ascend(nodes[row[1]], kids.skip(m).take(m1), b1);
    assert(link_at(nodes, row, 0));
    assert(right_of(nodes[row[0]]) == slot_ref(row[1]));
    assert(bound_lt(bounds(nodes, row)[0], bounds(nodes, row)[1]));
}

/// A key under a child is a key under the node that holds the child.
pub proof fn lemma_covers_parent(
    b: Seq<Option<Seq<u8>>>,
    above: Seq<Option<Seq<u8>>>,
    c: int,
    a: int,
    m: int,
    j: int,
    key: Seq<u8>,
)
    requires
        bounds_ok(b),
        covers(b, j, key),
        0 <= a <= j < a + m <= b.len(),
        0 <= c < above.len(),
        above[c] == b[a + m - 1],
        c > 0 ==> a > 0 && above[c - 1] == b[a - 1],
    ensures
        covers(above, c, key),
{
    broadcast use group_key_order;

    if j < a + m - 1 {
        assert(bound_lt(b[j], b[a + m - 1]));
    }
    if c > 0 && a < j {
        assert(bound_lt(b[a - 1], b[j - 1]));
    }
}

/// Which child a key lies under, told by the keys of the node.
pub proof fn lemma_child_pos(
    n: NodeData,
    kids: Seq<int>,
    b: Seq<Option<Seq<u8>>>,
    t: int,
    key: Seq<u8>,
    pos: int,
)
    requires
        bounds_ok(b),
        ptrs_of(n).len() <= kids.len(),
        kids.len() == b.len(),
        node_over(n, kids.take(ptrs_of(n).len() as int), b.take(ptrs_of(n).len() as int)),
        covers(b, t, key),
        is_upper_bound(keys_of(n), key, pos),
        below(key, bound_of(n)),
    ensures
        pos == t,
        t < ptrs_of(n).len(),
{
    broadcast use group_key_order;

    let m = ptrs_of(n).len() as int;
    let bm = b.take(m);
    assert(bm.last() == b[m - 1]);
    if t >= m {
        if t > m {
            assert(bound_lt(b[m - 1], b[t - 1]));
        }
        assert(false);
    }
    if pos > t {
        assert(key_le(keys_of(n)[t], key));
        assert(Some(keys_of(n)[t]) == bm[t]);
        assert(bm[t] == b[t]);
    } else if pos < t {
        assert(key_lt(key, keys_of(n)[pos]));
        assert(Some(keys_of(n)[pos]) == bm[pos]);
        assert(bm[pos] == b[pos]);
        if pos < t - 1 {
            assert(bound_lt(b[pos], b[t - 1]));
        }
    }
}

} // verus!
