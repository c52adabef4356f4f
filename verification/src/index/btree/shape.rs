//! The shape of a tree: rows of node slots, the leaves first, and how each row indexes the one
//! below it.
use super::node::{
    below, bound_lt, bound_of, keys_of, ptrs_of, right_of, NodeCellRef, NodeData,
};
use crate::index::key::{ascending, key_le, key_lt};
use vstd::prelude::*;

verus! {

pub open spec fn slot_ref(slot: int) -> NodeCellRef {
    NodeCellRef::Slot(slot as usize)
}

/// The right bounds of the nodes of a row.
pub open spec fn bounds(nodes: Seq<NodeData>, row: Seq<int>) -> Seq<Option<Seq<u8>>> {
    Seq::new(row.len(), |i: int| bound_of(nodes[row[i]]))
}

/// Bounds of a row from left to right: they ascend, and only the last node is unbounded.
pub open spec fn bounds_ok(b: Seq<Option<Seq<u8>>>) -> bool {
    &&& b.len() >= 1
    &&& b.last() is None
    &&& forall|i: int, j: int| 0 <= i < j < b.len() ==> bound_lt(#[trigger] b[i], #[trigger] b[j])
}

/// The node at `i` may hold `key` as far as the nodes to its left go.
pub open spec fn reaches(b: Seq<Option<Seq<u8>>>, i: int, key: Seq<u8>) -> bool {
    i == 0 || (b[i - 1] matches Some(k) && key_le(k, key))
}

/// `key` lies in the range of the node at `i`.
pub open spec fn covers(b: Seq<Option<Seq<u8>>>, i: int, key: Seq<u8>) -> bool {
    &&& 0 <= i < b.len()
    &&& reaches(b, i, key)
    &&& below(key, b[i])
}

pub open spec fn in_arena(nodes: Seq<NodeData>, row: Seq<int>) -> bool {
    forall|i: int| 0 <= i < row.len() ==> 0 <= #[trigger] row[i] < nodes.len()
}

/// The node at `i` refers to its right neighbour, and the last one to none.
pub open spec fn link_at(nodes: Seq<NodeData>, row: Seq<int>, i: int) -> bool {
    right_of(nodes[row[i]]) == (if i + 1 < row.len() {
        slot_ref(row[i + 1])
    } else {
        NodeCellRef::Nil
    })
}

/// Each node of a row refers to its right neighbour.
pub open spec fn linked(nodes: Seq<NodeData>, row: Seq<int>) -> bool {
    forall|i: int| 0 <= i < row.len() ==> #[trigger] link_at(nodes, row, i)
}

pub open spec fn row_ok(nodes: Seq<NodeData>, row: Seq<int>, leaf: bool) -> bool {
    &&& row.len() >= 1
    &&& in_arena(nodes, row)
    &&& row.no_duplicates()
    &&& linked(nodes, row)
    &&& bounds_ok(bounds(nodes, row))
    &&& forall|i: int|
        0 <= i < row.len() ==> if leaf {
            (#[trigger] nodes[row[i]]) is External
        } else {
            nodes[row[i]] is Internal
        }
}

/// The node refers to exactly these children, its keys are their bounds but for the last one,
/// whose bound is the node's own.
pub open spec fn node_over(n: NodeData, kids: Seq<int>, b: Seq<Option<Seq<u8>>>) -> bool {
    &&& n is Internal
    &&& ptrs_of(n).len() == kids.len()
    &&& b.len() == kids.len()
    &&& keys_of(n).len() + 1 == kids.len()
    &&& forall|j: int| 0 <= j < kids.len() ==> #[trigger] ptrs_of(n)[j] == slot_ref(kids[j])
    &&& forall|j: int| 0 <= j < keys_of(n).len() ==> Some(#[trigger] keys_of(n)[j]) == b[j]
    &&& bound_of(n) == b.last()
}

/// The nodes of a row refer, from left to right, to the nodes `kids` with right bounds `b`.
pub open spec fn over(
    nodes: Seq<NodeData>,
    row: Seq<int>,
    kids: Seq<int>,
    b: Seq<Option<Seq<u8>>>,
) -> bool
    decreases row.len(),
{
    if row.len() == 0 {
        kids.len() == 0 && b.len() == 0
    } else {
        let m = ptrs_of(nodes[row[0]]).len() as int;
        &&& m <= kids.len()
        &&& kids.len() == b.len()
        &&& node_over(nodes[row[0]], kids.take(m), b.take(m))
        &&& over(nodes, row.drop_first(), kids.skip(m), b.skip(m))
    }
}

/// The row `h` is over the row below it.
pub open spec fn over_below(nodes: Seq<NodeData>, rows: Seq<Seq<int>>, h: int) -> bool {
    over(nodes, rows[h], rows[h - 1], bounds(nodes, rows[h - 1]))
}

/// The keys of a row's nodes, from left to right.
pub open spec fn flat(nodes: Seq<NodeData>, row: Seq<int>) -> Seq<Seq<u8>>
    decreases row.len(),
{
    if row.len() == 0 {
        Seq::empty()
    } else {
        keys_of(nodes[row[0]]) + flat(nodes, row.drop_first())
    }
}

/// The leaf page at `i`: its keys ascend and lie in the page's range, a page of several is not
/// empty, and it refers to its left neighbour.
pub open spec fn leaf_at(nodes: Seq<NodeData>, row: Seq<int>, page_size: int, i: int) -> bool {
    let keys = keys_of(nodes[row[i]]);
    &&& ascending(keys)
    &&& keys.len() <= page_size
    &&& row.len() > 1 ==> keys.len() >= 1
    &&& forall|j: int|
        0 <= j < keys.len() ==> covers(bounds(nodes, row), i, #[trigger] keys[j])
    &&& nodes[row[i]]->External_0.prev == (if i > 0 {
        slot_ref(row[i - 1])
    } else {
        NodeCellRef::Nil
    })
}

/// All leaf pages of a row are as they should be.
pub open spec fn leaves_ok(nodes: Seq<NodeData>, row: Seq<int>, page_size: int) -> bool {
    forall|i: int| 0 <= i < row.len() ==> #[trigger] leaf_at(nodes, row, page_size, i)
}

/// No slot stands in two places.
pub open spec fn apart(rows: Seq<Seq<int>>) -> bool {
    forall|g: int, i: int, h: int, j: int|
        #![trigger rows[g][i], rows[h][j]]
        0 <= g < rows.len() && 0 <= h < rows.len() && 0 <= i < rows[g].len() && 0 <= j
            < rows[h].len() && rows[g][i] == rows[h][j] ==> g == h && i == j
}

pub open spec fn sized(nodes: Seq<NodeData>, row: Seq<int>, page_size: int) -> bool {
    forall|i: int| 0 <= i < row.len() ==> keys_of(nodes[#[trigger] row[i]]).len() <= page_size
}

/// The rows describe a whole search tree: the last row is the root, each row indexes the one
/// before it, and the first row is the leaves.
#[verifier::opaque]
pub open spec fn shape_ok(nodes: Seq<NodeData>, rows: Seq<Seq<int>>, page_size: int) -> bool {
    &&& rows.len() >= 1
    &&& rows.last().len() == 1
    &&& apart(rows)
    &&& forall|h: int| 0 <= h < rows.len() ==> row_ok(nodes, #[trigger] rows[h], h == 0)
    &&& forall|h: int| 0 < h < rows.len() ==> sized(nodes, #[trigger] rows[h], page_size)
    &&& forall|h: int| 0 < h < rows.len() ==> #[trigger] over_below(nodes, rows, h)
    &&& leaves_ok(nodes, rows[0], page_size)
}

/// What the shape says of one row.
pub proof fn lemma_shape_row(nodes: Seq<NodeData>, rows: Seq<Seq<int>>, page_size: int, h: int)
    requires
        shape_ok(nodes, rows, page_size),
        0 <= h < rows.len(),
    ensures
        row_ok(nodes, rows[h], h == 0),
        h > 0 ==> sized(nodes, rows[h], page_size),
        h > 0 ==> row_ok(nodes, rows[h - 1], h - 1 == 0),
        h > 0 ==> over(nodes, rows[h], rows[h - 1], bounds(nodes, rows[h - 1])),
        h == 0 ==> leaves_ok(nodes, rows[0], page_size),
{
    reveal(shape_ok);
    if h > 0 {
        assert(over_below(nodes, rows, h));
    }
}

/// The leaf at `i` as a neighbour of other leaves.
pub open spec fn leaf_link(nodes: Seq<NodeData>, row: Seq<int>, i: int) -> bool {
    &&& 0 <= row[i] < nodes.len()
    &&& nodes[row[i]] is External
    &&& nodes[row[i]]->External_0.next == (if i + 1 < row.len() {
        slot_ref(row[i + 1])
    } else {
        NodeCellRef::Nil
    })
    &&& nodes[row[i]]->External_0.prev == (if i > 0 {
        slot_ref(row[i - 1])
    } else {
        NodeCellRef::Nil
    })
    &&& row.len() > 1 ==> keys_of(nodes[row[i]]).len() >= 1
}

pub proof fn lemma_leaf_link(nodes: Seq<NodeData>, rows: Seq<Seq<int>>, page_size: int, i: int)
    requires
        shape_ok(nodes, rows, page_size),
        0 <= i < rows[0].len(),
    ensures
        leaf_link(nodes, rows[0], i),
        rows[0].no_duplicates(),
        forall|j: int| 0 <= j < rows[0].len() ==> 0 <= #[trigger] rows[0][j] < nodes.len(),
{
    reveal(shape_ok);
    let row = rows[0];
    assert(row_ok(nodes, row, true));
    assert(0 <= row[i] < nodes.len());
    assert(nodes[row[i]] is External);
    assert(link_at(nodes, row, i));
    assert(leaf_at(nodes, row, page_size, i));
}

/// How many children the nodes of a row before the one at `i` have.
pub open spec fn kids_before(nodes: Seq<NodeData>, row: Seq<int>, i: int) -> int
    decreases row.len(),
{
    if i <= 0 || row.len() == 0 {
        0
    } else {
        ptrs_of(nodes[row[0]]).len() + kids_before(nodes, row.drop_first(), i - 1)
    }
}

/// Where the children of the node at `i` stand in the row below.
pub proof fn lemma_over_at(
    nodes: Seq<NodeData>,
    row: Seq<int>,
    kids: Seq<int>,
    b: Seq<Option<Seq<u8>>>,
    i: int,
) -> (a: int)
    requires
        over(nodes, row, kids, b),
        0 <= i < row.len(),
    ensures
        ({
            let m = ptrs_of(nodes[row[i]]).len() as int;
            &&& 0 <= a
            &&& m >= 1
            &&& a + m <= kids.len()
            &&& kids.len() == b.len()
            &&& node_over(nodes[row[i]], kids.subrange(a, a + m), b.subrange(a, a + m))
            &&& i == 0 ==> a == 0
            &&& i > 0 ==> a > 0 && bound_of(nodes[row[i - 1]]) == b[a - 1]
        }),
        a == kids_before(nodes, row, i),
    decreases row.len(),
{
    let m0 = ptrs_of(nodes[row[0]]).len() as int;
    if i == 0 {
        assert(kids.take(m0) =~= kids.subrange(0, m0));
        assert(b.take(m0) =~= b.subrange(0, m0));
        0
    } else {
        let rest = lemma_over_at(nodes, row.drop_first(), kids.skip(m0), b.skip(m0), i - 1);
        let m = ptrs_of(nodes[row[i]]).len() as int;
        let a = m0 + rest;
        assert(row.drop_first()[i - 1] == row[i]);
        assert(kids.skip(m0).subrange(rest, rest + m) =~= kids.subrange(a, a + m));
        assert(b.skip(m0).subrange(rest, rest + m) =~= b.subrange(a, a + m));
        if i == 1 {
            assert(b.take(m0).last() == b[m0 - 1]);
        } else {
            assert(row.drop_first()[i - 2] == row[i - 1]);
        }
        a
    }
}

/// `over` looks at no node outside the row.
pub proof fn lemma_over_frame(
    before: Seq<NodeData>,
    after: Seq<NodeData>,
    row: Seq<int>,
    kids: Seq<int>,
    b: Seq<Option<Seq<u8>>>,
)
    requires
        over(before, row, kids, b),
        forall|i: int| 0 <= i < row.len() ==> before[#[trigger] row[i]] == after[row[i]],
    ensures
        over(after, row, kids, b),
    decreases row.len(),
{
    if row.len() > 0 {
        let m = ptrs_of(before[row[0]]).len() as int;
        assert forall|i: int| 0 <= i < row.drop_first().len() implies before[#[trigger] row.drop_first()[i]]
            == after[row.drop_first()[i]] by {
            assert(row.drop_first()[i] == row[i + 1]);
        }
        lemma_over_frame(before, after, row.drop_first(), kids.skip(m), b.skip(m));
    }
}

/// A row over children splits, with the children, in front of any of its nodes.
pub proof fn lemma_over_split(
    nodes: Seq<NodeData>,
    row: Seq<int>,
    kids: Seq<int>,
    b: Seq<Option<Seq<u8>>>,
    i: int,
) -> (a: int)
    requires
        over(nodes, row, kids, b),
        0 <= i <= row.len(),
    ensures
        0 <= a <= kids.len(),
        kids.len() == b.len(),
        over(nodes, row.take(i), kids.take(a), b.take(a)),
        over(nodes, row.skip(i), kids.skip(a), b.skip(a)),
        i == 0 ==> a == 0,
        0 < i ==> 0 < a && bound_of(nodes[row[i - 1]]) == b[a - 1],
        i < row.len() ==> a < kids.len(),
        i < row.len() ==> ({
            let m = ptrs_of(nodes[row[i]]).len() as int;
            &&& 1 <= m
            &&& a + m <= kids.len()
            &&& node_over(nodes[row[i]], kids.subrange(a, a + m), b.subrange(a, a + m))
        }),
    decreases i,
{
    if i == 0 {
        assert(row.take(0) =~= Seq::<int>::empty());
        assert(row.skip(0) =~= row);
        assert(kids.skip(0) =~= kids);
        assert(b.skip(0) =~= b);
        assert(kids.take(0) =~= Seq::<int>::empty());
        if row.len() > 0 {
            let m = ptrs_of(nodes[row[0]]).len() as int;
            assert(kids.take(m) =~= kids.subrange(0, m));
            assert(b.take(m) =~= b.subrange(0, m));
        }
        0
    } else {
        let m0 = ptrs_of(nodes[row[0]]).len() as int;
        let rest = lemma_over_split(nodes, row.drop_first(), kids.skip(m0), b.skip(m0), i - 1);
        let a = m0 + rest;
        assert(row.take(i).drop_first() =~= row.drop_first().take(i - 1));
        assert(row.drop_first().skip(i - 1) =~= row.skip(i));
        assert(kids.skip(m0).skip(rest) =~= kids.skip(a));
        assert(b.skip(m0).skip(rest) =~= b.skip(a));
        assert(kids.take(a).take(m0) =~= kids.take(m0));
        assert(b.take(a).take(m0) =~= b.take(m0));
        assert(kids.take(a).skip(m0) =~= kids.skip(m0).take(rest));
        assert(b.take(a).skip(m0) =~= b.skip(m0).take(rest));
        assert(row.take(i)[0] == row[0]);
        if i == 1 {
            assert(b.take(m0).last() == b[m0 - 1]);
        } else {
            assert(row.drop_first()[i - 2] == row[i - 1]);
        }
        if i < row.len() {
            let m = ptrs_of(nodes[row[i]]).len() as int;
            assert(row.drop_first()[i - 1] == row[i]);
            assert(kids.skip(m0).subrange(rest, rest + m) =~= kids.subrange(a, a + m));
            assert(b.skip(m0).subrange(rest, rest + m) =~= b.subrange(a, a + m));
        }
        a
    }
}

/// Two rows over their children join to one.
pub proof fn lemma_over_join(
    nodes: Seq<NodeData>,
    row1: Seq<int>,
    row2: Seq<int>,
    kids1: Seq<int>,
    kids2: Seq<int>,
    b1: Seq<Option<Seq<u8>>>,
    b2: Seq<Option<Seq<u8>>>,
)
    requires
        over(nodes, row1, kids1, b1),
        over(nodes, row2, kids2, b2),
    ensures
        over(nodes, row1 + row2, kids1 + kids2, b1 + b2),
    decreases row1.len(),
{
    if row1.len() == 0 {
        assert(row1 + row2 =~= row2);
        assert(kids1 + kids2 =~= kids2);
        assert(b1 + b2 =~= b2);
    } else {
        let m = ptrs_of(nodes[row1[0]]).len() as int;
        lemma_over_len(nodes, row2, kids2, b2);
        lemma_over_join(
            nodes,
            row1.drop_first(),
            row2,
            kids1.skip(m),
            kids2,
            b1.skip(m),
            b2,
        );
        assert((row1 + row2).drop_first() =~= row1.drop_first() + row2);
        assert((kids1 + kids2).take(m) =~= kids1.take(m));
        assert((b1 + b2).take(m) =~= b1.take(m));
        assert((kids1 + kids2).skip(m) =~= kids1.skip(m) + kids2);
        assert((b1 + b2).skip(m) =~= b1.skip(m) + b2);
    }
}

pub proof fn lemma_over_len(
    nodes: Seq<NodeData>,
    row: Seq<int>,
    kids: Seq<int>,
    b: Seq<Option<Seq<u8>>>,
)
    requires
        over(nodes, row, kids, b),
    ensures
        kids.len() == b.len(),
        row.len() == 0 <==> kids.len() == 0,
{
}

/// One node over its children is a row over them.
pub proof fn lemma_over_one(
    nodes: Seq<NodeData>,
    slot: int,
    kids: Seq<int>,
    b: Seq<Option<Seq<u8>>>,
)
    requires
        node_over(nodes[slot], kids, b),
    ensures
        over(nodes, seq![slot], kids, b),
{
    let row = seq![slot];
    assert(row.drop_first() =~= Seq::<int>::empty());
    assert(kids.take(kids.len() as int) =~= kids);
    assert(b.take(kids.len() as int) =~= b);
    assert(kids.skip(kids.len() as int) =~= Seq::<int>::empty());
    assert(over(nodes, row.drop_first(), kids.skip(kids.len() as int), b.skip(kids.len() as int)));
}

/// The keys of an inner node ascend, as the bounds of its children do.
pub proof fn lemma_node_keys_ascend(n: NodeData, kids: Seq<int>, b: Seq<Option<Seq<u8>>>)
    requires
        node_over(n, kids, b),
        forall|i: int, j: int|
            0 <= i < j < b.len() ==> bound_lt(#[trigger] b[i], #[trigger] b[j]),
    ensures
        ascending(keys_of(n)),
{
    assert forall|i: int, j: int| 0 <= i < j < keys_of(n).len() implies key_lt(
        #[trigger] keys_of(n)[i],
        #[trigger] keys_of(n)[j],
    ) by {
        assert(bound_lt(b[i], b[j]));
    }
}

/// A run of keys of a row splits where the row does.
pub proof fn lemma_flat_split(nodes: Seq<NodeData>, row: Seq<int>, i: int)
    requires
        0 <= i <= row.len(),
    ensures
        flat(nodes, row) == flat(nodes, row.take(i)) + flat(nodes, row.skip(i)),
    decreases i,
{
    if i == 0 {
        assert(row.skip(0) =~= row);
        assert(flat(nodes, row.take(0)) =~= Seq::empty());
        assert(flat(nodes, row) =~= Seq::empty() + flat(nodes, row));
    } else {
        lemma_flat_split(nodes, row.drop_first(), i - 1);
        assert(row.take(i).drop_first() =~= row.drop_first().take(i - 1));
        assert(row.drop_first().skip(i - 1) =~= row.skip(i));
        assert(row.take(i)[0] == row[0]);
        let k = keys_of(nodes[row[0]]);
        assert(k + (flat(nodes, row.drop_first().take(i - 1)) + flat(nodes, row.skip(i))) =~= (k
            + flat(nodes, row.drop_first().take(i - 1))) + flat(nodes, row.skip(i)));
    }
}

/// `flat` looks at no node outside the row.
pub proof fn lemma_flat_frame(before: Seq<NodeData>, after: Seq<NodeData>, row: Seq<int>)
    requires
        forall|i: int|
            0 <= i < row.len() ==> keys_of(before[#[trigger] row[i]]) == keys_of(after[row[i]]),
    ensures
        flat(before, row) == flat(after, row),
    decreases row.len(),
{
    if row.len() > 0 {
        assert forall|i: int| 0 <= i < row.drop_first().len() implies keys_of(
            before[#[trigger] row.drop_first()[i]],
        ) == keys_of(after[row.drop_first()[i]]) by {
            assert(row.drop_first()[i] == row[i + 1]);
        }
        lemma_flat_frame(before, after, row.drop_first());
    }
}

} // verus!
