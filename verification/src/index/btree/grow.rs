//! Adding children to inner nodes, and keys to trees.
use super::external::same_but_nodes;
use super::node::{
    bound_lt, bound_of, keys_of, pad, ptrs_of, right_of, InView, NodeCellRef, NodeData,
};
use super::shape::{
    bounds, bounds_ok, in_arena, lemma_over_frame, lemma_over_join, lemma_over_one, link_at, linked,
    node_over, over, row_ok, sized, slot_ref,
};
use super::tree::BPlusTree;
use crate::index::key::{group_key_order, EntryKey};
use vstd::prelude::*;

verus! {

/// Keys, references and bound of an inner node over its children.
pub open spec fn parts_over(
    keys: Seq<Seq<u8>>,
    ptrs: Seq<NodeCellRef>,
    bound: Option<Seq<u8>>,
    kids: Seq<int>,
    b: Seq<Option<Seq<u8>>>,
) -> bool {
    &&& ptrs.len() == kids.len()
    &&& b.len() == kids.len()
    &&& keys.len() + 1 == kids.len()
    &&& forall|j: int| 0 <= j < kids.len() ==> #[trigger] ptrs[j] == slot_ref(kids[j])
    &&& forall|j: int| 0 <= j < keys.len() ==> Some(#[trigger] keys[j]) == b[j]
    &&& bound == b.last()
}

pub proof fn lemma_parts(n: NodeData, kids: Seq<int>, b: Seq<Option<Seq<u8>>>)
    requires
        n is Internal,
    ensures
        node_over(n, kids, b) <==> parts_over(keys_of(n), ptrs_of(n), bound_of(n), kids, b),
{
}

/// A child that comes in with its key.
proof fn lemma_parts_insert(
    keys: Seq<Seq<u8>>,
    ptrs: Seq<NodeCellRef>,
    bound: Option<Seq<u8>>,
    kids: Seq<int>,
    b: Seq<Option<Seq<u8>>>,
    pos: int,
    p: int,
    key: Seq<u8>,
    child: int,
)
    requires
        parts_over(keys, ptrs, bound, kids, b),
        0 <= pos <= keys.len(),
        0 <= p <= 1,
    ensures
        parts_over(
            keys.insert(pos, key),
            ptrs.insert(pos + p, slot_ref(child)),
            bound,
            kids.insert(pos + p, child),
            b.insert(pos, Some(key)),
        ),
{
    let k2 = keys.insert(pos, key);
    let p2 = ptrs.insert(pos + p, slot_ref(child));
    let kids2 = kids.insert(pos + p, child);
    let b2 = b.insert(pos, Some(key));
    assert forall|j: int| 0 <= j < kids2.len() implies #[trigger] p2[j] == slot_ref(kids2[j]) by {
        if j < pos + p {
            assert(p2[j] == ptrs[j]);
        } else if j > pos + p {
            assert(p2[j] == ptrs[j - 1]);
        }
    }
    assert forall|j: int| 0 <= j < k2.len() implies Some(#[trigger] k2[j]) == b2[j] by {
        if j < pos {
            assert(k2[j] == keys[j]);
        } else if j > pos {
            assert(k2[j] == keys[j - 1]);
        }
    }
    assert(b2.last() == b.last());
}

/// Cutting a node at a key gives two nodes over the two runs of children.
proof fn lemma_parts_cut(
    keys: Seq<Seq<u8>>,
    ptrs: Seq<NodeCellRef>,
    bound: Option<Seq<u8>>,
    kids: Seq<int>,
    b: Seq<Option<Seq<u8>>>,
    mid: int,
)
    requires
        parts_over(keys, ptrs, bound, kids, b),
        0 <= mid < keys.len(),
    ensures
        parts_over(
            keys.take(mid),
            ptrs.take(mid + 1),
            Some(keys[mid]),
            kids.take(mid + 1),
            b.take(mid + 1),
        ),
        parts_over(
            keys.skip(mid + 1),
            ptrs.skip(mid + 1),
            bound,
            kids.skip(mid + 1),
            b.skip(mid + 1),
        ),
        Some(keys[mid]) == b[mid],
{
    assert forall|j: int| 0 <= j < mid + 1 implies #[trigger] ptrs.take(mid + 1)[j] == slot_ref(
        kids.take(mid + 1)[j],
    ) by {
        assert(ptrs[j] == slot_ref(kids[j]));
    }
    assert forall|j: int| 0 <= j < mid implies Some(#[trigger] keys.take(mid)[j]) == b.take(mid + 1)[j] by {
        assert(Some(keys[j]) == b[j]);
    }
    assert(Some(keys[mid]) == b[mid]);
    assert forall|j: int| 0 <= j < kids.len() - mid - 1 implies #[trigger] ptrs.skip(mid + 1)[j]
        == slot_ref(kids.skip(mid + 1)[j]) by {
        assert(ptrs[mid + 1 + j] == slot_ref(kids[mid + 1 + j]));
    }
    assert forall|j: int| 0 <= j < keys.len() - mid - 1 implies Some(
        #[trigger] keys.skip(mid + 1)[j],
    ) == b.skip(mid + 1)[j] by {
        assert(Some(keys[mid + 1 + j]) == b[mid + 1 + j]);
    }
}

/// A row stays a row when one of its nodes gets other keys and children but keeps its bound and
/// its right neighbour.
proof fn lemma_row_kept(before: Seq<NodeData>, after: Seq<NodeData>, row: Seq<int>, i: int)
    requires
        row_ok(before, row, false),
        0 <= i < row.len(),
        after.len() >= before.len(),
        forall|x: int| 0 <= x < before.len() && x != row[i] ==> #[trigger] after[x] == before[x],
        after[row[i]] is Internal,
        bound_of(after[row[i]]) == bound_of(before[row[i]]),
        right_of(after[row[i]]) == right_of(before[row[i]]),
    ensures
        row_ok(after, row, false),
        bounds(after, row) == bounds(before, row),
{
    assert(bounds(after, row) =~= bounds(before, row));
    assert forall|j: int| 0 <= j < row.len() implies (#[trigger] after[row[j]]) is Internal by {
        assert(before[row[j]] is Internal);
    }
    assert forall|j: int| 0 <= j < row.len() implies #[trigger] link_at(after, row, j) by {
        assert(link_at(before, row, j));
        assert(0 <= row[j] < before.len());
    }
}

/// A node of a row of leaves, or of inner nodes.
pub open spec fn is_kind(n: NodeData, leaf: bool) -> bool {
    if leaf {
        n is External
    } else {
        n is Internal
    }
}

/// Two nodes of one kind with the same bound and the same right neighbour.
pub open spec fn same_place(a: NodeData, b: NodeData) -> bool {
    &&& a is External == b is External
    &&& a is Internal == b is Internal
    &&& bound_of(a) == bound_of(b)
    &&& right_of(a) == right_of(b)
}

/// A row with a node split in two.
pub proof fn lemma_row_cut(
    before: Seq<NodeData>,
    after: Seq<NodeData>,
    row: Seq<int>,
    i: int,
    n: int,
    pivot: Seq<u8>,
    leaf: bool,
)
    requires
        row_ok(before, row, leaf),
        0 <= i < row.len(),
        n == before.len(),
        after.len() == n + 1,
        n <= usize::MAX,
        forall|x: int|
            0 <= x < n && x != row[i] ==> same_place(before[x], #[trigger] after[x]),
        is_kind(after[row[i]], leaf),
        is_kind(after[n], leaf),
        bound_of(after[row[i]]) == Some(pivot),
        bound_of(after[n]) == bound_of(before[row[i]]),
        right_of(after[row[i]]) == slot_ref(n),
        right_of(after[n]) == right_of(before[row[i]]),
        i > 0 ==> bound_lt(bound_of(before[row[i - 1]]), Some(pivot)),
        bound_lt(Some(pivot), bound_of(before[row[i]])),
    ensures
        row_ok(after, row.insert(i + 1, n), leaf),
        bounds(after, row.insert(i + 1, n)) == bounds(before, row).insert(i, Some(pivot)),
{
    let row2 = row.insert(i + 1, n);
    let b = bounds(before, row);
    let b2 = b.insert(i, Some(pivot));
    assert forall|j: int| 0 <= j < row2.len() implies 0 <= #[trigger] row2[j] < after.len()
        && is_kind(after[row2[j]], leaf) && row2[j] == (if j <= i {
        row[j]
    } else if j == i + 1 {
        n
    } else {
        row[j - 1]
    }) by {
        if j <= i {
            assert(is_kind(before[row[j]], leaf));
            assert(0 <= row[j] < n);
            assert(j < i ==> row[j] != row[i]);
        } else if j > i + 1 {
            assert(is_kind(before[row[j - 1]], leaf));
            assert(0 <= row[j - 1] < n);
            assert(row[j - 1] != row[i]);
        }
    }
    assert(row2.no_duplicates());
    assert(bounds(after, row2) =~= b2) by {
        assert forall|j: int| 0 <= j < row2.len() implies bounds(after, row2)[j] == b2[j] by {
            assert(0 <= row2[j] < after.len());
        }
    }
    assert(linked(after, row2)) by {
        assert forall|j: int| 0 <= j < row2.len() implies #[trigger] link_at(after, row2, j) by {
            if j + 1 < row2.len() {
                assert(0 <= row2[j + 1] < after.len());
            }
            if j < i {
                assert(link_at(before, row, j));
                assert(row[j] == row2[j]);
                assert(row[j] != row[i]);
                assert(row2[j + 1] == row[j + 1]);
            } else if j == i + 1 {
                assert(link_at(before, row, i));
                assert(right_of(before[row[i]]) == right_of(after[n]));
            } else if j > i + 1 {
                assert(link_at(before, row, j - 1));
                assert(row[j - 1] == row2[j]);
                assert(row[j - 1] != row[i]);
            }
        }
    }
    assert(bounds_ok(b2)) by {
        broadcast use group_key_order;

        assert(b2.last() == b.last());
        assert forall|x: int, y: int| 0 <= x < y < b2.len() implies bound_lt(
            #[trigger] b2[x],
            #[trigger] b2[y],
        ) by {
            let ox = if x < i { x } else { x - 1 };
            let oy = if y < i { y } else { y - 1 };
            assert(b[i] == bound_of(before[row[i]]));
            if i > 0 {
                assert(b[i - 1] == bound_of(before[row[i - 1]]));
            }
            if x != i && y != i {
                assert(b2[x] == b[ox] && b2[y] == b[oy]);
            } else if x == i {
                assert(b2[y] == b[oy]);
                if oy > i {
                    assert(bound_lt(b[i], b[oy]));
                }
            } else {
                assert(b2[x] == b[x]);
                if x < i - 1 {
                    assert(bound_lt(b[x], b[i - 1]));
                }
            }
        }
    }
}

/// Three runs of nodes over their children, of which the middle one changed.
proof fn lemma_over_replace(
    before: Seq<NodeData>,
    after: Seq<NodeData>,
    row: Seq<int>,
    i: int,
    kids: Seq<int>,
    b: Seq<Option<Seq<u8>>>,
    a: int,
    mrow: Seq<int>,
    mkids: Seq<int>,
    mb: Seq<Option<Seq<u8>>>,
)
    requires
        0 <= i < row.len(),
        row.no_duplicates(),
        in_arena(before, row),
        0 <= a <= kids.len(),
        kids.len() == b.len(),
        over(before, row.take(i), kids.take(a), b.take(a)),
        over(before, row.skip(i), kids.skip(a), b.skip(a)),
        after.len() >= before.len(),
        forall|x: int| 0 <= x < before.len() && x != row[i] ==> #[trigger] after[x] == before[x],
        over(after, mrow, mkids, mb),
    ensures
        ({
            let m = ptrs_of(before[row[i]]).len() as int;
            over(
                after,
                row.take(i) + mrow + row.skip(i + 1),
                kids.take(a) + mkids + kids.skip(a + m),
                b.take(a) + mb + b.skip(a + m),
            )
        }),
{
    let m = ptrs_of(before[row[i]]).len() as int;
    assert(row.skip(i)[0] == row[i]);
    assert(row.skip(i).drop_first() =~= row.skip(i + 1));
    assert(kids.skip(a).skip(m) =~= kids.skip(a + m));
    assert(b.skip(a).skip(m) =~= b.skip(a + m));
    assert forall|j: int| 0 <= j < row.take(i).len() implies before[#[trigger] row.take(i)[j]]
        == after[row.take(i)[j]] by {
        assert(row.take(i)[j] == row[j]);
        assert(row[j] != row[i]);
    }
    lemma_over_frame(before, after, row.take(i), kids.take(a), b.take(a));
    assert forall|j: int| 0 <= j < row.skip(i + 1).len() implies before[#[trigger] row.skip(i + 1)[j]]
        == after[row.skip(i + 1)[j]] by {
        assert(row.skip(i + 1)[j] == row[i + 1 + j]);
        assert(row[i + 1 + j] != row[i]);
    }
    lemma_over_frame(before, after, row.skip(i + 1), kids.skip(a + m), b.skip(a + m));
    lemma_over_join(
        after,
        row.take(i),
        mrow,
        kids.take(a),
        mkids,
        b.take(a),
        mb,
    );
    lemma_over_join(
        after,
        row.take(i) + mrow,
        row.skip(i + 1),
        kids.take(a) + mkids,
        kids.skip(a + m),
        b.take(a) + mb,
        b.skip(a + m),
    );
}

/// A row over children whose node at `i` has its first child at `a`.
pub open spec fn row_at(
    nodes: Seq<NodeData>,
    page_size: int,
    row: Seq<int>,
    i: int,
    kids: Seq<int>,
    b: Seq<Option<Seq<u8>>>,
    a: int,
) -> bool {
    &&& row_ok(nodes, row, false)
    &&& sized(nodes, row, page_size)
    &&& 0 <= i < row.len()
    &&& 0 <= a <= kids.len()
    &&& kids.len() == b.len()
    &&& over(nodes, row.take(i), kids.take(a), b.take(a))
    &&& over(nodes, row.skip(i), kids.skip(a), b.skip(a))
    &&& i > 0 ==> a > 0 && bound_of(nodes[row[i - 1]]) == b[a - 1]
}

/// Putting a value in a run of a sequence.
proof fn lemma_insert_in_run<T>(s: Seq<T>, a: int, m: int, x: int, v: T)
    requires
        0 <= a,
        0 <= x <= m,
        a + m <= s.len(),
    ensures
        s.insert(a + x, v).subrange(a, a + m + 1) == s.skip(a).take(m).insert(x, v),
        s.take(a) + s.insert(a + x, v).subrange(a, a + m + 1) + s.skip(a + m) == s.insert(a + x, v),
{
    assert(s.insert(a + x, v).subrange(a, a + m + 1) =~= s.skip(a).take(m).insert(x, v));
    assert(s.take(a) + s.insert(a + x, v).subrange(a, a + m + 1) + s.skip(a + m) =~= s.insert(
        a + x,
        v,
    ));
}

/// The node at `i` of a row and its children.
pub proof fn lemma_row_at_node(
    nodes: Seq<NodeData>,
    page_size: int,
    row: Seq<int>,
    i: int,
    kids: Seq<int>,
    b: Seq<Option<Seq<u8>>>,
    a: int,
)
    requires
        row_at(nodes, page_size, row, i, kids, b, a),
    ensures
        ({
            let n = nodes[row[i]];
            let m = ptrs_of(n).len() as int;
            &&& 0 <= row[i] < nodes.len()
            &&& n is Internal
            &&& keys_of(n).len() <= page_size
            &&& m == keys_of(n).len() + 1
            &&& a + m <= kids.len()
            &&& node_over(n, kids.skip(a).take(m), b.skip(a).take(m))
        }),
{
    assert(nodes[row[i]] is Internal);
    assert(0 <= row[i] < nodes.len());
    assert(keys_of(nodes[row[i]]).len() <= page_size);
    assert(row.skip(i)[0] == row[i]);
}

/// The children of a node once one more came in.
proof fn lemma_middle(
    n: NodeData,
    kids: Seq<int>,
    b: Seq<Option<Seq<u8>>>,
    a: int,
    pos: int,
    p: int,
    key: Seq<u8>,
    c: int,
)
    requires
        ({
            let m = ptrs_of(n).len() as int;
            &&& n is Internal
            &&& m == keys_of(n).len() + 1
            &&& 0 <= a
            &&& a + m <= kids.len()
            &&& kids.len() == b.len()
            &&& node_over(n, kids.skip(a).take(m), b.skip(a).take(m))
        }),
        0 <= pos <= keys_of(n).len(),
        0 <= p <= 1,
    ensures
        ({
            let m = ptrs_of(n).len() as int;
            let kids2 = kids.insert(a + pos + p, c);
            let b2 = b.insert(a + pos, Some(key));
            let mkids = kids2.subrange(a, a + m + 1);
            let mb = b2.subrange(a, a + m + 1);
            &&& parts_over(
                keys_of(n).insert(pos, key),
                ptrs_of(n).insert(pos + p, slot_ref(c)),
                bound_of(n),
                mkids,
                mb,
            )
            &&& kids.take(a) + mkids + kids.skip(a + m) == kids2
            &&& b.take(a) + mb + b.skip(a + m) == b2
            &&& b2[a + m] == bound_of(n)
        }),
{
    let m = ptrs_of(n).len() as int;
    let k1 = kids.skip(a).take(m);
    let b1 = b.skip(a).take(m);
    lemma_parts(n, k1, b1);
    lemma_parts_insert(keys_of(n), ptrs_of(n), bound_of(n), k1, b1, pos, p, key, c);
    lemma_insert_in_run(kids, a, m, pos + p, c);
    lemma_insert_in_run(b, a, m, pos, Some(key));
    assert(kids.insert(a + (pos + p), c) == kids.insert(a + pos + p, c));
    let b2 = b.insert(a + pos, Some(key));
    assert(b2.subrange(a, a + m + 1).last() == b2[a + m]);
}

/// A row whose node at `i` took one more child.
proof fn lemma_child_placed(
    before: Seq<NodeData>,
    after: Seq<NodeData>,
    page_size: int,
    row: Seq<int>,
    i: int,
    kids: Seq<int>,
    b: Seq<Option<Seq<u8>>>,
    a: int,
    pos: int,
    p: int,
    key: Seq<u8>,
    c: int,
)
    requires
        row_at(before, page_size, row, i, kids, b, a),
        0 <= pos <= keys_of(before[row[i]]).len() < page_size,
        0 <= p <= 1,
        after.len() == before.len(),
        forall|x: int| 0 <= x < before.len() && x != row[i] ==> #[trigger] after[x] == before[x],
        after[row[i]] is Internal,
        keys_of(after[row[i]]) == keys_of(before[row[i]]).insert(pos, key),
        ptrs_of(after[row[i]]) == ptrs_of(before[row[i]]).insert(pos + p, slot_ref(c)),
        bound_of(after[row[i]]) == bound_of(before[row[i]]),
        right_of(after[row[i]]) == right_of(before[row[i]]),
    ensures
        row_ok(after, row, false),
        sized(after, row, page_size),
        bounds(after, row) == bounds(before, row),
        over(after, row, kids.insert(a + pos + p, c), b.insert(a + pos, Some(key))),
{
    let m = ptrs_of(before[row[i]]).len() as int;
    let mkids = kids.insert(a + pos + p, c).subrange(a, a + m + 1);
    let mb = b.insert(a + pos, Some(key)).subrange(a, a + m + 1);
    lemma_row_at_node(before, page_size, row, i, kids, b, a);
    lemma_middle(before[row[i]], kids, b, a, pos, p, key, c);
    lemma_parts(after[row[i]], mkids, mb);
    lemma_row_kept(before, after, row, i);
    lemma_over_one(after, row[i], mkids, mb);
    lemma_over_replace(before, after, row, i, kids, b, a, seq![row[i]], mkids, mb);
    assert(row.take(i) + seq![row[i]] + row.skip(i + 1) =~= row);
    assert forall|j: int| 0 <= j < row.len() implies keys_of(after[#[trigger] row[j]]).len()
        <= page_size by {
        if j != i {
            assert(row[j] != row[i]);
            assert(keys_of(before[row[j]]).len() <= page_size);
        }
    }
}

/// The two halves of a split node over their children.
#[verifier::spinoff_prover]
proof fn lemma_cut_over(
    before: Seq<NodeData>,
    after: Seq<NodeData>,
    page_size: int,
    row: Seq<int>,
    i: int,
    kids: Seq<int>,
    b: Seq<Option<Seq<u8>>>,
    a: int,
    pos: int,
    p: int,
    key: Seq<u8>,
    c: int,
)
    requires
        row_at(before, page_size, row, i, kids, b, a),
        0 <= pos <= keys_of(before[row[i]]).len(),
        keys_of(before[row[i]]).len() == page_size,
        page_size >= 2,
        0 <= p <= 1,
        after.len() == before.len() + 1,
        before.len() <= usize::MAX,
        forall|x: int| 0 <= x < before.len() && x != row[i] ==> #[trigger] after[x] == before[x],
        ({
            let n = before.len() as int;
            let keys = keys_of(before[row[i]]).insert(pos, key);
            let ptrs = ptrs_of(before[row[i]]).insert(pos + p, slot_ref(c));
            let mid = page_size / 2;
            &&& after[row[i]] is Internal
            &&& keys_of(after[row[i]]) == keys.take(mid)
            &&& ptrs_of(after[row[i]]) == ptrs.take(mid + 1)
            &&& right_of(after[row[i]]) == slot_ref(n)
            &&& bound_of(after[row[i]]) == Some(keys[mid])
            &&& after[n] is Internal
            &&& keys_of(after[n]) == keys.skip(mid + 1)
            &&& ptrs_of(after[n]) == ptrs.skip(mid + 1)
            &&& right_of(after[n]) == right_of(before[row[i]])
            &&& bound_of(after[n]) == bound_of(before[row[i]])
        }),
    ensures
        over(
            after,
            row.insert(i + 1, before.len() as int),
            kids.insert(a + pos + p, c),
            b.insert(a + pos, Some(key)),
        ),
        b.insert(a + pos, Some(key))[a + page_size / 2] == Some(
            keys_of(before[row[i]]).insert(pos, key)[page_size / 2],
        ),
        b.insert(a + pos, Some(key))[a + page_size + 1] == bound_of(before[row[i]]),
{
    let nn = before.len() as int;
    let n = before[row[i]];
    let m = ptrs_of(n).len() as int;
    let b2 = b.insert(a + pos, Some(key));
    let mkids = kids.insert(a + pos + p, c).subrange(a, a + m + 1);
    let mb = b2.subrange(a, a + m + 1);
    let keys2 = keys_of(n).insert(pos, key);
    let ptrs2 = ptrs_of(n).insert(pos + p, slot_ref(c));
    let mid = page_size / 2;
    lemma_row_at_node(before, page_size, row, i, kids, b, a);
    lemma_middle(n, kids, b, a, pos, p, key, c);
    lemma_parts_cut(keys2, ptrs2, bound_of(n), mkids, mb, mid);
    lemma_parts(after[row[i]], mkids.take(mid + 1), mb.take(mid + 1));
    lemma_parts(after[nn], mkids.skip(mid + 1), mb.skip(mid + 1));
    lemma_over_one(after, row[i], mkids.take(mid + 1), mb.take(mid + 1));
    lemma_over_one(after, nn, mkids.skip(mid + 1), mb.skip(mid + 1));
    let one = seq![row[i]];
    let two = seq![nn];
    lemma_over_join(
        after,
        one,
        two,
        mkids.take(mid + 1),
        mkids.skip(mid + 1),
        mb.take(mid + 1),
        mb.skip(mid + 1),
    );
    lemma_cut_and_join(mkids, mid + 1);
    lemma_cut_and_join(mb, mid + 1);
    lemma_over_replace(before, after, row, i, kids, b, a, one + two, mkids, mb);
    lemma_row_around(row, i, nn);
    assert(mb[mid] == b2[a + mid]);
}

proof fn lemma_cut_and_join<T>(s: Seq<T>, i: int)
    requires
        0 <= i <= s.len(),
    ensures
        s.take(i) + s.skip(i) == s,
{
    assert(s.take(i) + s.skip(i) =~= s);
}

proof fn lemma_row_around(row: Seq<int>, i: int, n: int)
    requires
        0 <= i < row.len(),
    ensures
        row.take(i) + (seq![row[i]] + seq![n]) + row.skip(i + 1) == row.insert(i + 1, n),
{
    assert(row.take(i) + (seq![row[i]] + seq![n]) + row.skip(i + 1) =~= row.insert(i + 1, n));
}

/// A row whose node at `i` took one more child and was split.
#[verifier::spinoff_prover]
proof fn lemma_child_cut(
    before: Seq<NodeData>,
    after: Seq<NodeData>,
    page_size: int,
    row: Seq<int>,
    i: int,
    kids: Seq<int>,
    b: Seq<Option<Seq<u8>>>,
    a: int,
    pos: int,
    p: int,
    key: Seq<u8>,
    c: int,
)
    requires
        row_at(before, page_size, row, i, kids, b, a),
        0 <= pos <= keys_of(before[row[i]]).len(),
        keys_of(before[row[i]]).len() == page_size,
        page_size >= 2,
        0 <= p <= 1,
        bounds_ok(b.insert(a + pos, Some(key))),
        after.len() == before.len() + 1,
        before.len() <= usize::MAX,
        forall|x: int| 0 <= x < before.len() && x != row[i] ==> #[trigger] after[x] == before[x],
        ({
            let n = before.len() as int;
            let keys = keys_of(before[row[i]]).insert(pos, key);
            let ptrs = ptrs_of(before[row[i]]).insert(pos + p, slot_ref(c));
            let mid = page_size / 2;
            &&& after[row[i]] is Internal
            &&& keys_of(after[row[i]]) == keys.take(mid)
            &&& ptrs_of(after[row[i]]) == ptrs.take(mid + 1)
            &&& right_of(after[row[i]]) == slot_ref(n)
            &&& bound_of(after[row[i]]) == Some(keys[mid])
            &&& after[n] is Internal
            &&& keys_of(after[n]) == keys.skip(mid + 1)
            &&& ptrs_of(after[n]) == ptrs.skip(mid + 1)
            &&& right_of(after[n]) == right_of(before[row[i]])
            &&& bound_of(after[n]) == bound_of(before[row[i]])
        }),
    ensures
        ({
            let row2 = row.insert(i + 1, before.len() as int);
            let pivot = keys_of(before[row[i]]).insert(pos, key)[page_size / 2];
            &&& row_ok(after, row2, false)
            &&& sized(after, row2, page_size)
            &&& bounds(after, row2) == bounds(before, row).insert(i, Some(pivot))
            &&& over(after, row2, kids.insert(a + pos + p, c), b.insert(a + pos, Some(key)))
        }),
{
    let nn = before.len() as int;
    let n = before[row[i]];
    let m = ptrs_of(n).len() as int;
    let b2 = b.insert(a + pos, Some(key));
    let row2 = row.insert(i + 1, nn);
    let pivot = keys_of(n).insert(pos, key)[page_size / 2];
    lemma_row_at_node(before, page_size, row, i, kids, b, a);
    lemma_cut_over(before, after, page_size, row, i, kids, b, a, pos, p, key, c);
    assert(row_ok(after, row2, false) && bounds(after, row2) == bounds(before, row).insert(
        i,
        Some(pivot),
    )) by {
        let mid = page_size / 2;
        assert(b2[a + mid] == Some(pivot));
        if i > 0 {
            assert(b2[a - 1] == b[a - 1]);
            assert(bound_lt(b2[a - 1], b2[a + mid]));
        }
        assert(bound_lt(b2[a + mid], b2[a + m]));
        lemma_row_cut(before, after, row, i, nn, pivot, false);
    }
    assert forall|j: int| 0 <= j < row2.len() implies keys_of(after[#[trigger] row2[j]]).len()
        <= page_size by {
        if j < i {
            assert(row2[j] == row[j]);
            assert(row[j] != row[i]);
            assert(keys_of(before[row[j]]).len() <= page_size);
        } else if j == i {
            assert(row2[j] == row[i]);
        } else if j > i + 1 {
            assert(row2[j] == row[j - 1]);
            assert(row[j - 1] != row[i]);
            assert(keys_of(before[row[j - 1]]).len() <= page_size);
        }
    }
}

/// `after` is `nodes` with the child and its key put in the inner node at `slot`: a full node is
/// split, and `r` tells the new node and the key that parts the two.
pub open spec fn child_put(
    nodes: Seq<NodeData>,
    after: Seq<NodeData>,
    page_size: int,
    slot: int,
    key: Seq<u8>,
    child: NodeCellRef,
    pos: int,
    p: int,
    r: Option<(NodeCellRef, Seq<u8>)>,
) -> bool {
    let n = nodes.len() as int;
    let keys = keys_of(nodes[slot]).insert(pos, key);
    let ptrs = ptrs_of(nodes[slot]).insert(pos + p, child);
    let mid = keys_of(nodes[slot]).len() as int / 2;
    &&& forall|x: int| 0 <= x < n && x != slot ==> #[trigger] after[x] == nodes[x]
    &&& after[slot] is Internal
    &&& if keys_of(nodes[slot]).len() < page_size {
        &&& r is None
        &&& after.len() == n
        &&& after[slot]->Internal_0@ == (InView { keys, ptrs, ..nodes[slot]->Internal_0@ })
    } else {
        &&& r == Some((slot_ref(n), keys[mid]))
        &&& after.len() == n + 1
        &&& after[slot]->Internal_0@ == (InView {
            keys: keys.take(mid),
            ptrs: ptrs.take(mid + 1),
            right: slot_ref(n),
            bound: Some(keys[mid]),
        })
        &&& after[n] is Internal
        &&& after[n]->Internal_0@ == (InView {
            keys: keys.skip(mid + 1),
            ptrs: ptrs.skip(mid + 1),
            ..nodes[slot]->Internal_0@
        })
    }
}

pub open spec fn split_view(r: Option<(NodeCellRef, EntryKey)>) -> Option<(NodeCellRef, Seq<u8>)> {
    match r {
        None => None,
        Some(p) => Some((p.0, p.1@)),
    }
}

/// Puts the child with its key in the inner node at `slot`. A full node is split: the reference to
/// the new node is returned with the key that parts the two.
pub fn put_child(
    tree: &mut BPlusTree,
    slot: usize,
    key: EntryKey,
    child: NodeCellRef,
    pos: usize,
    padding: bool,
) -> (r: Option<(NodeCellRef, EntryKey)>)
    requires
        slot < old(tree).nodes@.len(),
        old(tree).nodes@[slot as int] is Internal,
        ptrs_of(old(tree).nodes@[slot as int]).len() == keys_of(
            old(tree).nodes@[slot as int],
        ).len() + 1,
        pos <= keys_of(old(tree).nodes@[slot as int]).len(),
    ensures
        same_but_nodes(*final(tree), *old(tree)),
        child_put(
            old(tree).nodes@,
            final(tree).nodes@,
            old(tree).page_size as int,
            slot as int,
            key@,
            child,
            pos as int,
            pad(padding),
            split_view(r),
        ),
{
    let new_slot: usize = tree.nodes.len();
    let page_size: usize = tree.page_size;
    assert(tree.nodes.len() == tree.nodes@.len());
    let (full, r) = match &mut tree.nodes[slot] {
        NodeData::Internal(node) => {
            if node.keys.len() < page_size {
                node.insert_in_place(key, child, pos, padding);
                (None, None)
            } else {
                let (node_2, pivot) = node.split_insert(key, child, pos, padding, new_slot);
                (Some(node_2), Some((NodeCellRef::Slot(new_slot), pivot)))
            }
        },
        _ => {
            assert(false);
            (None, None)
        },
    };
    match full {
        None => {},
        Some(node_2) => {
            tree.nodes.push(NodeData::Internal(node_2));
        },
    }
    r
}

/// What a row is once a child came into its node at `i`: the same row, or one with the new node
/// `n` behind that node.
pub open spec fn cut_row(row: Seq<int>, i: int, n: int, r: Option<(NodeCellRef, Seq<u8>)>) -> Seq<int> {
    if r is None {
        row
    } else {
        row.insert(i + 1, n)
    }
}

/// The right bounds of that row.
pub open spec fn cut_bounds(
    b: Seq<Option<Seq<u8>>>,
    i: int,
    r: Option<(NodeCellRef, Seq<u8>)>,
) -> Seq<Option<Seq<u8>>> {
    match r {
        None => b,
        Some(p) => b.insert(i, Some(p.1)),
    }
}

/// A row over children stays one when a child comes into one of its nodes.
pub proof fn lemma_put_over(
    before: Seq<NodeData>,
    after: Seq<NodeData>,
    page_size: int,
    row: Seq<int>,
    i: int,
    kids: Seq<int>,
    b: Seq<Option<Seq<u8>>>,
    a: int,
    pos: int,
    p: int,
    key: Seq<u8>,
    c: int,
    r: Option<(NodeCellRef, Seq<u8>)>,
)
    requires
        row_at(before, page_size, row, i, kids, b, a),
        child_put(before, after, page_size, row[i], key, slot_ref(c), pos, p, r),
        0 <= pos <= keys_of(before[row[i]]).len(),
        0 <= p <= 1,
        bounds_ok(b.insert(a + pos, Some(key))),
        page_size >= 2,
        before.len() <= usize::MAX,
    ensures
        ({
            let row2 = cut_row(row, i, before.len() as int, r);
            &&& row_ok(after, row2, false)
            &&& sized(after, row2, page_size)
            &&& bounds(after, row2) == cut_bounds(bounds(before, row), i, r)
            &&& over(after, row2, kids.insert(a + pos + p, c), b.insert(a + pos, Some(key)))
        }),
        r is Some ==> keys_of(after[row[i]]).len() < page_size,
        r is None ==> keys_of(after[row[i]]).len() == keys_of(before[row[i]]).len() + 1,
{
    lemma_row_at_node(before, page_size, row, i, kids, b, a);
    if keys_of(before[row[i]]).len() < page_size {
        lemma_child_placed(before, after, page_size, row, i, kids, b, a, pos, p, key, c);
    } else {
        lemma_child_cut(before, after, page_size, row, i, kids, b, a, pos, p, key, c);
    }
}

} // verus!
