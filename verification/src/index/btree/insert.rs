//! Adding a key to a tree.
use super::cursor::{lemma_leaf_keys_in_flat, offset};
use super::external::{page_grown, page_split, same_but_nodes, split_keys};
use super::grow::{
    cut_bounds, cut_row, is_kind, lemma_put_over, lemma_row_at_node, lemma_row_cut, put_child,
    row_at, same_place, split_view,
};
use super::node::{
    bound_lt, bound_of, keys_of, ptrs_of, right_of, ExtNode, InNode, NodeCellRef, NodeData,
};
use super::level::same_but_shape;
use super::prune::{lemma_bounds_skip, lemma_child_pos};
use super::search::{found, lemma_found_in_tree, lemma_row};
use super::shape::{
    apart, bounds, bounds_ok, covers, leaf_at, leaves_ok, lemma_flat_frame, lemma_flat_split,
    lemma_node_keys_ascend, lemma_over_frame, lemma_over_one, lemma_over_split, lemma_shape_row,
    link_at, linked, node_over, over, over_below, row_ok, shape_ok, sized, slot_ref, flat,
};
use super::tree::BPlusTree;
use crate::index::key::{
    ascending, group_key_order, is_lower_bound, is_upper_bound, key_le, key_lt, lower_bound, EntryKey,
};
use crate::ram::types::Id;
use vstd::prelude::*;

verus! {

/// The rows describe a search tree but for the row `h`, which has a node at `j` that the row above
/// does not know yet.
#[verifier::opaque]
pub open spec fn pending(nodes: Seq<NodeData>, rows: Seq<Seq<int>>, page_size: int, h: int, j: int) -> bool {
    &&& 0 <= h < rows.len()
    &&& apart(rows)
    &&& forall|g: int| 0 <= g < rows.len() ==> row_ok(nodes, #[trigger] rows[g], g == 0)
    &&& forall|g: int| 0 < g < rows.len() ==> sized(nodes, #[trigger] rows[g], page_size)
    &&& leaves_ok(nodes, rows[0], page_size)
    &&& forall|g: int|
        0 < g < rows.len() && g != h + 1 ==> #[trigger] over_below(nodes, rows, g)
    &&& 1 <= j < rows[h].len()
    &&& h + 1 < rows.len() ==> over(
        nodes,
        rows[h + 1],
        rows[h].remove(j),
        bounds(nodes, rows[h]).remove(j - 1),
    ) && rows.last().len() == 1
    &&& h + 1 == rows.len() ==> rows[h].len() == 2
}

/// What a pending tree says of one row.
pub proof fn lemma_pending_row(
    nodes: Seq<NodeData>,
    rows: Seq<Seq<int>>,
    page_size: int,
    h: int,
    j: int,
    g: int,
)
    requires
        pending(nodes, rows, page_size, h, j),
        0 <= g < rows.len(),
    ensures
        0 <= h < rows.len(),
        1 <= j < rows[h].len(),
        row_ok(nodes, rows[g], g == 0),
        g > 0 ==> sized(nodes, rows[g], page_size),
        g > 0 && g != h + 1 ==> over(nodes, rows[g], rows[g - 1], bounds(nodes, rows[g - 1])),
        g == 0 ==> leaves_ok(nodes, rows[0], page_size),
        g == h + 1 ==> over(
            nodes,
            rows[g],
            rows[h].remove(j),
            bounds(nodes, rows[h]).remove(j - 1),
        ),
        h + 1 == rows.len() ==> rows[h].len() == 2,
        h + 1 < rows.len() ==> rows.last().len() == 1,
{
    reveal(pending);
    if g > 0 && g != h + 1 {
        assert(over_below(nodes, rows, g));
    }
}

/// The keys of a row, those of the node at `i` set apart.
proof fn lemma_flat_at(nodes: Seq<NodeData>, row: Seq<int>, i: int)
    requires
        0 <= i < row.len(),
    ensures
        flat(nodes, row) == flat(nodes, row.take(i)) + (keys_of(nodes[row[i]]) + flat(
            nodes,
            row.skip(i + 1),
        )),
{
    lemma_flat_split(nodes, row, i);
    assert(row.skip(i)[0] == row[i]);
    assert(row.skip(i).drop_first() =~= row.skip(i + 1));
}

proof fn lemma_insert_between<T>(a: Seq<T>, m: Seq<T>, c: Seq<T>, q: int, v: T)
    requires
        0 <= q <= m.len(),
    ensures
        a + (m.insert(q, v) + c) == (a + (m + c)).insert(a.len() + q, v),
{
    assert(a + (m.insert(q, v) + c) =~= (a + (m + c)).insert(a.len() + q, v));
}

/// A key between its neighbours keeps a run of keys ascending.
proof fn lemma_insert_ascending(keys: Seq<Seq<u8>>, key: Seq<u8>, q: int)
    requires
        ascending(keys),
        is_lower_bound(keys, key, q),
        q < keys.len() ==> keys[q] != key,
    ensures
        ascending(keys.insert(q, key)),
{
    broadcast use group_key_order;

    let k2 = keys.insert(q, key);
    assert forall|x: int, y: int| 0 <= x < y < k2.len() implies key_lt(
        #[trigger] k2[x],
        #[trigger] k2[y],
    ) by {
        let ox = if x < q { x } else { x - 1 };
        let oy = if y < q { y } else { y - 1 };
        if x != q && y != q {
            assert(k2[x] == keys[ox] && k2[y] == keys[oy]);
        } else if x == q {
            assert(k2[y] == keys[oy]);
            assert(key_le(key, keys[oy]));
            if oy > q {
                assert(key_lt(keys[q], keys[oy]));
            }
            assert(key_le(key, keys[q]));
        } else {
            assert(k2[x] == keys[x]);
        }
    }
}

/// The facts of a leaf.
proof fn lemma_leaf_of(nodes: Seq<NodeData>, row: Seq<int>, page_size: int, i: int)
    requires
        row_ok(nodes, row, true),
        leaves_ok(nodes, row, page_size),
        0 <= i < row.len(),
    ensures
        ({
            let keys = keys_of(nodes[row[i]]);
            &&& 0 <= row[i] < nodes.len()
            &&& nodes[row[i]] is External
            &&& ascending(keys)
            &&& keys.len() <= page_size
            &&& row.len() > 1 ==> keys.len() >= 1
            &&& forall|j: int|
                0 <= j < keys.len() ==> covers(bounds(nodes, row), i, #[trigger] keys[j])
            &&& nodes[row[i]]->External_0.prev == (if i > 0 {
                slot_ref(row[i - 1])
            } else {
                NodeCellRef::Nil
            })
            &&& nodes[row[i]]->External_0.next == (if i + 1 < row.len() {
                slot_ref(row[i + 1])
            } else {
                NodeCellRef::Nil
            })
        }),
{
    assert(nodes[row[i]] is External);
    assert(0 <= row[i] < nodes.len());
    assert(link_at(nodes, row, i));
    assert(leaf_at(nodes, row, page_size, i));
}

/// A leaf row after one leaf took a key.
proof fn lemma_leaf_row_grown(
    before: Seq<NodeData>,
    after: Seq<NodeData>,
    row: Seq<int>,
    page_size: int,
    i: int,
    q: int,
    key: Seq<u8>,
)
    requires
        row_ok(before, row, true),
        leaves_ok(before, row, page_size),
        0 <= i < row.len(),
        page_grown(before, after, row[i], key, q),
        covers(bounds(before, row), i, key),
        is_lower_bound(keys_of(before[row[i]]), key, q),
        q < keys_of(before[row[i]]).len() ==> keys_of(before[row[i]])[q] != key,
        keys_of(before[row[i]]).len() < page_size,
    ensures
        row_ok(after, row, true),
        leaves_ok(after, row, page_size),
        bounds(after, row) == bounds(before, row),
        flat(after, row) == flat(before, row).insert(flat(before, row.take(i)).len() + q, key),
{
    lemma_leaf_of(before, row, page_size, i);
    let keys = keys_of(before[row[i]]);
    assert(keys_of(after[row[i]]) == keys.insert(q, key));
    lemma_insert_ascending(keys, key, q);
    assert forall|j: int| 0 <= j < row.len() implies 0 <= #[trigger] row[j] < after.len()
        && after[row[j]] is External && same_place(before[row[j]], after[row[j]]) && (j != i
        ==> after[row[j]] == before[row[j]]) by {
        lemma_leaf_of(before, row, page_size, j);
        if j != i {
            assert(row[j] != row[i]);
        }
    }
    assert(bounds(after, row) =~= bounds(before, row));
    assert(linked(after, row)) by {
        assert forall|j: int| 0 <= j < row.len() implies #[trigger] link_at(after, row, j) by {
            assert(link_at(before, row, j));
            assert(same_place(before[row[j]], after[row[j]]));
        }
    }
    assert(row_ok(after, row, true));
    assert(leaves_ok(after, row, page_size)) by {
        assert forall|j: int| 0 <= j < row.len() implies #[trigger] leaf_at(
            after,
            row,
            page_size,
            j,
        ) by {
            lemma_leaf_of(before, row, page_size, j);
            assert(same_place(before[row[j]], after[row[j]]));
            if j == i {
                let ks = keys_of(after[row[j]]);
                assert forall|k: int| 0 <= k < ks.len() implies covers(
                    bounds(after, row),
                    j,
                    #[trigger] ks[k],
                ) by {
                    if k < q {
                        assert(ks[k] == keys[k]);
                    } else if k > q {
                        assert(ks[k] == keys[k - 1]);
                    }
                }
            }
        }
    }
    lemma_flat_at(before, row, i);
    lemma_flat_at(after, row, i);
    assert forall|j: int| 0 <= j < row.take(i).len() implies keys_of(before[#[trigger] row.take(i)[j]])
        == keys_of(after[row.take(i)[j]]) by {
        assert(row.take(i)[j] == row[j]);
    }
    lemma_flat_frame(before, after, row.take(i));
    assert forall|j: int| 0 <= j < row.skip(i + 1).len() implies keys_of(
        before[#[trigger] row.skip(i + 1)[j]],
    ) == keys_of(after[row.skip(i + 1)[j]]) by {
        assert(row.skip(i + 1)[j] == row[j + i + 1]);
    }
    lemma_flat_frame(before, after, row.skip(i + 1));
    lemma_insert_between(
        flat(before, row.take(i)),
        keys,
        flat(before, row.skip(i + 1)),
        q,
        key,
    );
}

/// How the nodes of a leaf row change in a split: the split leaf, and its right neighbour's link.
proof fn lemma_split_nodes(
    before: Seq<NodeData>,
    after: Seq<NodeData>,
    row: Seq<int>,
    page_size: int,
    i: int,
    q: int,
    key: Seq<u8>,
    id: Id,
)
    requires
        row_ok(before, row, true),
        leaves_ok(before, row, page_size),
        0 <= i < row.len(),
        before.len() <= usize::MAX,
        page_split(before, after, row[i], key, q, id),
    ensures
        forall|x: int|
            0 <= x < before.len() && x != row[i] ==> same_place(before[x], #[trigger] after[x])
                && keys_of(before[x]) == keys_of(after[x]) && (before[x] is Internal ==> after[x]
                == before[x]),
        forall|j: int|
            0 <= j < row.len() && j != i ==> {
                let e = after[#[trigger] row[j]]->External_0;
                &&& after[row[j]] is External
                &&& e.prev == (if j == i + 1 {
                    slot_ref(before.len() as int)
                } else {
                    before[row[j]]->External_0.prev
                })
            },
{
    lemma_leaf_of(before, row, page_size, i);
    if i + 1 < row.len() {
        lemma_leaf_of(before, row, page_size, i + 1);
        assert(row[i + 1] != row[i]);
    }
    let page = before[row[i]]->External_0;
    assert forall|x: int| 0 <= x < before.len() && x != row[i] implies same_place(
        before[x],
        #[trigger] after[x],
    ) && keys_of(before[x]) == keys_of(after[x]) && (before[x] is Internal ==> after[x] == before[x]) by {
        if page.next == slot_ref(x) {
            assert(i + 1 < row.len());
            assert(x == row[i + 1]);
        }
    }
    assert forall|j: int| 0 <= j < row.len() && j != i implies {
        let e = after[#[trigger] row[j]]->External_0;
        &&& after[row[j]] is External
        &&& e.prev == (if j == i + 1 {
            slot_ref(before.len() as int)
        } else {
            before[row[j]]->External_0.prev
        })
    } by {
        lemma_leaf_of(before, row, page_size, j);
        assert(row[j] != row[i]);
        if j != i + 1 {
            if page.next == slot_ref(row[j]) {
                assert(row[j] == row[i + 1]);
            }
        }
    }
}

/// Ranges of other leaves when one leaf's range is cut in two.
proof fn lemma_covers_cut(b: Seq<Option<Seq<u8>>>, i: int, pivot: Seq<u8>, x: int, key: Seq<u8>)
    requires
        covers(b, x, key),
        0 <= i < b.len(),
    ensures
        x < i ==> covers(b.insert(i, Some(pivot)), x, key),
        x > i ==> covers(b.insert(i, Some(pivot)), x + 1, key),
        x == i && key_lt(key, pivot) ==> covers(b.insert(i, Some(pivot)), i, key),
        x == i && key_le(pivot, key) ==> covers(b.insert(i, Some(pivot)), i + 1, key),
{
}

/// The keys of the two halves.
proof fn lemma_halves(keys: Seq<Seq<u8>>, key: Seq<u8>, q: int, page_size: int)
    requires
        ascending(keys),
        keys.len() == page_size,
        page_size >= 2,
        is_lower_bound(keys, key, q),
        q < keys.len() ==> keys[q] != key,
    ensures
        ({
            let (left, right) = split_keys(keys, key, q);
            &&& ascending(left)
            &&& ascending(right)
            &&& 1 <= left.len() <= page_size
            &&& 1 <= right.len() <= page_size
            &&& left + right == keys.insert(q, key)
            &&& forall|x: int| 0 <= x < left.len() ==> key_lt(#[trigger] left[x], right[0])
            &&& forall|x: int| 0 <= x < right.len() ==> key_le(right[0], #[trigger] right[x])
        }),
{
    let (left, right) = split_keys(keys, key, q);
    let all = keys.insert(q, key);
    super::external::lemma_split_keeps_keys(keys, key, q);
    lemma_insert_ascending(keys, key, q);
    assert forall|x: int, y: int| 0 <= x < y < left.len() implies key_lt(
        #[trigger] left[x],
        #[trigger] left[y],
    ) by {
        assert(left[x] == all[x] && left[y] == all[y]);
    }
    assert forall|x: int, y: int| 0 <= x < y < right.len() implies key_lt(
        #[trigger] right[x],
        #[trigger] right[y],
    ) by {
        assert(right[x] == all[left.len() + x] && right[y] == all[left.len() + y]);
    }
    assert forall|x: int| 0 <= x < left.len() implies key_lt(#[trigger] left[x], right[0]) by {
        assert(left[x] == all[x] && right[0] == all[left.len() as int]);
    }
    assert forall|x: int| 0 <= x < right.len() implies key_le(right[0], #[trigger] right[x]) by {
        broadcast use group_key_order;

        if x > 0 {
            assert(key_lt(right[0], right[x]));
        }
    }
}

/// The bounds of a leaf row after a split.
proof fn lemma_leaf_row_cut(
    before: Seq<NodeData>,
    after: Seq<NodeData>,
    row: Seq<int>,
    page_size: int,
    i: int,
    q: int,
    key: Seq<u8>,
    id: Id,
)
    requires
        row_ok(before, row, true),
        leaves_ok(before, row, page_size),
        page_size >= 2,
        0 <= i < row.len(),
        before.len() <= usize::MAX,
        page_split(before, after, row[i], key, q, id),
        covers(bounds(before, row), i, key),
        is_lower_bound(keys_of(before[row[i]]), key, q),
        q < keys_of(before[row[i]]).len() ==> keys_of(before[row[i]])[q] != key,
        keys_of(before[row[i]]).len() == page_size,
    ensures
        ({
            let row2 = row.insert(i + 1, before.len() as int);
            let (left, right) = split_keys(keys_of(before[row[i]]), key, q);
            &&& row_ok(after, row2, true)
            &&& bounds(after, row2) == bounds(before, row).insert(i, Some(right[0]))
            &&& keys_of(after[row[i]]) == left
            &&& keys_of(after[before.len() as int]) == right
            &&& forall|x: int| 0 <= x < left.len() ==> covers(bounds(before, row), i, #[trigger] left[x])
            &&& forall|x: int|
                0 <= x < right.len() ==> covers(bounds(before, row), i, #[trigger] right[x])
        }),
{
    let n = before.len() as int;
    let keys = keys_of(before[row[i]]);
    let (left, right) = split_keys(keys, key, q);
    let b = bounds(before, row);
    lemma_leaf_of(before, row, page_size, i);
    lemma_halves(keys, key, q, page_size);
    lemma_split_nodes(before, after, row, page_size, i, q, key, id);
    let all = keys.insert(q, key);
    assert forall|x: int| 0 <= x < all.len() implies covers(b, i, #[trigger] all[x]) by {
        if x < q {
            assert(all[x] == keys[x]);
        } else if x > q {
            assert(all[x] == keys[x - 1]);
        }
    }
    assert forall|x: int| 0 <= x < left.len() implies covers(b, i, #[trigger] left[x]) by {
        assert(left[x] == (left + right)[x]);
        assert(covers(b, i, all[x]));
    }
    assert forall|x: int| 0 <= x < right.len() implies covers(b, i, #[trigger] right[x]) by {
        assert(right[x] == (left + right)[left.len() + x]);
        assert(covers(b, i, all[left.len() + x]));
    }
    let pivot = right[0];
    assert(covers(b, i, pivot));
    assert(b[i] == bound_of(before[row[i]]));
    if i > 0 {
        broadcast use group_key_order;

        assert(b[i - 1] == bound_of(before[row[i - 1]]));
        let first = left[0];
        assert(covers(b, i, first));
        assert(key_lt(first, pivot));
    }
    lemma_row_cut(before, after, row, i, n, pivot, true);
}

/// The leaves after a split.
#[verifier::spinoff_prover]
proof fn lemma_leaves_cut(
    before: Seq<NodeData>,
    after: Seq<NodeData>,
    row: Seq<int>,
    page_size: int,
    i: int,
    q: int,
    key: Seq<u8>,
    id: Id,
)
    requires
        row_ok(before, row, true),
        leaves_ok(before, row, page_size),
        page_size >= 2,
        0 <= i < row.len(),
        before.len() <= usize::MAX,
        page_split(before, after, row[i], key, q, id),
        covers(bounds(before, row), i, key),
        is_lower_bound(keys_of(before[row[i]]), key, q),
        q < keys_of(before[row[i]]).len() ==> keys_of(before[row[i]])[q] != key,
        keys_of(before[row[i]]).len() == page_size,
    ensures
        leaves_ok(after, row.insert(i + 1, before.len() as int), page_size),
{
    let n = before.len() as int;
    let row2 = row.insert(i + 1, n);
    let keys = keys_of(before[row[i]]);
    let (left, right) = split_keys(keys, key, q);
    let b = bounds(before, row);
    let pivot = right[0];
    lemma_leaf_of(before, row, page_size, i);
    lemma_halves(keys, key, q, page_size);
    lemma_leaf_row_cut(before, after, row, page_size, i, q, key, id);
    let b2 = bounds(after, row2);
    assert forall|j: int| 0 <= j < row2.len() implies #[trigger] leaf_at(after, row2, page_size, j) by {
        let ks = keys_of(after[row2[j]]);
        if j == i {
            assert(row2[j] == row[i]);
            assert forall|k: int| 0 <= k < ks.len() implies covers(b2, j, #[trigger] ks[k]) by {
                assert(covers(b, i, left[k]));
                assert(key_lt(left[k], right[0]));
                lemma_covers_cut(b, i, pivot, i, left[k]);
            }
            if j > 0 {
                assert(row2[j - 1] == row[j - 1]);
            }
        } else if j == i + 1 {
            assert(row2[j] == n);
            assert forall|k: int| 0 <= k < ks.len() implies covers(b2, j, #[trigger] ks[k]) by {
                assert(covers(b, i, right[k]));
                assert(key_le(right[0], right[k]));
                lemma_covers_cut(b, i, pivot, i, right[k]);
            }
        } else {
            let o = if j < i { j } else { j - 1 };
            assert(row2[j] == row[o]);
            lemma_other_leaf(before, after, row, page_size, i, q, key, id, o);
            assert forall|k: int| 0 <= k < ks.len() implies covers(b2, j, #[trigger] ks[k]) by {
                assert(covers(b, o, keys_of(before[row[o]])[k]));
                lemma_covers_cut(b, i, pivot, o, ks[k]);
            }
            if j > 0 {
                assert(row2[j - 1] == (if j - 1 <= i {
                    row[j - 1]
                } else if j - 1 == i + 1 {
                    n
                } else {
                    row[j - 2]
                }));
            }
        }
    }
}

/// A leaf that is not split keeps its keys; the right neighbour refers to the new leaf.
proof fn lemma_other_leaf(
    before: Seq<NodeData>,
    after: Seq<NodeData>,
    row: Seq<int>,
    page_size: int,
    i: int,
    q: int,
    key: Seq<u8>,
    id: Id,
    o: int,
)
    requires
        row_ok(before, row, true),
        leaves_ok(before, row, page_size),
        0 <= i < row.len(),
        0 <= o < row.len(),
        o != i,
        before.len() <= usize::MAX,
        page_split(before, after, row[i], key, q, id),
    ensures
        ({
            let ks = keys_of(after[row[o]]);
            &&& ks == keys_of(before[row[o]])
            &&& ascending(ks)
            &&& 1 <= ks.len() <= page_size
            &&& forall|k: int|
                0 <= k < ks.len() ==> covers(bounds(before, row), o, #[trigger] ks[k])
            &&& after[row[o]]->External_0.prev == (if o == i + 1 {
                slot_ref(before.len() as int)
            } else if o > 0 {
                slot_ref(row[o - 1])
            } else {
                NodeCellRef::Nil
            })
        }),
{
    lemma_leaf_of(before, row, page_size, o);
    lemma_split_nodes(before, after, row, page_size, i, q, key, id);
    assert(row[o] != row[i]);
}

/// The keys of the leaves after a split.
proof fn lemma_flat_cut(
    before: Seq<NodeData>,
    after: Seq<NodeData>,
    row: Seq<int>,
    page_size: int,
    i: int,
    q: int,
    key: Seq<u8>,
    id: Id,
)
    requires
        row_ok(before, row, true),
        leaves_ok(before, row, page_size),
        0 <= i < row.len(),
        0 <= q <= keys_of(before[row[i]]).len(),
        before.len() <= usize::MAX,
        page_split(before, after, row[i], key, q, id),
    ensures
        flat(after, row.insert(i + 1, before.len() as int)) == flat(before, row).insert(
            flat(before, row.take(i)).len() + q,
            key,
        ),
{
    let n = before.len() as int;
    let row2 = row.insert(i + 1, n);
    let keys = keys_of(before[row[i]]);
    let (left, right) = split_keys(keys, key, q);
    lemma_leaf_of(before, row, page_size, i);
    lemma_split_nodes(before, after, row, page_size, i, q, key, id);
    super::external::lemma_split_keeps_keys(keys, key, q);
    lemma_flat_at(before, row, i);
    lemma_flat_at(after, row2, i);
    lemma_flat_at(after, row2.skip(i + 1), 0);
    assert(row2[i] == row[i]);
    assert(row2.take(i) =~= row.take(i));
    assert(row2.skip(i + 1)[0] == n);
    assert(row2.skip(i + 1).skip(1) =~= row.skip(i + 1));
    assert(flat(after, row2.skip(i + 1).take(0)) =~= Seq::empty());
    assert forall|j: int| 0 <= j < row.take(i).len() implies keys_of(before[#[trigger] row.take(i)[j]])
        == keys_of(after[row.take(i)[j]]) by {
        assert(row.take(i)[j] == row[j]);
        lemma_leaf_of(before, row, page_size, j);
        assert(row[j] != row[i]);
    }
    lemma_flat_frame(before, after, row.take(i));
    assert forall|j: int| 0 <= j < row.skip(i + 1).len() implies keys_of(
        before[#[trigger] row.skip(i + 1)[j]],
    ) == keys_of(after[row.skip(i + 1)[j]]) by {
        assert(row.skip(i + 1)[j] == row[j + i + 1]);
        lemma_leaf_of(before, row, page_size, j + i + 1);
        assert(row[j + i + 1] != row[i]);
    }
    lemma_flat_frame(before, after, row.skip(i + 1));
    let rest = flat(before, row.skip(i + 1));
    assert(keys_of(after[row[i]]) == left);
    assert(keys_of(after[n]) == right);
    assert(Seq::<Seq<u8>>::empty() + (right + rest) =~= right + rest);
    assert(left + (right + rest) =~= (left + right) + rest);
    lemma_insert_between(flat(before, row.take(i)), keys, rest, q, key);
}

/// A row of inner nodes above a leaf that changed.
proof fn lemma_upper_row(
    before: Seq<NodeData>,
    after: Seq<NodeData>,
    rows: Seq<Seq<int>>,
    page_size: int,
    g: int,
)
    requires
        shape_ok(before, rows, page_size),
        0 < g < rows.len(),
        after.len() >= before.len(),
        forall|x: int|
            0 <= x < before.len() && before[x] is Internal ==> #[trigger] after[x] == before[x],
    ensures
        row_ok(after, rows[g], false),
        sized(after, rows[g], page_size),
        bounds(after, rows[g]) == bounds(before, rows[g]),
        over(after, rows[g], rows[g - 1], bounds(before, rows[g - 1])),
{
    lemma_shape_row(before, rows, page_size, g);
    let row = rows[g];
    assert forall|j: int| 0 <= j < row.len() implies before[#[trigger] row[j]] == after[row[j]] by {
        assert(0 <= row[j] < before.len());
        assert(before[row[j]] is Internal);
    }
    super::prune::lemma_row_over_frame(
        before,
        after,
        page_size,
        row,
        rows[g - 1],
        bounds(before, rows[g - 1]),
    );
}

/// A tree one of whose leaves took a key.
pub proof fn lemma_grown_shape(
    before: Seq<NodeData>,
    after: Seq<NodeData>,
    rows: Seq<Seq<int>>,
    page_size: int,
    i: int,
    q: int,
    key: Seq<u8>,
)
    requires
        shape_ok(before, rows, page_size),
        0 <= i < rows[0].len(),
        page_grown(before, after, rows[0][i], key, q),
        covers(bounds(before, rows[0]), i, key),
        is_lower_bound(keys_of(before[rows[0][i]]), key, q),
        q < keys_of(before[rows[0][i]]).len() ==> keys_of(before[rows[0][i]])[q] != key,
        keys_of(before[rows[0][i]]).len() < page_size,
    ensures
        shape_ok(after, rows, page_size),
        flat(after, rows[0]) == flat(before, rows[0]).insert(
            flat(before, rows[0].take(i)).len() + q,
            key,
        ),
{
    assert(rows.len() >= 1 && rows.last().len() == 1 && apart(rows)) by {
        reveal(shape_ok);
    }
    lemma_shape_row(before, rows, page_size, 0);
    lemma_leaf_of(before, rows[0], page_size, i);
    lemma_leaf_row_grown(before, after, rows[0], page_size, i, q, key);
    assert forall|x: int| 0 <= x < before.len() && before[x] is Internal implies #[trigger] after[x]
        == before[x] by {}
    lemma_upper_rows(before, after, rows, rows[0], page_size);
    assert(rows.update(0, rows[0]) =~= rows);
    assert forall|g: int| 0 < g < rows.len() implies #[trigger] over_below(after, rows, g) by {
        if g == 1 {
            assert(over(after, rows[1], rows[0], bounds(before, rows[0])));
        }
    }
    assert forall|g: int| 0 <= g < rows.len() implies row_ok(after, #[trigger] rows[g], g == 0) by {
        if g > 0 {
            assert(row_ok(after, rows[g], false));
        }
    }
    assert(shape_ok(after, rows, page_size)) by {
        reveal(shape_ok);
    }
}

/// A tree one of whose leaves was split.
pub proof fn lemma_split_pending(
    before: Seq<NodeData>,
    after: Seq<NodeData>,
    rows: Seq<Seq<int>>,
    page_size: int,
    i: int,
    q: int,
    key: Seq<u8>,
    id: Id,
)
    requires
        shape_ok(before, rows, page_size),
        page_size >= 2,
        before.len() <= usize::MAX,
        0 <= i < rows[0].len(),
        page_split(before, after, rows[0][i], key, q, id),
        covers(bounds(before, rows[0]), i, key),
        is_lower_bound(keys_of(before[rows[0][i]]), key, q),
        q < keys_of(before[rows[0][i]]).len() ==> keys_of(before[rows[0][i]])[q] != key,
        keys_of(before[rows[0][i]]).len() == page_size,
    ensures
        ({
            let rows2 = rows.update(0, rows[0].insert(i + 1, before.len() as int));
            let pivot = split_keys(keys_of(before[rows[0][i]]), key, q).1[0];
            &&& pending(after, rows2, page_size, 0, i + 1)
            &&& bounds(after, rows2[0]) == bounds(before, rows[0]).insert(i, Some(pivot))
            &&& flat(after, rows2[0]) == flat(before, rows[0]).insert(
                flat(before, rows[0].take(i)).len() + q,
                key,
            )
        }),
        forall|x: int|
            0 <= x < before.len() && before[x] is Internal ==> #[trigger] after[x] == before[x],
{
    let row = rows[0];
    assert(rows.len() >= 1) by {
        reveal(shape_ok);
    }
    assert(row_ok(before, row, true) && leaves_ok(before, row, page_size)) by {
        lemma_shape_row(before, rows, page_size, 0);
    }
    lemma_leaf_row_cut(before, after, row, page_size, i, q, key, id);
    lemma_leaves_cut(before, after, row, page_size, i, q, key, id);
    lemma_flat_cut(before, after, row, page_size, i, q, key, id);
    assert forall|x: int| 0 <= x < before.len() && before[x] is Internal implies #[trigger] after[x]
        == before[x] by {
        lemma_leaf_of(before, row, page_size, i);
        lemma_split_nodes(before, after, row, page_size, i, q, key, id);
    }
    lemma_pending_from(
        before,
        after,
        rows,
        page_size,
        i,
        split_keys(keys_of(before[row[i]]), key, q).1[0],
    );
}

/// A pending tree, put together.
proof fn lemma_pending_intro(nodes: Seq<NodeData>, rows: Seq<Seq<int>>, page_size: int, h: int, j: int)
    requires
        0 <= h < rows.len(),
        apart(rows),
        forall|g: int| 0 <= g < rows.len() ==> row_ok(nodes, #[trigger] rows[g], g == 0),
        forall|g: int| 0 < g < rows.len() ==> sized(nodes, #[trigger] rows[g], page_size),
        leaves_ok(nodes, rows[0], page_size),
        forall|g: int|
            0 < g < rows.len() && g != h + 1 ==> #[trigger] over_below(nodes, rows, g),
        1 <= j < rows[h].len(),
        h + 1 < rows.len() ==> over(
            nodes,
            rows[h + 1],
            rows[h].remove(j),
            bounds(nodes, rows[h]).remove(j - 1),
        ) && rows.last().len() == 1,
        h + 1 == rows.len() ==> rows[h].len() == 2,
    ensures
        pending(nodes, rows, page_size, h, j),
{
    reveal(pending);
}

/// The rows of inner nodes above a leaf row that changed.
proof fn lemma_upper_rows(
    before: Seq<NodeData>,
    after: Seq<NodeData>,
    rows: Seq<Seq<int>>,
    row2: Seq<int>,
    page_size: int,
)
    requires
        shape_ok(before, rows, page_size),
        after.len() >= before.len(),
        forall|x: int|
            0 <= x < before.len() && before[x] is Internal ==> #[trigger] after[x] == before[x],
    ensures
        forall|g: int|
            0 < g < rows.len() ==> row_ok(after, #[trigger] rows.update(0, row2)[g], false),
        forall|g: int|
            0 < g < rows.len() ==> sized(after, #[trigger] rows.update(0, row2)[g], page_size),
        forall|g: int|
            1 < g < rows.len() ==> #[trigger] over_below(after, rows.update(0, row2), g),
        rows.len() > 1 ==> over(after, rows[1], rows[0], bounds(before, rows[0])),
{
    let rows2 = rows.update(0, row2);
    assert forall|g: int| 0 < g < rows.len() implies row_ok(after, #[trigger] rows2[g], false) by {
        lemma_upper_row(before, after, rows, page_size, g);
    }
    assert forall|g: int| 0 < g < rows.len() implies sized(after, #[trigger] rows2[g], page_size) by {
        lemma_upper_row(before, after, rows, page_size, g);
    }
    assert forall|g: int| 1 < g < rows.len() implies #[trigger] over_below(after, rows2, g) by {
        lemma_upper_row(before, after, rows, page_size, g);
        lemma_upper_row(before, after, rows, page_size, g - 1);
    }
    if rows.len() > 1 {
        lemma_upper_row(before, after, rows, page_size, 1);
    }
}

proof fn lemma_insert_remove<T>(s: Seq<T>, i: int, v: T)
    requires
        0 <= i <= s.len(),
    ensures
        s.insert(i, v).remove(i) == s,
{
    assert(s.insert(i, v).remove(i) =~= s);
}

/// A row with a new slot in it.
proof fn lemma_new_slot(row: Seq<int>, i: int, n: int)
    requires
        0 <= i < row.len(),
    ensures
        forall|j: int|
            0 <= j < row.insert(i + 1, n).len() ==> row.contains(
                #[trigger] row.insert(i + 1, n)[j],
            ) || row.insert(i + 1, n)[j] == n,
{
    let row2 = row.insert(i + 1, n);
    assert forall|j: int| 0 <= j < row2.len() implies row.contains(#[trigger] row2[j]) || row2[j] == n by {
        if j <= i {
            assert(row2[j] == row[j]);
        } else if j > i + 1 {
            assert(row2[j] == row[j - 1]);
        }
    }
}

/// A tree whose leaf row has one more leaf.
proof fn lemma_pending_from(
    before: Seq<NodeData>,
    after: Seq<NodeData>,
    rows: Seq<Seq<int>>,
    page_size: int,
    i: int,
    pivot: Seq<u8>,
)
    requires
        shape_ok(before, rows, page_size),
        0 <= i < rows[0].len(),
        after.len() == before.len() + 1,
        forall|x: int|
            0 <= x < before.len() && before[x] is Internal ==> #[trigger] after[x] == before[x],
        ({
            let row2 = rows[0].insert(i + 1, before.len() as int);
            &&& row_ok(after, row2, true)
            &&& leaves_ok(after, row2, page_size)
            &&& bounds(after, row2) == bounds(before, rows[0]).insert(i, Some(pivot))
        }),
    ensures
        pending(
            after,
            rows.update(0, rows[0].insert(i + 1, before.len() as int)),
            page_size,
            0,
            i + 1,
        ),
{
    let n = before.len() as int;
    let row = rows[0];
    let row2 = row.insert(i + 1, n);
    let rows2 = rows.update(0, row2);
    assert(rows.len() >= 1 && rows.last().len() == 1) by {
        reveal(shape_ok);
    }
    lemma_new_slot(row, i, n);
    lemma_rows_apart_insert(before, rows, page_size, 0, row2);
    lemma_upper_rows(before, after, rows, row2, page_size);
    lemma_insert_remove(row, i + 1, n);
    lemma_insert_remove(bounds(before, row), i, Some(pivot));
    assert forall|g: int| 0 <= g < rows2.len() implies row_ok(after, #[trigger] rows2[g], g == 0) by {
        if g == 0 {
            assert(rows2[0] == row2);
        } else {
            assert(row_ok(after, rows2[g], false));
        }
    }
    lemma_pending_intro(after, rows2, page_size, 0, i + 1);
}

/// Rows stay apart when one of them gains a new slot.
proof fn lemma_rows_apart_insert(
    nodes: Seq<NodeData>,
    rows: Seq<Seq<int>>,
    page_size: int,
    h: int,
    row2: Seq<int>,
)
    requires
        shape_ok(nodes, rows, page_size),
        0 <= h < rows.len(),
        row2.no_duplicates(),
        forall|j: int|
            0 <= j < row2.len() ==> rows[h].contains(#[trigger] row2[j]) || row2[j] == nodes.len(),
    ensures
        apart(rows.update(h, row2)),
{
    assert(apart(rows)) by {
        reveal(shape_ok);
    }
    assert forall|g: int, j: int|
        #![trigger rows[g][j]]
        0 <= g < rows.len() && 0 <= j < rows[g].len() implies rows[g][j] < nodes.len() by {
        lemma_shape_row(nodes, rows, page_size, g);
    }
    super::level::lemma_apart_update(rows, h, row2, nodes.len() as int);
}

/// The node of a row whose range holds a key has the child whose range holds it.
pub proof fn lemma_parent(
    nodes: Seq<NodeData>,
    page_size: int,
    row: Seq<int>,
    kids: Seq<int>,
    b: Seq<Option<Seq<u8>>>,
    i: int,
    c: int,
    key: Seq<u8>,
) -> (a: int)
    requires
        row_ok(nodes, row, false),
        sized(nodes, row, page_size),
        over(nodes, row, kids, b),
        bounds_ok(b),
        covers(bounds(nodes, row), i, key),
        covers(b, c, key),
    ensures
        row_at(nodes, page_size, row, i, kids, b, a),
        a <= c < a + ptrs_of(nodes[row[i]]).len(),
{
    broadcast use group_key_order;

    let a = lemma_over_split(nodes, row, kids, b, i);
    let m = ptrs_of(nodes[row[i]]).len() as int;
    assert(bounds(nodes, row)[i] == bound_of(nodes[row[i]]));
    assert(b.subrange(a, a + m).last() == b[a + m - 1]);
    if c < a {
        assert(bounds(nodes, row)[i - 1] == bound_of(nodes[row[i - 1]]));
        if c < a - 1 {
            assert(bound_lt(b[c], b[a - 1]));
        }
        assert(false);
    }
    if c >= a + m {
        if c > a + m {
            assert(bound_lt(b[a + m - 1], b[c - 1]));
        }
        assert(false);
    }
    a
}

/// Where in its parent a new node goes: behind the child that it was split from.
proof fn lemma_new_child_pos(
    nodes: Seq<NodeData>,
    page_size: int,
    row: Seq<int>,
    i: int,
    kids: Seq<int>,
    b: Seq<Option<Seq<u8>>>,
    a: int,
    c: int,
    pivot: Seq<u8>,
    pos: int,
)
    requires
        row_at(nodes, page_size, row, i, kids, b, a),
        bounds_ok(b),
        a <= c < a + ptrs_of(nodes[row[i]]).len(),
        covers(b, c, pivot),
        is_upper_bound(keys_of(nodes[row[i]]), pivot, pos),
    ensures
        pos == c - a,
{
    broadcast use group_key_order;

    lemma_row_at_node(nodes, page_size, row, i, kids, b, a);
    let n = nodes[row[i]];
    let m = ptrs_of(n).len() as int;
    lemma_bounds_skip(b, a);
    let bs = b.skip(a);
    assert(covers(bs, c - a, pivot));
    assert(bs.take(m).last() == b[a + m - 1]);
    if c < a + m - 1 {
        assert(bound_lt(b[c], b[a + m - 1]));
    }
    lemma_child_pos(n, kids.skip(a), bs, c - a, pivot, pos);
}

/// The nodes of the rows other than `h` are not the one at `i` of the row `h`.
proof fn lemma_other_rows(
    before: Seq<NodeData>,
    after: Seq<NodeData>,
    rows: Seq<Seq<int>>,
    page_size: int,
    h: int,
    i: int,
    c: int,
    j: int,
    g: int,
)
    requires
        pending(before, rows, page_size, c, j),
        0 <= h < rows.len(),
        0 <= i < rows[h].len(),
        0 <= g < rows.len(),
        g != h,
        after.len() >= before.len(),
        forall|x: int|
            0 <= x < before.len() && x != rows[h][i] ==> #[trigger] after[x] == before[x],
    ensures
        forall|k: int| 0 <= k < rows[g].len() ==> before[#[trigger] rows[g][k]] == after[rows[g][k]],
        bounds(after, rows[g]) == bounds(before, rows[g]),
        row_ok(after, rows[g], g == 0),
        g > 0 ==> sized(after, rows[g], page_size),
{
    lemma_pending_row(before, rows, page_size, c, j, g);
    let row = rows[g];
    assert forall|k: int| 0 <= k < rows[g].len() implies before[#[trigger] rows[g][k]]
        == after[rows[g][k]] by {
        reveal(pending);
        assert(0 <= row[k] < before.len());
        if rows[g][k] == rows[h][i] {
            assert(rows[h][i] == rows[g][k]);
        }
    }
    assert(bounds(after, row) =~= bounds(before, row)) by {
        assert forall|k: int| 0 <= k < row.len() implies bounds(after, row)[k] == bounds(
            before,
            row,
        )[k] by {
            assert(before[rows[g][k]] == after[rows[g][k]]);
        }
    }
    assert forall|k: int| 0 <= k < row.len() implies 0 <= #[trigger] row[k] < after.len()
        && is_kind(after[row[k]], g == 0) && link_at(after, row, k) && (g > 0 ==> keys_of(
        after[row[k]],
    ).len() <= page_size) by {
        assert(before[rows[g][k]] == after[rows[g][k]]);
        assert(is_kind(before[row[k]], g == 0));
        assert(link_at(before, row, k));
    }
}

/// The leaves when an inner node changed.
proof fn lemma_leaves_kept(
    before: Seq<NodeData>,
    after: Seq<NodeData>,
    row: Seq<int>,
    page_size: int,
)
    requires
        leaves_ok(before, row, page_size),
        forall|k: int| 0 <= k < row.len() ==> before[#[trigger] row[k]] == after[row[k]],
    ensures
        leaves_ok(after, row, page_size),
        flat(after, row) == flat(before, row),
{
    assert(bounds(after, row) =~= bounds(before, row));
    assert forall|k: int| 0 <= k < row.len() implies #[trigger] leaf_at(after, row, page_size, k) by {
        assert(leaf_at(before, row, page_size, k));
        assert(before[row[k]] == after[row[k]]);
    }
    lemma_flat_frame(before, after, row);
}

/// All rows but the changed one, and what is over what.
#[verifier::spinoff_prover]
proof fn lemma_step_rows(
    before: Seq<NodeData>,
    after: Seq<NodeData>,
    rows: Seq<Seq<int>>,
    row2: Seq<int>,
    page_size: int,
    h: int,
    i: int,
    j: int,
)
    requires
        pending(before, rows, page_size, h - 1, j),
        0 < h < rows.len(),
        0 <= i < rows[h].len(),
        after.len() >= before.len(),
        forall|x: int|
            0 <= x < before.len() && x != rows[h][i] ==> #[trigger] after[x] == before[x],
        row_ok(after, row2, false),
        sized(after, row2, page_size),
        over(after, row2, rows[h - 1], bounds(before, rows[h - 1])),
    ensures
        ({
            let rows2 = rows.update(h, row2);
            &&& forall|g: int| 0 <= g < rows.len() ==> row_ok(after, #[trigger] rows2[g], g == 0)
            &&& forall|g: int| 0 < g < rows.len() ==> sized(after, #[trigger] rows2[g], page_size)
            &&& leaves_ok(after, rows2[0], page_size)
            &&& flat(after, rows2[0]) == flat(before, rows[0])
            &&& forall|g: int|
                0 < g < rows.len() && g != h + 1 ==> #[trigger] over_below(after, rows2, g)
            &&& h + 1 < rows.len() ==> over(
                after,
                rows[h + 1],
                rows[h],
                bounds(before, rows[h]),
            )
        }),
{
    let rows2 = rows.update(h, row2);
    assert forall|g: int| 0 <= g < rows.len() implies row_ok(after, #[trigger] rows2[g], g == 0) by {
        if g != h {
            lemma_other_rows(before, after, rows, page_size, h, i, h - 1, j, g);
        }
    }
    assert forall|g: int| 0 < g < rows.len() implies sized(after, #[trigger] rows2[g], page_size) by {
        if g != h {
            lemma_other_rows(before, after, rows, page_size, h, i, h - 1, j, g);
        }
    }
    assert(leaves_ok(after, rows2[0], page_size) && flat(after, rows2[0]) == flat(before, rows[0])) by {
        lemma_other_rows(before, after, rows, page_size, h, i, h - 1, j, 0);
        lemma_pending_row(before, rows, page_size, h - 1, j, 0);
        lemma_leaves_kept(before, after, rows[0], page_size);
    }
    assert forall|g: int| 0 < g < rows.len() && g != h + 1 implies #[trigger] over_below(
        after,
        rows2,
        g,
    ) by {
        lemma_other_rows(before, after, rows, page_size, h, i, h - 1, j, g - 1);
        if g != h {
            lemma_other_rows(before, after, rows, page_size, h, i, h - 1, j, g);
            lemma_pending_row(before, rows, page_size, h - 1, j, g);
            lemma_over_frame(before, after, rows[g], rows[g - 1], bounds(before, rows[g - 1]));
        }
    }
    if h + 1 < rows.len() {
        lemma_other_rows(before, after, rows, page_size, h, i, h - 1, j, h + 1);
        lemma_pending_row(before, rows, page_size, h - 1, j, h + 1);
        lemma_over_frame(before, after, rows[h + 1], rows[h], bounds(before, rows[h]));
    }
}

/// The pending node came into the row above, which had room for it.
proof fn lemma_step_settled(
    before: Seq<NodeData>,
    after: Seq<NodeData>,
    rows: Seq<Seq<int>>,
    page_size: int,
    h: int,
    i: int,
    j: int,
)
    requires
        pending(before, rows, page_size, h - 1, j),
        0 < h < rows.len(),
        0 <= i < rows[h].len(),
        after.len() >= before.len(),
        forall|x: int|
            0 <= x < before.len() && x != rows[h][i] ==> #[trigger] after[x] == before[x],
        row_ok(after, rows[h], false),
        sized(after, rows[h], page_size),
        over(after, rows[h], rows[h - 1], bounds(before, rows[h - 1])),
        bounds(after, rows[h]) == bounds(before, rows[h]),
    ensures
        shape_ok(after, rows, page_size),
        flat(after, rows[0]) == flat(before, rows[0]),
{
    lemma_step_rows(before, after, rows, rows[h], page_size, h, i, j);
    assert(rows.update(h, rows[h]) =~= rows);
    assert forall|g: int| 0 < g < rows.len() implies #[trigger] over_below(after, rows, g) by {
        if g == h + 1 {
            assert(over(after, rows[h + 1], rows[h], bounds(before, rows[h])));
        }
    }
    assert(apart(rows) && rows.last().len() == 1) by {
        reveal(pending);
    }
    assert(shape_ok(after, rows, page_size)) by {
        reveal(shape_ok);
    }
}

/// The pending node came into the row above, where a node was split.
proof fn lemma_step_pending(
    before: Seq<NodeData>,
    after: Seq<NodeData>,
    rows: Seq<Seq<int>>,
    page_size: int,
    h: int,
    i: int,
    j: int,
    pivot: Seq<u8>,
)
    requires
        pending(before, rows, page_size, h - 1, j),
        0 < h < rows.len(),
        0 <= i < rows[h].len(),
        after.len() == before.len() + 1,
        forall|x: int|
            0 <= x < before.len() && x != rows[h][i] ==> #[trigger] after[x] == before[x],
        ({
            let row2 = rows[h].insert(i + 1, before.len() as int);
            &&& row_ok(after, row2, false)
            &&& sized(after, row2, page_size)
            &&& over(after, row2, rows[h - 1], bounds(before, rows[h - 1]))
            &&& bounds(after, row2) == bounds(before, rows[h]).insert(i, Some(pivot))
        }),
    ensures
        ({
            let rows2 = rows.update(h, rows[h].insert(i + 1, before.len() as int));
            &&& pending(after, rows2, page_size, h, i + 1)
            &&& flat(after, rows2[0]) == flat(before, rows[0])
        }),
{
    let n = before.len() as int;
    let row2 = rows[h].insert(i + 1, n);
    let rows2 = rows.update(h, row2);
    lemma_step_rows(before, after, rows, row2, page_size, h, i, j);
    lemma_new_slot(rows[h], i, n);
    assert(apart(rows) && rows.last().len() == 1) by {
        reveal(pending);
    }
    assert forall|g: int, k: int|
        #![trigger rows[g][k]]
        0 <= g < rows.len() && 0 <= k < rows[g].len() implies rows[g][k] < n by {
        lemma_pending_row(before, rows, page_size, h - 1, j, g);
    }
    super::level::lemma_apart_update(rows, h, row2, n);
    lemma_insert_remove(rows[h], i + 1, n);
    lemma_insert_remove(bounds(before, rows[h]), i, Some(pivot));
    lemma_pending_intro(after, rows2, page_size, h, i + 1);
}

/// A new root over the two halves of the old one.
proof fn lemma_new_root(
    before: Seq<NodeData>,
    after: Seq<NodeData>,
    rows: Seq<Seq<int>>,
    page_size: int,
    pivot: Seq<u8>,
)
    requires
        rows.len() >= 1,
        pending(before, rows, page_size, rows.len() - 1, 1),
        page_size >= 2,
        bounds(before, rows.last())[0] == Some(pivot),
        after.len() == before.len() + 1,
        forall|x: int| 0 <= x < before.len() ==> #[trigger] after[x] == before[x],
        ({
            let r = after[before.len() as int];
            &&& r is Internal
            &&& keys_of(r) == seq![pivot]
            &&& ptrs_of(r) == seq![slot_ref(rows.last()[0]), slot_ref(rows.last()[1])]
            &&& right_of(r) is Nil
            &&& bound_of(r) is None
        }),
    ensures
        shape_ok(after, rows.push(seq![before.len() as int]), page_size),
        flat(after, rows.push(seq![before.len() as int])[0]) == flat(before, rows[0]),
{
    let n = before.len() as int;
    let top = rows.len() - 1;
    let root = seq![n];
    let rows2 = rows.push(root);
    lemma_pending_row(before, rows, page_size, top, 1, top);
    let last = rows[top];
    let b = bounds(after, last);
    assert forall|g: int| 0 <= g < rows.len() implies row_ok(after, #[trigger] rows[g], g == 0) && (g
        > 0 ==> sized(after, rows[g], page_size)) && bounds(after, rows[g]) == bounds(
        before,
        rows[g],
    ) by {
        lemma_kept_row(before, after, rows, page_size, top, 1, g);
    }
    assert(over(after, root, last, b)) by {
        assert(last.len() == 2);
        assert(b.last() is None);
        assert(node_over(after[n], last, b));
        lemma_over_one(after, n, last, b);
    }
    assert(row_ok(after, root, false)) by {
        assert(bounds(after, root) =~= seq![None::<Seq<u8>>]);
        assert(link_at(after, root, 0));
    }
    assert(sized(after, root, page_size));
    assert forall|g: int| 0 <= g < rows2.len() implies row_ok(after, #[trigger] rows2[g], g == 0) by {
        if g < rows.len() {
            assert(rows2[g] == rows[g]);
        }
    }
    assert forall|g: int| 0 < g < rows2.len() implies sized(after, #[trigger] rows2[g], page_size) by {
        if g < rows.len() {
            assert(rows2[g] == rows[g]);
        }
    }
    assert forall|g: int| 0 < g < rows2.len() implies #[trigger] over_below(after, rows2, g) by {
        if g < rows.len() {
            assert(rows2[g] == rows[g]);
            assert(rows2[g - 1] == rows[g - 1]);
            lemma_pending_row(before, rows, page_size, top, 1, g);
            lemma_kept_row(before, after, rows, page_size, top, 1, g);
            assert(bounds(after, rows[g - 1]) == bounds(before, rows[g - 1]));
            lemma_over_frame(before, after, rows[g], rows[g - 1], bounds(before, rows[g - 1]));
        } else {
            assert(rows2[g - 1] == last);
        }
    }
    assert(leaves_ok(after, rows2[0], page_size) && flat(after, rows2[0]) == flat(before, rows[0])) by {
        lemma_pending_row(before, rows, page_size, top, 1, 0);
        lemma_kept_row(before, after, rows, page_size, top, 1, 0);
        lemma_leaves_kept(before, after, rows[0], page_size);
    }
    assert(apart(rows2)) by {
        reveal(pending);
        assert forall|f: int, x: int, g: int, y: int|
            #![trigger rows2[f][x], rows2[g][y]]
            0 <= f < rows2.len() && 0 <= g < rows2.len() && 0 <= x < rows2[f].len() && 0 <= y
                < rows2[g].len() && rows2[f][x] == rows2[g][y] implies f == g && x == y by {
            if f < rows.len() {
                assert(rows2[f][x] == rows[f][x]);
                assert(0 <= rows[f][x] < before.len());
            }
            if g < rows.len() {
                assert(rows2[g][y] == rows[g][y]);
                assert(0 <= rows[g][y] < before.len());
            }
        }
    }
    assert(shape_ok(after, rows2, page_size)) by {
        reveal(shape_ok);
    }
}

/// A row of nodes none of which changed.
proof fn lemma_kept_row(
    before: Seq<NodeData>,
    after: Seq<NodeData>,
    rows: Seq<Seq<int>>,
    page_size: int,
    h: int,
    j: int,
    g: int,
)
    requires
        pending(before, rows, page_size, h, j),
        0 <= g < rows.len(),
        after.len() >= before.len(),
        forall|x: int| 0 <= x < before.len() ==> #[trigger] after[x] == before[x],
    ensures
        forall|k: int| 0 <= k < rows[g].len() ==> before[#[trigger] rows[g][k]] == after[rows[g][k]],
        bounds(after, rows[g]) == bounds(before, rows[g]),
        row_ok(after, rows[g], g == 0),
        g > 0 ==> sized(after, rows[g], page_size),
{
    lemma_pending_row(before, rows, page_size, h, j, g);
    let row = rows[g];
    assert forall|k: int| 0 <= k < rows[g].len() implies before[#[trigger] rows[g][k]]
        == after[rows[g][k]] by {
        assert(0 <= row[k] < before.len());
    }
    assert(bounds(after, row) =~= bounds(before, row)) by {
        assert forall|k: int| 0 <= k < row.len() implies bounds(after, row)[k] == bounds(
            before,
            row,
        )[k] by {
            assert(before[rows[g][k]] == after[rows[g][k]]);
        }
    }
    assert forall|k: int| 0 <= k < row.len() implies 0 <= #[trigger] row[k] < after.len()
        && is_kind(after[row[k]], g == 0) && link_at(after, row, k) && (g > 0 ==> keys_of(
        after[row[k]],
    ).len() <= page_size) by {
        assert(before[rows[g][k]] == after[rows[g][k]]);
        assert(is_kind(before[row[k]], g == 0));
        assert(link_at(before, row, k));
    }
}

/// The child to follow for a key holds the key in its range.
pub proof fn lemma_child_covers(tree: &BPlusTree, h: int, i: int, key: Seq<u8>, pos: int) -> (c: int)
    requires
        tree.wf(),
        0 < h < tree.rows@.len(),
        covers(bounds(tree.nodes@, tree.rows@[h]), i, key),
        is_upper_bound(keys_of(tree.nodes@[tree.rows@[h][i]]), key, pos),
    ensures
        covers(bounds(tree.nodes@, tree.rows@[h - 1]), c, key),
        pos < ptrs_of(tree.nodes@[tree.rows@[h][i]]).len(),
        ptrs_of(tree.nodes@[tree.rows@[h][i]])[pos] == slot_ref(tree.rows@[h - 1][c]),
{
    lemma_shape_row(tree.nodes@, tree.rows@, tree.page_size as int, h);
    let row = tree.rows@[h];
    let kids = tree.rows@[h - 1];
    let b = bounds(tree.nodes@, kids);
    let n = tree.nodes@[row[i]];
    let a = lemma_over_split(tree.nodes@, row, kids, b, i);
    let m = ptrs_of(n).len() as int;
    let c = a + pos;
    let bm = b.subrange(a, a + m);
    assert(bounds(tree.nodes@, row)[i] == bound_of(n));
    assert(bm.last() == b[a + m - 1]);
    assert(ptrs_of(n)[pos] == slot_ref(kids.subrange(a, a + m)[pos]));
    if pos > 0 {
        assert(Some(keys_of(n)[pos - 1]) == bm[pos - 1]);
    } else if i > 0 {
        assert(bounds(tree.nodes@, row)[i - 1] == bound_of(tree.nodes@[row[i - 1]]));
    }
    if pos < keys_of(n).len() {
        assert(Some(keys_of(n)[pos]) == bm[pos]);
    }
    c
}

/// The first node of the top row holds every key in its range.
pub proof fn lemma_root_covers(tree: &BPlusTree, key: Seq<u8>)
    requires
        tree.wf(),
    ensures
        tree.rows@.len() >= 1,
        tree.rows@.last().len() == 1,
        covers(bounds(tree.nodes@, tree.rows@.last()), 0, key),
        0 <= tree.root < tree.nodes@.len(),
{
    reveal(shape_ok);
    let top = tree.rows@.len() - 1;
    assert(row_ok(tree.nodes@, tree.rows@[top], top == 0));
    assert(0 <= tree.rows@[top][0] < tree.nodes@.len());
}

/// The page whose range holds `key`, and how many of its keys come before it.
pub fn locate(tree: &BPlusTree, key: &EntryKey) -> (r: (usize, usize))
    requires
        tree.wf(),
    ensures
        exists|i: int| #[trigger] found(tree, key@, i, r.1 as int) && r.0 == tree.leaves()[i],
{
    let mut slot: usize = tree.root;
    proof {
        lemma_root_covers(tree, key@);
    }
    let ghost mut h: int = tree.rows@.len() - 1;
    let ghost mut i: int = 0;
    loop
        invariant
            tree.wf(),
            0 <= h < tree.rows@.len(),
            covers(bounds(tree.nodes@, tree.rows@[h]), i, key@),
            slot == tree.rows@[h][i],
        decreases h,
    {
        proof {
            lemma_row(tree, h, i);
        }
        match &tree.nodes[slot] {
            NodeData::External(page) => {
                let q: usize = lower_bound(&page.keys, key);
                assert(h == 0);
                assert(found(tree, key@, i, q as int) && slot == tree.leaves()[i]);
                let r: (usize, usize) = (slot, q);
                assert(found(tree, key@, i, r.1 as int) && r.0 == tree.leaves()[i]);
                return r;
            },
            NodeData::Internal(node) => {
                let pos: usize = node.search(key);
                let ghost c = lemma_child_covers(tree, h, i, key@, pos as int);
                proof {
                    lemma_row(tree, h - 1, c);
                }
                match node.ptrs[pos] {
                    NodeCellRef::Slot(s) => {
                        slot = s;
                        proof {
                            h = h - 1;
                            i = c;
                        }
                    },
                    _ => {
                        assert(false);
                        return (slot, 0);
                    },
                }
            },
            _ => {
                assert(false);
                return (slot, 0);
            },
        }
    }
}

/// Rows and nodes above a row are as before.
pub open spec fn above_same(
    before: Seq<NodeData>,
    rows: Seq<Seq<int>>,
    after: Seq<NodeData>,
    rows2: Seq<Seq<int>>,
    h: int,
) -> bool {
    &&& rows2.len() == rows.len()
    &&& after.len() >= before.len()
    &&& forall|g: int| h < g < rows.len() ==> #[trigger] rows2[g] == rows[g]
    &&& forall|g: int, k: int|
        #![trigger rows[g][k]]
        h < g < rows.len() && 0 <= k < rows[g].len() ==> after[rows[g][k]] == before[rows[g][k]]
}

/// The id of the first page of a row of leaves.
pub open spec fn first_id(nodes: Seq<NodeData>, rows: Seq<Seq<int>>) -> Id {
    nodes[rows[0][0]]->External_0.id
}

/// What adding a key below the node at `i` of the row `h` comes to.
pub open spec fn key_added(
    before: BPlusTree,
    after: BPlusTree,
    key: Seq<u8>,
    h: int,
    i: int,
    r: Option<(NodeCellRef, Seq<u8>)>,
) -> bool {
    let page_size = before.page_size as int;
    &&& same_but_shape(after, before)
    &&& above_same(before.nodes@, before.rows@, after.nodes@, after.rows@, h)
    &&& first_id(after.nodes@, after.rows@) == first_id(before.nodes@, before.rows@)
    &&& forall|pos: int|
        is_lower_bound(before.keys(), key, pos) ==> after.keys() == #[trigger] before.keys().insert(
            pos,
            key,
        )
    &&& match r {
        None => shape_ok(after.nodes@, after.rows@, page_size) && after.rows@[h] == before.rows@[h],
        Some(p) => {
            &&& pending(after.nodes@, after.rows@, page_size, h, i + 1)
            &&& p.0 == slot_ref(after.rows@[h][i + 1])
            &&& after.rows@[h] == before.rows@[h].insert(i + 1, after.rows@[h][i + 1])
            &&& bounds(after.nodes@, after.rows@[h]) == bounds(
                before.nodes@,
                before.rows@[h],
            ).insert(i, Some(p.1))
        },
    }
}

/// A key comes into the leaf whose range holds it.
fn insert_in_leaf(
    tree: &mut BPlusTree,
    slot: usize,
    key: EntryKey,
    Ghost(i): Ghost<int>,
) -> (r: Option<(NodeCellRef, EntryKey)>)
    requires
        old(tree).wf(),
        0 <= i < old(tree).leaves().len(),
        slot == old(tree).leaves()[i],
        covers(bounds(old(tree).nodes@, old(tree).leaves()), i, key@),
        !old(tree).keys().contains(key@),
    ensures
        key_added(*old(tree), *final(tree), key@, 0, i, split_view(r)),
{
    let ghost t0 = *tree;
    let ghost before = tree.nodes@;
    let ghost rows = tree.rows@;
    let ghost page_size = tree.page_size as int;
    let ghost k = key@;
    proof {
        lemma_root_covers(tree, k);
        lemma_shape_row(before, rows, page_size, 0);
        lemma_leaf_of(before, rows[0], page_size, i);
        assert(tree.nodes.len() == before.len());
        if i + 1 < rows[0].len() {
            lemma_leaf_of(before, rows[0], page_size, i + 1);
            assert(rows[0][i + 1] != rows[0][i]);
        }
    }
    let q: usize = match &tree.nodes[slot] {
        NodeData::External(page) => lower_bound(&page.keys, &key),
        _ => 0,
    };
    proof {
        lemma_leaf_keys_in_flat(&t0, i);
        let here = keys_of(before[slot as int]);
        assert(found(&t0, k, i, q as int));
        lemma_found_in_tree(&t0, k, i, q as int);
        if q < here.len() && here[q as int] == k {
            assert(t0.keys()[offset(&t0, i) + q] == k);
        }
        assert forall|pos: int| is_lower_bound(t0.keys(), k, pos) implies pos == offset(&t0, i) + q by {
            lemma_lower_bound_unique(t0.keys(), k, pos, offset(&t0, i) + q);
        }
    }
    match ExtNode::insert(tree, slot, key, q) {
        None => {
            proof {
                lemma_leaf_of(before, rows[0], page_size, 0);
                lemma_grown_shape(before, tree.nodes@, rows, page_size, i, q as int, k);
                assert forall|g: int, x: int|
                    #![trigger rows[g][x]]
                    0 < g < rows.len() && 0 <= x < rows[g].len() implies tree.nodes@[rows[g][x]]
                    == before[rows[g][x]] by {
                    lemma_shape_row(before, rows, page_size, g);
                    assert(before[rows[g][x]] is Internal);
                }
            }
            None
        },
        Some((child, _)) => {
            let ghost after = tree.nodes@;
            let ghost n = before.len() as int;
            let ghost id = choose|id: Id| page_split(before, after, slot as int, k, q as int, id);
            proof {
                lemma_split_pending(before, after, rows, page_size, i, q as int, k, id);
                lemma_leaf_of(before, rows[0], page_size, 0);
                assert(rows[0].insert(i + 1, n)[0] == rows[0][0]);
                assert forall|g: int, x: int|
                    #![trigger rows[g][x]]
                    0 < g < rows.len() && 0 <= x < rows[g].len() implies after[rows[g][x]]
                    == before[rows[g][x]] by {
                    lemma_shape_row(before, rows, page_size, g);
                    assert(before[rows[g][x]] is Internal);
                    assert(0 <= rows[g][x] < before.len());
                }
                lemma_halves(keys_of(before[slot as int]), k, q as int, page_size);
            }
            let new_slot: usize = match child {
                NodeCellRef::Slot(s) => s,
                _ => 0,
            };
            let pivot = match &tree.nodes[new_slot] {
                NodeData::External(page) => page.keys[0].duplicate(),
                _ => EntryKey::from_slice(&[]),
            };
            proof {
                assert(keys_of(after[n])[0] == pivot@);
            }
            tree.rows = Ghost(rows.update(0, rows[0].insert(i + 1, n)));
            Some((child, pivot))
        },
    }
}

/// There is one place for a key only.
proof fn lemma_lower_bound_unique(keys: Seq<Seq<u8>>, key: Seq<u8>, p: int, r: int)
    requires
        is_lower_bound(keys, key, p),
        is_lower_bound(keys, key, r),
    ensures
        p == r,
{
    if p < r {
        assert(key_lt(keys[p], key));
    } else if r < p {
        assert(key_lt(keys[r], key));
    }
}

/// The split of a child comes into its parent.
#[verifier::spinoff_prover]
proof fn lemma_carry(
    t0: BPlusTree,
    t1: BPlusTree,
    key: Seq<u8>,
    h: int,
    i: int,
    c: int,
    pivot: Seq<u8>,
) -> (a: int)
    requires
        t0.wf(),
        0 < h < t0.rows@.len(),
        covers(bounds(t0.nodes@, t0.rows@[h]), i, key),
        covers(bounds(t0.nodes@, t0.rows@[h - 1]), c, key),
        above_same(t0.nodes@, t0.rows@, t1.nodes@, t1.rows@, h - 1),
        pending(t1.nodes@, t1.rows@, t0.page_size as int, h - 1, c + 1),
        t1.rows@[h - 1] == t0.rows@[h - 1].insert(c + 1, t1.rows@[h - 1][c + 1]),
        bounds(t1.nodes@, t1.rows@[h - 1]) == bounds(t0.nodes@, t0.rows@[h - 1]).insert(
            c,
            Some(pivot),
        ),
    ensures
        ({
            let kids = t0.rows@[h - 1];
            let b = bounds(t0.nodes@, kids);
            let row = t1.rows@[h];
            &&& row == t0.rows@[h]
            &&& bounds(t1.nodes@, row) == bounds(t0.nodes@, row)
            &&& row_at(t1.nodes@, t0.page_size as int, row, i, kids, b, a)
            &&& a <= c < a + ptrs_of(t1.nodes@[row[i]]).len()
            &&& covers(b, c, pivot)
            &&& bounds_ok(b)
            &&& bounds_ok(b.insert(c, Some(pivot)))
            &&& kids.insert(c + 1, t1.rows@[h - 1][c + 1]) == t1.rows@[h - 1]
            &&& ascending(keys_of(t1.nodes@[row[i]]))
            &&& 0 <= row[i] < t1.nodes@.len()
            &&& t1.nodes@[row[i]] is Internal
            &&& ptrs_of(t1.nodes@[row[i]]).len() == keys_of(t1.nodes@[row[i]]).len() + 1
        }),
{
    broadcast use group_key_order;

    let page_size = t0.page_size as int;
    let kids = t0.rows@[h - 1];
    let b = bounds(t0.nodes@, kids);
    let row = t0.rows@[h];
    let n = t1.rows@[h - 1][c + 1];
    let b2 = b.insert(c, Some(pivot));
    assert(t1.rows@[h] == row);
    assert(bounds_ok(b)) by {
        lemma_shape_row(t0.nodes@, t0.rows@, page_size, h - 1);
    }
    assert(bounds_ok(b2)) by {
        lemma_pending_row(t1.nodes@, t1.rows@, page_size, h - 1, c + 1, h - 1);
    }
    lemma_insert_remove(kids, c + 1, n);
    lemma_insert_remove(b, c, Some(pivot));
    lemma_pending_row(t1.nodes@, t1.rows@, page_size, h - 1, c + 1, h);
    assert(bounds(t1.nodes@, row) =~= bounds(t0.nodes@, row)) by {
        assert forall|k: int| 0 <= k < row.len() implies bounds(t1.nodes@, row)[k] == bounds(
            t0.nodes@,
            row,
        )[k] by {
            assert(t0.rows@[h][k] == row[k]);
        }
    }
    let a = lemma_parent(t1.nodes@, page_size, row, kids, b, i, c, key);
    assert(bound_lt(b2[c], b2[c + 1]));
    if c > 0 {
        assert(bound_lt(b2[c - 1], b2[c]));
    }
    lemma_row_at_node(t1.nodes@, page_size, row, i, kids, b, a);
    let m = ptrs_of(t1.nodes@[row[i]]).len() as int;
    let bm = b.skip(a).take(m);
    assert forall|x: int, y: int| 0 <= x < y < bm.len() implies bound_lt(
        #[trigger] bm[x],
        #[trigger] bm[y],
    ) by {
        assert(bound_lt(b[a + x], b[a + y]));
    }
    lemma_node_keys_ascend(t1.nodes@[row[i]], kids.skip(a).take(m), bm);
    a
}

/// Adds a key below the node at `i` of the row `h`. The node may be split: the reference to the new
/// node is returned with the key that parts the two.
fn insert_below(
    tree: &mut BPlusTree,
    slot: usize,
    key: EntryKey,
    Ghost(h): Ghost<int>,
    Ghost(i): Ghost<int>,
) -> (r: Option<(NodeCellRef, EntryKey)>)
    requires
        old(tree).wf(),
        0 <= h < old(tree).rows@.len(),
        slot == old(tree).rows@[h][i],
        covers(bounds(old(tree).nodes@, old(tree).rows@[h]), i, key@),
        !old(tree).keys().contains(key@),
    ensures
        key_added(*old(tree), *final(tree), key@, h, i, split_view(r)),
    decreases h,
{
    let ghost t0 = *tree;
    let ghost k = key@;
    let ghost page_size = tree.page_size as int;
    proof {
        lemma_row(tree, h, i);
    }
    let (child, pos): (usize, usize) = match &tree.nodes[slot] {
        NodeData::Internal(node) => {
            let pos: usize = node.search(&key);
            proof {
                let c = lemma_child_covers(&t0, h, i, k, pos as int);
                lemma_row(&t0, h - 1, c);
            }
            match node.ptrs[pos] {
                NodeCellRef::Slot(s) => (s, pos),
                _ => {
                    assert(false);
                    return None;
                },
            }
        },
        _ => {
            return insert_in_leaf(tree, slot, key, Ghost(i));
        },
    };
    let ghost c = lemma_child_covers(&t0, h, i, k, pos as int);
    proof {
        lemma_row(&t0, h - 1, c);
    }
    match insert_below(tree, child, key, Ghost(h - 1), Ghost(c)) {
        None => {
            assert(above_same(t0.nodes@, t0.rows@, tree.nodes@, tree.rows@, h));
            None
        },
        Some((new, pivot)) => {
            let ghost t1 = *tree;
            let ghost a = lemma_carry(t0, t1, k, h, i, c, pivot@);
            let ghost kids = t0.rows@[h - 1];
            let ghost b = bounds(t0.nodes@, kids);
            let ghost row = t1.rows@[h];
            let at: usize = match &tree.nodes[slot] {
                NodeData::Internal(node) => node.search(&pivot),
                _ => 0,
            };
            proof {
                lemma_new_child_pos(
                    t1.nodes@,
                    page_size,
                    row,
                    i,
                    kids,
                    b,
                    a,
                    c,
                    pivot@,
                    at as int,
                );
            }
            let ghost piv = pivot@;
            let r = put_child(tree, slot, pivot, new, at, true);
            proof {
                assert(tree.nodes.len() == tree.nodes@.len());
                lemma_put_over(
                    t1.nodes@,
                    tree.nodes@,
                    page_size,
                    row,
                    i,
                    kids,
                    b,
                    a,
                    at as int,
                    1,
                    piv,
                    t1.rows@[h - 1][c + 1],
                    split_view(r),
                );
                lemma_carried(t0, t1, *tree, k, h, i, c, split_view(r));
            }
            if r.is_some() {
                tree.rows = Ghost(
                    t1.rows@.update(h, row.insert(i + 1, t1.nodes@.len() as int)),
                );
            }
            r
        },
    }
}

/// The tree once the new node is in the row above.
#[verifier::spinoff_prover]
proof fn lemma_carried(
    t0: BPlusTree,
    t1: BPlusTree,
    t2: BPlusTree,
    key: Seq<u8>,
    h: int,
    i: int,
    c: int,
    r: Option<(NodeCellRef, Seq<u8>)>,
)
    requires
        0 < h < t0.rows@.len(),
        0 <= i < t0.rows@[h].len(),
        same_but_shape(t1, t0),
        above_same(t0.nodes@, t0.rows@, t1.nodes@, t1.rows@, h - 1),
        t0.wf(),
        first_id(t1.nodes@, t1.rows@) == first_id(t0.nodes@, t0.rows@),
        bounds(t1.nodes@, t0.rows@[h]) == bounds(t0.nodes@, t0.rows@[h]),
        pending(t1.nodes@, t1.rows@, t0.page_size as int, h - 1, c + 1),
        forall|pos: int|
            is_lower_bound(t0.keys(), key, pos) ==> t1.keys() == #[trigger] t0.keys().insert(pos, key),
        same_but_nodes(t2, t1),
        ({
            let nodes = t1.nodes@;
            let after = t2.nodes@;
            let row = t0.rows@[h];
            let row2 = cut_row(row, i, nodes.len() as int, r);
            &&& after.len() == nodes.len() + if r is None {
                0int
            } else {
                1int
            }
            &&& forall|x: int| 0 <= x < nodes.len() && x != row[i] ==> #[trigger] after[x] == nodes[x]
            &&& row_ok(after, row2, false)
            &&& sized(after, row2, t0.page_size as int)
            &&& bounds(after, row2) == cut_bounds(bounds(nodes, row), i, r)
            &&& over(after, row2, t1.rows@[h - 1], bounds(nodes, t1.rows@[h - 1]))
            &&& r matches Some(p) ==> p.0 == slot_ref(nodes.len() as int)
        }),
    ensures
        ({
            let rows2 = if r is None {
                t1.rows@
            } else {
                t1.rows@.update(h, t0.rows@[h].insert(i + 1, t1.nodes@.len() as int))
            };
            key_added(t0, BPlusTree { rows: Ghost(rows2), ..t2 }, key, h, i, r)
        }),
{
    let page_size = t0.page_size as int;
    let nodes = t1.nodes@;
    let after = t2.nodes@;
    let rows1 = t1.rows@;
    let row = t0.rows@[h];
    let n = nodes.len() as int;
    assert(rows1[h] == row);
    let rows2 = if r is None {
        rows1
    } else {
        rows1.update(h, row.insert(i + 1, n))
    };
    match r {
        None => {
            lemma_step_settled(nodes, after, rows1, page_size, h, i, c + 1);
        },
        Some(p) => {
            lemma_step_pending(nodes, after, rows1, page_size, h, i, c + 1, p.1);
            assert(rows2[h][i + 1] == n);
        },
    }
    assert(first_id(after, rows2) == first_id(nodes, rows1)) by {
        lemma_other_rows(nodes, after, rows1, page_size, h, i, h - 1, c + 1, 0);
        lemma_pending_row(nodes, rows1, page_size, h - 1, c + 1, 0);
        assert(nodes[rows1[0][0]] == after[rows1[0][0]]);
    }
    assert(above_same(t0.nodes@, t0.rows@, after, rows2, h)) by {
        assert forall|g: int, k: int|
            #![trigger t0.rows@[g][k]]
            h < g < t0.rows@.len() && 0 <= k < t0.rows@[g].len() implies after[t0.rows@[g][k]]
            == t0.nodes@[t0.rows@[g][k]] by {
            assert(nodes[t0.rows@[g][k]] == t0.nodes@[t0.rows@[g][k]]);
            assert(rows1[g] == t0.rows@[g]);
            lemma_other_rows(nodes, after, rows1, page_size, h, i, h - 1, c + 1, g);
            assert(nodes[rows1[g][k]] == after[rows1[g][k]]);
        }
        assert forall|g: int| h < g < t0.rows@.len() implies #[trigger] rows2[g] == t0.rows@[g] by {
            assert(rows1[g] == t0.rows@[g]);
        }
    }
}

impl BPlusTree {
    /// Puts a key that no page holds yet in its page.
    pub(crate) fn add_key(&mut self, key: EntryKey)
        requires
            old(self).wf(),
            !old(self).keys().contains(key@),
        ensures
            final(self).wf(),
            forall|pos: int|
                is_lower_bound(old(self).keys(), key@, pos) ==> final(self).keys()
                    == #[trigger] old(self).keys().insert(pos, key@),
            final(self).page_size == old(self).page_size,
            final(self).len == old(self).len,
            final(self).deleted == old(self).deleted,
            final(self).head_page_id == old(self).head_page_id,
            final(self).changed == old(self).changed,
            first_id(final(self).nodes@, final(self).rows@) == first_id(
                old(self).nodes@,
                old(self).rows@,
            ),
    {
        let ghost t0 = *self;
        let ghost h = self.rows@.len() - 1;
        let ghost page_size = self.page_size as int;
        proof {
            lemma_root_covers(self, key@);
        }
        let root: usize = self.root;
        match insert_below(self, root, key, Ghost(h), Ghost(0)) {
            None => {},
            Some((new, pivot)) => {
                let ghost t1 = *self;
                let ghost n = self.nodes@.len() as int;
                let ghost piv = pivot@;
                let new_root: usize = self.nodes.len();
                proof {
                    assert(self.nodes.len() == self.nodes@.len());
                }
                let node = InNode {
                    keys: vec![pivot],
                    ptrs: vec![NodeCellRef::Slot(root), new],
                    right: NodeCellRef::Nil,
                    right_bound: None,
                };
                let ghost nd = node;
                self.nodes.push(NodeData::Internal(node));
                self.root = new_root;
                proof {
                    let rows1 = t1.rows@;
                    assert(rows1.last() == rows1[h]);
                    assert(rows1[h][0] == t0.rows@[h][0]);
                    assert(keys_of(NodeData::Internal(nd)) =~= seq![piv]);
                    assert(ptrs_of(NodeData::Internal(nd)) =~= seq![
                        slot_ref(rows1.last()[0]),
                        slot_ref(rows1.last()[1]),
                    ]);
                    lemma_new_root(t1.nodes@, self.nodes@, rows1, page_size, piv);
                    lemma_pending_row(t1.nodes@, rows1, page_size, h, 1, 0);
                    assert(0 <= rows1[0][0] < t1.nodes@.len());
                }
                self.rows = Ghost(t1.rows@.push(seq![n]));
            },
        }
    }
}

} // verus!
