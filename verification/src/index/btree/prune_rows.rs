//! Taking any leaves out of the rows of a tree, one row after the other.
use super::node::{below, bound_of, keys_of, ptrs_of, NodeCellRef, NodeData};
use super::prune::{lemma_row_over_frame, row_over};
use super::prune_any::{kept, lemma_row_ptrs_frame, places, refs, row_ptrs};
use super::prune_row::row_cut;
use super::prune_split::live_row;
use super::prune_state::{end_known, job_ok, lemma_row_over_skip, noted, own_slot, Cut, Job};
use super::removal::RemovalView;
use super::search::{
    lands, lemma_child, lemma_lands_on_live, step_down, MutSearchResult,
};
use super::shape::{bounds, bounds_ok, lemma_shape_row, reaches, row_ok, shape_ok, slot_ref};
use super::tree::BPlusTree;
use crate::index::key::{ascending, group_key_order, is_upper_bound, key_le, key_lt};
use vstd::prelude::*;

verus! {

/// The keys `part` are those of `all` at the positions `pos`, from left to right.
pub open spec fn picked(part: Seq<Seq<u8>>, all: Seq<Seq<u8>>, pos: Seq<int>) -> bool {
    &&& pos.len() == part.len()
    &&& forall|x: int|
        0 <= x < part.len() ==> 0 <= #[trigger] pos[x] < all.len() && part[x] == all[pos[x]]
    &&& forall|x: int, y: int| 0 <= x < y < pos.len() ==> #[trigger] pos[x] < #[trigger] pos[y]
}

/// The keys `part` are some of `all`, in the same order.
pub open spec fn some_of(part: Seq<Seq<u8>>, all: Seq<Seq<u8>>) -> bool {
    exists|pos: Seq<int>| picked(part, all, pos)
}

pub proof fn lemma_all_of(keys: Seq<Seq<u8>>)
    ensures
        some_of(keys, keys),
{
    let pos = Seq::new(keys.len(), |x: int| x);
    assert(picked(keys, keys, pos));
}

pub proof fn lemma_some_of_some(a: Seq<Seq<u8>>, b: Seq<Seq<u8>>, c: Seq<Seq<u8>>)
    requires
        some_of(a, b),
        some_of(b, c),
    ensures
        some_of(a, c),
{
    let p = choose|p: Seq<int>| picked(a, b, p);
    let q = choose|q: Seq<int>| picked(b, c, q);
    let r = Seq::new(a.len(), |x: int| q[p[x]]);
    assert forall|x: int| 0 <= x < a.len() implies 0 <= #[trigger] r[x] < c.len() && a[x] == c[r[x]] by {
        assert(0 <= p[x] < b.len());
        assert(0 <= q[p[x]] < c.len());
    }
    assert forall|x: int, y: int| 0 <= x < y < r.len() implies #[trigger] r[x] < #[trigger] r[y] by {
        assert(0 <= p[x] < b.len());
        assert(0 <= p[y] < b.len());
        assert(p[x] < p[y]);
        assert(q[p[x]] < q[p[y]]);
    }
    assert(picked(a, c, r));
}

/// Some of the keys that ascend ascend, from no smaller one on.
pub proof fn lemma_some_ascend(part: Seq<Seq<u8>>, all: Seq<Seq<u8>>)
    requires
        some_of(part, all),
        ascending(all),
    ensures
        ascending(part),
        part.len() > 0 ==> all.len() > 0 && key_le(all[0], part[0]),
{
    broadcast use group_key_order;

    let p = choose|p: Seq<int>| picked(part, all, p);
    assert forall|x: int, y: int| 0 <= x < y < part.len() implies key_lt(
        #[trigger] part[x],
        #[trigger] part[y],
    ) by {
        assert(0 <= p[x] < all.len());
        assert(0 <= p[y] < all.len());
        assert(p[x] < p[y]);
        assert(key_lt(all[p[x]], all[p[y]]));
    }
    if part.len() > 0 {
        assert(0 <= p[0] < all.len());
        if p[0] > 0 {
            assert(key_lt(all[0], all[p[0]]));
        }
    }
}

/// The work in the row `h`, from its node at `i` on.
pub open spec fn row_work(
    nodes: Seq<NodeData>,
    page_size: int,
    rows: Seq<Seq<int>>,
    h: int,
    i: int,
    keys: Seq<Seq<u8>>,
) -> Job {
    Job {
        before: nodes,
        page_size,
        row: rows[h],
        kids: rows[h - 1],
        b: bounds(nodes, rows[h - 1]),
        keys,
        start: i,
        shortcuts: h > 1,
    }
}

/// What the row `h` tells the row above: of each node that was emptied, the last key under it of
/// those that the row itself was told, which are all keys for the row over the leaves.
pub open spec fn handed_up(
    before: Seq<NodeData>,
    after: Seq<NodeData>,
    page_size: int,
    rows: Seq<Seq<int>>,
    h: int,
    i: int,
    keys: Seq<Seq<u8>>,
    out: RemovalView,
) -> bool {
    exists|told: Seq<Seq<u8>>, c: Cut|
        {
            &&& some_of(told, keys)
            &&& h == 1 ==> told == keys
            &&& #[trigger] noted(row_work(before, page_size, rows, h, i, told), after, out, c)
        }
}

/// The tree without the leaves under the keys: the other leaves stay in order, and the inner nodes
/// over the leaves refer to them, each once. Rows above `h` are as before.
#[verifier::opaque]
pub open spec fn rows_cut(
    before: Seq<NodeData>,
    rows: Seq<Seq<int>>,
    after: Seq<NodeData>,
    rows2: Seq<Seq<int>>,
    h: int,
    keys: Seq<Seq<u8>>,
) -> bool {
    &&& rows2.len() == rows.len()
    &&& rows2[0] == kept(
        rows[0],
        places(bounds(before, rows[0]), keys),
        0,
        rows[0].len() as int,
    )
    &&& h > 0 ==> row_ptrs(after, rows2[1]) == refs(rows2[0])
    &&& h > 0 ==> live_row(after, rows2[1])
    &&& forall|j: int|
        h > 0 && 0 <= j < rows2[1].len() ==> rows[1].contains(#[trigger] rows2[1][j]) || rows2[1][j]
            >= before.len()
    &&& forall|g: int| h < g < rows.len() ==> #[trigger] rows2[g] == rows[g]
    &&& after.len() >= before.len()
    &&& forall|x: int|
        0 <= x < before.len() && before[x] is External ==> #[trigger] after[x] == before[x]
    &&& forall|g: int, j: int|
        #![trigger rows[g][j]]
        h < g < rows.len() && 0 <= j < rows[g].len() ==> after[rows[g][j]] == before[rows[g][j]]
}

/// The node to go down to stands in the row below, and the key reaches it.
pub proof fn lemma_any_child(
    tree: &BPlusTree,
    node: NodeCellRef,
    h: int,
    i: int,
    key: Seq<u8>,
    r: MutSearchResult,
) -> (c: int)
    requires
        tree.wf(),
        0 < h < tree.rows@.len(),
        0 <= i < tree.rows@[h].len(),
        node == slot_ref(tree.rows@[h][i]),
        reaches(bounds(tree.nodes@, tree.rows@[h]), i, key),
        exists|slot: int|
            #[trigger] lands(tree.nodes@, node, slot) && step_down(tree.nodes@[slot], key, r),
    ensures
        0 <= c < tree.rows@[h - 1].len(),
        r == MutSearchResult::Internal(slot_ref(tree.rows@[h - 1][c])),
        reaches(bounds(tree.nodes@, tree.rows@[h - 1]), c, key),
{
    super::search::lemma_row(tree, h, i);
    let row = tree.rows@[h];
    let n = tree.nodes@[row[i]];
    let slot = choose|slot: int|
        #[trigger] lands(tree.nodes@, node, slot) && step_down(tree.nodes@[slot], key, r);
    lemma_lands_on_live(tree.nodes@, row[i] as usize, slot);
    match r {
        MutSearchResult::External => { 0 },
        MutSearchResult::Internal(child) => {
            let pos = choose|pos: int|
                #[trigger] is_upper_bound(keys_of(n), key, pos) && child == ptrs_of(n)[pos];
            let c = lemma_child(tree, h, i, key, pos);
            if pos == 0 {
                lemma_shape_row(tree.nodes@, tree.rows@, tree.page_size as int, h);
                let kids = tree.rows@[h - 1];
                let b = bounds(tree.nodes@, kids);
                lemma_row_over_skip(tree.nodes@, tree.page_size as int, row, kids, b, i);
                if i > 0 {
                    assert(bounds(tree.nodes@, row)[i - 1] == bound_of(tree.nodes@[row[i - 1]]));
                }
            }
            c
        },
    }
}

/// Before any inner node is touched, the leaves that go are left out.
pub proof fn lemma_cut_base(nodes: Seq<NodeData>, rows: Seq<Seq<int>>, keys: Seq<Seq<u8>>)
    requires
        rows.len() >= 1,
    ensures
        rows_cut(
            nodes,
            rows,
            nodes,
            rows.update(
                0,
                kept(rows[0], places(bounds(nodes, rows[0]), keys), 0, rows[0].len() as int),
            ),
            0,
            keys,
        ),
{
    reveal(rows_cut);
}

/// The next row is ready.
pub proof fn lemma_cut_next(
    before: Seq<NodeData>,
    rows: Seq<Seq<int>>,
    nodes: Seq<NodeData>,
    rows1: Seq<Seq<int>>,
    page_size: int,
    h: int,
    i: int,
    keys: Seq<Seq<u8>>,
    given: Seq<Seq<u8>>,
)
    requires
        shape_ok(before, rows, page_size),
        page_size >= 2,
        0 < h < rows.len(),
        0 <= i < rows[h].len(),
        rows_cut(before, rows, nodes, rows1, h - 1, keys),
        ascending(keys),
        keys.len() > 0,
        reaches(bounds(before, rows[h]), i, keys[0]),
        some_of(given, keys),
    ensures
        ({
            let b = bounds(before, rows[h - 1]);
            let j = Job {
                before: nodes,
                page_size,
                row: rows[h],
                kids: rows[h - 1],
                b,
                keys: given,
                start: i,
                shortcuts: h > 1,
            };
            &&& row_over(nodes, page_size, rows[h], rows[h - 1], b)
            &&& bounds_ok(b)
            &&& given.len() > 0 ==> job_ok(j)
        }),
        bounds(nodes, rows[h]) == bounds(before, rows[h]),
{
    broadcast use group_key_order;

    let row = rows[h];
    let kids = rows[h - 1];
    let b = bounds(before, kids);
    lemma_shape_row(before, rows, page_size, h);
    assert forall|j: int| 0 <= j < row.len() implies before[#[trigger] row[j]] == nodes[row[j]] by {
        reveal(rows_cut);
        assert(rows[h][j] == row[j]);
    }
    assert(nodes.len() >= before.len()) by {
        reveal(rows_cut);
    }
    assert(row_over(before, page_size, row, kids, b));
    lemma_row_over_frame(before, nodes, page_size, row, kids, b);
    assert forall|j: int| 0 <= j < kids.len() implies 0 <= #[trigger] kids[j] < nodes.len() by {
        assert(0 <= kids[j] < before.len());
    }
    assert forall|j: int| 0 <= j < row.len() implies !kids.contains(#[trigger] row[j]) by {
        reveal(shape_ok);
        if kids.contains(row[j]) {
            let k = choose|k: int| 0 <= k < kids.len() && kids[k] == row[j];
            assert(rows[h][j] == rows[h - 1][k]);
        }
    }
    lemma_some_ascend(given, keys);
}

/// The row over the leaves, or a row above it, is done.
pub proof fn lemma_cut_done(
    before: Seq<NodeData>,
    rows: Seq<Seq<int>>,
    nodes: Seq<NodeData>,
    rows1: Seq<Seq<int>>,
    after: Seq<NodeData>,
    page_size: int,
    h: int,
    i: int,
    keys: Seq<Seq<u8>>,
    given: RemovalView,
    out: RemovalView,
    c: Cut,
)
    requires
        shape_ok(before, rows, page_size),
        0 < h < rows.len(),
        rows_cut(before, rows, nodes, rows1, h - 1, keys),
        row_cut(next_job(before, nodes, page_size, rows, h, i, given), after, given, out, c),
        h == 1 ==> given.empty_pages == keys && given.split.len() == 0 && nodes == before,
    ensures
        rows_cut(before, rows, after, rows1.update(h, c.done), h, keys),
{
    let rows2 = rows1.update(h, c.done);
    let j = next_job(before, nodes, page_size, rows, h, i, given);
    assert forall|g: int, k: int|
        #![trigger rows[g][k]]
        0 <= g < rows.len() && 0 <= k < rows[g].len() implies 0 <= rows[g][k] < before.len() && (if g
        == 0 {
        before[rows[g][k]] is External
    } else {
        before[rows[g][k]] is Internal
    }) by {
        lemma_shape_row(before, rows, page_size, g);
        let row = rows[g];
        assert(0 <= row[k] < before.len());
        assert(row_ok(before, row, g == 0));
        if g == 0 {
            assert(before[row[k]] is External);
        } else {
            assert(before[row[k]] is Internal);
        }
    }
    reveal(rows_cut);
    assert forall|x: int| 0 <= x < before.len() && before[x] is External implies #[trigger] after[x]
        == before[x] by {
        assert(nodes[x] == before[x]);
        if rows[h].contains(x) {
            let k = choose|k: int| 0 <= k < rows[h].len() && rows[h][k] == x;
            assert(before[rows[h][k]] is Internal);
        }
    }
    assert forall|g: int, k: int|
        #![trigger rows[g][k]]
        h < g < rows.len() && 0 <= k < rows[g].len() implies after[rows[g][k]] == before[rows[g][k]] by {
        let x = rows[g][k];
        assert(nodes[x] == before[x]);
        if rows[h].contains(x) {
            let z = choose|z: int| 0 <= z < rows[h].len() && rows[h][z] == x;
            reveal(shape_ok);
            assert(rows[h][z] == rows[g][k]);
        }
    }
    if h == 1 {
        lemma_no_splits(j, after, given, out, c);
        assert forall|x: int| 0 <= x < rows2[1].len() implies rows[1].contains(#[trigger] rows2[1][x])
            || rows2[1][x] >= before.len() by {
            assert(own_slot(j, c.done[x]));
        }
    } else {
        let low = rows1[1];
        assert(rows2[1] == low);
        assert forall|x: int| 0 <= x < low.len() implies nodes[#[trigger] low[x]] == after[low[x]] by {
            assert(0 <= low[x] < nodes.len() && nodes[low[x]] is Internal);
            if rows[h].contains(low[x]) {
                let z = choose|z: int| 0 <= z < rows[h].len() && rows[h][z] == low[x];
                assert(0 <= rows[h][z] < before.len());
                assert(rows[1].contains(low[x]));
                let y = choose|y: int| 0 <= y < rows[1].len() && rows[1][y] == low[x];
                reveal(shape_ok);
                assert(rows[h][z] == rows[1][y]);
            }
        }
        lemma_row_ptrs_frame(nodes, after, low);
        assert forall|x: int| 0 <= x < low.len() implies 0 <= #[trigger] low[x] < after.len()
            && after[low[x]] is Internal by {
            assert(nodes[low[x]] == after[low[x]]);
        }
    }
}

/// The work in a row once the rows below it are done.
pub open spec fn next_job(
    before: Seq<NodeData>,
    nodes: Seq<NodeData>,
    page_size: int,
    rows: Seq<Seq<int>>,
    h: int,
    i: int,
    given: RemovalView,
) -> Job {
    Job {
        before: nodes,
        page_size,
        row: rows[h],
        kids: rows[h - 1],
        b: bounds(before, rows[h - 1]),
        keys: given.empty_pages,
        start: i,
        shortcuts: h > 1,
    }
}

proof fn lemma_no_splits(j: Job, after: Seq<NodeData>, given: RemovalView, out: RemovalView, c: Cut)
    requires
        row_cut(j, after, given, out, c),
        given.split.len() == 0,
    ensures
        row_ptrs(after, c.done) == refs(kept(j.kids, places(j.b, j.keys), 0, j.kids.len() as int)),
{
}

/// What the row tells the row above, over the tree as it was.
pub proof fn lemma_cut_told(
    before: Seq<NodeData>,
    rows: Seq<Seq<int>>,
    nodes: Seq<NodeData>,
    rows1: Seq<Seq<int>>,
    after: Seq<NodeData>,
    page_size: int,
    h: int,
    i: int,
    keys: Seq<Seq<u8>>,
    given: RemovalView,
    out: RemovalView,
    c: Cut,
)
    requires
        0 < h < rows.len(),
        rows_cut(before, rows, nodes, rows1, h - 1, keys),
        some_of(given.empty_pages, keys),
        h == 1 ==> given.empty_pages == keys,
        noted(next_job(before, nodes, page_size, rows, h, i, given), after, out, c),
    ensures
        handed_up(before, after, page_size, rows, h, i, keys, out),
        some_of(out.empty_pages, keys),
{
    let j = next_job(before, nodes, page_size, rows, h, i, given);
    let j0 = row_work(before, page_size, rows, h, i, given.empty_pages);
    assert(nodes.len() >= before.len()) by {
        reveal(rows_cut);
    }
    assert forall|x: int| 0 <= x < c.last.len() implies {
        &&& 0 <= #[trigger] c.last[x] < j0.keys.len()
        &&& out.empty_pages[x] == j0.keys[c.last[x]]
        &&& below(j0.keys[c.last[x]], c.ends[x])
        &&& c.last[x] + 1 < j0.keys.len() ==> !below(j0.keys[c.last[x] + 1], c.ends[x])
        &&& end_known(j0, out, c.emptied[x], c.ends[x])
    } by {
        assert(0 <= c.last[x] < j.keys.len());
        assert(end_known(j, out, c.emptied[x], c.ends[x]));
        assert(own_slot(j, c.emptied[x]));
        if rows[h].contains(c.emptied[x]) {
            let z = choose|z: int| 0 <= z < rows[h].len() && rows[h][z] == c.emptied[x];
            reveal(rows_cut);
            assert(nodes[rows[h][z]] == before[rows[h][z]]);
        }
    }
    assert forall|x: int| 0 <= x < c.emptied.len() implies {
        &&& 0 <= #[trigger] c.emptied[x] < after.len()
        &&& after[c.emptied[x]] is Empty
        &&& own_slot(j0, c.emptied[x])
    } by {
        assert(own_slot(j, c.emptied[x]));
    }
    assert(noted(j0, after, out, c));
    assert(picked(out.empty_pages, given.empty_pages, c.last));
    lemma_some_of_some(out.empty_pages, given.empty_pages, keys);
}

} // verus!
