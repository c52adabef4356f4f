//! Moving the smallest pages of a tree to another tree.

use super::grow::{cut_bounds, cut_row};
use super::node::{
    bound_lt, bound_of, keys_of, ptrs_of, right_of, EmptyNode, ExtNode, NodeCellRef, NodeData,
};
use super::prune::{
    emptied_in, lemma_child_pos, lemma_covers_parent, lemma_emptied_frame, lemma_first_node,
    lemma_row_over_frame, row_over,
};
use super::prune_row::{
    agree_outside, first_children, prunable_row, prune_row, pruned_kids, removal_given, row_pruned,
    split_of,
};
use super::prune_any::{kept, lemma_kept_suffix, lemma_over_ptrs, lemma_place, place, places};
use super::prune_rows::{
    handed_up, lemma_all_of, lemma_any_child, lemma_cut_base, lemma_cut_done, lemma_cut_next,
    lemma_cut_told, rows_cut, some_of,
};
use super::removal::{NodeRemoval, RemovalView};
use super::search::{
    first_leaf, lands, lemma_lands_on_live, mut_search, stands, step_down, MutSearchResult,
};
use super::shape::{
    apart, bounds, bounds_ok, covers, flat, in_arena, kids_before, leaf_at, leaf_link, leaves_ok,
    lemma_shape_row, link_at, over, over_below, reaches, row_ok, shape_ok, slot_ref,
};
use super::insert::lemma_root_covers;
use super::ops::{lemma_live_concat, lemma_live_contains};
use super::tree::{live, BPlusTree, ChangingNode, DeletionSet};
use crate::index::key::{ascending, group_key_order, key_lt, key_views, EntryKey};
use crate::index::lsmtree::tree::LEVEL_PAGE_DIFF_MULTIPLIER;
use crate::ram::types::Id;
use vstd::prelude::*;

verus! {

/// How many nodes of the row `h` go when the first `p` leaves do.
pub open spec fn emptied_at(nodes: Seq<NodeData>, rows: Seq<Seq<int>>, p: int, h: int) -> int
    decreases h,
{
    if h <= 0 {
        p
    } else {
        emptied_in(nodes, rows[h], emptied_at(nodes, rows, p, h - 1))
    }
}

/// The first `p` leaves can be taken off: there are more leaves, and no row of inner nodes loses
/// all of its nodes.
pub open spec fn prunable(nodes: Seq<NodeData>, rows: Seq<Seq<int>>, p: int) -> bool {
    &&& 1 <= p < rows[0].len()
    &&& forall|h: int| 0 < h < rows.len() ==> #[trigger] emptied_at(nodes, rows, p, h) < rows[h].len()
}

/// The row `g` of inner nodes is over the row below it.
pub open spec fn row_over_below(
    nodes: Seq<NodeData>,
    page_size: int,
    rows: Seq<Seq<int>>,
    g: int,
) -> bool {
    row_over(nodes, page_size, rows[g], rows[g - 1], bounds(nodes, rows[g - 1]))
}

/// The state of a tree whose rows up to `h` have been pruned.
#[verifier::opaque]
pub open spec fn pruned_to(
    before: Seq<NodeData>,
    rows: Seq<Seq<int>>,
    after: Seq<NodeData>,
    rows2: Seq<Seq<int>>,
    page_size: int,
    p: int,
    h: int,
) -> bool {
    &&& rows2.len() == rows.len()
    &&& rows2[0] == rows[0].skip(p)
    &&& apart(rows2)
    &&& forall|g: int| 0 < g <= h ==> #[trigger] row_over_below(after, page_size, rows2, g)
    &&& forall|g: int| h < g < rows.len() ==> #[trigger] rows2[g] == rows[g]
    &&& after.len() >= before.len()
    &&& forall|x: int|
        0 <= x < before.len() && before[x] is External ==> #[trigger] after[x] == before[x]
    &&& forall|g: int, j: int|
        #![trigger rows[g][j]]
        h < g < rows.len() && 0 <= j < rows[g].len() ==> after[rows[g][j]] == before[rows[g][j]]
    &&& forall|g: int, j: int|
        #![trigger rows2[g][j]]
        0 <= g < rows.len() && 0 <= j < rows2[g].len() ==> 0 <= rows2[g][j] < after.len()
            && (rows[g].contains(rows2[g][j]) || rows2[g][j] >= before.len())
}

/// What pruning leaves at its topmost row.
pub open spec fn top_pruned(
    before: Seq<NodeData>,
    rows: Seq<Seq<int>>,
    after: Seq<NodeData>,
    rows2: Seq<Seq<int>>,
    p: int,
    h: int,
    out: RemovalView,
) -> bool {
    let e = emptied_at(before, rows, p, h);
    let s = split_of(out);
    let b = bounds(before, rows[h]);
    &&& 0 <= e < rows[h].len()
    &&& out.empty_pages.len() == e
    &&& out.split.len() <= 1
    &&& forall|j: int| 0 <= j < e ==> #[trigger] covers(b, j, out.empty_pages[j])
    &&& forall|j: int| 0 <= j < e ==> h > 0 ==> after[#[trigger] rows[h][j]] is Empty
    &&& s matches Some(q) ==> e > 0 && q.0 is Slot && rows2[h] == rows[h].skip(e).insert(
        1,
        q.0->Slot_0 as int,
    )
    &&& s is None ==> rows2[h] == rows[h].skip(e)
    &&& bounds(after, rows2[h]) == cut_bounds(b.skip(e), 0, s)
    &&& bounds_ok(bounds(after, rows2[h]))
}

/// Rows stay apart when one of them loses nodes or gains a new one.
pub proof fn lemma_apart_update(rows: Seq<Seq<int>>, h: int, row: Seq<int>, n: int)
    requires
        apart(rows),
        0 <= h < rows.len(),
        row.no_duplicates(),
        forall|j: int| 0 <= j < row.len() ==> rows[h].contains(#[trigger] row[j]) || row[j] == n,
        forall|g: int, j: int|
            #![trigger rows[g][j]]
            0 <= g < rows.len() && 0 <= j < rows[g].len() ==> rows[g][j] < n,
    ensures
        apart(rows.update(h, row)),
{
    let rows2 = rows.update(h, row);
    assert forall|f: int, i: int, g: int, j: int|
        #![trigger rows2[f][i], rows2[g][j]]
        0 <= f < rows2.len() && 0 <= g < rows2.len() && 0 <= i < rows2[f].len() && 0 <= j
            < rows2[g].len() && rows2[f][i] == rows2[g][j] implies f == g && i == j by {
        if f == h && g == h {
            assert(row[i] == row[j]);
        } else if f == h {
            assert(rows2[g][j] == rows[g][j]);
            if rows[h].contains(row[i]) {
                let k = choose|k: int| 0 <= k < rows[h].len() && rows[h][k] == row[i];
                assert(rows[h][k] == rows[g][j]);
            }
        } else if g == h {
            assert(rows2[f][i] == rows[f][i]);
            if rows[h].contains(row[j]) {
                let k = choose|k: int| 0 <= k < rows[h].len() && rows[h][k] == row[j];
                assert(rows[h][k] == rows[f][i]);
            }
        } else {
            assert(rows2[f][i] == rows[f][i]);
            assert(rows2[g][j] == rows[g][j]);
        }
    }
}

proof fn lemma_leaf_row_suffix(nodes: Seq<NodeData>, row: Seq<int>, p: int)
    requires
        row_ok(nodes, row, true),
        0 <= p < row.len(),
    ensures
        row_ok(nodes, row.skip(p), true),
        bounds(nodes, row.skip(p)) == bounds(nodes, row).skip(p),
{
    let rest = row.skip(p);
    super::prune::lemma_bounds_skip(bounds(nodes, row), p);
    assert(bounds(nodes, rest) =~= bounds(nodes, row).skip(p));
    assert forall|j: int| 0 <= j < rest.len() implies #[trigger] rest[j] == row[j + p] && 0 <= rest[j]
        < nodes.len() && nodes[rest[j]] is External by {
        assert(0 <= row[j + p] < nodes.len());
        assert(nodes[row[j + p]] is External);
    }
    assert(rest.no_duplicates()) by {
        assert forall|i: int, j: int| 0 <= i < rest.len() && 0 <= j < rest.len() && i != j implies rest[i]
            != rest[j] by {
            assert(row[i + p] != row[j + p]);
        }
    }
    assert(super::shape::linked(nodes, rest)) by {
        assert forall|j: int| 0 <= j < rest.len() implies #[trigger] super::shape::link_at(nodes, rest, j) by {
            assert(super::shape::link_at(nodes, row, j + p));
            assert(rest[j] == row[j + p]);
            if j + 1 < rest.len() {
                assert(rest[j + 1] == row[j + p + 1]);
            }
        }
    }
}

/// Before any inner node is pruned, the leaves that go are left out.
proof fn lemma_pruned_base(
    nodes: Seq<NodeData>,
    rows: Seq<Seq<int>>,
    page_size: int,
    p: int,
    given: RemovalView,
)
    requires
        shape_ok(nodes, rows, page_size),
        0 <= p < rows[0].len(),
        given.empty_pages.len() == p,
        given.split.len() == 0,
        first_children(bounds(nodes, rows[0]), given.empty_pages),
    ensures
        pruned_to(nodes, rows, nodes, rows.update(0, rows[0].skip(p)), page_size, p, 0),
        top_pruned(nodes, rows, nodes, rows.update(0, rows[0].skip(p)), p, 0, given),
{
    reveal(pruned_to);
    let rows2 = rows.update(0, rows[0].skip(p));
    assert(rows.len() >= 1 && apart(rows)) by {
        reveal(shape_ok);
    }
    lemma_shape_row(nodes, rows, page_size, 0);
    lemma_leaf_row_suffix(nodes, rows[0], p);
    assert forall|g: int, j: int|
        #![trigger rows[g][j]]
        0 <= g < rows.len() && 0 <= j < rows[g].len() implies 0 <= rows[g][j] < nodes.len() by {
        lemma_shape_row(nodes, rows, page_size, g);
    }
    let rest = rows[0].skip(p);
    assert forall|j: int| 0 <= j < rest.len() implies rows[0].contains(#[trigger] rest[j]) by {
        assert(rest[j] == rows[0][j + p]);
    }
    lemma_apart_update(rows, 0, rest, nodes.len() as int);
    assert forall|g: int, j: int|
        #![trigger rows2[g][j]]
        0 <= g < rows.len() && 0 <= j < rows2[g].len() implies 0 <= rows2[g][j] < nodes.len() && (
    rows[g].contains(rows2[g][j]) || rows2[g][j] >= nodes.len()) by {
        if g == 0 {
            assert(rest[j] == rows[0][j + p]);
        } else {
            assert(rows2[g][j] == rows[g][j]);
        }
    }
}

/// The next row is ready to be pruned.
proof fn lemma_row_ready(
    before: Seq<NodeData>,
    rows: Seq<Seq<int>>,
    nodes: Seq<NodeData>,
    rows1: Seq<Seq<int>>,
    page_size: int,
    p: int,
    h: int,
    given: RemovalView,
)
    requires
        shape_ok(before, rows, page_size),
        page_size >= 2,
        nodes.len() <= usize::MAX,
        prunable(before, rows, p),
        0 < h < rows.len(),
        pruned_to(before, rows, nodes, rows1, page_size, p, h - 1),
        top_pruned(before, rows, nodes, rows1, p, h - 1, given),
    ensures
        prunable_row(
            nodes,
            page_size,
            rows[h],
            rows[h - 1],
            bounds(before, rows[h - 1]),
            given.empty_pages.len() as int,
        ),
        removal_given(bounds(before, rows[h - 1]), given),
        emptied_in(nodes, rows[h], given.empty_pages.len() as int) == emptied_at(before, rows, p, h),
        bounds(nodes, rows[h]) == bounds(before, rows[h]),
{
    let row = rows[h];
    let kids = rows[h - 1];
    let b = bounds(before, kids);
    lemma_shape_row(before, rows, page_size, h);
    assert forall|j: int| 0 <= j < row.len() implies before[#[trigger] row[j]] == nodes[row[j]] by {
        reveal(pruned_to);
        assert(rows[h][j] == row[j]);
    }
    assert(nodes.len() >= before.len()) by {
        reveal(pruned_to);
    }
    assert(row_over(before, page_size, row, kids, b));
    lemma_row_over_frame(before, nodes, page_size, row, kids, b);
    let r = given.empty_pages.len() as int;
    lemma_emptied_frame(before, nodes, row, r);
    assert(emptied_at(before, rows, p, h) < rows[h].len());
    assert(in_arena(before, kids));
    assert forall|j: int| 0 <= j < kids.len() implies 0 <= #[trigger] kids[j] < nodes.len() by {
        assert(0 <= kids[j] < before.len());
    }
    assert forall|j: int| 0 <= j < row.len() implies !kids.contains(#[trigger] row[j]) by {
        reveal(shape_ok);
        if kids.contains(row[j]) {
            let k = choose|k: int| 0 <= k < kids.len() && kids[k] == row[j];
            assert(rows[h][j] == rows[h - 1][k]);
        }
    }
    if split_of(given) is Some {
        let b2 = bounds(nodes, rows1[h - 1]);
        assert(b2[1] == b.skip(r)[0]);
        assert(bound_lt(b2[0], b2[1]));
    }
}

/// Rows below the pruned one do not change with it.
proof fn lemma_lower_rows_kept(
    before: Seq<NodeData>,
    rows: Seq<Seq<int>>,
    nodes: Seq<NodeData>,
    rows1: Seq<Seq<int>>,
    after: Seq<NodeData>,
    page_size: int,
    p: int,
    h: int,
    shortcuts: bool,
    g: int,
)
    requires
        shape_ok(before, rows, page_size),
        0 < h < rows.len(),
        0 <= g < h,
        0 <= p < rows[0].len(),
        pruned_to(before, rows, nodes, rows1, page_size, p, h - 1),
        agree_outside(nodes, after, rows[h], rows[h - 1], shortcuts),
    ensures
        forall|j: int| 0 <= j < rows1[g].len() ==> nodes[#[trigger] rows1[g][j]] == after[rows1[g][j]],
        bounds(after, rows1[g]) == bounds(nodes, rows1[g]),
{
    lemma_shape_row(before, rows, page_size, h);
    lemma_shape_row(before, rows, page_size, 0);
    assert forall|j: int| 0 <= j < rows1[g].len() implies nodes[#[trigger] rows1[g][j]]
        == after[rows1[g][j]] by {
        reveal(pruned_to);
        let x = rows1[g][j];
        assert(0 <= x < nodes.len());
        assert(!(nodes[x] is Empty)) by {
            if g == 0 {
                assert(x == rows[0][j + p]);
                assert(0 <= rows[0][j + p] < before.len());
                assert(before[rows[0][j + p]] is External);
            } else {
                assert(row_over_below(nodes, page_size, rows1, g));
                assert(nodes[rows1[g][j]] is Internal);
            }
        }
        assert(!rows[h].contains(x)) by {
            if rows[h].contains(x) {
                let k = choose|k: int| 0 <= k < rows[h].len() && rows[h][k] == x;
                assert(0 <= rows[h][k] < before.len());
                assert(rows[g].contains(x));
                let l = choose|l: int| 0 <= l < rows[g].len() && rows[g][l] == x;
                reveal(shape_ok);
                assert(rows[h][k] == rows[g][l]);
            }
        }
    }
    assert(bounds(after, rows1[g]) =~= bounds(nodes, rows1[g])) by {
        assert forall|j: int| 0 <= j < rows1[g].len() implies bounds(after, rows1[g])[j] == bounds(
            nodes,
            rows1[g],
        )[j] by {
            assert(nodes[rows1[g][j]] == after[rows1[g][j]]);
        }
    }
}

/// The slots of a pruned row.
proof fn lemma_cut_row_slots(
    nodes: Seq<NodeData>,
    row: Seq<int>,
    e: int,
    n: int,
    s: Option<(NodeCellRef, Seq<u8>)>,
)
    requires
        0 <= e < row.len(),
    ensures
        forall|j: int|
            0 <= j < cut_row(row.skip(e), 0, n, s).len() ==> row.contains(
                #[trigger] cut_row(row.skip(e), 0, n, s)[j],
            ) || (s is Some && cut_row(row.skip(e), 0, n, s)[j] == n),
{
    let row2 = cut_row(row.skip(e), 0, n, s);
    assert forall|j: int| 0 <= j < row2.len() implies row.contains(#[trigger] row2[j]) || (s is Some
        && row2[j] == n) by {
        if s is None {
            assert(row2[j] == row[j + e]);
        } else if j == 0 {
            assert(row2[j] == row[e]);
        } else if j > 1 {
            assert(row2[j] == row[j - 1 + e]);
        }
    }
}

/// One more row is pruned.
#[verifier::spinoff_prover]
proof fn lemma_row_done(
    before: Seq<NodeData>,
    rows: Seq<Seq<int>>,
    nodes: Seq<NodeData>,
    rows1: Seq<Seq<int>>,
    after: Seq<NodeData>,
    page_size: int,
    p: int,
    h: int,
    given: RemovalView,
    out: RemovalView,
    shortcuts: bool,
)
    requires
        shape_ok(before, rows, page_size),
        page_size >= 2,
        nodes.len() <= usize::MAX,
        prunable(before, rows, p),
        0 < h < rows.len(),
        pruned_to(before, rows, nodes, rows1, page_size, p, h - 1),
        top_pruned(before, rows, nodes, rows1, p, h - 1, given),
        row_pruned(
            nodes,
            after,
            page_size,
            rows[h],
            rows[h - 1],
            bounds(before, rows[h - 1]),
            given,
            out,
        ),
        agree_outside(nodes, after, rows[h], rows[h - 1], shortcuts),
    ensures
        ({
            let e = emptied_at(before, rows, p, h);
            let rows2 = rows1.update(
                h,
                cut_row(rows[h].skip(e), 0, nodes.len() as int, split_of(out)),
            );
            &&& pruned_to(before, rows, after, rows2, page_size, p, h)
            &&& top_pruned(before, rows, after, rows2, p, h, out)
        }),
{
    let e = emptied_at(before, rows, p, h);
    let row2 = cut_row(rows[h].skip(e), 0, nodes.len() as int, split_of(out));
    let r = given.empty_pages.len() as int;
    let b = bounds(before, rows[h - 1]);
    assert(emptied_in(nodes, rows[h], r) == e && bounds(nodes, rows[h]) == bounds(before, rows[h])) by {
        lemma_row_ready(before, rows, nodes, rows1, page_size, p, h, given);
    }
    assert(bounds(after, rows1[h - 1]) == cut_bounds(b.skip(r), 0, split_of(given))) by {
        lemma_lower_rows_kept(
            before,
            rows,
            nodes,
            rows1,
            after,
            page_size,
            p,
            h,
            shortcuts,
            h - 1,
        );
    }
    lemma_top_done(
        nodes,
        after,
        page_size,
        rows[h],
        rows[h - 1],
        b,
        given,
        out,
        rows1[h - 1],
    );
    lemma_rows_updated(
        before,
        rows,
        nodes,
        rows1,
        after,
        page_size,
        p,
        h,
        row2,
        shortcuts,
    );
    assert(rows1.len() == rows.len()) by {
        reveal(pruned_to);
    }
}

/// What a pruned row is over, and where its nodes stand.
proof fn lemma_top_done(
    nodes: Seq<NodeData>,
    after: Seq<NodeData>,
    page_size: int,
    row: Seq<int>,
    kids: Seq<int>,
    b: Seq<Option<Seq<u8>>>,
    given: RemovalView,
    out: RemovalView,
    kids1: Seq<int>,
)
    requires
        nodes.len() <= usize::MAX,
        row_pruned(nodes, after, page_size, row, kids, b, given, out),
        given.split.len() <= 1,
        split_of(given) matches Some(q) ==> q.0 is Slot && kids1 == kids.skip(
            given.empty_pages.len() as int,
        ).insert(1, q.0->Slot_0 as int),
        split_of(given) is None ==> kids1 == kids.skip(given.empty_pages.len() as int),
        bounds(after, kids1) == cut_bounds(
            b.skip(given.empty_pages.len() as int),
            0,
            split_of(given),
        ),
    ensures
        ({
            let e = emptied_in(nodes, row, given.empty_pages.len() as int);
            let s = split_of(out);
            let row2 = cut_row(row.skip(e), 0, nodes.len() as int, s);
            &&& row_over(after, page_size, row2, kids1, bounds(after, kids1))
            &&& bounds_ok(bounds(after, row2))
            &&& s matches Some(q) ==> q.0 is Slot && row2 == row.skip(e).insert(
                1,
                q.0->Slot_0 as int,
            )
            &&& s is None ==> row2 == row.skip(e)
            &&& forall|j: int|
                0 <= j < row2.len() ==> row.contains(#[trigger] row2[j]) || row2[j] == nodes.len()
        }),
{
    let e = emptied_in(nodes, row, given.empty_pages.len() as int);
    assert(kids1 == pruned_kids(kids, given.empty_pages.len() as int, split_of(given)));
    lemma_cut_row_slots(nodes, row, e, nodes.len() as int, split_of(out));
}

/// The rows of a tree of which one more is pruned.
#[verifier::spinoff_prover]
proof fn lemma_rows_updated(
    before: Seq<NodeData>,
    rows: Seq<Seq<int>>,
    nodes: Seq<NodeData>,
    rows1: Seq<Seq<int>>,
    after: Seq<NodeData>,
    page_size: int,
    p: int,
    h: int,
    row2: Seq<int>,
    shortcuts: bool,
)
    requires
        shape_ok(before, rows, page_size),
        0 < h < rows.len(),
        0 <= p < rows[0].len(),
        pruned_to(before, rows, nodes, rows1, page_size, p, h - 1),
        agree_outside(nodes, after, rows[h], rows[h - 1], shortcuts),
        row_over(after, page_size, row2, rows1[h - 1], bounds(after, rows1[h - 1])),
        forall|j: int|
            0 <= j < row2.len() ==> rows[h].contains(#[trigger] row2[j]) || row2[j] == nodes.len(),
    ensures
        pruned_to(before, rows, after, rows1.update(h, row2), page_size, p, h),
{
    let rows2 = rows1.update(h, row2);
    lemma_shape_row(before, rows, page_size, h);
    assert(rows1.len() == rows.len() && apart(rows1) && rows1[h] == rows[h] && nodes.len()
        >= before.len()) by {
        reveal(pruned_to);
    }
    assert(apart(rows2)) by {
        reveal(pruned_to);
        assert(row_ok(after, row2, false));
        lemma_apart_update(rows1, h, row2, nodes.len() as int);
    }
    assert forall|g: int| 0 < g <= h implies #[trigger] row_over_below(after, page_size, rows2, g) by {
        if g < h {
            lemma_lower_rows_kept(
                before,
                rows,
                nodes,
                rows1,
                after,
                page_size,
                p,
                h,
                shortcuts,
                g,
            );
            lemma_lower_rows_kept(
                before,
                rows,
                nodes,
                rows1,
                after,
                page_size,
                p,
                h,
                shortcuts,
                g - 1,
            );
            assert(row_over_below(nodes, page_size, rows1, g)) by {
                reveal(pruned_to);
            }
            lemma_row_over_frame(
                nodes,
                after,
                page_size,
                rows1[g],
                rows1[g - 1],
                bounds(nodes, rows1[g - 1]),
            );
        }
    }
    assert forall|x: int| 0 <= x < before.len() && before[x] is External implies #[trigger] after[x]
        == before[x] by {
        reveal(pruned_to);
        assert(nodes[x] == before[x]);
        if rows[h].contains(x) {
            let k = choose|k: int| 0 <= k < rows[h].len() && rows[h][k] == x;
            assert(before[rows[h][k]] is Internal);
        }
    }
    assert forall|g: int, j: int|
        #![trigger rows[g][j]]
        h < g < rows.len() && 0 <= j < rows[g].len() implies after[rows[g][j]] == before[rows[g][j]] by {
        let x = rows[g][j];
        lemma_shape_row(before, rows, page_size, g);
        assert(0 <= rows[g][j] < before.len());
        assert(before[rows[g][j]] is Internal);
        assert(nodes[x] == before[x]) by {
            reveal(pruned_to);
        }
        if rows[h].contains(x) {
            let k = choose|k: int| 0 <= k < rows[h].len() && rows[h][k] == x;
            reveal(shape_ok);
            assert(rows[h][k] == rows[g][j]);
        }
    }
    assert forall|g: int, j: int|
        #![trigger rows2[g][j]]
        0 <= g < rows.len() && 0 <= j < rows2[g].len() implies 0 <= rows2[g][j] < after.len() && (
    rows[g].contains(rows2[g][j]) || rows2[g][j] >= before.len()) by {
        if g == h {
            assert(row_ok(after, row2, false));
            assert(0 <= row2[j] < after.len());
        } else {
            reveal(pruned_to);
            assert(rows2[g][j] == rows1[g][j]);
        }
    }
    assert(pruned_to(before, rows, after, rows2, page_size, p, h)) by {
        reveal(pruned_to);
    }
}

/// A key under the first leaf is under the first node of every row.
proof fn lemma_leftmost(tree: &BPlusTree, h: int, key: Seq<u8>)
    requires
        tree.wf(),
        0 <= h < tree.rows@.len(),
        covers(bounds(tree.nodes@, tree.leaves()), 0, key),
    ensures
        covers(bounds(tree.nodes@, tree.rows@[h]), 0, key),
    decreases h,
{
    if h > 0 {
        lemma_leftmost(tree, h - 1, key);
        lemma_shape_row(tree.nodes@, tree.rows@, tree.page_size as int, h);
        let row = tree.rows@[h];
        let kids = tree.rows@[h - 1];
        let b = bounds(tree.nodes@, kids);
        lemma_first_node(tree.nodes@, tree.page_size as int, row, kids, b);
        let m = ptrs_of(tree.nodes@[row[0]]).len() as int;
        lemma_covers_parent(b, bounds(tree.nodes@, row), 0, 0, m, 0, key);
    }
}

/// One step down from the first node of a row, for a key under the first leaf.
proof fn lemma_step_left(
    tree: &BPlusTree,
    node: NodeCellRef,
    h: int,
    key: Seq<u8>,
    r: MutSearchResult,
)
    requires
        tree.wf(),
        0 <= h < tree.rows@.len(),
        node == slot_ref(tree.rows@[h][0]),
        covers(bounds(tree.nodes@, tree.leaves()), 0, key),
        exists|slot: int|
            #[trigger] lands(tree.nodes@, node, slot) && step_down(tree.nodes@[slot], key, r),
    ensures
        h == 0 ==> r == MutSearchResult::External,
        h > 0 ==> r == MutSearchResult::Internal(slot_ref(tree.rows@[h - 1][0])),
{
    let row = tree.rows@[h];
    lemma_shape_row(tree.nodes@, tree.rows@, tree.page_size as int, h);
    assert(tree.nodes.len() == tree.nodes@.len());
    assert(0 <= row[0] < tree.nodes@.len());
    let n = tree.nodes@[row[0]];
    assert(if h == 0 {
        n is External
    } else {
        n is Internal
    });
    let slot = choose|slot: int|
        #[trigger] lands(tree.nodes@, node, slot) && step_down(tree.nodes@[slot], key, r);
    lemma_lands_on_live(tree.nodes@, row[0] as usize, slot);
    if h > 0 {
        let kids = tree.rows@[h - 1];
        let b = bounds(tree.nodes@, kids);
        lemma_leftmost(tree, h - 1, key);
        lemma_leftmost(tree, h, key);
        lemma_first_node(tree.nodes@, tree.page_size as int, row, kids, b);
        match r {
            MutSearchResult::External => {},
            MutSearchResult::Internal(child) => {
                let pos = choose|pos: int|
                    #[trigger] crate::index::key::is_upper_bound(keys_of(n), key, pos) && child
                        == ptrs_of(n)[pos];
                assert(bounds(tree.nodes@, row)[0] == bound_of(n));
                lemma_child_pos(n, kids, b, 0, key, pos);
                let m = ptrs_of(n).len() as int;
                assert(ptrs_of(n)[0] == slot_ref(kids.take(m)[0]));
            },
        }
    }
}

/// The empty key is under the first leaf.
proof fn lemma_empty_key_left(tree: &BPlusTree, key: Seq<u8>)
    requires
        tree.wf(),
        key.len() == 0,
    ensures
        covers(bounds(tree.nodes@, tree.leaves()), 0, key),
{
    broadcast use group_key_order;

    assert(tree.rows@.len() >= 1) by {
        reveal(shape_ok);
    }
    lemma_shape_row(tree.nodes@, tree.rows@, tree.page_size as int, 0);
    let row = tree.leaves();
    let b = bounds(tree.nodes@, row);
    if row.len() > 1 {
        assert(super::shape::leaf_at(tree.nodes@, row, tree.page_size as int, 0));
        let first = keys_of(tree.nodes@[row[0]])[0];
        assert(covers(b, 0, first));
        assert(bound_lt(b[0], b[1]));
    }
}

/// One step down from a node for the empty key leads to the node's first child.
proof fn lemma_step_first(
    tree: &BPlusTree,
    node: NodeCellRef,
    h: int,
    i: int,
    key: Seq<u8>,
    r: MutSearchResult,
)
    requires
        tree.wf(),
        0 <= h < tree.rows@.len(),
        0 <= i < tree.rows@[h].len(),
        node == slot_ref(tree.rows@[h][i]),
        key.len() == 0,
        exists|slot: int|
            #[trigger] lands(tree.nodes@, node, slot) && step_down(tree.nodes@[slot], key, r),
    ensures
        h == 0 ==> r == MutSearchResult::External,
        h > 0 ==> ({
            let first = kids_before(tree.nodes@, tree.rows@[h], i);
            &&& 0 <= first < tree.rows@[h - 1].len()
            &&& r == MutSearchResult::Internal(slot_ref(tree.rows@[h - 1][first]))
        }),
{
    broadcast use group_key_order;

    super::search::lemma_row(tree, h, i);
    let n = tree.nodes@[tree.rows@[h][i]];
    let slot = choose|slot: int|
        #[trigger] lands(tree.nodes@, node, slot) && step_down(tree.nodes@[slot], key, r);
    lemma_lands_on_live(tree.nodes@, tree.rows@[h][i] as usize, slot);
    if h > 0 {
        lemma_shape_row(tree.nodes@, tree.rows@, tree.page_size as int, h);
        let kids = tree.rows@[h - 1];
        let b = bounds(tree.nodes@, kids);
        let a = super::shape::lemma_over_at(tree.nodes@, tree.rows@[h], kids, b, i);
        let m = ptrs_of(n).len() as int;
        lemma_empty_key_left(tree, key);
        lemma_leftmost(tree, h - 1, key);
        match r {
            MutSearchResult::External => {},
            MutSearchResult::Internal(child) => {
                let pos = choose|pos: int|
                    #[trigger] crate::index::key::is_upper_bound(keys_of(n), key, pos) && child
                        == ptrs_of(n)[pos];
                if pos > 0 {
                    assert(Some(keys_of(n)[0]) == b.subrange(a, a + m)[0]);
                    if a > 0 {
                        assert(bound_lt(b[0], b[a]));
                    }
                }
                assert(ptrs_of(n)[0] == slot_ref(kids.subrange(a, a + m)[0]));
            },
        }
    }
}

/// The leaves from the one at `from` on, at most as many as move to the next level at a time.
pub open spec fn pages_from(leaves: Seq<int>, from: int) -> Seq<int> {
    if leaves.len() - from < LEVEL_PAGE_DIFF_MULTIPLIER {
        leaves.skip(from)
    } else {
        leaves.subrange(from, from + LEVEL_PAGE_DIFF_MULTIPLIER)
    }
}

/// The pages from the leftmost one under a node on, at most as many as move to the next level at a
/// time.
fn select(tree: &BPlusTree, node: NodeCellRef, Ghost(h): Ghost<int>, Ghost(i): Ghost<int>) -> (out: Vec<
    usize,
>)
    requires
        tree.wf(),
        0 <= h < tree.rows@.len(),
        0 <= i < tree.rows@[h].len(),
        node == slot_ref(tree.rows@[h][i]),
    ensures
        ({
            let pages = pages_from(tree.leaves(), first_leaf(tree.nodes@, tree.rows@, h, i));
            &&& 0 <= first_leaf(tree.nodes@, tree.rows@, h, i) < tree.leaves().len()
            &&& out@.len() == pages.len()
            &&& forall|j: int| 0 <= j < out@.len() ==> #[trigger] out@[j] == pages[j]
        }),
    decreases h,
{
    let key = EntryKey::from_slice(&[]);
    proof {
        super::search::lemma_row(tree, h, i);
        super::search::lemma_first_leaf(tree, h, i, key@);
        let s = tree.rows@[h][i];
        lemma_lands_on_live(tree.nodes@, s as usize, s);
        assert(stands(tree, node, h, i));
    }
    let r = mut_search(tree, node, &key);
    proof {
        lemma_step_first(tree, node, h, i, key@, r);
    }
    match r {
        MutSearchResult::External => {
            let first: usize = match node {
                NodeCellRef::Slot(s) => s,
                _ => {
                    assert(false);
                    0
                },
            };
            let mut collected: Vec<usize> = vec![first];
            let mut last: usize = first;
            let mut more = true;
            while more && collected.len() < LEVEL_PAGE_DIFF_MULTIPLIER
                invariant
                    tree.wf(),
                    0 <= i,
                    1 <= collected@.len() <= LEVEL_PAGE_DIFF_MULTIPLIER,
                    i + collected@.len() <= tree.leaves().len(),
                    last == collected@.last(),
                    forall|j: int|
                        0 <= j < collected@.len() ==> #[trigger] collected@[j] == tree.leaves()[i
                            + j],
                    !more ==> i + collected@.len() == tree.leaves().len(),
                decreases
                    LEVEL_PAGE_DIFF_MULTIPLIER - collected@.len() + if more {
                        1int
                    } else {
                        0int
                    },
            {
                proof {
                    super::tree::lemma_leaf(tree, i + collected@.len() - 1);
                }
                let right = match &tree.nodes[last] {
                    NodeData::External(page) => page.next,
                    _ => NodeCellRef::Nil,
                };
                match right {
                    NodeCellRef::Slot(s) => {
                        collected.push(s);
                        last = s;
                    },
                    _ => {
                        more = false;
                    },
                }
            }
            collected
        },
        MutSearchResult::Internal(sub) => select(
            tree,
            sub,
            Ghost(h - 1),
            Ghost(kids_before(tree.nodes@, tree.rows@[h], i)),
        ),
    }
}

/// All of a tree but its arena and rows is the same.
pub open spec fn same_but_shape(a: BPlusTree, b: BPlusTree) -> bool {
    a == (BPlusTree { nodes: a.nodes, rows: a.rows, ..b })
}

/// The first leaves are those under keys that each first leaf has one of.
proof fn lemma_first_leaves(leaves: Seq<int>, b: Seq<Option<Seq<u8>>>, keys: Seq<Seq<u8>>)
    requires
        bounds_ok(b),
        leaves.len() == b.len(),
        first_children(b, keys),
    ensures
        kept(leaves, places(b, keys), 0, leaves.len() as int) == leaves.skip(keys.len() as int),
        ascending(keys),
{
    broadcast use group_key_order;

    let gone = places(b, keys);
    assert forall|j: int| 0 <= j < keys.len() implies place(b, #[trigger] keys[j]) == j by {
        assert(covers(b, j, keys[j]));
        lemma_place(b, keys[j]);
    }
    assert forall|x: int| 0 <= x < leaves.len() implies (gone.contains(x) <==> x < keys.len()) by {
        if x < keys.len() {
            assert(x == place(b, keys[x]));
        }
    }
    lemma_kept_suffix(leaves, gone, keys.len() as int);
    assert forall|x: int, y: int| 0 <= x < y < keys.len() implies key_lt(
        #[trigger] keys[x],
        #[trigger] keys[y],
    ) by {
        assert(covers(b, x, keys[x]));
        assert(covers(b, y, keys[y]));
        if x < y - 1 {
            assert(bound_lt(b[x], b[y - 1]));
        }
    }
}

/// When the first leaves go, the rows that are left say all that is said of any leaves.
proof fn lemma_first_cut(
    before: Seq<NodeData>,
    rows: Seq<Seq<int>>,
    after: Seq<NodeData>,
    rows2: Seq<Seq<int>>,
    page_size: int,
    p: int,
    h: int,
    keys: Seq<Seq<u8>>,
)
    requires
        0 < h < rows.len(),
        pruned_to(before, rows, after, rows2, page_size, p, h),
        kept(rows[0], places(bounds(before, rows[0]), keys), 0, rows[0].len() as int)
            == rows[0].skip(p),
    ensures
        rows_cut(before, rows, after, rows2, h, keys),
{
    reveal(pruned_to);
    reveal(rows_cut);
    assert(row_over_below(after, page_size, rows2, 1));
    lemma_over_ptrs(after, rows2[1], rows2[0], bounds(after, rows2[0]));
    let low = rows2[1];
    assert(row_ok(after, low, false));
    assert forall|x: int| 0 <= x < low.len() implies 0 <= #[trigger] low[x] < after.len()
        && after[low[x]] is Internal by {
        assert(after[low[x]] is Internal);
    }
}

/// Takes the leaves under the given keys out of the rows up to the one that `node` stands in, from
/// that node on, and tells what is left to do in the row above. With `first`, these are the first
/// leaves, and the rows that are left form a tree.
fn prune_selected(
    tree: &mut BPlusTree,
    node: NodeCellRef,
    removal: NodeRemoval,
    Ghost(h): Ghost<int>,
    Ghost(i): Ghost<int>,
    Ghost(first): Ghost<bool>,
) -> (upper: NodeRemoval)
    requires
        old(tree).wf(),
        0 < h < old(tree).rows@.len(),
        0 <= i < old(tree).rows@[h].len(),
        node == slot_ref(old(tree).rows@[h][i]),
        removal@.empty_pages.len() > 0,
        ascending(removal@.empty_pages),
        removal@.split.len() == 0,
        reaches(bounds(old(tree).nodes@, old(tree).rows@[h]), i, removal@.empty_pages[0]),
        first ==> i == 0 && prunable(
            old(tree).nodes@,
            old(tree).rows@,
            removal@.empty_pages.len() as int,
        ) && first_children(bounds(old(tree).nodes@, old(tree).leaves()), removal@.empty_pages),
    ensures
        same_but_shape(*final(tree), *old(tree)),
        rows_cut(
            old(tree).nodes@,
            old(tree).rows@,
            final(tree).nodes@,
            final(tree).rows@,
            h,
            removal@.empty_pages,
        ),
        handed_up(
            old(tree).nodes@,
            final(tree).nodes@,
            old(tree).page_size as int,
            old(tree).rows@,
            h,
            i,
            removal@.empty_pages,
            upper@,
        ),
        some_of(upper@.empty_pages, removal@.empty_pages),
        first ==> pruned_to(
            old(tree).nodes@,
            old(tree).rows@,
            final(tree).nodes@,
            final(tree).rows@,
            old(tree).page_size as int,
            removal@.empty_pages.len() as int,
            h,
        ) && top_pruned(
            old(tree).nodes@,
            old(tree).rows@,
            final(tree).nodes@,
            final(tree).rows@,
            removal@.empty_pages.len() as int,
            h,
            upper@,
        ),
    decreases h,
{
    let ghost before = tree.nodes@;
    let ghost rows = tree.rows@;
    let ghost page_size = tree.page_size as int;
    let ghost keys = removal@.empty_pages;
    let ghost p = keys.len() as int;
    let first_key = &removal.empty_pages[0];
    proof {
        assert(keys[0] == first_key@);
        super::search::lemma_row(tree, h, i);
        let s = rows[h][i];
        lemma_lands_on_live(before, s as usize, s);
        assert(stands(tree, node, h, i));
    }
    let first_search = mut_search(tree, node, first_key);
    let ghost mut c = lemma_any_child(tree, node, h, i, first_key@, first_search);
    proof {
        if first {
            assert(covers(bounds(before, rows[0]), 0, keys[0]));
            lemma_step_left(tree, node, h, first_key@, first_search);
            lemma_shape_row(before, rows, page_size, h);
            c = 0;
        }
        super::search::lemma_row(tree, h - 1, c);
    }
    let sub = match first_search {
        MutSearchResult::Internal(sub) => sub,
        MutSearchResult::External => {
            assert(false);
            node
        },
    };
    let (slot, sub_slot): (usize, usize) = match (node, sub) {
        (NodeCellRef::Slot(s), NodeCellRef::Slot(t)) => (s, t),
        _ => {
            assert(false);
            (0, 0)
        },
    };
    let deepest = match &tree.nodes[sub_slot] {
        NodeData::External(_) => true,
        _ => false,
    };
    proof {
        assert(deepest == (h == 1));
        lemma_shape_row(before, rows, page_size, 0);
        lemma_all_of(keys);
        if first {
            lemma_first_leaves(rows[0], bounds(before, rows[0]), keys);
        }
    }
    let mut given = removal;
    if deepest {
        proof {
            lemma_cut_base(before, rows, keys);
            if first {
                lemma_pruned_base(before, rows, page_size, p, given@);
            }
        }
        tree.rows = Ghost(
            rows.update(
                0,
                kept(rows[0], places(bounds(before, rows[0]), keys), 0, rows[0].len() as int),
            ),
        );
    } else {
        given = prune_selected(tree, sub, given, Ghost(h - 1), Ghost(c), Ghost(first));
    }
    let ghost nodes = tree.nodes@;
    let ghost rows1 = tree.rows@;
    proof {
        assert(tree.nodes.len() == nodes.len());
        lemma_cut_next(before, rows, nodes, rows1, page_size, h, i, keys, given@.empty_pages);
        if first {
            lemma_row_ready(before, rows, nodes, rows1, page_size, p, h, given@);
        }
    }
    let (upper, cut) = prune_row(
        tree,
        slot,
        &given,
        deepest,
        Ghost(rows[h]),
        Ghost(rows[h - 1]),
        Ghost(bounds(before, rows[h - 1])),
        Ghost(i),
        Ghost(first),
    );
    let ghost e = emptied_at(before, rows, p, h);
    let ghost row2 = if first {
        cut_row(rows[h].skip(e), 0, nodes.len() as int, split_of(upper@))
    } else {
        cut@.done
    };
    tree.rows = Ghost(rows1.update(h, row2));
    proof {
        lemma_cut_told(
            before,
            rows,
            nodes,
            rows1,
            tree.nodes@,
            page_size,
            h,
            i,
            keys,
            given@,
            upper@,
            cut@,
        );
        if first {
            lemma_row_done(
                before,
                rows,
                nodes,
                rows1,
                tree.nodes@,
                page_size,
                p,
                h,
                given@,
                upper@,
                !deepest,
            );
            lemma_first_cut(before, rows, tree.nodes@, tree.rows@, page_size, p, h, keys);
        } else {
            lemma_cut_done(
                before,
                rows,
                nodes,
                rows1,
                tree.nodes@,
                page_size,
                h,
                i,
                keys,
                given@,
                upper@,
                cut@,
            );
        }
    }
    upper
}

/// How many pages move at a time.
pub open spec fn merge_pages(tree: &BPlusTree) -> int {
    if tree.leaves().len() < LEVEL_PAGE_DIFF_MULTIPLIER {
        tree.leaves().len() as int
    } else {
        LEVEL_PAGE_DIFF_MULTIPLIER as int
    }
}

/// The tree can give its first pages away: it keeps pages, and inner nodes to find them.
pub open spec fn can_merge(tree: &BPlusTree) -> bool {
    prunable(tree.nodes@, tree.rows@, merge_pages(tree))
}

/// The keys of the pages that move.
pub open spec fn moved_keys(tree: &BPlusTree) -> Seq<Seq<u8>> {
    flat(tree.nodes@, tree.leaves().take(merge_pages(tree)))
}

/// The first key of each page.
fn first_keys(tree: &BPlusTree, pages: &Vec<usize>) -> (out: Vec<EntryKey>)
    requires
        tree.wf(),
        tree.leaves().len() > 1,
        pages@.len() <= tree.leaves().len(),
        forall|i: int| 0 <= i < pages@.len() ==> #[trigger] pages@[i] == tree.leaves()[i],
    ensures
        out@.len() == pages@.len(),
        forall|i: int|
            0 <= i < out@.len() ==> #[trigger] out@[i]@ == keys_of(tree.nodes@[tree.leaves()[i]])[0]
                && covers(bounds(tree.nodes@, tree.leaves()), i, out@[i]@),
{
    let mut out: Vec<EntryKey> = Vec::new();
    let mut i: usize = 0;
    while i < pages.len()
        invariant
            i <= pages@.len(),
            tree.wf(),
            tree.leaves().len() > 1,
            pages@.len() <= tree.leaves().len(),
            forall|i: int| 0 <= i < pages@.len() ==> #[trigger] pages@[i] == tree.leaves()[i],
            out@.len() == i,
            forall|j: int|
                0 <= j < i ==> #[trigger] out@[j]@ == keys_of(tree.nodes@[tree.leaves()[j]])[0]
                    && covers(bounds(tree.nodes@, tree.leaves()), j, out@[j]@),
        decreases pages@.len() - i,
    {
        proof {
            super::tree::lemma_leaf(tree, i as int);
            super::search::lemma_leaf_covers(tree, i as int, 0);
            assert(pages@[i as int] == tree.leaves()[i as int]);
        }
        match &tree.nodes[pages[i]] {
            NodeData::External(page) => {
                if page.keys.len() > 0 {
                    assert(keys_of(tree.nodes@[tree.leaves()[i as int]])[0] == page.keys@[0]@);
                    out.push(page.keys[0].duplicate());
                } else {
                    assert(false);
                }
            },
            _ => {
                assert(false);
            },
        }
        i += 1;
    }
    out
}

proof fn lemma_live_push(keys: Seq<Seq<u8>>, key: Seq<u8>, deleted: Set<Seq<u8>>)
    ensures
        live(keys.push(key), deleted) == if deleted.contains(key) {
            live(keys, deleted)
        } else {
            live(keys, deleted).push(key)
        },
{
    assert(keys.push(key) =~= keys + seq![key]);
    lemma_live_concat(keys, seq![key], deleted);
    super::ops::lemma_live_one(key, deleted);
    assert(live(keys, deleted) + Seq::<Seq<u8>>::empty() =~= live(keys, deleted));
    assert(live(keys, deleted) + seq![key] =~= live(keys, deleted).push(key));
}

/// The keys of a page, those that are present apart from those that are deleted.
fn sort_out(
    tree: &BPlusTree,
    slot: usize,
    present: &mut Vec<EntryKey>,
    dead: &mut Vec<EntryKey>,
    Ghost(so_far): Ghost<Seq<Seq<u8>>>,
)
    requires
        slot < tree.nodes@.len(),
        tree.nodes@[slot as int] is External,
        key_views(old(present)@) == live(so_far, tree.deleted@),
        key_views(old(dead)@) == live(so_far, tree.deleted@.complement()),
    ensures
        key_views(final(present)@) == live(
            so_far + keys_of(tree.nodes@[slot as int]),
            tree.deleted@,
        ),
        key_views(final(dead)@) == live(
            so_far + keys_of(tree.nodes@[slot as int]),
            tree.deleted@.complement(),
        ),
{
    match &tree.nodes[slot] {
        NodeData::External(page) => {
            let ghost here = keys_of(tree.nodes@[slot as int]);
            let mut y: usize = 0;
            assert(so_far + here.take(0) =~= so_far);
            while y < page.keys.len()
                invariant
                    y <= page.keys@.len(),
                    here == key_views(page.keys@),
                    key_views(present@) == live(so_far + here.take(y as int), tree.deleted@),
                    key_views(dead@) == live(
                        so_far + here.take(y as int),
                        tree.deleted@.complement(),
                    ),
                decreases page.keys@.len() - y,
            {
                let key = &page.keys[y];
                let ghost p0 = present@;
                let ghost d0 = dead@;
                proof {
                    assert(here[y as int] == key@);
                    assert(so_far + here.take(y + 1) =~= (so_far + here.take(y as int)).push(key@));
                    lemma_live_push(so_far + here.take(y as int), key@, tree.deleted@);
                    lemma_live_push(so_far + here.take(y as int), key@, tree.deleted@.complement());
                }
                if tree.deleted.contains(key) {
                    dead.push(key.duplicate());
                    assert(key_views(dead@) =~= key_views(d0).push(key@));
                } else {
                    present.push(key.duplicate());
                    assert(key_views(present@) =~= key_views(p0).push(key@));
                }
                y += 1;
            }
            assert(here.take(y as int) =~= here);
        },
        _ => {
            assert(false);
        },
    }
}

/// The keys of the pages, those that are present apart from those that are deleted.
fn collect_keys(tree: &BPlusTree, pages: &Vec<usize>) -> (r: (Vec<EntryKey>, Vec<EntryKey>))
    requires
        tree.wf(),
        pages@.len() <= tree.leaves().len(),
        forall|i: int| 0 <= i < pages@.len() ==> #[trigger] pages@[i] == tree.leaves()[i],
    ensures
        ({
            let moved = flat(tree.nodes@, tree.leaves().take(pages@.len() as int));
            &&& key_views(r.0@) == live(moved, tree.deleted@)
            &&& key_views(r.1@) == live(moved, tree.deleted@.complement())
        }),
{
    let mut present: Vec<EntryKey> = Vec::new();
    let mut dead: Vec<EntryKey> = Vec::new();
    let mut i: usize = 0;
    proof {
        let none = tree.leaves().take(0);
        assert(none =~= Seq::<int>::empty());
        assert(flat(tree.nodes@, none) =~= Seq::<Seq<u8>>::empty());
        assert(key_views(present@) =~= Seq::<Seq<u8>>::empty());
        assert(key_views(dead@) =~= Seq::<Seq<u8>>::empty());
    }
    while i < pages.len()
        invariant
            i <= pages@.len(),
            tree.wf(),
            pages@.len() <= tree.leaves().len(),
            forall|i: int| 0 <= i < pages@.len() ==> #[trigger] pages@[i] == tree.leaves()[i],
            key_views(present@) == live(
                flat(tree.nodes@, tree.leaves().take(i as int)),
                tree.deleted@,
            ),
            key_views(dead@) == live(
                flat(tree.nodes@, tree.leaves().take(i as int)),
                tree.deleted@.complement(),
            ),
        decreases pages@.len() - i,
    {
        let ghost so_far = flat(tree.nodes@, tree.leaves().take(i as int));
        proof {
            super::tree::lemma_leaf(tree, i as int);
            assert(pages@[i as int] == tree.leaves()[i as int]);
            let row = tree.leaves();
            super::shape::lemma_flat_split(tree.nodes@, row.take(i + 1), i as int);
            assert(row.take(i + 1).take(i as int) =~= row.take(i as int));
            let one = seq![row[i as int]];
            assert(row.take(i + 1).skip(i as int) =~= one);
            let none = Seq::<int>::empty();
            assert(one.drop_first() =~= none);
            assert(flat(tree.nodes@, none) == Seq::<Seq<u8>>::empty());
            assert(flat(tree.nodes@, one) =~= keys_of(tree.nodes@[row[i as int]]));
        }
        sort_out(tree, pages[i], &mut present, &mut dead, Ghost(so_far));
        i += 1;
    }
    (present, dead)
}

/// Takes keys out of the set of deleted ones.
fn forget_deleted(set: &mut DeletionSet, keys: &Vec<EntryKey>)
    ensures
        final(set)@ == old(set)@.difference(key_views(keys@).to_set()),
{
    let ghost before = set@;
    let ghost views = key_views(keys@);
    let mut i: usize = 0;
    proof {
        assert(views.take(0).to_set() =~= Set::<Seq<u8>>::empty());
        assert(before.difference(views.take(0).to_set()) =~= before);
    }
    while i < keys.len()
        invariant
            i <= keys@.len(),
            views == key_views(keys@),
            set@ == before.difference(views.take(i as int).to_set()),
        decreases keys@.len() - i,
    {
        let ghost s0 = set@;
        set.remove(&keys[i]);
        proof {
            assert(views[i as int] == keys@[i as int]@);
            super::ops::lemma_take_set(views, i as int);
            assert(set@ =~= before.difference(views.take(i + 1).to_set()));
        }
        i += 1;
    }
    assert(views.take(i as int) =~= views);
}

/// The arena once the first `p` leaves are gone: each leads to the leaf that is now the first one,
/// which takes over the id of the first leaf.
pub open spec fn pages_dropped(
    before: Seq<NodeData>,
    after: Seq<NodeData>,
    leaves: Seq<int>,
    p: int,
    id: Id,
) -> bool {
    let emptied = NodeData::Empty(
        EmptyNode { left: Some(NodeCellRef::Nil), right: slot_ref(leaves[p]) },
    );
    &&& after.len() == before.len()
    &&& forall|i: int| 0 <= i < p ==> after[#[trigger] leaves[i]] == emptied
    &&& after[leaves[p]] == NodeData::External(
        ExtNode { id, prev: NodeCellRef::Nil, ..before[leaves[p]]->External_0 },
    )
    &&& forall|x: int|
        0 <= x < before.len() && !leaves.take(p + 1).contains(x) ==> #[trigger] after[x] == before[x]
}

/// The leaves that stay, in a pruned tree whose first leaves are dropped.
proof fn lemma_dropped_leaves(
    before: Seq<NodeData>,
    nodes: Seq<NodeData>,
    after: Seq<NodeData>,
    row: Seq<int>,
    page_size: int,
    p: int,
    id: Id,
)
    requires
        row_ok(before, row, true),
        leaves_ok(before, row, page_size),
        0 < p < row.len(),
        nodes.len() >= before.len(),
        forall|x: int|
            0 <= x < before.len() && before[x] is External ==> #[trigger] nodes[x] == before[x],
        pages_dropped(nodes, after, row, p, id),
    ensures
        row_ok(after, row.skip(p), true),
        leaves_ok(after, row.skip(p), page_size),
        bounds(after, row.skip(p)) == bounds(before, row).skip(p),
        flat(after, row.skip(p)) == flat(before, row.skip(p)),
{
    let rest = row.skip(p);
    lemma_leaf_row_suffix(before, row, p);
    assert forall|j: int| 0 <= j < rest.len() implies 0 <= #[trigger] rest[j] < before.len()
        && after[rest[j]] is External && keys_of(after[rest[j]]) == keys_of(before[rest[j]])
        && bound_of(after[rest[j]]) == bound_of(before[rest[j]]) && right_of(after[rest[j]])
        == right_of(before[rest[j]]) && after[rest[j]]->External_0.prev == (if j == 0 {
        NodeCellRef::Nil
    } else {
        before[rest[j]]->External_0.prev
    }) by {
        assert(rest[j] == row[j + p]);
        assert(0 <= row[j + p] < before.len());
        assert(before[row[j + p]] is External);
        assert(nodes[row[j + p]] == before[row[j + p]]);
        if j > 0 {
            let gone = row.take(p + 1);
            if gone.contains(row[j + p]) {
                let k = choose|k: int| 0 <= k < gone.len() && gone[k] == row[j + p];
                assert(row[k] == row[j + p]);
            }
        }
    }
    assert(bounds(after, rest) =~= bounds(before, rest));
    assert forall|j: int| 0 <= j < rest.len() implies #[trigger] link_at(after, rest, j) by {
        assert(link_at(before, rest, j));
        assert(0 <= rest[j] < before.len());
    }
    assert forall|j: int| 0 <= j < rest.len() implies #[trigger] leaf_at(after, rest, page_size, j) by {
        assert(leaf_at(before, row, page_size, j + p));
        assert(rest[j] == row[j + p]);
        assert(0 <= rest[j] < before.len());
        let keys = keys_of(after[rest[j]]);
        assert forall|k: int| 0 <= k < keys.len() implies covers(
            bounds(after, rest),
            j,
            #[trigger] keys[k],
        ) by {
            assert(covers(bounds(before, row), j + p, keys[k]));
        }
        if j > 0 {
            assert(rest[j - 1] == row[j + p - 1]);
        }
    }
    super::shape::lemma_flat_frame(before, after, rest);
}

/// A row of inner nodes when leaves are dropped.
proof fn lemma_dropped_inner(
    before: Seq<NodeData>,
    rows: Seq<Seq<int>>,
    nodes: Seq<NodeData>,
    rows1: Seq<Seq<int>>,
    after: Seq<NodeData>,
    page_size: int,
    p: int,
    h: int,
    id: Id,
    g: int,
)
    requires
        shape_ok(before, rows, page_size),
        rows.len() >= 1,
        0 < p < rows[0].len(),
        0 <= h < rows.len(),
        0 < g <= h,
        pruned_to(before, rows, nodes, rows1, page_size, p, h),
        pages_dropped(nodes, after, rows[0], p, id),
    ensures
        forall|j: int| 0 <= j < rows1[g].len() ==> nodes[#[trigger] rows1[g][j]] == after[rows1[g][j]],
        row_over(nodes, page_size, rows1[g], rows1[g - 1], bounds(nodes, rows1[g - 1])),
{
    lemma_shape_row(before, rows, page_size, 0);
    assert(row_over_below(nodes, page_size, rows1, g)) by {
        reveal(pruned_to);
    }
    assert forall|j: int| 0 <= j < rows1[g].len() implies nodes[#[trigger] rows1[g][j]]
        == after[rows1[g][j]] by {
        let x = rows1[g][j];
        assert(nodes[rows1[g][j]] is Internal);
        assert(0 <= x < nodes.len());
        let gone = rows[0].take(p + 1);
        if gone.contains(x) {
            let k = choose|k: int| 0 <= k < gone.len() && gone[k] == x;
            assert(rows[0][k] == x);
            assert(before[rows[0][k]] is External);
            assert(0 <= rows[0][k] < before.len());
            assert(nodes[x] == before[x]) by {
                reveal(pruned_to);
            }
        }
    }
}

/// Pruning the rows and dropping the leaves leaves a search tree of the other leaves.
proof fn lemma_merged_shape(
    before: Seq<NodeData>,
    rows: Seq<Seq<int>>,
    nodes: Seq<NodeData>,
    rows1: Seq<Seq<int>>,
    after: Seq<NodeData>,
    page_size: int,
    p: int,
    out: RemovalView,
    id: Id,
)
    requires
        shape_ok(before, rows, page_size),
        rows.len() >= 2,
        prunable(before, rows, p),
        pruned_to(before, rows, nodes, rows1, page_size, p, rows.len() - 1),
        top_pruned(before, rows, nodes, rows1, p, rows.len() - 1, out),
        pages_dropped(nodes, after, rows[0], p, id),
    ensures
        shape_ok(after, rows1, page_size),
        rows1.len() == rows.len(),
        rows1.last() == rows.last(),
        rows1[0] == rows[0].skip(p),
        flat(after, rows1[0]) == flat(before, rows[0].skip(p)),
{
    let top = rows.len() - 1;
    assert(rows.last().len() == 1) by {
        reveal(shape_ok);
    }
    assert(rows[top].skip(0) =~= rows[top]);
    assert(rows1.len() == rows.len() && rows1[0] == rows[0].skip(p) && apart(rows1) && nodes.len()
        >= before.len()) by {
        reveal(pruned_to);
    }
    lemma_shape_row(before, rows, page_size, 0);
    assert forall|x: int| 0 <= x < before.len() && before[x] is External implies #[trigger] nodes[x]
        == before[x] by {
        reveal(pruned_to);
    }
    lemma_dropped_leaves(before, nodes, after, rows[0], page_size, p, id);
    assert forall|g: int| 0 <= g < rows.len() implies bounds(after, #[trigger] rows1[g]) == bounds(
        nodes,
        rows1[g],
    ) by {
        if g > 0 {
            lemma_dropped_inner(before, rows, nodes, rows1, after, page_size, p, top, id, g);
            lemma_row_over_frame(
                nodes,
                after,
                page_size,
                rows1[g],
                rows1[g - 1],
                bounds(nodes, rows1[g - 1]),
            );
        } else {
            let rest = rows[0].skip(p);
            assert(bounds(nodes, rest) =~= bounds(before, rows[0]).skip(p)) by {
                assert forall|j: int| 0 <= j < rest.len() implies bounds(nodes, rest)[j] == bounds(
                    before,
                    rows[0],
                ).skip(p)[j] by {
                    assert(rest[j] == rows[0][j + p]);
                    assert(before[rows[0][j + p]] is External);
                    assert(0 <= rows[0][j + p] < before.len());
                }
            }
        }
    }
    assert forall|g: int| 0 < g < rows.len() implies row_over(
        after,
        page_size,
        #[trigger] rows1[g],
        rows1[g - 1],
        bounds(after, rows1[g - 1]),
    ) by {
        lemma_dropped_inner(before, rows, nodes, rows1, after, page_size, p, top, id, g);
        lemma_row_over_frame(
            nodes,
            after,
            page_size,
            rows1[g],
            rows1[g - 1],
            bounds(nodes, rows1[g - 1]),
        );
        assert(bounds(after, rows1[g - 1]) == bounds(nodes, rows1[g - 1]));
    }
    assert(shape_ok(after, rows1, page_size)) by {
        reveal(shape_ok);
        assert forall|g: int| 0 < g < rows1.len() implies #[trigger] over_below(after, rows1, g) by {
            assert(row_over(
                after,
                page_size,
                rows1[g],
                rows1[g - 1],
                bounds(after, rows1[g - 1]),
            ));
        }
        assert forall|g: int| 0 <= g < rows1.len() implies row_ok(after, #[trigger] rows1[g], g == 0) by {
            if g > 0 {
                assert(row_over(
                    after,
                    page_size,
                    rows1[g],
                    rows1[g - 1],
                    bounds(after, rows1[g - 1]),
                ));
            }
        }
    }
}

/// The ids of the pages that go, as changes to store.
pub open spec fn dropped_ids(nodes: Seq<NodeData>, leaves: Seq<int>, p: int) -> Seq<ChangingNode> {
    Seq::new(p as nat, |i: int| ChangingNode::Deleted(nodes[leaves[i]]->External_0.id))
}

/// Empties the pages, which are the first ones, and makes the next one the first.
fn drop_pages(tree: &mut BPlusTree, pages: &Vec<usize>, Ghost(leaves): Ghost<Seq<int>>)
    requires
        1 <= pages@.len() < leaves.len(),
        leaves.no_duplicates(),
        forall|i: int| 0 <= i < pages@.len() ==> #[trigger] pages@[i] == leaves[i],
        forall|i: int| 0 <= i < leaves.len() ==> leaf_link(old(tree).nodes@, leaves, i),
        old(tree).nodes@.len() <= usize::MAX,
    ensures
        *final(tree) == (BPlusTree {
            nodes: final(tree).nodes,
            changed: final(tree).changed,
            ..*old(tree)
        }),
        pages_dropped(
            old(tree).nodes@,
            final(tree).nodes@,
            leaves,
            pages@.len() as int,
            old(tree).nodes@[leaves[0]]->External_0.id,
        ),
        final(tree).changed@ == (old(tree).changed@ + dropped_ids(
            old(tree).nodes@,
            leaves,
            pages@.len() as int,
        )).push(ChangingNode::Modified(leaves[pages@.len() as int] as usize)),
{
    let ghost before = tree.nodes@;
    let ghost p = pages@.len() as int;
    let last: usize = pages[pages.len() - 1];
    let first: usize = pages[0];
    proof {
        assert(leaf_link(before, leaves, 0));
        assert(leaf_link(before, leaves, p - 1));
        assert(leaf_link(before, leaves, p));
    }
    let right_right_most = match &tree.nodes[last] {
        NodeData::External(page) => page.next,
        _ => NodeCellRef::Nil,
    };
    let (left_left_most, left_most_id) = match &tree.nodes[first] {
        NodeData::External(page) => (page.prev, page.id),
        _ => (NodeCellRef::Nil, Id::unit_id()),
    };
    let mut i: usize = 0;
    let ghost ids = dropped_ids(before, leaves, p);
    let ghost emptied = NodeData::Empty(
        EmptyNode { left: Some(left_left_most), right: right_right_most },
    );
    assert(tree.changed@ + ids.take(0) =~= tree.changed@);
    while i < pages.len()
        invariant
            i <= pages@.len() == p,
            p < leaves.len(),
            leaves.no_duplicates(),
            forall|i: int| 0 <= i < pages@.len() ==> #[trigger] pages@[i] == leaves[i],
            forall|i: int| 0 <= i < leaves.len() ==> leaf_link(before, leaves, i),
            before == old(tree).nodes@,
            ids == dropped_ids(before, leaves, p),
            emptied == NodeData::Empty(
                EmptyNode { left: Some(left_left_most), right: right_right_most },
            ),
            *tree == (BPlusTree { nodes: tree.nodes, changed: tree.changed, ..*old(tree) }),
            tree.nodes@.len() == before.len(),
            tree.changed@ == old(tree).changed@ + ids.take(i as int),
            forall|j: int| 0 <= j < i ==> tree.nodes@[#[trigger] leaves[j]] == emptied,
            forall|x: int|
                0 <= x < before.len() && !leaves.take(i as int).contains(x)
                    ==> #[trigger] tree.nodes@[x] == before[x],
        decreases pages@.len() - i,
    {
        let slot: usize = pages[i];
        let ghost nodes = tree.nodes@;
        proof {
            assert(leaf_link(before, leaves, i as int));
            assert(pages@[i as int] == leaves[i as int]);
            assert(nodes[leaves[i as int]] == before[leaves[i as int]]) by {
                let t = leaves.take(i as int);
                if t.contains(leaves[i as int]) {
                    let k = choose|k: int| 0 <= k < t.len() && t[k] == leaves[i as int];
                    assert(leaves[k] == leaves[i as int]);
                }
            }
        }
        let id = match &tree.nodes[slot] {
            NodeData::External(page) => page.id,
            _ => Id::unit_id(),
        };
        tree.changed.push(ChangingNode::Deleted(id));
        tree.nodes[slot] = NodeData::Empty(
            EmptyNode { left: Some(left_left_most), right: right_right_most },
        );
        proof {
            assert(ids.take(i + 1) =~= ids.take(i as int).push(ids[i as int]));
            assert(tree.changed@ =~= old(tree).changed@ + ids.take(i + 1));
            assert forall|j: int| 0 <= j < i + 1 implies tree.nodes@[#[trigger] leaves[j]] == emptied by {
                assert(leaf_link(before, leaves, j));
            }
            assert forall|x: int|
                0 <= x < before.len() && !leaves.take(i + 1).contains(x) implies #[trigger] tree.nodes@[x]
                == before[x] by {
                assert(!leaves.take(i as int).contains(x)) by {
                    let t = leaves.take(i as int);
                    if t.contains(x) {
                        let k = choose|k: int| 0 <= k < t.len() && t[k] == x;
                        assert(leaves.take(i + 1)[k] == x);
                    }
                }
                assert(leaves.take(i + 1)[i as int] == leaves[i as int]);
            }
        }
        i += 1;
    }
    let next: usize = match right_right_most {
        NodeCellRef::Slot(s) => s,
        _ => {
            assert(false);
            0
        },
    };
    proof {
        assert(ids.take(p) =~= ids);
        assert(next == leaves[p]);
        assert(tree.nodes@[leaves[p]] == before[leaves[p]]) by {
            let t = leaves.take(p);
            if t.contains(leaves[p]) {
                let k = choose|k: int| 0 <= k < t.len() && t[k] == leaves[p];
                assert(leaves[k] == leaves[p]);
            }
        }
    }
    let ghost nodes = tree.nodes@;
    match &mut tree.nodes[next] {
        NodeData::External(page) => {
            page.id = left_most_id;
            page.prev = left_left_most;
        },
        _ => {},
    }
    tree.changed.push(ChangingNode::Modified(next));
    proof {
        let after = tree.nodes@;
        assert forall|j: int| 0 <= j < p implies after[#[trigger] leaves[j]] == emptied by {
            assert(leaf_link(before, leaves, j));
            assert(nodes[leaves[j]] == emptied);
            assert(leaves[j] != leaves[p]);
        }
        assert forall|x: int|
            0 <= x < before.len() && !leaves.take(p + 1).contains(x) implies #[trigger] after[x]
            == before[x] by {
            assert(!leaves.take(p).contains(x)) by {
                let t = leaves.take(p);
                if t.contains(x) {
                    let k = choose|k: int| 0 <= k < t.len() && t[k] == x;
                    assert(leaves.take(p + 1)[k] == x);
                }
            }
            assert(leaves.take(p + 1)[p] == leaves[p]);
            assert(nodes[x] == before[x]);
        }
    }
}

/// Moves the first pages of a tree to another tree: their present keys become present there, and
/// their deleted keys are forgotten. Gives the number of pages.
#[verifier::spinoff_prover]
#[verifier::rlimit(60)]
pub fn level_merge(src_tree: &mut BPlusTree, dest_tree: &mut BPlusTree) -> (pages: usize)
    requires
        old(src_tree).inv(),
        old(dest_tree).inv(),
        can_merge(old(src_tree)),
        old(dest_tree).len + old(src_tree).len < usize::MAX,
    ensures
        pages == merge_pages(old(src_tree)),
        final(src_tree).inv(),
        final(dest_tree).inv(),
        old(src_tree).keys() == moved_keys(old(src_tree)) + final(src_tree).keys(),
        final(src_tree).leaves() == old(src_tree).leaves().skip(pages as int),
        final(src_tree).deleted@ == old(src_tree).deleted@.difference(
            moved_keys(old(src_tree)).to_set(),
        ),
        final(src_tree).present() == live(final(src_tree).keys(), old(src_tree).deleted@),
        forall|i: int|
            0 <= i < pages ==> final(src_tree).nodes@[#[trigger] old(src_tree).leaves()[i]]
                == NodeData::Empty(
                EmptyNode {
                    left: Some(NodeCellRef::Nil),
                    right: slot_ref(old(src_tree).leaves()[pages as int]),
                },
            ),
        final(src_tree).nodes@[old(src_tree).leaves()[pages as int]] == NodeData::External(
            ExtNode {
                id: old(src_tree).head_page_id,
                prev: NodeCellRef::Nil,
                ..old(src_tree).nodes@[old(src_tree).leaves()[pages as int]]->External_0
            },
        ),
        final(src_tree).page_size == old(src_tree).page_size,
        final(src_tree).head_page_id == old(src_tree).head_page_id,
        final(src_tree).changed@ == (old(src_tree).changed@ + dropped_ids(
            old(src_tree).nodes@,
            old(src_tree).leaves(),
            pages as int,
        )).push(ChangingNode::Modified(old(src_tree).leaves()[pages as int] as usize)),
        final(dest_tree).keys().to_set() == old(dest_tree).keys().to_set().union(
            live(moved_keys(old(src_tree)), old(src_tree).deleted@).to_set(),
        ),
        final(dest_tree).deleted@ == old(dest_tree).deleted@.difference(
            live(moved_keys(old(src_tree)), old(src_tree).deleted@).to_set(),
        ),
        final(dest_tree).present().to_set() == old(dest_tree).present().to_set().union(
            live(moved_keys(old(src_tree)), old(src_tree).deleted@).to_set(),
        ),
        final(dest_tree).page_size == old(dest_tree).page_size,
        final(dest_tree).head_page_id == old(dest_tree).head_page_id,
        final(dest_tree).changed == old(dest_tree).changed,
        final(src_tree).len + final(dest_tree).len <= old(src_tree).len + old(dest_tree).len,
{
    let ghost t0 = *src_tree;
    let ghost rows = t0.rows@;
    let ghost before = t0.nodes@;
    let ghost top = rows.len() - 1;
    let ghost p = merge_pages(&t0);
    let ghost page_size = t0.page_size as int;
    let root: usize = src_tree.root;
    proof {
        lemma_root_covers(&t0, Seq::empty());
        assert(rows[top] == rows.last());
        if top == 0 {
            assert(rows[0].len() == 1);
        }
    }
    let pages = select(src_tree, NodeCellRef::Slot(root), Ghost(top), Ghost(0));
    proof {
        super::search::lemma_first_leaf_zero(before, rows, top);
        assert forall|i: int| 0 <= i < pages@.len() implies #[trigger] pages@[i] == t0.leaves()[i] by {
            assert(pages@[i] == pages_from(t0.leaves(), 0)[i]);
        }
    }
    let merge_page_len: usize = pages.len();
    let (keys, dead) = collect_keys(src_tree, &pages);
    let ghost moved = moved_keys(&t0);
    proof {
        lemma_merge_counts(&t0);
        assert(key_views(keys@).len() == keys@.len());
    }
    let num_keys_removed: usize = keys.len();
    dest_tree.merge_with_keys(&keys);
    forget_deleted(&mut src_tree.deleted, &dead);
    let mut removal = NodeRemoval::new();
    removal.empty_pages = first_keys(src_tree, &pages);
    proof {
        let b = bounds(before, rows[0]);
        let ks = removal@.empty_pages;
        assert forall|j: int| 0 <= j < ks.len() implies #[trigger] covers(b, j, ks[j]) by {
            assert(ks[j] == removal.empty_pages@[j]@);
        }
        assert(first_children(b, ks));
        lemma_shape_row(before, rows, page_size, 0);
        lemma_first_leaves(rows[0], b, ks);
        assert(removal@.split.len() == 0);
        lemma_leaf_links(&t0);
    }
    let ghost t1 = *src_tree;
    let upper = prune_selected(
        src_tree,
        NodeCellRef::Slot(root),
        removal,
        Ghost(top),
        Ghost(0),
        Ghost(true),
    );
    let ghost nodes = src_tree.nodes@;
    let ghost rows1 = src_tree.rows@;
    proof {
        assert(src_tree.nodes.len() == nodes.len());
        lemma_pruned_leaf_links(before, rows, nodes, rows1, page_size, p, top);
    }
    drop_pages(src_tree, &pages, Ghost(rows[0]));
    proof {
        let id = before[rows[0][0]]->External_0.id;
        assert(nodes[rows[0][0]] == before[rows[0][0]]) by {
            assert(leaf_link(nodes, rows[0], 0));
        }
        lemma_merged_shape(
            before,
            rows,
            nodes,
            rows1,
            src_tree.nodes@,
            page_size,
            p,
            upper@,
            id,
        );
        assert(dropped_ids(nodes, rows[0], p) =~= dropped_ids(before, rows[0], p));
        super::shape::lemma_flat_split(before, rows[0], p);
        assert forall|k: Seq<u8>| #[trigger] key_views(dead@).to_set().contains(k) implies moved.contains(
            k,
        ) by {
            lemma_live_contains(moved, t0.deleted@.complement(), k);
        }
        lemma_merge_live(&t0, key_views(dead@).to_set());
        assert(src_tree.deleted@ =~= t0.deleted@.difference(moved.to_set())) by {
            assert forall|k: Seq<u8>| src_tree.deleted@.contains(k) <==> t0.deleted@.difference(
                moved.to_set(),
            ).contains(k) by {
                lemma_live_contains(moved, t0.deleted@.complement(), k);
            }
        }
        assert(rows1[0][0] == rows[0][p]);
    }
    src_tree.len = src_tree.len.wrapping_sub(num_keys_removed);
    merge_page_len
}

/// All leaves of a tree as neighbours.
proof fn lemma_leaf_links(tree: &BPlusTree)
    requires
        tree.wf(),
    ensures
        forall|i: int| 0 <= i < tree.leaves().len() ==> leaf_link(tree.nodes@, tree.leaves(), i),
        tree.leaves().no_duplicates(),
{
    assert forall|i: int| 0 <= i < tree.leaves().len() implies leaf_link(
        tree.nodes@,
        tree.leaves(),
        i,
    ) by {
        super::tree::lemma_leaf(tree, i);
    }
    reveal(shape_ok);
    assert(row_ok(tree.nodes@, tree.rows@[0], true));
}

/// The leaves after the rows above were pruned.
proof fn lemma_pruned_leaf_links(
    before: Seq<NodeData>,
    rows: Seq<Seq<int>>,
    nodes: Seq<NodeData>,
    rows1: Seq<Seq<int>>,
    page_size: int,
    p: int,
    h: int,
)
    requires
        forall|i: int| 0 <= i < rows[0].len() ==> leaf_link(before, rows[0], i),
        pruned_to(before, rows, nodes, rows1, page_size, p, h),
    ensures
        forall|i: int| 0 <= i < rows[0].len() ==> leaf_link(nodes, rows[0], i),
        forall|i: int| 0 <= i < rows[0].len() ==> nodes[#[trigger] rows[0][i]] == before[rows[0][i]],
{
    reveal(pruned_to);
    assert forall|i: int| 0 <= i < rows[0].len() implies nodes[#[trigger] rows[0][i]]
        == before[rows[0][i]] by {
        assert(leaf_link(before, rows[0], i));
    }
    assert forall|i: int| 0 <= i < rows[0].len() implies leaf_link(nodes, rows[0], i) by {
        assert(leaf_link(before, rows[0], i));
        assert(nodes[rows[0][i]] == before[rows[0][i]]);
    }
}

/// The present keys of the pages that move are some of the present keys.
proof fn lemma_merge_counts(tree: &BPlusTree)
    requires
        tree.inv(),
        merge_pages(tree) <= tree.leaves().len(),
    ensures
        live(moved_keys(tree), tree.deleted@).len() <= tree.len,
        tree.present() == live(moved_keys(tree), tree.deleted@) + live(
            flat(tree.nodes@, tree.leaves().skip(merge_pages(tree))),
            tree.deleted@,
        ),
{
    let p = merge_pages(tree);
    super::shape::lemma_flat_split(tree.nodes@, tree.leaves(), p);
    lemma_live_concat(moved_keys(tree), flat(tree.nodes@, tree.leaves().skip(p)), tree.deleted@);
}

/// The keys that stay are as present as before.
proof fn lemma_merge_live(tree: &BPlusTree, forgotten: Set<Seq<u8>>)
    requires
        tree.inv(),
        merge_pages(tree) <= tree.leaves().len(),
        forall|k: Seq<u8>| #[trigger] forgotten.contains(k) ==> moved_keys(tree).contains(k),
    ensures
        ({
            let rest = flat(tree.nodes@, tree.leaves().skip(merge_pages(tree)));
            live(rest, tree.deleted@.difference(forgotten)) == live(rest, tree.deleted@)
        }),
{
    broadcast use group_key_order;

    let p = merge_pages(tree);
    let moved = moved_keys(tree);
    let rest = flat(tree.nodes@, tree.leaves().skip(p));
    super::shape::lemma_flat_split(tree.nodes@, tree.leaves(), p);
    super::search::lemma_tree_keys_ascend(tree);
    let all = tree.keys();
    assert(all == moved + rest);
    let d = tree.deleted@.difference(forgotten);
    assert forall|i: int| 0 <= i < rest.len() implies tree.deleted@.contains(#[trigger] rest[i])
        == d.contains(rest[i]) by {
        if forgotten.contains(rest[i]) {
            let j = choose|j: int| 0 <= j < moved.len() && moved[j] == rest[i];
            assert(all[j] == moved[j]);
            assert(all[moved.len() + i] == rest[i]);
            assert(key_lt(all[j], all[moved.len() + i]));
        }
    }
    super::ops::lemma_live_frame(rest, tree.deleted@, d);
}

/// A merge of levels loses no present key and adds none.
pub proof fn lemma_merge_keeps_present(
    src: &BPlusTree,
    dest: &BPlusTree,
    src_after: &BPlusTree,
    dest_after: &BPlusTree,
)
    requires
        src.keys() == moved_keys(src) + src_after.keys(),
        src_after.present() == live(src_after.keys(), src.deleted@),
        dest_after.present().to_set() == dest.present().to_set().union(
            live(moved_keys(src), src.deleted@).to_set(),
        ),
    ensures
        src_after.present().to_set().union(dest_after.present().to_set())
            == src.present().to_set().union(dest.present().to_set()),
{
    let moved = live(moved_keys(src), src.deleted@);
    let rest = src_after.present();
    lemma_live_concat(moved_keys(src), src_after.keys(), src.deleted@);
    assert forall|k: Seq<u8>| (moved + rest).to_set().contains(k) <==> moved.to_set().contains(k)
        || rest.to_set().contains(k) by {
        let s = moved + rest;
        if s.contains(k) {
            let i = choose|i: int| 0 <= i < s.len() && s[i] == k;
            if i < moved.len() {
                assert(moved[i] == k);
            } else {
                assert(rest[i - moved.len()] == k);
            }
        }
        if moved.contains(k) {
            let i = choose|i: int| 0 <= i < moved.len() && moved[i] == k;
            assert(s[i] == k);
        }
        if rest.contains(k) {
            let i = choose|i: int| 0 <= i < rest.len() && rest[i] == k;
            assert(s[moved.len() + i] == k);
        }
    }
    assert(src_after.present().to_set().union(dest_after.present().to_set()) =~= src.present().to_set().union(
        dest.present().to_set(),
    ));
}

/// How many nodes of the row that starts at `slot` go with the first `r` children of the row, and
/// whether all of them do.
fn count_emptied(tree: &BPlusTree, slot: usize, r: usize, Ghost(h): Ghost<int>) -> (out: (usize, bool))
    requires
        tree.wf(),
        0 < h < tree.rows@.len(),
        slot == tree.rows@[h][0],
    ensures
        out.0 == emptied_in(tree.nodes@, tree.rows@[h], r as int),
        out.1 == (emptied_in(tree.nodes@, tree.rows@[h], r as int) >= tree.rows@[h].len()),
{
    let ghost row = tree.rows@[h];
    let mut at: usize = slot;
    let mut left: usize = r;
    let mut count: usize = 0;
    proof {
        lemma_shape_row(tree.nodes@, tree.rows@, tree.page_size as int, h);
        assert(row.skip(0) =~= row);
    }
    loop
        invariant
            tree.wf(),
            0 < h < tree.rows@.len(),
            row == tree.rows@[h],
            count < row.len(),
            at == row[count as int],
            emptied_in(tree.nodes@, row, r as int) == count + emptied_in(
                tree.nodes@,
                row.skip(count as int),
                left as int,
            ),
        decreases row.len() - count,
    {
        let ghost rest = row.skip(count as int);
        proof {
            super::search::lemma_row(tree, h, count as int);
            lemma_row_fits(tree, h);
            assert(rest[0] == row[count as int]);
            assert(rest.drop_first() =~= row.skip(count + 1));
        }
        if left == 0 {
            return (count, false);
        }
        let (m, right): (usize, NodeCellRef) = match &tree.nodes[at] {
            NodeData::Internal(node) => (node.ptrs.len(), node.right),
            _ => {
                assert(false);
                (0, NodeCellRef::Nil)
            },
        };
        if m > left {
            proof {
                assert(emptied_in(tree.nodes@, rest, left as int) == if m == left + 1 {
                    1int
                } else {
                    0int
                });
            }
            if m - left == 1 {
                let all = match right {
                    NodeCellRef::Slot(_) => false,
                    _ => true,
                };
                return (count + 1, all);
            }
            return (count, false);
        }
        left = left - m;
        assert(emptied_in(tree.nodes@, rest, left + m) == 1 + emptied_in(
            tree.nodes@,
            row.skip(count + 1),
            left as int,
        ));
        match right {
            NodeCellRef::Slot(s) => {
                at = s;
                count = count + 1;
            },
            _ => {
                proof {
                    assert(row.skip(count + 1).len() == 0);
                    assert(emptied_in(tree.nodes@, row.skip(count + 1), left as int) == 0);
                }
                return (count + 1, true);
            },
        }
    }
}

/// A row has at most as many nodes as the arena.
proof fn lemma_row_fits(tree: &BPlusTree, h: int)
    requires
        tree.wf(),
        0 <= h < tree.rows@.len(),
    ensures
        tree.rows@[h].len() <= usize::MAX,
{
    lemma_shape_row(tree.nodes@, tree.rows@, tree.page_size as int, h);
    let row = tree.rows@[h];
    let n = tree.nodes@.len();
    assert(tree.nodes.len() == n);
    row.unique_seq_to_set();
    let all = vstd::set_lib::set_int_range(0, n as int);
    vstd::set_lib::lemma_int_range(0, n as int);
    assert(row.to_set().subset_of(all)) by {
        assert forall|x: int| row.to_set().contains(x) implies all.contains(x) by {
            let i = choose|i: int| 0 <= i < row.len() && row[i] == x;
            assert(0 <= row[i] < n);
        }
    }
    vstd::set_lib::lemma_len_subset(row.to_set(), all);
}

/// How many nodes of the row that starts at `slot` go with the first `p` leaves, and whether that
/// row and those below it keep nodes.
fn count_up(tree: &BPlusTree, slot: usize, p: usize, Ghost(h): Ghost<int>) -> (out: (usize, bool))
    requires
        tree.wf(),
        0 <= h < tree.rows@.len(),
        slot == tree.rows@[h][0],
    ensures
        out.1 <==> forall|g: int|
            0 < g <= h ==> #[trigger] emptied_at(tree.nodes@, tree.rows@, p as int, g)
                < tree.rows@[g].len(),
        out.1 ==> out.0 == emptied_at(tree.nodes@, tree.rows@, p as int, h),
    decreases h,
{
    proof {
        lemma_shape_row(tree.nodes@, tree.rows@, tree.page_size as int, h);
        super::search::lemma_row(tree, h, 0);
    }
    match &tree.nodes[slot] {
        NodeData::Internal(node) => {
            proof {
                let row = tree.rows@[h];
                let kids = tree.rows@[h - 1];
                let b = bounds(tree.nodes@, kids);
                lemma_first_node(tree.nodes@, tree.page_size as int, row, kids, b);
                let m = ptrs_of(tree.nodes@[row[0]]).len() as int;
                assert(ptrs_of(tree.nodes@[row[0]])[0] == slot_ref(kids.take(m)[0]));
                super::search::lemma_row(tree, h - 1, 0);
            }
            let sub: usize = match node.ptrs[0] {
                NodeCellRef::Slot(s) => s,
                _ => {
                    assert(false);
                    0
                },
            };
            let (below, fine) = count_up(tree, sub, p, Ghost(h - 1));
            if !fine {
                proof {
                    let g = choose|g: int|
                        0 < g <= h - 1 && !(#[trigger] emptied_at(
                            tree.nodes@,
                            tree.rows@,
                            p as int,
                            g,
                        ) < tree.rows@[g].len());
                    assert(!(emptied_at(tree.nodes@, tree.rows@, p as int, g)
                        < tree.rows@[g].len()));
                }
                return (0, false);
            }
            let (e, all) = count_emptied(tree, slot, below, Ghost(h));
            proof {
                assert(emptied_at(tree.nodes@, tree.rows@, p as int, h) == e);
            }
            (e, !all)
        },
        _ => (p, true),
    }
}

/// Whether the tree can give its first pages away.
pub fn is_mergeable(tree: &BPlusTree) -> (r: bool)
    requires
        tree.wf(),
    ensures
        r == can_merge(tree),
{
    let ghost top = tree.rows@.len() - 1;
    proof {
        lemma_root_covers(tree, Seq::empty());
    }
    let pages = select(tree, NodeCellRef::Slot(tree.root), Ghost(top), Ghost(0));
    let p: usize = pages.len();
    proof {
        super::search::lemma_first_leaf_zero(tree.nodes@, tree.rows@, top);
        assert forall|i: int| 0 <= i < pages@.len() implies #[trigger] pages@[i] == tree.leaves()[i] by {
            assert(pages@[i] == pages_from(tree.leaves(), 0)[i]);
        }
        lemma_shape_row(tree.nodes@, tree.rows@, tree.page_size as int, 0);
        super::tree::lemma_leaf(tree, p - 1);
        assert(pages@[p - 1] == tree.leaves()[p - 1]);
    }
    let more = match &tree.nodes[pages[p - 1]] {
        NodeData::External(page) => match page.next {
            NodeCellRef::Slot(_) => true,
            _ => false,
        },
        _ => false,
    };
    if !more {
        return false;
    }
    let (_, fine) = count_up(tree, tree.root, p, Ghost(top));
    fine
}

/// Ten pages move at a time, the first ones in the order of their keys; there must be more than those.
/// A change is noted of each of them, with its own id, that it is gone.
pub proof fn lemma_ten_pages_move(tree: &BPlusTree, i: int)
    requires
        can_merge(tree),
        0 <= i < 10,
    ensures
        tree.leaves().len() > 10,
        merge_pages(tree) == 10,
        moved_keys(tree) == flat(tree.nodes@, tree.leaves().take(10)),
        dropped_ids(tree.nodes@, tree.leaves(), 10).len() == 10,
        tree.nodes@[tree.leaves()[i]] matches NodeData::External(page) ==> dropped_ids(
            tree.nodes@,
            tree.leaves(),
            10,
        )[i] == ChangingNode::Deleted(page.id),
{
}

/// A tree of one page gives none away; one whose root stands over its pages gives pages away just if
/// the root keeps two of them.
pub proof fn lemma_when_low_trees_merge(tree: &BPlusTree)
    requires
        tree.wf(),
    ensures
        tree.rows@.len() == 1 ==> !can_merge(tree),
        tree.rows@.len() == 2 ==> (can_merge(tree) <==> tree.leaves().len() >= 12),
{
    let nodes = tree.nodes@;
    let rows = tree.rows@;
    let p = merge_pages(tree);
    lemma_root_covers(tree, Seq::empty());
    if rows.len() == 2 {
        let root = rows[1];
        lemma_shape_row(nodes, rows, tree.page_size as int, 1);
        reveal_with_fuel(over, 2);
        assert(root.drop_first().len() == 0);
        assert(ptrs_of(nodes[root[0]]).len() == rows[0].len());
        reveal_with_fuel(emptied_at, 2);
        assert(emptied_at(nodes, rows, p, 0) == p);
        if tree.leaves().len() >= 12 {
            assert forall|h: int| 0 < h < rows.len() implies #[trigger] emptied_at(nodes, rows, p, h)
                < rows[h].len() by {
                assert(h == 1);
            }
        } else if 1 <= p < rows[0].len() {
            reveal_with_fuel(emptied_in, 2);
            assert(emptied_at(nodes, rows, p, 1) == emptied_in(nodes, root, p));
        }
    }
}

} // verus!
