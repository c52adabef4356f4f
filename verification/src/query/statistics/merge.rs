//! The histogram of a whole chunk, made from those of its partitions.
use super::histogram::{
    hist_views, FieldHistogram, HistogramKey, HistogramView,
    HISTOGRAM_TARGET_BOUNDS, HISTOGRAM_TARGET_BUCKETS,
};
use crate::index::key::{bytes_before, group_key_order, key_le, key_lt, not_descending};
use crate::index::merging::{
    gathered, has_more, head, is_least, keys_out, lemma_merge_ok, lemma_merged_ascends,
    lemma_merged_gathers, lemma_next_key, lemma_step, merge_steps, merged, runs_ascend, sum,
};
use vstd::array::array_as_slice;
use vstd::prelude::*;

verus! {

/// From `pos` on, where the next bound stands: behind keys that stand for `width` values. There is
/// none when the keys end before.
pub open spec fn bound_pos(
    keys: Seq<(Seq<u8>, int)>,
    depths: Seq<nat>,
    width: int,
    pos: int,
    filled: int,
) -> int
    decreases keys.len() - pos,
{
    if pos >= keys.len() {
        keys.len() as int
    } else if filled >= width {
        pos
    } else {
        bound_pos(keys, depths, width, pos + 1, filled + depths[keys[pos].1])
    }
}

/// Where the bound number `k` stands. The first one is the least key.
pub open spec fn bound_at(
    keys: Seq<(Seq<u8>, int)>,
    depths: Seq<nat>,
    width: int,
    k: nat,
) -> int
    decreases k,
{
    if k == 0 {
        bound_pos(keys, depths, width, 0, width)
    } else {
        bound_pos(keys, depths, width, bound_at(keys, depths, width, (k - 1) as nat) + 1, 0)
    }
}

/// The key at a bound: the last one when the keys have ended, and zeros when there are none.
pub open spec fn bound_key(keys: Seq<(Seq<u8>, int)>, pos: int) -> Seq<u8> {
    if keys.len() == 0 {
        Seq::new(8, |i: int| 0u8)
    } else if pos < keys.len() {
        keys[pos].0
    } else {
        keys.last().0
    }
}

/// What the histograms hold.
pub open spec fn part_views(parts: Seq<&FieldHistogram>) -> Seq<HistogramView> {
    Seq::new(parts.len(), |i: int| parts[i]@)
}

pub open spec fn runs_of(parts: Seq<HistogramView>) -> Seq<Seq<Seq<u8>>> {
    Seq::new(parts.len(), |i: int| parts[i].tiles)
}

/// The partitions that hold a key.
pub open spec fn filled_parts(parts: Seq<HistogramView>) -> Seq<HistogramView>
    decreases parts.len(),
{
    if parts.len() == 0 {
        Seq::empty()
    } else {
        let before = filled_parts(parts.drop_last());
        if parts.last().tiles.len() > 0 {
            before.push(parts.last())
        } else {
            before
        }
    }
}

pub open spec fn depths_of(parts: Seq<HistogramView>) -> Seq<nat> {
    Seq::new(parts.len(), |i: int| parts[i].depth)
}

/// The number of values in all partitions.
pub open spec fn count_of(parts: Seq<HistogramView>) -> int
    decreases parts.len(),
{
    if parts.len() == 0 {
        0
    } else {
        count_of(parts.drop_last()) + parts.last().count
    }
}

/// The number of values between two bounds of a chunk's histogram.
pub open spec fn target_width(parts: Seq<HistogramView>) -> int {
    count_of(parts) / 100
}

/// The bounds of the chunk's histogram.
pub open spec fn chunk_bounds(parts: Seq<HistogramView>) -> Seq<Seq<u8>> {
    let filled = filled_parts(parts);
    let keys = merged(runs_of(filled));
    Seq::new(
        101,
        |k: int| bound_key(keys, bound_at(keys, depths_of(filled), target_width(parts), k as nat)),
    )
}

/// The run with the least next key.
fn least_run(live: &Vec<&FieldHistogram>, next: &Vec<usize>) -> (r: Option<usize>)
    requires
        next@.len() >= live@.len(),
    ensures
        ({
            let runs = runs_of(part_views(live@));
            let at = Seq::new(live@.len(), |i: int| next@[i] as int);
            match r {
                Some(p) => is_least(runs, at, p as int),
                None => forall|p: int| !has_more(runs, at, p),
            }
        }),
{
    let ghost runs = runs_of(part_views(live@));
    let ghost at = Seq::new(live@.len(), |i: int| next@[i] as int);
    let mut best: Option<usize> = None;
    let mut i: usize = 0;
    while i < live.len()
        invariant
            i <= live@.len(),
            next@.len() >= live@.len(),
            runs == runs_of(part_views(live@)),
            at == Seq::new(live@.len(), |i: int| next@[i] as int),
            match best {
                Some(p) => {
                    &&& p < i
                    &&& has_more(runs, at, p as int)
                    &&& forall|q: int| #[trigger]
                        has_more(runs, at, q) && q < i ==> if q < p {
                            key_lt(head(runs, at, p as int), head(runs, at, q))
                        } else {
                            key_le(head(runs, at, p as int), head(runs, at, q))
                        }
                },
                None => forall|q: int| q < i ==> !#[trigger] has_more(runs, at, q),
            },
        decreases live@.len() - i,
    {
        broadcast use group_key_order;

        let tiles: &Vec<HistogramKey> = &live[i].tiles;
        assert(runs[i as int] == hist_views(tiles@));
        assert(at[i as int] == next@[i as int]);
        if next[i] < tiles.len() {
            assert(has_more(runs, at, i as int));
            match best {
                Some(p) => {
                    let other: &Vec<HistogramKey> = &live[p].tiles;
                    assert(runs[p as int] == hist_views(other@));
                    assert(at[p as int] == next@[p as int]);
                    assert(head(runs, at, i as int) == tiles@[next@[i as int] as int]@);
                    assert(head(runs, at, p as int) == other@[next@[p as int] as int]@);
                    if bytes_before(
                        array_as_slice(&tiles[next[i]]),
                        array_as_slice(&other[next[p]]),
                    ) {
                        proof {
                            let a = head(runs, at, i as int);
                            let b = head(runs, at, p as int);
                            assert forall|q: int| #[trigger] has_more(runs, at, q) && q < i + 1 implies if q
                                < i {
                                key_lt(a, head(runs, at, q))
                            } else {
                                key_le(a, head(runs, at, q))
                            } by {
                                if q < i {
                                    assert(key_lt(b, head(runs, at, q)) || b == head(runs, at, q));
                                }
                            }
                        }
                        best = Some(i);
                    }
                },
                None => {
                    best = Some(i);
                },
            }
        }
        i += 1;
    }
    best
}

/// The partitions that hold a key.
fn live_parts<'a>(parts: &Vec<&'a FieldHistogram>) -> (live: Vec<&'a FieldHistogram>)
    ensures
        part_views(live@) == filled_parts(part_views(parts@)),
        forall|j: int|
            0 <= j < live@.len() ==> exists|i: int|
                0 <= i < parts@.len() && #[trigger] parts@[i] == #[trigger] live@[j],
{
    let ghost views = part_views(parts@);
    let mut live: Vec<&FieldHistogram> = Vec::new();
    let mut i: usize = 0;
    assert(part_views(live@) =~= filled_parts(views.take(0)));
    while i < parts.len()
        invariant
            i <= parts@.len(),
            views == part_views(parts@),
            part_views(live@) == filled_parts(views.take(i as int)),
            forall|j: int|
                0 <= j < live@.len() ==> exists|i: int|
                    0 <= i < parts@.len() && #[trigger] parts@[i] == #[trigger] live@[j],
        decreases parts@.len() - i,
    {
        let ghost before = live@;
        assert(views.take(i + 1).drop_last() =~= views.take(i as int));
        assert(views.take(i + 1).last() == parts@[i as int]@);
        if parts[i].tiles.len() > 0 {
            live.push(parts[i]);
            assert(part_views(live@) =~= part_views(before).push(views[i as int]));
        }
        i += 1;
    }
    assert(views.take(i as int) =~= views);
    live
}

fn total_count(parts: &Vec<&FieldHistogram>) -> (n: usize)
    requires
        count_of(part_views(parts@)) <= usize::MAX,
    ensures
        n == count_of(part_views(parts@)),
{
    let mut n: usize = 0;
    let mut i: usize = 0;
    while i < parts.len()
        invariant
            i <= parts@.len(),
            n == count_of(part_views(parts@).take(i as int)),
            count_of(part_views(parts@)) <= usize::MAX,
        decreases parts@.len() - i,
    {
        proof {
            let views = part_views(parts@);
            assert(views.take(i + 1).drop_last() =~= views.take(i as int));
            lemma_count_grows(views, i + 1);
        }
        n = n + parts[i].count;
        i += 1;
    }
    assert(part_views(parts@).take(i as int) =~= part_views(parts@));
    n
}

proof fn lemma_count_grows(parts: Seq<HistogramView>, i: int)
    requires
        0 <= i <= parts.len(),
    ensures
        0 <= count_of(parts.take(i)) <= count_of(parts),
    decreases parts.len(),
{
    if i == parts.len() {
        assert(parts.take(i) =~= parts);
        if i > 0 {
            lemma_count_grows(parts.drop_last(), i - 1);
        }
    } else {
        assert(parts.drop_last().take(i) =~= parts.take(i));
        lemma_count_grows(parts.drop_last(), i);
    }
}

/// The histogram of a chunk, made by merging those of its partitions. Between two bounds lie about
/// as many values as between any other two.
pub fn build_histogram(parts: &Vec<&FieldHistogram>) -> (target: Vec<HistogramKey>)
    requires
        count_of(part_views(parts@)) <= usize::MAX,
        forall|i: int|
            0 <= i < parts@.len() ==> target_width(part_views(parts@)) + (#[trigger] parts@[i]).depth <= usize::MAX,
    ensures
        hist_views(target@) == chunk_bounds(part_views(parts@)),
{
    let live = live_parts(parts);
    let ghost runs = runs_of(part_views(live@));
    let ghost keys = merged(runs);
    let ghost depths = depths_of(part_views(live@));
    let ghost wide = target_width(part_views(parts@));
    let width: usize = total_count(parts) / HISTOGRAM_TARGET_BUCKETS;
    let mut next: Vec<usize> = Vec::new();
    while next.len() < live.len()
        invariant
            next@.len() <= live@.len(),
            forall|i: int| 0 <= i < next@.len() ==> #[trigger] next@[i] == 0,
        decreases live@.len() - next@.len(),
    {
        next.push(0);
    }
    let mut target: Vec<HistogramKey> = Vec::new();
    let mut filled: usize = width;
    let mut last_key: HistogramKey = [0u8, 0u8, 0u8, 0u8, 0u8, 0u8, 0u8, 0u8];
    let ghost mut n: nat = 0;
    proof {
        assert(at_of(next@) =~= merge_steps(runs, 0).next);
        assert(last_key@ =~= Seq::new(8, |i: int| 0u8));
    }
    let mut i: usize = 0;
    while i < HISTOGRAM_TARGET_BOUNDS
        invariant
            i <= 101,
            target@.len() == i,
            forall|k: int|
                0 <= k < i ==> (#[trigger] target@[k])@ == bound_key(
                    keys,
                    bound_at(keys, depths, wide, k as nat),
                ),
            runs == runs_of(part_views(live@)),
            part_views(live@) == filled_parts(part_views(parts@)),
            keys == merged(runs),
            depths == depths_of(part_views(live@)),
            wide == target_width(part_views(parts@)),
            width == wide,
            next@.len() == live@.len(),
            at_of(next@) == merge_steps(runs, n).next,
            merge_steps(runs, n).out.len() == n,
            n <= keys.len(),
            last_key@ == if n == 0 {
                Seq::new(8, |i: int| 0u8)
            } else {
                keys[n - 1].0
            },
            filled <= width,
            i == 0 ==> n == 0 && filled == width,
            i > 0 ==> filled == 0 && (n == bound_at(keys, depths, wide, (i - 1) as nat) + 1 || (n
                == keys.len() && n <= bound_at(keys, depths, wide, (i - 1) as nat))),
            forall|k: int|
                0 <= k < live@.len() ==> target_width(part_views(parts@)) + (#[trigger] live@[k]).depth
                    <= usize::MAX,
        decreases 101 - i,
    {
        let ghost want = bound_at(keys, depths, wide, i as nat);
        proof {
            lemma_next_key(runs, n);
        }
        loop
            invariant_except_break
                want == bound_pos(keys, depths, wide, n as int, filled as int),
            invariant
                runs == runs_of(part_views(live@)),
                keys == merged(runs),
                depths == depths_of(part_views(live@)),
                wide == target_width(part_views(parts@)),
                width == wide,
                next@.len() == live@.len(),
                at_of(next@) == merge_steps(runs, n).next,
                merge_steps(runs, n).out.len() == n,
                n <= keys.len(),
                last_key@ == if n == 0 {
                    Seq::new(8, |i: int| 0u8)
                } else {
                    keys[n - 1].0
                },
                forall|k: int|
                    0 <= k < live@.len() ==> target_width(part_views(parts@)) + (#[trigger] live@[k]).depth
                        <= usize::MAX,
            ensures
                last_key@ == bound_key(keys, want),
                n == want + 1 || (n == keys.len() && want == keys.len()),
            decreases keys.len() - n + 1,
        {
            proof {
                lemma_next_key(runs, n);
                lemma_merge_ok(runs, n);
                assert(at_of(next@) =~= Seq::new(live@.len(), |i: int| next@[i] as int));
            }
            match least_run(&live, &next) {
                Some(p) => {
                    let at: usize = next[p];
                    let tiles: &Vec<HistogramKey> = &live[p].tiles;
                    proof {
                        assert(runs[p as int] == hist_views(tiles@));
                        assert(at_of(next@)[p as int] == at);
                        lemma_step(runs, n, p as int);
                        assert(tiles.len() == tiles@.len());
                    }
                    last_key = tiles[at];
                    let ghost was = next@;
                    next.set(p, at + 1);
                    proof {
                        assert(at_of(next@) =~= at_of(was).update(p as int, at + 1));
                        n = n + 1;
                        lemma_next_key(runs, n);
                        assert(keys[n - 1] == (last_key@, p as int));
                    }
                    if filled >= width {
                        break;
                    }
                    assert(depths[p as int] == live@[p as int].depth);
                    filled = filled + live[p].depth;
                },
                None => {
                    break;
                },
            }
        }
        target.push(last_key);
        filled = 0;
        i += 1;
    }
    assert(hist_views(target@) =~= chunk_bounds(part_views(parts@)));
    target
}

pub open spec fn at_of(next: Seq<usize>) -> Seq<int> {
    Seq::new(next.len(), |i: int| next[i] as int)
}

proof fn lemma_filled_ascend(parts: Seq<HistogramView>)
    requires
        runs_ascend(runs_of(parts)),
    ensures
        runs_ascend(runs_of(filled_parts(parts))),
    decreases parts.len(),
{
    if parts.len() > 0 {
        let rest = parts.drop_last();
        assert forall|p: int| 0 <= p < runs_of(rest).len() implies not_descending(
            #[trigger] runs_of(rest)[p],
        ) by {
            assert(runs_of(rest)[p] == runs_of(parts)[p]);
        }
        lemma_filled_ascend(rest);
        assert(not_descending(runs_of(parts)[parts.len() - 1]));
        let filled = filled_parts(parts);
        assert forall|p: int| 0 <= p < runs_of(filled).len() implies not_descending(
            #[trigger] runs_of(filled)[p],
        ) by {
            if p < filled_parts(rest).len() {
                assert(runs_of(filled)[p] == runs_of(filled_parts(rest))[p]);
            }
        }
    }
}

proof fn lemma_bound_pos(
    keys: Seq<(Seq<u8>, int)>,
    depths: Seq<nat>,
    width: int,
    pos: int,
    filled: int,
)
    requires
        0 <= pos,
    ensures
        0 <= bound_pos(keys, depths, width, pos, filled) <= keys.len(),
        pos <= bound_pos(keys, depths, width, pos, filled) || bound_pos(
            keys,
            depths,
            width,
            pos,
            filled,
        ) == keys.len(),
    decreases keys.len() - pos,
{
    if pos < keys.len() && filled < width {
        lemma_bound_pos(keys, depths, width, pos + 1, filled + depths[keys[pos].1]);
    }
}

proof fn lemma_bound_at(
    keys: Seq<(Seq<u8>, int)>,
    depths: Seq<nat>,
    width: int,
    i: nat,
    j: nat,
)
    requires
        i <= j,
    ensures
        0 <= bound_at(keys, depths, width, i) <= bound_at(keys, depths, width, j) <= keys.len(),
    decreases j,
{
    if i == j {
        if i == 0 {
            lemma_bound_pos(keys, depths, width, 0, width);
        } else {
            lemma_bound_at(keys, depths, width, (i - 1) as nat, (i - 1) as nat);
            lemma_bound_pos(
                keys,
                depths,
                width,
                bound_at(keys, depths, width, (i - 1) as nat) + 1,
                0,
            );
        }
    } else {
        lemma_bound_at(keys, depths, width, i, (j - 1) as nat);
        lemma_bound_pos(
            keys,
            depths,
            width,
            bound_at(keys, depths, width, (j - 1) as nat) + 1,
            0,
        );
    }
}

/// The bounds of a chunk's histogram do not descend, as those of its partitions do not.
pub proof fn lemma_chunk_bounds_ascend(parts: Seq<HistogramView>)
    requires
        runs_ascend(runs_of(parts)),
    ensures
        not_descending(chunk_bounds(parts)),
        chunk_bounds(parts).len() == 101,
{
    broadcast use group_key_order;

    let runs = runs_of(filled_parts(parts));
    let keys = merged(runs);
    let depths = depths_of(filled_parts(parts));
    let width = target_width(parts);
    lemma_filled_ascend(parts);
    lemma_merged_ascends(runs);
    let bounds = chunk_bounds(parts);
    assert forall|i: int, j: int| 0 <= i < j < bounds.len() implies key_le(
        #[trigger] bounds[i],
        #[trigger] bounds[j],
    ) by {
        lemma_bound_at(keys, depths, width, i as nat, j as nat);
        let a = bound_at(keys, depths, width, i as nat);
        let b = bound_at(keys, depths, width, j as nat);
        if keys.len() > 0 {
            let a0 = if a < keys.len() { a } else { keys.len() - 1 };
            let b0 = if b < keys.len() { b } else { keys.len() - 1 };
            assert(bounds[i] == keys[a0].0);
            assert(bounds[j] == keys[b0].0);
            if a0 < b0 {
                assert(key_le(keys[a0].0, keys[b0].0));
            }
        }
    }
}

/// The partitions that hold a key, from left to right, by their numbers.
pub open spec fn origins(parts: Seq<HistogramView>, origin: Seq<int>) -> bool {
    &&& forall|j: int|
        0 <= j < origin.len() ==> 0 <= #[trigger] origin[j] < parts.len()
            && parts[origin[j]].tiles.len() > 0
    &&& forall|j: int, k: int| 0 <= j < k < origin.len() ==> #[trigger] origin[j] < #[trigger] origin[k]
    &&& forall|i: int|
        0 <= i < parts.len() && (#[trigger] parts[i]).tiles.len() > 0 ==> origin.contains(i)
}

proof fn lemma_origins(parts: Seq<HistogramView>) -> (origin: Seq<int>)
    ensures
        origins(parts, origin),
        origin.len() == filled_parts(parts).len(),
        forall|j: int| 0 <= j < origin.len() ==> filled_parts(parts)[j] == parts[#[trigger] origin[j]],
    decreases parts.len(),
{
    if parts.len() == 0 {
        Seq::empty()
    } else {
        let front = parts.drop_last();
        let last = parts.len() - 1;
        let before = lemma_origins(front);
        let origin = if parts[last].tiles.len() > 0 {
            before.push(last)
        } else {
            before
        };
        assert forall|j: int| 0 <= j < origin.len() implies 0 <= #[trigger] origin[j] < parts.len()
            && parts[origin[j]].tiles.len() > 0 && filled_parts(parts)[j] == parts[origin[j]] by {
            if j < before.len() {
                assert(origin[j] == before[j]);
                assert(front[before[j]] == parts[before[j]]);
            }
        }
        assert forall|j: int, k: int| 0 <= j < k < origin.len() implies #[trigger] origin[j]
            < #[trigger] origin[k] by {
            assert(origin[j] == before[j]);
            if k < before.len() {
                assert(before[j] < before[k]);
            }
        }
        assert forall|i: int| 0 <= i < parts.len() && (#[trigger] parts[i]).tiles.len() > 0 implies origin.contains(
            i,
        ) by {
            if i < last {
                assert(front[i].tiles.len() > 0);
                assert(before.contains(i));
                let j = choose|j: int| 0 <= j < before.len() && before[j] == i;
                assert(origin[j] == i);
            } else {
                assert(origin[origin.len() - 1] == i);
            }
        }
        origin
    }
}

/// How many values the tiles from `a` up to `b` stand for, each for as many as a bucket of its own
/// partition holds.
pub open spec fn values_between(
    parts: Seq<HistogramView>,
    origin: Seq<int>,
    tiles: Seq<(Seq<u8>, int)>,
    a: int,
    b: int,
) -> int {
    sum(Seq::new((b - a) as nat, |x: int| parts[origin[tiles[a + x].1]].depth as int))
}

/// The tiles of the partitions that are numbered so, the least first, each with where its partition
/// stands among them.
pub open spec fn tiles_by_key(parts: Seq<HistogramView>, origin: Seq<int>) -> Seq<(Seq<u8>, int)> {
    merged(Seq::new(origin.len(), |j: int| parts[origin[j]].tiles))
}

proof fn lemma_values_step(
    parts: Seq<HistogramView>,
    origin: Seq<int>,
    tiles: Seq<(Seq<u8>, int)>,
    a: int,
    b: int,
)
    requires
        a <= b,
    ensures
        values_between(parts, origin, tiles, a, a) == 0,
        values_between(parts, origin, tiles, a, b + 1) == values_between(parts, origin, tiles, a, b)
            + parts[origin[tiles[b].1]].depth,
{
    let more = Seq::new((b + 1 - a) as nat, |x: int| parts[origin[tiles[a + x].1]].depth as int);
    let less = Seq::new((b - a) as nat, |x: int| parts[origin[tiles[a + x].1]].depth as int);
    assert(more.drop_last() =~= less);
}

/// Where the next bound stands, and how many values are passed on the way.
proof fn lemma_bound_passes(
    parts: Seq<HistogramView>,
    origin: Seq<int>,
    tiles: Seq<(Seq<u8>, int)>,
    depths: Seq<nat>,
    width: int,
    from: int,
    pos: int,
    filled: int,
)
    requires
        0 <= from <= pos,
        depths.len() == origin.len(),
        forall|j: int| 0 <= j < origin.len() ==> depths[j] == parts[#[trigger] origin[j]].depth,
        forall|x: int| 0 <= x < tiles.len() ==> 0 <= (#[trigger] tiles[x]).1 < origin.len(),
        filled == values_between(parts, origin, tiles, from, pos),
        forall|c: int| from <= c < pos ==> #[trigger] values_between(parts, origin, tiles, from, c) < width,
    ensures
        ({
            let b = bound_pos(tiles, depths, width, pos, filled);
            &&& pos < tiles.len() ==> pos <= b
            &&& b <= tiles.len()
            &&& b < tiles.len() ==> values_between(parts, origin, tiles, from, b) >= width
            &&& forall|c: int|
                from <= c < b && c < tiles.len() ==> #[trigger] values_between(
                    parts,
                    origin,
                    tiles,
                    from,
                    c,
                ) < width
        }),
    decreases tiles.len() - pos,
{
    if pos < tiles.len() && filled < width {
        lemma_values_step(parts, origin, tiles, from, pos);
        assert(0 <= tiles[pos].1 < origin.len());
        assert(depths[tiles[pos].1] == parts[origin[tiles[pos].1]].depth);
        lemma_bound_passes(
            parts,
            origin,
            tiles,
            depths,
            width,
            from,
            pos + 1,
            filled + depths[tiles[pos].1],
        );
    }
}

proof fn lemma_count_is_sum(parts: Seq<HistogramView>)
    ensures
        count_of(parts) == sum(Seq::new(parts.len(), |i: int| parts[i].count as int)),
    decreases parts.len(),
{
    let counts = Seq::new(parts.len(), |i: int| parts[i].count as int);
    if parts.len() > 0 {
        let front = parts.drop_last();
        lemma_count_is_sum(front);
        assert(counts.drop_last() =~= Seq::new(front.len(), |i: int| front[i].count as int));
    }
}

/// The bounds of a chunk's histogram stand at equal depths. They are tiles of the partitions, taken
/// in the order of their keys: the first one is the least tile, and from one bound to the next the
/// tiles in between stand for as many values as a hundredth of all values, and would not without the
/// last of them; each tile stands for as many values as a bucket of its own partition holds. Where
/// the tiles end before, the bound is the greatest tile.
pub proof fn lemma_bounds_at_equal_depths(parts: Seq<HistogramView>) -> (r: (Seq<int>, Seq<int>))
    ensures
        ({
            let (origin, at) = r;
            let tiles = tiles_by_key(parts, origin);
            let bounds = chunk_bounds(parts);
            let all = sum(Seq::new(parts.len(), |i: int| parts[i].count as int));
            let width = all / 100;
            &&& origins(parts, origin)
            &&& bounds.len() == 101 && at.len() == 101
            &&& tiles.len() == 0 ==> forall|k: int|
                0 <= k < 101 ==> #[trigger] bounds[k] == Seq::new(8, |i: int| 0u8)
            &&& tiles.len() > 0 ==> {
                &&& at[0] == 0
                &&& forall|k: int|
                    0 <= k < 101 ==> {
                        &&& 0 <= #[trigger] at[k] <= tiles.len()
                        &&& at[k] < tiles.len() ==> bounds[k] == tiles[at[k]].0
                        &&& at[k] == tiles.len() ==> bounds[k] == tiles.last().0
                    }
                &&& forall|k: int|
                    1 <= k < 101 ==> {
                        let from = at[k - 1] + 1;
                        let to = #[trigger] at[k];
                        &&& from <= to || to == tiles.len()
                        &&& to < tiles.len() ==> values_between(parts, origin, tiles, from, to)
                            >= width
                        &&& forall|c: int|
                            from <= c < to ==> #[trigger] values_between(
                                parts,
                                origin,
                                tiles,
                                from,
                                c,
                            ) < width
                    }
            }
        }),
{
    let origin = lemma_origins(parts);
    let filled = filled_parts(parts);
    let depths = depths_of(filled);
    let width = target_width(parts);
    let runs = Seq::new(origin.len(), |j: int| parts[origin[j]].tiles);
    assert(runs =~= runs_of(filled)) by {
        assert forall|j: int| 0 <= j < runs.len() implies runs[j] == runs_of(filled)[j] by {
            assert(filled[j] == parts[origin[j]]);
        }
    }
    let tiles = tiles_by_key(parts, origin);
    let at = Seq::new(101, |k: int| bound_at(tiles, depths, width, k as nat));
    let bounds = chunk_bounds(parts);
    lemma_count_is_sum(parts);
    assert forall|j: int| 0 <= j < origin.len() implies depths[j] == parts[#[trigger] origin[j]].depth by {
        assert(filled[j] == parts[origin[j]]);
    }
    lemma_merge_ok(runs, crate::index::merging::total(runs));
    assert forall|k: int| 0 <= k < 101 implies {
        &&& 0 <= #[trigger] at[k] <= tiles.len()
        &&& bounds[k] == bound_key(tiles, at[k])
    } by {
        lemma_bound_at(tiles, depths, width, k as nat, k as nat);
    }
    assert forall|k: int| 1 <= k < 101 implies {
        let from = at[k - 1] + 1;
        let to = #[trigger] at[k];
        &&& from <= to || to == tiles.len()
        &&& to < tiles.len() ==> values_between(parts, origin, tiles, from, to) >= width
        &&& forall|c: int|
            from <= c < to ==> #[trigger] values_between(parts, origin, tiles, from, c) < width
    } by {
        let from = at[k - 1] + 1;
        lemma_bound_at(tiles, depths, width, (k - 1) as nat, (k - 1) as nat);
        lemma_values_step(parts, origin, tiles, from, from);
        assert(at[k - 1] == bound_at(tiles, depths, width, (k - 1) as nat));
        lemma_bound_passes(parts, origin, tiles, depths, width, from, from, 0);
        lemma_bound_pos(tiles, depths, width, from, 0);
        assert(at[k] == bound_pos(tiles, depths, width, from, 0));
    }
    (origin, at)
}

/// Each tile of a partition comes up among the tiles of all partitions, as often as it stands in the
/// partitions, and they come up in the order of their keys.
pub proof fn lemma_tiles_come_up(parts: Seq<HistogramView>, origin: Seq<int>)
    requires
        origins(parts, origin),
        forall|i: int| 0 <= i < parts.len() ==> not_descending(#[trigger] parts[i].tiles),
    ensures
        not_descending(keys_out(tiles_by_key(parts, origin))),
        keys_out(tiles_by_key(parts, origin)).to_multiset() == gathered(
            Seq::new(origin.len(), |j: int| parts[origin[j]].tiles),
        ),
{
    let runs = Seq::new(origin.len(), |j: int| parts[origin[j]].tiles);
    lemma_merged_gathers(runs);
    assert forall|p: int| 0 <= p < runs.len() implies not_descending(#[trigger] runs[p]) by {
        assert(0 <= origin[p] < parts.len());
        assert(runs[p] == parts[origin[p]].tiles);
    }
    lemma_merged_ascends(runs);
    let keys = keys_out(merged(runs));
    assert forall|i: int, j: int| 0 <= i < j < keys.len() implies key_le(
        #[trigger] keys[i],
        #[trigger] keys[j],
    ) by {
        assert(key_le(merged(runs)[i].0, merged(runs)[j].0));
    }
}

} // verus!
