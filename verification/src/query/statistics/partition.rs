//! The statistics of a chunk from the readings of its cells, partition by partition.
use super::chunk::{
    all_parts, field_parts, has_field, is_part, known, known_field, mergeable, part_bytes, part_maps,
    part_segs, partition_statistics, summable, summarize, ChunkStatistics, SchemaPart,
};
use super::histogram::{
    hist_views, histogram_of, lemma_tiles_span, HistogramView, HISTOGRAM_PARTITATION_SIZE,
};
use super::merge::{chunk_bounds, count_of, lemma_chunk_bounds_ascend, runs_of, target_width};
use super::tally::{
    bytes_of, has_schema, keys_of, lemma_counted_apart, lemma_nothing_counted, lemma_segs_few,
    segs_of, sound, CellReading,
};
use crate::index::key::not_descending;
use std::collections::HashMap;
use vstd::prelude::*;

verus! {

/// How many partitions `n` cells make.
pub open spec fn part_count(n: nat) -> nat {
    (n + 1023) / 1024
}

/// Where the partition number `p` starts, and the one before it ends.
pub open spec fn part_start(n: nat, p: int) -> int {
    if p * 1024 < n {
        p * 1024
    } else {
        n as int
    }
}

/// The cells of the partition number `p`.
pub open spec fn part(cells: Seq<CellReading>, p: int) -> Seq<CellReading> {
    cells.subrange(part_start(cells.len(), p), part_start(cells.len(), p + 1))
}

/// The numbers of the schema's segments in the first `n` partitions.
pub open spec fn segs_upto(cells: Seq<CellReading>, schema: u32, n: nat) -> int
    decreases n,
{
    if n == 0 {
        0
    } else {
        segs_upto(cells, schema, (n - 1) as nat) + segs_of(part(cells, n - 1), schema).len()
    }
}

/// The histograms of a field, one of each partition.
pub open spec fn histograms_of(cells: Seq<CellReading>, schema: u32, field: u64) -> Seq<
    HistogramView,
> {
    Seq::new(
        part_count(cells.len()),
        |p: int| histogram_of(keys_of(part(cells, p), schema, field)),
    )
}

/// Each partition has a value of each field that one has.
pub open spec fn fields_everywhere(cells: Seq<CellReading>) -> bool {
    forall|s: u32, f: u64, p: int|
        (#[trigger] keys_of(part(cells, p), s, f)).len() == 0 && 0 <= p < part_count(cells.len())
            ==> keys_of(cells, s, f).len() == 0
}

/// The first partitions together.
proof fn lemma_parts_join(cells: Seq<CellReading>, p: int)
    requires
        0 <= p < part_count(cells.len()),
    ensures
        0 <= part_start(cells.len(), p) < part_start(cells.len(), p + 1) <= cells.len(),
        cells.take(part_start(cells.len(), p + 1)) == cells.take(part_start(cells.len(), p)) + part(
            cells,
            p,
        ),
{
    let a = part_start(cells.len(), p);
    let b = part_start(cells.len(), p + 1);
    assert(cells.take(b) =~= cells.take(a) + cells.subrange(a, b));
}

/// What is counted of the first partitions is a part of what is counted of all.
proof fn lemma_prefix_counted(cells: Seq<CellReading>, n: int, schema: u32)
    requires
        0 <= n <= cells.len(),
    ensures
        bytes_of(cells.take(n), schema) <= bytes_of(cells, schema),
        forall|f: u64|
            (#[trigger] keys_of(cells.take(n), schema, f)).len() <= keys_of(cells, schema, f).len(),
        has_schema(cells.take(n), schema) ==> has_schema(cells, schema),
{
    lemma_counted_apart(cells.take(n), cells.skip(n), schema);
    assert(cells.take(n) + cells.skip(n) =~= cells);
    assert forall|f: u64| (#[trigger] keys_of(cells.take(n), schema, f)).len() <= keys_of(
        cells,
        schema,
        f,
    ).len() by {
        assert(keys_of(cells.take(n) + cells.skip(n), schema, f) == keys_of(
            cells.take(n),
            schema,
            f,
        ) + keys_of(cells.skip(n), schema, f));
    }
}

/// What is counted of a partition is a part of what is counted of all.
proof fn lemma_part_counted(cells: Seq<CellReading>, p: int, schema: u32)
    requires
        0 <= p < part_count(cells.len()),
    ensures
        bytes_of(part(cells, p), schema) <= bytes_of(cells, schema),
        forall|f: u64|
            (#[trigger] keys_of(part(cells, p), schema, f)).len() <= keys_of(cells, schema, f).len(),
        has_schema(part(cells, p), schema) ==> has_schema(cells, schema),
{
    let a = part_start(cells.len(), p);
    let b = part_start(cells.len(), p + 1);
    lemma_parts_join(cells, p);
    lemma_counted_apart(cells.take(a), part(cells, p), schema);
    lemma_counted_apart(Seq::empty(), cells.take(a), schema);
    assert(Seq::empty() + cells.take(a) =~= cells.take(a));
    lemma_prefix_counted(cells, b, schema);
    assert forall|f: u64| (#[trigger] keys_of(part(cells, p), schema, f)).len() <= keys_of(
        cells,
        schema,
        f,
    ).len() by {
        assert(keys_of(cells.take(a) + part(cells, p), schema, f) == keys_of(
            cells.take(a),
            schema,
            f,
        ) + keys_of(part(cells, p), schema, f));
        assert(keys_of(cells.take(b), schema, f).len() <= keys_of(cells, schema, f).len());
    }
}

/// The maps hold what the partitions tell.
pub open spec fn parts_hold(maps: Seq<Map<u32, SchemaPart>>, cells: Seq<CellReading>) -> bool {
    &&& maps.len() == part_count(cells.len())
    &&& forall|p: int| 0 <= p < maps.len() ==> all_parts(#[trigger] maps[p], part(cells, p))
}

/// A map holds what its partition tells of a schema.
proof fn lemma_part_holds(
    maps: Seq<Map<u32, SchemaPart>>,
    cells: Seq<CellReading>,
    p: int,
    schema: u32,
    field: u64,
)
    requires
        parts_hold(maps, cells),
        0 <= p < maps.len(),
    ensures
        maps[p].contains_key(schema) <==> has_schema(part(cells, p), schema),
        maps[p].contains_key(schema) ==> maps[p][schema].bytes == bytes_of(part(cells, p), schema)
            && maps[p][schema].segs == segs_of(part(cells, p), schema).len(),
        !maps[p].contains_key(schema) ==> bytes_of(part(cells, p), schema) == 0 && segs_of(
            part(cells, p),
            schema,
        ).len() == 0,
        has_field(maps[p], schema, field) <==> keys_of(part(cells, p), schema, field).len() > 0,
        has_field(maps[p], schema, field) ==> maps[p][schema].histograms@[field]@ == histogram_of(
            keys_of(part(cells, p), schema, field),
        ),
{
    let mine = part(cells, p);
    assert(all_parts(maps[p], mine));
    assert(maps[p].contains_key(schema) <==> has_schema(mine, schema));
    if maps[p].contains_key(schema) {
        let keys = |f: u64| keys_of(mine, schema, f);
        assert(is_part(maps[p][schema], mine, schema));
        assert(maps[p][schema].histograms@.contains_key(field) <==> keys(field).len() > 0);
    } else {
        lemma_nothing_counted(mine, schema);
        assert(keys_of(mine, schema, field).len() == 0);
    }
}

/// What the first `n` partitions tell of sizes and segments.
proof fn lemma_sums(
    maps: Seq<Map<u32, SchemaPart>>,
    cells: Seq<CellReading>,
    schema: u32,
    n: nat,
)
    requires
        parts_hold(maps, cells),
        n <= maps.len(),
    ensures
        part_bytes(maps, schema, n) == bytes_of(cells.take(part_start(cells.len(), n as int)), schema),
        part_segs(maps, schema, n) == segs_upto(cells, schema, n),
        segs_upto(cells, schema, n) <= part_start(cells.len(), n as int),
    decreases n,
{
    if n == 0 {
        assert(cells.take(0) =~= Seq::empty());
    } else {
        let p = n - 1;
        lemma_sums(maps, cells, schema, p as nat);
        lemma_part_holds(maps, cells, p, schema, 0);
        lemma_parts_join(cells, p);
        lemma_counted_apart(cells.take(part_start(cells.len(), p)), part(cells, p), schema);
        lemma_segs_few(part(cells, p), schema);
    }
}

/// The histograms of the first `n` partitions count the keys in them.
proof fn lemma_counts(cells: Seq<CellReading>, schema: u32, field: u64, n: nat)
    requires
        n <= part_count(cells.len()),
    ensures
        count_of(histograms_of(cells, schema, field).take(n as int)) == keys_of(
            cells.take(part_start(cells.len(), n as int)),
            schema,
            field,
        ).len(),
    decreases n,
{
    let all = histograms_of(cells, schema, field);
    if n == 0 {
        assert(cells.take(0) =~= Seq::empty());
    } else {
        let p = n - 1;
        lemma_counts(cells, schema, field, p as nat);
        lemma_parts_join(cells, p);
        let a = cells.take(part_start(cells.len(), p));
        lemma_counted_apart(a, part(cells, p), schema);
        assert(keys_of(a + part(cells, p), schema, field) == keys_of(a, schema, field) + keys_of(
            part(cells, p),
            schema,
            field,
        ));
        assert(all.take(n as int).drop_last() =~= all.take(p));
        assert(all.take(n as int).last() == all[p]);
    }
}

/// The last partition ends with the last cell.
proof fn lemma_last_part(n: nat)
    ensures
        part_start(n, part_count(n) as int) == n,
{
}

/// A field that one partition knows is known to all of them, and its histograms can be merged.
proof fn lemma_field_summable(
    maps: Seq<Map<u32, SchemaPart>>,
    cells: Seq<CellReading>,
    schema: u32,
    field: u64,
)
    requires
        parts_hold(maps, cells),
        fields_everywhere(cells),
        keys_of(cells, schema, field).len() <= usize::MAX,
    ensures
        known_field(maps, maps.len() as int, schema, field) <==> keys_of(cells, schema, field).len()
            > 0,
        known_field(maps, maps.len() as int, schema, field) ==> (forall|p: int|
            0 <= p < maps.len() ==> has_field(#[trigger] maps[p], schema, field)),
        known_field(maps, maps.len() as int, schema, field) ==> field_parts(maps, schema, field)
            == histograms_of(cells, schema, field),
        mergeable(histograms_of(cells, schema, field)),
{
    let n = maps.len();
    let all = histograms_of(cells, schema, field);
    if known_field(maps, n as int, schema, field) {
        let p = choose|p: int| 0 <= p < n && has_field(#[trigger] maps[p], schema, field);
        lemma_part_holds(maps, cells, p, schema, field);
        lemma_part_counted(cells, p, schema);
        assert(keys_of(part(cells, p), schema, field).len() > 0);
    }
    if keys_of(cells, schema, field).len() > 0 {
        assert forall|p: int| 0 <= p < n implies has_field(#[trigger] maps[p], schema, field) by {
            lemma_part_holds(maps, cells, p, schema, field);
            assert(keys_of(part(cells, p), schema, field).len() > 0);
        }
        if cells.len() == 0 {
            assert(keys_of(cells, schema, field) =~= Seq::empty());
        }
        assert(has_field(maps[0], schema, field));
        assert forall|p: int| 0 <= p < n implies field_parts(maps, schema, field)[p] == all[p] by {
            assert(has_field(maps[p], schema, field));
            lemma_part_holds(maps, cells, p, schema, field);
        }
        assert(field_parts(maps, schema, field) =~= all);
    }
    lemma_counts(cells, schema, field, n);
    lemma_last_part(cells.len());
    assert(cells.take(cells.len() as int) =~= cells);
    assert(all.take(n as int) =~= all);
    assert forall|p: int| 0 <= p < all.len() implies target_width(all) + (#[trigger] all[p]).depth
        <= usize::MAX by {
        lemma_part_counted(cells, p, schema);
        assert(keys_of(part(cells, p), schema, field).len() <= keys_of(cells, schema, field).len());
    }
}

/// A schema has cells when one of the first `n` partitions has some.
proof fn lemma_known_upto(
    maps: Seq<Map<u32, SchemaPart>>,
    cells: Seq<CellReading>,
    schema: u32,
    n: nat,
)
    requires
        parts_hold(maps, cells),
        n <= maps.len(),
    ensures
        known(maps, n as int, schema) <==> has_schema(
            cells.take(part_start(cells.len(), n as int)),
            schema,
        ),
    decreases n,
{
    if n == 0 {
        assert(cells.take(0) =~= Seq::empty());
    } else {
        let p = n - 1;
        lemma_known_upto(maps, cells, schema, p as nat);
        lemma_parts_join(cells, p);
        lemma_counted_apart(cells.take(part_start(cells.len(), p)), part(cells, p), schema);
        lemma_part_holds(maps, cells, p, schema, 0);
        if known(maps, n as int, schema) && !maps[p].contains_key(schema) {
            let q = choose|q: int| 0 <= q < n && (#[trigger] maps[q]).contains_key(schema);
            assert(0 <= q < p && maps[q].contains_key(schema));
        }
        if known(maps, p, schema) {
            let q = choose|q: int| 0 <= q < p && (#[trigger] maps[q]).contains_key(schema);
            assert(0 <= q < n && maps[q].contains_key(schema));
        }
    }
}

impl ChunkStatistics {
    /// The statistics of a chunk whose cells gave these readings. The cells are counted partition by
    /// partition, and what the partitions tell of a schema is summed up.
    pub fn from_chunk(cells: &Vec<CellReading>) -> (out: ChunkStatistics)
        requires
            forall|i: int| 0 <= i < cells@.len() ==> sound(#[trigger] cells@[i]),
            forall|s: u32| #[trigger] bytes_of(cells@, s) <= usize::MAX,
            forall|s: u32, f: u64| (#[trigger] keys_of(cells@, s, f)).len() <= usize::MAX,
            fields_everywhere(cells@),
        ensures
            forall|s: u32| #[trigger] out.schemas@.contains_key(s) <==> has_schema(cells@, s),
            forall|s: u32| #[trigger]
                out.schemas@.contains_key(s) ==> {
                    let st = out.schemas@[s];
                    &&& st.bytes == bytes_of(cells@, s)
                    &&& st.segs == segs_upto(cells@, s, part_count(cells@.len()))
                    &&& forall|f: u64| #[trigger]
                        st.histograms@.contains_key(f) <==> keys_of(cells@, s, f).len() > 0
                    &&& forall|f: u64| #[trigger]
                        st.histograms@.contains_key(f) ==> hist_views(st.histograms@[f]@)
                            == chunk_bounds(histograms_of(cells@, s, f))
                },
    {
        let n: usize = cells.len();
        let ghost all = cells@;
        let mut parts: Vec<HashMap<u32, SchemaPart>> = Vec::new();
        let mut from: usize = 0;
        while from < n
            invariant
                n == cells@.len(),
                all == cells@,
                forall|i: int| 0 <= i < cells@.len() ==> sound(#[trigger] cells@[i]),
                forall|s: u32| #[trigger] bytes_of(cells@, s) <= usize::MAX,
                parts@.len() <= part_count(all.len()),
                from == part_start(all.len(), parts@.len() as int),
                forall|p: int|
                    0 <= p < parts@.len() ==> all_parts((#[trigger] parts@[p])@, part(all, p)),
            decreases n - from,
        {
            let to: usize = if n - from > HISTOGRAM_PARTITATION_SIZE {
                from + HISTOGRAM_PARTITATION_SIZE
            } else {
                n
            };
            let ghost p = parts@.len() as int;
            proof {
                assert(to == part_start(all.len(), p + 1));
                assert(part(all, p) == all.subrange(from as int, to as int));
                assert forall|s: u32|
                    #[trigger] bytes_of(cells@.subrange(from as int, to as int), s) <= usize::MAX by {
                    lemma_part_counted(all, p, s);
                    assert(bytes_of(cells@, s) <= usize::MAX);
                }
            }
            let part_map = partition_statistics(cells, from, to);
            parts.push(part_map);
            from = to;
        }
        let ghost maps = part_maps(parts@);
        proof {
            assert(parts_hold(maps, all)) by {
                assert(maps.len() == part_count(all.len()));
                assert forall|p: int| 0 <= p < maps.len() implies all_parts(
                    #[trigger] maps[p],
                    part(all, p),
                ) by {
                    assert(all_parts(parts@[p]@, part(all, p)));
                }
            }
            lemma_last_part(all.len());
            assert(all.take(all.len() as int) =~= all);
            assert forall|s: u32| known(maps, parts@.len() as int, s) implies #[trigger] summable(
                maps,
                s,
            ) by {
                lemma_sums(maps, all, s, maps.len());
                assert(bytes_of(all, s) <= usize::MAX);
                assert forall|f: u64, p: int|
                    known_field(maps, maps.len() as int, s, f) && 0 <= p < maps.len() implies #[trigger] has_field(
                    maps[p],
                    s,
                    f,
                ) by {
                    assert(keys_of(cells@, s, f).len() <= usize::MAX);
                    lemma_field_summable(maps, all, s, f);
                }
                assert forall|f: u64| #[trigger] known_field(maps, maps.len() as int, s, f) implies mergeable(
                    field_parts(maps, s, f),
                ) by {
                    assert(keys_of(cells@, s, f).len() <= usize::MAX);
                    lemma_field_summable(maps, all, s, f);
                }
            }
        }
        let schemas = summarize(&parts);
        proof {
            assert forall|s: u32| #[trigger] schemas@.contains_key(s) <==> has_schema(cells@, s) by {
                lemma_known_upto(maps, all, s, maps.len());
            }
            assert forall|s: u32| #[trigger] schemas@.contains_key(s) implies {
                let st = schemas@[s];
                &&& st.bytes == bytes_of(cells@, s)
                &&& st.segs == segs_upto(cells@, s, part_count(cells@.len()))
                &&& forall|f: u64| #[trigger]
                    st.histograms@.contains_key(f) <==> keys_of(cells@, s, f).len() > 0
                &&& forall|f: u64| #[trigger]
                    st.histograms@.contains_key(f) ==> hist_views(st.histograms@[f]@)
                        == chunk_bounds(histograms_of(cells@, s, f))
            } by {
                let st = schemas@[s];
                lemma_sums(maps, all, s, maps.len());
                assert forall|f: u64| #[trigger] st.histograms@.contains_key(f) <==> keys_of(
                    cells@,
                    s,
                    f,
                ).len() > 0 by {
                    assert(keys_of(cells@, s, f).len() <= usize::MAX);
                    lemma_field_summable(maps, all, s, f);
                }
                assert forall|f: u64| #[trigger] st.histograms@.contains_key(f) implies hist_views(
                    st.histograms@[f]@,
                ) == chunk_bounds(histograms_of(cells@, s, f)) by {
                    assert(keys_of(cells@, s, f).len() <= usize::MAX);
                    lemma_field_summable(maps, all, s, f);
                }
            }
        }
        ChunkStatistics { schemas }
    }
}

/// The bounds of a field's histogram over a chunk do not descend.
pub proof fn lemma_chunk_histogram_ascends(cells: Seq<CellReading>, schema: u32, field: u64)
    requires
        fields_everywhere(cells),
        keys_of(cells, schema, field).len() > 0,
    ensures
        not_descending(chunk_bounds(histograms_of(cells, schema, field))),
        chunk_bounds(histograms_of(cells, schema, field)).len() == 101,
{
    let parts = histograms_of(cells, schema, field);
    assert forall|p: int| 0 <= p < runs_of(parts).len() implies not_descending(
        #[trigger] runs_of(parts)[p],
    ) by {
        let keys = keys_of(part(cells, p), schema, field);
        assert(keys.len() > 0);
        lemma_tiles_span(keys);
    }
    lemma_chunk_bounds_ascend(parts);
}

/// The cells are cut into partitions of 1024 one behind the other; only the last one may be shorter,
/// and it is not empty.
pub proof fn lemma_partitions(cells: Seq<CellReading>, p: int, i: int)
    requires
        0 <= p < part_count(cells.len()),
    ensures
        1024 * (part_count(cells.len()) - 1) < cells.len() <= 1024 * part_count(cells.len()),
        p + 1 < part_count(cells.len()) ==> part(cells, p).len() == 1024,
        p + 1 == part_count(cells.len()) ==> part(cells, p).len() == cells.len() - 1024 * p,
        0 <= i < part(cells, p).len() ==> part(cells, p)[i] == cells[1024 * p + i],
{
}

/// There are no partitions just if there are no cells.
pub proof fn lemma_no_partitions(n: nat)
    ensures
        part_count(n) == 0 <==> n == 0,
{
}

/// The numbers of segments of the partitions are added up; a segment that two partitions share counts
/// in both. The histograms are those of the partitions, each made of the keys of its own cells.
pub proof fn lemma_partitions_are_summed(cells: Seq<CellReading>, schema: u32, field: u64, p: int)
    requires
        0 <= p < part_count(cells.len()),
    ensures
        segs_upto(cells, schema, 0) == 0,
        segs_upto(cells, schema, (p + 1) as nat) - segs_upto(cells, schema, p as nat) == segs_of(
            part(cells, p),
            schema,
        ).len(),
        histograms_of(cells, schema, field).len() == part_count(cells.len()),
        histograms_of(cells, schema, field)[p] == histogram_of(
            keys_of(part(cells, p), schema, field),
        ),
{
}

} // verus!
