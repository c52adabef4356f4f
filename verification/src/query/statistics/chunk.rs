//! The statistics of a chunk, made of those of its partitions.
use super::histogram::{hist_views, histogram_of, FieldHistogram, HistogramKey, HistogramView};
use super::merge::{build_histogram, chunk_bounds, count_of, part_views, target_width};
use super::tally::{
    all_tallied, bytes_of, has_schema, keys_of, segs_of, sound, tallied, tally, CellReading,
    SchemaTally,
};
use std::collections::HashMap;
use vstd::prelude::*;

verus! {

/// What a partition tells of a schema: the size of its cells, the number of their segments, and the
/// histograms of their fields.
pub struct SchemaPart {
    pub bytes: usize,
    pub segs: usize,
    pub histograms: HashMap<u64, FieldHistogram>,
}

/// The map holds the histogram of each field that has keys.
pub open spec fn histograms_held(
    map: Map<u64, FieldHistogram>,
    keys: spec_fn(u64) -> Seq<Seq<u8>>,
) -> bool {
    forall|f: u64|
        #![trigger map.contains_key(f)]
        #![trigger keys(f)]
        (map.contains_key(f) <==> keys(f).len() > 0) && (map.contains_key(f) ==> map[f]@
            == histogram_of(keys(f)))
}

/// `part` is what the cells tell of the schema.
pub open spec fn is_part(part: SchemaPart, cells: Seq<CellReading>, schema: u32) -> bool {
    &&& part.bytes == bytes_of(cells, schema)
    &&& part.segs == segs_of(cells, schema).len()
    &&& histograms_held(part.histograms@, |f: u64| keys_of(cells, schema, f))
}

/// The map holds what the cells tell of each schema that has some.
pub open spec fn all_parts(map: Map<u32, SchemaPart>, cells: Seq<CellReading>) -> bool {
    forall|s: u32|
        #![trigger map.contains_key(s)]
        #![trigger has_schema(cells, s)]
        (map.contains_key(s) <==> has_schema(cells, s)) && (map.contains_key(s) ==> is_part(
            map[s],
            cells,
            s,
        ))
}

/// The histograms of the fields of a tally.
fn compile_fields(
    keys: &HashMap<u64, Vec<HistogramKey>>,
    Ghost(held): Ghost<spec_fn(u64) -> Seq<Seq<u8>>>,
) -> (out: HashMap<u64, FieldHistogram>)
    requires
        super::tally::keys_held(keys@, held),
    ensures
        histograms_held(out@, held),
{
    broadcast use vstd::std_specs::hash::group_hash_axioms;

    let mut out: HashMap<u64, FieldHistogram> = HashMap::new();
    for field in fields: keys.keys()
        invariant
            super::tally::keys_held(keys@, held),
            fields.seq().unref().to_set() == keys@.dom(),
            forall|f: u64| #[trigger]
                out@.contains_key(f) ==> keys@.contains_key(f) && out@[f]@ == histogram_of(held(f)),
            forall|j: int|
                0 <= j < fields.index() ==> out@.contains_key(#[trigger] fields.seq().unref()[j]),
            fields.index() == fields.seq().len() ==> out@.dom() == keys@.dom(),
    {
        broadcast use vstd::std_specs::hash::group_hash_axioms;

        let ghost all = fields.seq().unref();
        let ghost n = fields.index();
        assert(all[n] == *field);
        assert(all.to_set().contains(*field));
        match keys.get(field) {
            Some(items) => {
                assert(hist_views(items@) == held(*field));
                assert(held(*field).len() > 0);
                let h = FieldHistogram::compile(items);
                out.insert(*field, h);
                proof {
                    assert forall|f: u64| keys@.contains_key(f) && n + 1 == all.len() implies out@.contains_key(
                        f,
                    ) by {
                        assert(all.to_set().contains(f));
                        let j = choose|j: int| 0 <= j < all.len() && all[j] == f;
                        assert(out@.contains_key(all[j]));
                    }
                    assert(n + 1 == all.len() ==> out@.dom() =~= keys@.dom());
                }
            },
            None => {},
        }
    }
    proof {
        assert forall|f: u64|
            #![trigger out@.contains_key(f)]
            #![trigger held(f)]
            (out@.contains_key(f) <==> held(f).len() > 0) && (out@.contains_key(f) ==> out@[f]@
                == histogram_of(held(f))) by {
            assert(out@.contains_key(f) <==> keys@.contains_key(f));
        }
    }
    out
}

/// What a partition tells, made of what was counted in it.
fn compile_part(tallies: &HashMap<u32, SchemaTally>, Ghost(cells): Ghost<Seq<CellReading>>) -> (out:
    HashMap<u32, SchemaPart>)
    requires
        all_tallied(tallies@, cells),
    ensures
        all_parts(out@, cells),
{
    broadcast use vstd::std_specs::hash::group_hash_axioms;

    let mut out: HashMap<u32, SchemaPart> = HashMap::new();
    for id in ids: tallies.keys()
        invariant
            all_tallied(tallies@, cells),
            ids.seq().unref().to_set() == tallies@.dom(),
            forall|s: u32| #[trigger]
                out@.contains_key(s) ==> tallies@.contains_key(s) && is_part(out@[s], cells, s),
            forall|j: int|
                0 <= j < ids.index() ==> out@.contains_key(#[trigger] ids.seq().unref()[j]),
            ids.index() == ids.seq().len() ==> out@.dom() == tallies@.dom(),
    {
        broadcast use vstd::std_specs::hash::group_hash_axioms;

        let ghost all = ids.seq().unref();
        let ghost n = ids.index();
        assert(all[n] == *id);
        assert(all.to_set().contains(*id));
        match tallies.get(id) {
            Some(t) => {
                let ghost held = |f: u64| keys_of(cells, *id, f);
                assert(tallied(*t, cells, *id));
                let histograms = compile_fields(&t.keys, Ghost(held));
                out.insert(*id, SchemaPart { bytes: t.bytes, segs: t.segs.len(), histograms });
                proof {
                    assert forall|s: u32| tallies@.contains_key(s) && n + 1 == all.len() implies out@.contains_key(
                        s,
                    ) by {
                        assert(all.to_set().contains(s));
                        let j = choose|j: int| 0 <= j < all.len() && all[j] == s;
                        assert(out@.contains_key(all[j]));
                    }
                    assert(n + 1 == all.len() ==> out@.dom() =~= tallies@.dom());
                }
            },
            None => {},
        }
    }
    proof {
        assert forall|s: u32|
            #![trigger out@.contains_key(s)]
            #![trigger has_schema(cells, s)]
            (out@.contains_key(s) <==> has_schema(cells, s)) && (out@.contains_key(s) ==> is_part(
                out@[s],
                cells,
                s,
            )) by {
            assert(out@.contains_key(s) <==> tallies@.contains_key(s));
        }
    }
    out
}

/// What the cells from `from` up to `to` tell of their schemas.
pub fn partition_statistics(cells: &Vec<CellReading>, from: usize, to: usize) -> (out: HashMap<
    u32,
    SchemaPart,
>)
    requires
        from <= to <= cells@.len(),
        forall|i: int| from <= i < to ==> sound(#[trigger] cells@[i]),
        forall|s: u32|
            #[trigger] bytes_of(cells@.subrange(from as int, to as int), s) <= usize::MAX,
    ensures
        all_parts(out@, cells@.subrange(from as int, to as int)),
{
    let tallies = tally(cells, from, to);
    compile_part(&tallies, Ghost(cells@.subrange(from as int, to as int)))
}

/// The statistics of a schema over all partitions.
pub struct SchemaStatistics {
    pub bytes: usize,
    pub segs: usize,
    pub histograms: HashMap<u64, Vec<HistogramKey>>,
}

pub struct ChunkStatistics {
    pub schemas: HashMap<u32, SchemaStatistics>,
}

pub open spec fn part_maps(parts: Seq<HashMap<u32, SchemaPart>>) -> Seq<Map<u32, SchemaPart>> {
    Seq::new(parts.len(), |p: int| parts[p]@)
}

/// One of the first `n` partitions has the schema.
pub open spec fn known(parts: Seq<Map<u32, SchemaPart>>, n: int, schema: u32) -> bool {
    exists|p: int| 0 <= p < n && (#[trigger] parts[p]).contains_key(schema)
}

pub open spec fn has_field(part: Map<u32, SchemaPart>, schema: u32, field: u64) -> bool {
    part.contains_key(schema) && part[schema].histograms@.contains_key(field)
}

/// One of the first `n` partitions has a histogram of the field.
pub open spec fn known_field(parts: Seq<Map<u32, SchemaPart>>, n: int, schema: u32, field: u64) -> bool {
    exists|p: int| 0 <= p < n && has_field(#[trigger] parts[p], schema, field)
}

/// The sizes that the first `n` partitions tell.
pub open spec fn part_bytes(parts: Seq<Map<u32, SchemaPart>>, schema: u32, n: nat) -> int
    decreases n,
{
    if n == 0 {
        0
    } else {
        part_bytes(parts, schema, (n - 1) as nat) + if parts[n - 1].contains_key(schema) {
            parts[n - 1][schema].bytes as int
        } else {
            0
        }
    }
}

/// The numbers of segments that the first `n` partitions tell.
pub open spec fn part_segs(parts: Seq<Map<u32, SchemaPart>>, schema: u32, n: nat) -> int
    decreases n,
{
    if n == 0 {
        0
    } else {
        part_segs(parts, schema, (n - 1) as nat) + if parts[n - 1].contains_key(schema) {
            parts[n - 1][schema].segs as int
        } else {
            0
        }
    }
}

/// The histograms of a field, one of each partition.
pub open spec fn field_parts(parts: Seq<Map<u32, SchemaPart>>, schema: u32, field: u64) -> Seq<
    HistogramView,
> {
    Seq::new(parts.len(), |p: int| parts[p][schema].histograms@[field]@)
}

/// The histograms can be merged: their counts are within reach.
pub open spec fn mergeable(parts: Seq<HistogramView>) -> bool {
    &&& count_of(parts) <= usize::MAX
    &&& forall|p: int|
        0 <= p < parts.len() ==> target_width(parts) + (#[trigger] parts[p]).depth <= usize::MAX
}

/// Each partition has a histogram of each field of the schema that one has, and what the partitions
/// tell can be summed up.
pub open spec fn summable(parts: Seq<Map<u32, SchemaPart>>, schema: u32) -> bool {
    &&& part_bytes(parts, schema, parts.len()) <= usize::MAX
    &&& part_segs(parts, schema, parts.len()) <= usize::MAX
    &&& forall|f: u64, p: int|
        known_field(parts, parts.len() as int, schema, f) && 0 <= p < parts.len()
            ==> #[trigger] has_field(parts[p], schema, f)
    &&& forall|f: u64| #[trigger]
        known_field(parts, parts.len() as int, schema, f) ==> mergeable(
            field_parts(parts, schema, f),
        )
}

/// `st` sums up what the partitions tell of the schema.
pub open spec fn is_summary(
    st: SchemaStatistics,
    parts: Seq<Map<u32, SchemaPart>>,
    schema: u32,
) -> bool {
    &&& st.bytes == part_bytes(parts, schema, parts.len())
    &&& st.segs == part_segs(parts, schema, parts.len())
    &&& forall|f: u64| #[trigger]
        st.histograms@.contains_key(f) <==> known_field(parts, parts.len() as int, schema, f)
    &&& forall|f: u64| #[trigger]
        st.histograms@.contains_key(f) ==> hist_views(st.histograms@[f]@) == chunk_bounds(
            field_parts(parts, schema, f),
        )
}

proof fn lemma_sums_grow(parts: Seq<Map<u32, SchemaPart>>, schema: u32, i: nat, j: nat)
    requires
        i <= j,
    ensures
        0 <= part_bytes(parts, schema, i) <= part_bytes(parts, schema, j),
        0 <= part_segs(parts, schema, i) <= part_segs(parts, schema, j),
    decreases j,
{
    if i < j {
        lemma_sums_grow(parts, schema, i, (j - 1) as nat);
    } else if i > 0 {
        lemma_sums_grow(parts, schema, (i - 1) as nat, (i - 1) as nat);
    }
}

/// The histogram of a field over all partitions.
fn field_histogram(parts: &Vec<HashMap<u32, SchemaPart>>, schema: u32, field: u64) -> (out: Vec<
    HistogramKey,
>)
    requires
        forall|p: int|
            0 <= p < parts@.len() ==> has_field(#[trigger] part_maps(parts@)[p], schema, field),
        mergeable(field_parts(part_maps(parts@), schema, field)),
    ensures
        hist_views(out@) == chunk_bounds(field_parts(part_maps(parts@), schema, field)),
{
    broadcast use vstd::std_specs::hash::group_hash_axioms;

    let ghost maps = part_maps(parts@);
    let ghost wanted = field_parts(maps, schema, field);
    let mut runs: Vec<&FieldHistogram> = Vec::new();
    let mut p: usize = 0;
    while p < parts.len()
        invariant
            p <= parts@.len(),
            maps == part_maps(parts@),
            wanted == field_parts(maps, schema, field),
            forall|p: int|
                0 <= p < parts@.len() ==> has_field(#[trigger] part_maps(parts@)[p], schema, field),
            part_views(runs@) == wanted.take(p as int),
        decreases parts@.len() - p,
    {
        broadcast use vstd::std_specs::hash::group_hash_axioms;

        let ghost before = runs@;
        assert(has_field(part_maps(parts@)[p as int], schema, field));
        assert(maps[p as int] == parts@[p as int]@);
        match parts[p].get(&schema) {
            Some(part) => {
                match part.histograms.get(&field) {
                    Some(h) => {
                        runs.push(h);
                        proof {
                            assert(wanted[p as int] == h@);
                            assert(part_views(runs@) =~= part_views(before).push(h@));
                            assert(wanted.take(p + 1) =~= wanted.take(p as int).push(
                                wanted[p as int],
                            ));
                        }
                    },
                    None => {},
                }
            },
            None => {},
        }
        p += 1;
    }
    proof {
        assert(wanted.take(p as int) =~= wanted);
        assert(part_views(runs@) == wanted);
        assert forall|i: int| 0 <= i < runs@.len() implies target_width(part_views(runs@)) + (
        #[trigger] runs@[i]).depth <= usize::MAX by {
            assert(part_views(runs@)[i] == runs@[i]@);
            assert(target_width(wanted) + wanted[i].depth <= usize::MAX);
        }
    }
    build_histogram(&runs)
}

/// Sums up what the partitions tell of a schema.
pub fn summarize_schema(parts: &Vec<HashMap<u32, SchemaPart>>, schema: u32) -> (st: SchemaStatistics)
    requires
        summable(part_maps(parts@), schema),
    ensures
        is_summary(st, part_maps(parts@), schema),
{
    broadcast use vstd::std_specs::hash::group_hash_axioms;

    let ghost maps = part_maps(parts@);
    let ghost n = maps.len();
    let mut bytes: usize = 0;
    let mut segs: usize = 0;
    let mut histograms: HashMap<u64, Vec<HistogramKey>> = HashMap::new();
    let mut p: usize = 0;
    while p < parts.len()
        invariant
            p <= parts@.len(),
            n == parts@.len(),
            maps == part_maps(parts@),
            n == maps.len(),
            summable(maps, schema),
            bytes == part_bytes(maps, schema, p as nat),
            segs == part_segs(maps, schema, p as nat),
            forall|f: u64| #[trigger]
                histograms@.contains_key(f) <==> known_field(maps, p as int, schema, f),
            forall|f: u64| #[trigger]
                histograms@.contains_key(f) ==> hist_views(histograms@[f]@) == chunk_bounds(
                    field_parts(maps, schema, f),
                ),
        decreases parts@.len() - p,
    {
        broadcast use vstd::std_specs::hash::group_hash_axioms;

        let ghost here = maps[p as int];
        assert(here == parts@[p as int]@);
        match parts[p].get(&schema) {
            Some(part) => {
                proof {
                    lemma_sums_grow(maps, schema, (p + 1) as nat, n);
                }
                bytes = bytes + part.bytes;
                segs = segs + part.segs;
                let ghost first = histograms@;
                for field in fields: part.histograms.keys()
                    invariant
                        p < parts@.len(),
                        n == parts@.len(),
                        maps == part_maps(parts@),
                        n == maps.len(),
                        summable(maps, schema),
                        here == maps[p as int],
                        here.contains_key(schema),
                        *part == here[schema],
                        fields.seq().unref().to_set() == part.histograms@.dom(),
                        forall|f: u64| #[trigger]
                            first.contains_key(f) <==> known_field(maps, p as int, schema, f),
                        forall|f: u64| #[trigger]
                            histograms@.contains_key(f) ==> first.contains_key(f)
                                || part.histograms@.contains_key(f),
                        forall|f: u64| #[trigger]
                            first.contains_key(f) ==> histograms@.contains_key(f),
                        forall|j: int|
                            0 <= j < fields.index() ==> histograms@.contains_key(
                                #[trigger] fields.seq().unref()[j],
                            ),
                        forall|f: u64| #[trigger]
                            histograms@.contains_key(f) ==> hist_views(histograms@[f]@)
                                == chunk_bounds(field_parts(maps, schema, f)),
                        fields.index() == fields.seq().len() ==> forall|f: u64| #[trigger]
                            part.histograms@.contains_key(f) ==> histograms@.contains_key(f),
                {
                    broadcast use vstd::std_specs::hash::group_hash_axioms;

                    let ghost all = fields.seq().unref();
                    let ghost k = fields.index();
                    let ghost was = histograms@;
                    assert(all[k] == *field);
                    assert(all.to_set().contains(*field));
                    assert(has_field(maps[p as int], schema, *field));
                    assert(known_field(maps, n as int, schema, *field));
                    if !histograms.contains_key(field) {
                        let h = field_histogram(parts, schema, *field);
                        histograms.insert(*field, h);
                    }
                    proof {
                        assert forall|f: u64| part.histograms@.contains_key(f) && k + 1 == all.len() implies histograms@.contains_key(
                            f,
                        ) by {
                            assert(all.to_set().contains(f));
                            let j = choose|j: int| 0 <= j < all.len() && all[j] == f;
                            if j < k {
                                assert(was.contains_key(all[j]));
                            }
                        }
                    }
                }
                proof {
                    assert forall|f: u64| #[trigger] histograms@.contains_key(f) <==> known_field(
                        maps,
                        p + 1,
                        schema,
                        f,
                    ) by {
                        lemma_known_field_step(maps, p as int, schema, f);
                        assert(first.contains_key(f) <==> known_field(maps, p as int, schema, f));
                    }
                }
            },
            None => {
                assert forall|f: u64| #[trigger] histograms@.contains_key(f) <==> known_field(
                    maps,
                    p + 1,
                    schema,
                    f,
                ) by {
                    lemma_known_field_step(maps, p as int, schema, f);
                }
            },
        }
        p += 1;
    }
    SchemaStatistics { bytes, segs, histograms }
}

/// One more partition adds what it tells of a schema, and nothing if it does not know the schema.
pub proof fn lemma_one_more_part(parts: Seq<Map<u32, SchemaPart>>, schema: u32, n: nat)
    requires
        n < parts.len(),
    ensures
        part_bytes(parts, schema, 0) == 0,
        part_segs(parts, schema, 0) == 0,
        parts[n as int].contains_key(schema) ==> part_bytes(parts, schema, n + 1) == part_bytes(
            parts,
            schema,
            n,
        ) + parts[n as int][schema].bytes && part_segs(parts, schema, n + 1) == part_segs(
            parts,
            schema,
            n,
        ) + parts[n as int][schema].segs,
        !parts[n as int].contains_key(schema) ==> part_bytes(parts, schema, n + 1) == part_bytes(
            parts,
            schema,
            n,
        ) && part_segs(parts, schema, n + 1) == part_segs(parts, schema, n),
{
}

proof fn lemma_known_field_step(parts: Seq<Map<u32, SchemaPart>>, n: int, schema: u32, field: u64)
    requires
        0 <= n < parts.len(),
    ensures
        known_field(parts, n + 1, schema, field) <==> known_field(parts, n, schema, field)
            || has_field(parts[n], schema, field),
{
    if known_field(parts, n + 1, schema, field) && !has_field(parts[n], schema, field) {
        let p = choose|p: int| 0 <= p < n + 1 && has_field(#[trigger] parts[p], schema, field);
        assert(0 <= p < n && has_field(parts[p], schema, field));
    }
}

proof fn lemma_known_step(parts: Seq<Map<u32, SchemaPart>>, n: int, schema: u32)
    requires
        0 <= n < parts.len(),
    ensures
        known(parts, n + 1, schema) <==> known(parts, n, schema) || parts[n].contains_key(schema),
{
    if known(parts, n + 1, schema) && !parts[n].contains_key(schema) {
        let p = choose|p: int| 0 <= p < n + 1 && (#[trigger] parts[p]).contains_key(schema);
        assert(0 <= p < n && parts[p].contains_key(schema));
    }
}

/// Sums up what the partitions tell of each schema.
pub fn summarize(parts: &Vec<HashMap<u32, SchemaPart>>) -> (out: HashMap<u32, SchemaStatistics>)
    requires
        forall|s: u32|
            known(part_maps(parts@), parts@.len() as int, s) ==> #[trigger] summable(
                part_maps(parts@),
                s,
            ),
    ensures
        forall|s: u32| #[trigger]
            out@.contains_key(s) <==> known(part_maps(parts@), parts@.len() as int, s),
        forall|s: u32| #[trigger]
            out@.contains_key(s) ==> is_summary(out@[s], part_maps(parts@), s),
{
    broadcast use vstd::std_specs::hash::group_hash_axioms;

    let ghost maps = part_maps(parts@);
    let ghost n = maps.len() as int;
    let mut out: HashMap<u32, SchemaStatistics> = HashMap::new();
    let mut p: usize = 0;
    while p < parts.len()
        invariant
            p <= parts@.len(),
            n == parts@.len(),
            maps == part_maps(parts@),
            n == maps.len(),
            forall|s: u32| known(maps, n, s) ==> #[trigger] summable(maps, s),
            forall|s: u32| #[trigger] out@.contains_key(s) <==> known(maps, p as int, s),
            forall|s: u32| #[trigger] out@.contains_key(s) ==> is_summary(out@[s], maps, s),
        decreases parts@.len() - p,
    {
        broadcast use vstd::std_specs::hash::group_hash_axioms;

        let ghost here = maps[p as int];
        let ghost first = out@;
        assert(here == parts@[p as int]@);
        let part: &HashMap<u32, SchemaPart> = &parts[p];
        for id in ids: part.keys()
            invariant
                p < parts@.len(),
                n == parts@.len(),
                maps == part_maps(parts@),
                n == maps.len(),
                here == maps[p as int],
                here == part@,
                forall|s: u32| known(maps, n, s) ==> #[trigger] summable(maps, s),
                ids.seq().unref().to_set() == here.dom(),
                forall|s: u32| #[trigger]
                    out@.contains_key(s) ==> first.contains_key(s) || here.contains_key(s),
                forall|s: u32| #[trigger] first.contains_key(s) ==> out@.contains_key(s),
                forall|s: u32| #[trigger] out@.contains_key(s) ==> is_summary(out@[s], maps, s),
                forall|j: int|
                    0 <= j < ids.index() ==> out@.contains_key(#[trigger] ids.seq().unref()[j]),
                ids.index() == ids.seq().len() ==> forall|s: u32| #[trigger]
                    here.contains_key(s) ==> out@.contains_key(s),
        {
            broadcast use vstd::std_specs::hash::group_hash_axioms;

            let ghost all = ids.seq().unref();
            let ghost k = ids.index();
            let ghost was = out@;
            assert(all[k] == *id);
            assert(all.to_set().contains(*id));
            assert(maps[p as int].contains_key(*id));
            assert(known(maps, n, *id));
            assert(summable(maps, *id));
            if !out.contains_key(id) {
                let st = summarize_schema(parts, *id);
                out.insert(*id, st);
            }
            proof {
                assert forall|s: u32| here.contains_key(s) && k + 1 == all.len() implies out@.contains_key(
                    s,
                ) by {
                    assert(all.to_set().contains(s));
                    let j = choose|j: int| 0 <= j < all.len() && all[j] == s;
                    if j < k {
                        assert(was.contains_key(all[j]));
                    }
                }
            }
        }
        proof {
            assert forall|s: u32| #[trigger] out@.contains_key(s) <==> known(maps, p + 1, s) by {
                lemma_known_step(maps, p as int, s);
                assert(first.contains_key(s) <==> known(maps, p as int, s));
            }
        }
        p += 1;
    }
    out
}

} // verus!
