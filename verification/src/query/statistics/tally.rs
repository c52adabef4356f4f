//! Counting the cells of a partition, schema by schema.
use super::histogram::{hist_views, HistogramKey};
use std::collections::{HashMap, HashSet};
use vstd::prelude::*;

verus! {

/// What was read of a cell for the statistics: its schema, its size, the segment it lies in, the
/// fields that are indexed, and what was selected for them. `whole` is the key of the selected value
/// and `items` are the keys of its items, if it is an array; nulls have no key.
pub struct CellSample {
    pub schema: u32,
    pub size: usize,
    pub seg: u64,
    pub fields: Vec<u64>,
    pub whole: Option<HistogramKey>,
    pub items: Option<Vec<Option<HistogramKey>>>,
}

/// The outcome of reading a cell.
pub enum CellReading {
    /// The cell is locked or gone.
    NoLocation,
    /// The cell's header cannot be read.
    NoHeader,
    /// The cell's schema is not known.
    NoSchema,
    /// The fields cannot be selected.
    NoValues,
    Sample(CellSample),
}

/// The keys of the sample's fields, if they can be told: of one field the selected value is the
/// value of the field, of more it is an array of their values.
pub open spec fn sample_keys(s: CellSample) -> Option<Seq<Option<HistogramKey>>> {
    if s.fields@.len() == 1 {
        Some(seq![s.whole])
    } else {
        match s.items {
            Some(items) => Some(items@),
            None => None,
        }
    }
}

/// The reading counts for the schema.
pub open spec fn counts(r: CellReading, schema: u32) -> bool {
    r matches CellReading::Sample(s) && s.schema == schema && sample_keys(s) is Some
}

/// No more values than fields were selected. Of one field the selected value may be an array of any
/// length.
pub open spec fn sound(r: CellReading) -> bool {
    r matches CellReading::Sample(s) ==> (s.fields@.len() != 1 ==> (s.items matches Some(items)
        ==> items@.len() <= s.fields@.len()))
}

/// A cell of the schema was read.
pub open spec fn has_schema(cells: Seq<CellReading>, schema: u32) -> bool {
    exists|i: int| 0 <= i < cells.len() && counts(#[trigger] cells[i], schema)
}

/// The size of the schema's cells.
pub open spec fn bytes_of(cells: Seq<CellReading>, schema: u32) -> int
    decreases cells.len(),
{
    if cells.len() == 0 {
        0
    } else {
        bytes_of(cells.drop_last(), schema) + if counts(cells.last(), schema) {
            cells.last()->Sample_0.size as int
        } else {
            0
        }
    }
}

/// The segments that the schema's cells lie in.
pub open spec fn segs_of(cells: Seq<CellReading>, schema: u32) -> Set<u64>
    decreases cells.len(),
{
    if cells.len() == 0 {
        Set::empty()
    } else {
        let before = segs_of(cells.drop_last(), schema);
        if counts(cells.last(), schema) {
            before.insert(cells.last()->Sample_0.seg)
        } else {
            before
        }
    }
}

/// The keys among the first `n` that belong to the field.
pub open spec fn keys_for(
    fields: Seq<u64>,
    keys: Seq<Option<HistogramKey>>,
    n: nat,
    field: u64,
) -> Seq<Seq<u8>>
    decreases n,
{
    if n == 0 {
        Seq::empty()
    } else {
        let before = keys_for(fields, keys, (n - 1) as nat, field);
        match keys[n - 1] {
            Some(key) => if fields[n - 1] == field {
                before.push(key@)
            } else {
                before
            },
            None => before,
        }
    }
}

/// The keys of a field in a cell.
pub open spec fn cell_keys(r: CellReading, schema: u32, field: u64) -> Seq<Seq<u8>> {
    if counts(r, schema) {
        let s = r->Sample_0;
        let keys = sample_keys(s)->0;
        keys_for(s.fields@, keys, keys.len(), field)
    } else {
        Seq::empty()
    }
}

/// The keys of a field in the schema's cells, in the order of the cells.
pub open spec fn keys_of(cells: Seq<CellReading>, schema: u32, field: u64) -> Seq<Seq<u8>>
    decreases cells.len(),
{
    if cells.len() == 0 {
        Seq::empty()
    } else {
        keys_of(cells.drop_last(), schema, field) + cell_keys(cells.last(), schema, field)
    }
}

/// What was counted for a schema: the size of its cells, their segments, and the keys of their
/// fields.
pub struct SchemaTally {
    pub bytes: usize,
    pub segs: HashSet<u64>,
    pub keys: HashMap<u64, Vec<HistogramKey>>,
}

/// The map holds the keys of each field that has any.
pub open spec fn keys_held(
    map: Map<u64, Vec<HistogramKey>>,
    keys: spec_fn(u64) -> Seq<Seq<u8>>,
) -> bool {
    forall|f: u64|
        #![trigger map.contains_key(f)]
        #![trigger keys(f)]
        (map.contains_key(f) <==> keys(f).len() > 0) && (map.contains_key(f) ==> hist_views(
            map[f]@,
        ) == keys(f))
}

/// `t` is what was counted of the schema in these cells.
pub open spec fn tallied(t: SchemaTally, cells: Seq<CellReading>, schema: u32) -> bool {
    &&& t.bytes == bytes_of(cells, schema)
    &&& t.segs@ == segs_of(cells, schema)
    &&& keys_held(t.keys@, |f: u64| keys_of(cells, schema, f))
}

/// Nothing is counted of a schema without cells.
pub proof fn lemma_nothing_counted(cells: Seq<CellReading>, schema: u32)
    requires
        !has_schema(cells, schema),
    ensures
        bytes_of(cells, schema) == 0,
        segs_of(cells, schema) == Set::<u64>::empty(),
        forall|f: u64| (#[trigger] keys_of(cells, schema, f)).len() == 0,
    decreases cells.len(),
{
    if cells.len() > 0 {
        let rest = cells.drop_last();
        assert(!has_schema(rest, schema)) by {
            if has_schema(rest, schema) {
                let i = choose|i: int| 0 <= i < rest.len() && counts(#[trigger] rest[i], schema);
                assert(counts(cells[i], schema));
            }
        }
        lemma_nothing_counted(rest, schema);
        assert(!counts(cells[cells.len() - 1], schema));
        assert forall|f: u64| (#[trigger] keys_of(cells, schema, f)).len() == 0 by {
            assert(keys_of(rest, schema, f).len() == 0);
        }
    }
}

/// Adds a key to those of a field.
fn push_key(map: &mut HashMap<u64, Vec<HistogramKey>>, field: u64, key: HistogramKey)
    ensures
        forall|f: u64| #[trigger]
            final(map)@.contains_key(f) <==> f == field || old(map)@.contains_key(f),
        forall|f: u64|
            f != field && #[trigger] final(map)@.contains_key(f) ==> final(map)@[f] == old(map)@[f],
        hist_views(final(map)@[field]@) == (if old(map)@.contains_key(field) {
            hist_views(old(map)@[field]@)
        } else {
            Seq::empty()
        }).push(key@),
{
    broadcast use vstd::std_specs::hash::group_hash_axioms;

    let mut keys: Vec<HistogramKey> = match map.remove(&field) {
        Some(keys) => keys,
        None => Vec::new(),
    };
    let ghost before = hist_views(keys@);
    keys.push(key);
    proof {
        assert(hist_views(keys@) =~= before.push(key@));
        if !old(map)@.contains_key(field) {
            assert(before =~= Seq::empty());
        }
    }
    map.insert(field, keys);
}

/// The keys of a sample's fields.
fn selected_keys(s: &CellSample) -> (keys: Option<Vec<Option<HistogramKey>>>)
    ensures
        match keys {
            Some(v) => sample_keys(*s) == Some(v@),
            None => sample_keys(*s) is None,
        },
{
    if s.fields.len() == 1 {
        let v: Vec<Option<HistogramKey>> = vec![s.whole];
        assert(v@ =~= seq![s.whole]);
        return Some(v);
    }
    match &s.items {
        Some(items) => {
            let mut v: Vec<Option<HistogramKey>> = Vec::new();
            let mut i: usize = 0;
            while i < items.len()
                invariant
                    i <= items@.len(),
                    v@ == items@.take(i as int),
                decreases items@.len() - i,
            {
                v.push(items[i]);
                i += 1;
                assert(v@ =~= items@.take(i as int));
            }
            assert(v@ =~= items@);
            Some(v)
        },
        None => None,
    }
}

impl SchemaTally {
    fn new() -> (t: SchemaTally)
        ensures
            t.bytes == 0,
            t.segs@ == Set::<u64>::empty(),
            t.keys@ == Map::<u64, Vec<HistogramKey>>::empty(),
    {
        SchemaTally { bytes: 0, segs: HashSet::new(), keys: HashMap::new() }
    }

    /// Counts a sample, of which `keys` are the keys.
    fn count(
        &mut self,
        s: &CellSample,
        keys: &Vec<Option<HistogramKey>>,
        Ghost(before): Ghost<spec_fn(u64) -> Seq<Seq<u8>>>,
    )
        requires
            keys@.len() <= s.fields@.len(),
            old(self).bytes + s.size <= usize::MAX,
            keys_held(old(self).keys@, before),
        ensures
            final(self).bytes == old(self).bytes + s.size,
            final(self).segs@ == old(self).segs@.insert(s.seg),
            keys_held(
                final(self).keys@,
                |f: u64| before(f) + keys_for(s.fields@, keys@, keys@.len(), f),
            ),
    {
        broadcast use vstd::std_specs::hash::group_hash_axioms;

        let ghost start = self.keys@;
        let mut i: usize = 0;
        proof {
            let now = |f: u64| before(f) + keys_for(s.fields@, keys@, 0, f);
            assert forall|f: u64| #[trigger] now(f) == before(f) by {
                assert(before(f) + Seq::empty() =~= before(f));
            }
        }
        while i < keys.len()
            invariant
                i <= keys@.len() <= s.fields@.len(),
                self.bytes == old(self).bytes,
                self.segs == old(self).segs,
                keys_held(
                    self.keys@,
                    |f: u64| before(f) + keys_for(s.fields@, keys@, i as nat, f),
                ),
            decreases keys@.len() - i,
        {
            let ghost was = self.keys@;
            let ghost then = |f: u64| before(f) + keys_for(s.fields@, keys@, i as nat, f);
            let ghost now = |f: u64| before(f) + keys_for(s.fields@, keys@, (i + 1) as nat, f);
            match keys[i] {
                Some(key) => {
                    let field: u64 = s.fields[i];
                    push_key(&mut self.keys, field, key);
                    proof {
                        assert forall|f: u64|
                            #![trigger self.keys@.contains_key(f)]
                            #![trigger now(f)]
                            (self.keys@.contains_key(f) <==> now(f).len() > 0)
                                && (self.keys@.contains_key(f) ==> hist_views(self.keys@[f]@)
                                == now(f)) by {
                            assert(was.contains_key(f) <==> then(f).len() > 0);
                            if f == field {
                                assert(now(f) =~= then(f).push(key@));
                                if !was.contains_key(f) {
                                    assert(then(f) =~= Seq::empty());
                                }
                            } else {
                                assert(now(f) == then(f));
                            }
                        }
                    }
                },
                None => {
                    assert forall|f: u64| #[trigger] now(f) == then(f) by {}
                    assert(keys_held(self.keys@, now)) by {
                        assert forall|f: u64|
                            #![trigger self.keys@.contains_key(f)]
                            #![trigger now(f)]
                            (self.keys@.contains_key(f) <==> now(f).len() > 0)
                                && (self.keys@.contains_key(f) ==> hist_views(self.keys@[f]@)
                                == now(f)) by {
                            assert(now(f) == then(f));
                        }
                    }
                },
            }
            i += 1;
        }
        self.bytes = self.bytes + s.size;
        self.segs.insert(s.seg);
    }
}

pub proof fn lemma_has_schema_push(cells: Seq<CellReading>, r: CellReading, schema: u32)
    ensures
        has_schema(cells.push(r), schema) <==> has_schema(cells, schema) || counts(r, schema),
{
    let more = cells.push(r);
    if has_schema(cells, schema) {
        let i = choose|i: int| 0 <= i < cells.len() && counts(#[trigger] cells[i], schema);
        assert(counts(more[i], schema));
    }
    if counts(r, schema) {
        assert(counts(more[cells.len() as int], schema));
    }
    if has_schema(more, schema) && !counts(r, schema) {
        let i = choose|i: int| 0 <= i < more.len() && counts(#[trigger] more[i], schema);
        assert(counts(cells[i], schema));
    }
}

/// A cell that does not count for a schema changes nothing of what was counted for it.
proof fn lemma_not_counted(cells: Seq<CellReading>, r: CellReading, schema: u32, t: SchemaTally)
    requires
        !counts(r, schema),
        tallied(t, cells, schema),
    ensures
        tallied(t, cells.push(r), schema),
{
    let more = cells.push(r);
    assert(more.drop_last() =~= cells);
    let then = |f: u64| keys_of(cells, schema, f);
    let now = |f: u64| keys_of(more, schema, f);
    assert forall|f: u64|
        #![trigger t.keys@.contains_key(f)]
        #![trigger now(f)]
        (t.keys@.contains_key(f) <==> now(f).len() > 0) && (t.keys@.contains_key(f) ==> hist_views(
            t.keys@[f]@,
        ) == now(f)) by {
        assert(now(f) =~= then(f));
    }
}

/// The sizes that were counted grow with the number of cells.
proof fn lemma_bytes_grow(cells: Seq<CellReading>, schema: u32, n: int)
    requires
        0 <= n <= cells.len(),
    ensures
        0 <= bytes_of(cells.take(n), schema) <= bytes_of(cells, schema),
    decreases cells.len(),
{
    if n == cells.len() {
        assert(cells.take(n) =~= cells);
        if n > 0 {
            lemma_bytes_grow(cells.drop_last(), schema, n - 1);
            assert(cells.drop_last().take(n - 1) =~= cells.drop_last());
        }
    } else {
        assert(cells.drop_last().take(n) =~= cells.take(n));
        lemma_bytes_grow(cells.drop_last(), schema, n);
    }
}

/// The map holds what was counted of each schema that has cells.
pub open spec fn all_tallied(map: Map<u32, SchemaTally>, cells: Seq<CellReading>) -> bool {
    forall|s: u32|
        #![trigger map.contains_key(s)]
        #![trigger has_schema(cells, s)]
        (map.contains_key(s) <==> has_schema(cells, s)) && (map.contains_key(s) ==> tallied(
            map[s],
            cells,
            s,
        ))
}

/// Counts the cells from `from` up to `to`.
pub fn tally(cells: &Vec<CellReading>, from: usize, to: usize) -> (map: HashMap<u32, SchemaTally>)
    requires
        from <= to <= cells@.len(),
        forall|i: int| from <= i < to ==> sound(#[trigger] cells@[i]),
        forall|s: u32|
            #[trigger] bytes_of(cells@.subrange(from as int, to as int), s) <= usize::MAX,
    ensures
        all_tallied(map@, cells@.subrange(from as int, to as int)),
{
    broadcast use vstd::std_specs::hash::group_hash_axioms;

    let ghost all = cells@.subrange(from as int, to as int);
    let mut map: HashMap<u32, SchemaTally> = HashMap::new();
    let mut i: usize = from;
    assert(cells@.subrange(from as int, from as int) =~= Seq::empty());
    while i < to
        invariant
            from <= i <= to <= cells@.len(),
            all == cells@.subrange(from as int, to as int),
            forall|i: int| from <= i < to ==> sound(#[trigger] cells@[i]),
            forall|s: u32| #[trigger] bytes_of(all, s) <= usize::MAX,
            all_tallied(map@, cells@.subrange(from as int, i as int)),
        decreases to - i,
    {
        broadcast use vstd::std_specs::hash::group_hash_axioms;

        let ghost before = cells@.subrange(from as int, i as int);
        let ghost now = cells@.subrange(from as int, i + 1);
        let ghost r = cells@[i as int];
        let ghost was = map@;
        proof {
            assert(now =~= before.push(r));
            assert(now.drop_last() =~= before);
            assert(sound(r));
        }
        let mut counted: Ghost<Option<u32>> = Ghost(None);
        match &cells[i] {
            CellReading::Sample(sample) => {
                match selected_keys(sample) {
                    Some(keys) => {
                        let id: u32 = sample.schema;
                        let mut t = match map.remove(&id) {
                            Some(t) => t,
                            None => {
                                proof {
                                    assert(!has_schema(before, id));
                                    lemma_nothing_counted(before, id);
                                }
                                SchemaTally::new()
                            },
                        };
                        proof {
                            assert(was.contains_key(id) <==> has_schema(before, id));
                            assert(all.take(i + 1 - from) =~= now);
                            lemma_bytes_grow(all, id, i + 1 - from);
                            assert(bytes_of(all, id) <= usize::MAX);
                            assert(keys@.len() <= sample.fields@.len());
                        }
                        let ghost held = |f: u64| keys_of(before, id, f);
                        t.count(sample, &keys, Ghost(held));
                        proof {
                            let then = |f: u64| held(f) + keys_for(
                                sample.fields@,
                                keys@,
                                keys@.len(),
                                f,
                            );
                            let next = |f: u64| keys_of(now, id, f);
                            assert forall|f: u64|
                                #![trigger t.keys@.contains_key(f)]
                                #![trigger next(f)]
                                (t.keys@.contains_key(f) <==> next(f).len() > 0)
                                    && (t.keys@.contains_key(f) ==> hist_views(t.keys@[f]@)
                                    == next(f)) by {
                                assert(next(f) == then(f));
                            }
                            assert(tallied(t, now, id));
                            counted@ = Some(id);
                        }
                        map.insert(id, t);
                    },
                    None => {},
                }
            },
            _ => {},
        }
        proof {
            assert forall|s: u32|
                #![trigger map@.contains_key(s)]
                #![trigger has_schema(now, s)]
                (map@.contains_key(s) <==> has_schema(now, s)) && (map@.contains_key(s) ==> tallied(
                    map@[s],
                    now,
                    s,
                )) by {
                lemma_has_schema_push(before, r, s);
                assert(was.contains_key(s) <==> has_schema(before, s));
                if counts(r, s) {
                    assert(counted@ == Some(s));
                } else if was.contains_key(s) {
                    lemma_not_counted(before, r, s, was[s]);
                }
            }
        }
        i += 1;
    }
    map
}

/// What is counted of cells is what is counted of some and of the others.
pub proof fn lemma_counted_apart(a: Seq<CellReading>, b: Seq<CellReading>, schema: u32)
    ensures
        bytes_of(a + b, schema) == bytes_of(a, schema) + bytes_of(b, schema),
        0 <= bytes_of(b, schema),
        forall|f: u64| #[trigger]
            keys_of(a + b, schema, f) == keys_of(a, schema, f) + keys_of(b, schema, f),
        has_schema(a + b, schema) <==> has_schema(a, schema) || has_schema(b, schema),
    decreases b.len(),
{
    if b.len() == 0 {
        assert(a + b =~= a);
        assert forall|f: u64| #[trigger] keys_of(a + b, schema, f) == keys_of(a, schema, f) + keys_of(
            b,
            schema,
            f,
        ) by {
            assert(keys_of(a, schema, f) + Seq::empty() =~= keys_of(a, schema, f));
        }
    } else {
        let rest = b.drop_last();
        assert((a + b).drop_last() =~= a + rest);
        assert(a + b =~= (a + rest).push(b.last()));
        assert(b =~= rest.push(b.last()));
        lemma_counted_apart(a, rest, schema);
        lemma_has_schema_push(a + rest, b.last(), schema);
        lemma_has_schema_push(rest, b.last(), schema);
        assert forall|f: u64| #[trigger] keys_of(a + b, schema, f) == keys_of(a, schema, f) + keys_of(
            b,
            schema,
            f,
        ) by {
            assert(keys_of(a + rest, schema, f) == keys_of(a, schema, f) + keys_of(rest, schema, f));
            assert(keys_of(a + b, schema, f) =~= keys_of(a, schema, f) + keys_of(b, schema, f));
        }
    }
}

/// There are no more segments than cells.
pub proof fn lemma_segs_few(cells: Seq<CellReading>, schema: u32)
    ensures
        segs_of(cells, schema).finite(),
        segs_of(cells, schema).len() <= cells.len(),
    decreases cells.len(),
{
    if cells.len() > 0 {
        lemma_segs_few(cells.drop_last(), schema);
    }
}

/// A cell counts for its own schema and for no other, once a sample of it was read: of one field
/// whatever the sample holds, of more only if the values of the fields are there.
pub proof fn lemma_which_cells_count(r: CellReading, schema: u32)
    ensures
        counts(r, schema) <==> (r is Sample && r->Sample_0.schema == schema && (
        r->Sample_0.fields@.len() == 1 || r->Sample_0.items is Some)),
        r !is Sample ==> !counts(r, schema),
{
}

/// One more cell adds its size to the size of its schema's cells, its segment to their segments and
/// its keys behind theirs; to another schema, or if the cell does not count, it adds nothing.
pub proof fn lemma_one_more_cell(cells: Seq<CellReading>, r: CellReading, schema: u32, field: u64)
    ensures
        bytes_of(Seq::empty(), schema) == 0,
        segs_of(Seq::empty(), schema) == Set::<u64>::empty(),
        keys_of(Seq::empty(), schema, field).len() == 0,
        ({
            let mine = r is Sample && r->Sample_0.schema == schema && (r->Sample_0.fields@.len() == 1
                || r->Sample_0.items is Some);
            let more = cells.push(r);
            &&& mine ==> {
                &&& bytes_of(more, schema) == bytes_of(cells, schema) + r->Sample_0.size
                &&& segs_of(more, schema) == segs_of(cells, schema).insert(r->Sample_0.seg)
                &&& keys_of(more, schema, field) == keys_of(cells, schema, field) + cell_keys(
                    r,
                    schema,
                    field,
                )
                &&& has_schema(more, schema)
            }
            &&& !mine ==> {
                &&& bytes_of(more, schema) == bytes_of(cells, schema)
                &&& segs_of(more, schema) == segs_of(cells, schema)
                &&& keys_of(more, schema, field) == keys_of(cells, schema, field)
                &&& has_schema(more, schema) <==> has_schema(cells, schema)
            }
        }),
{
    assert(cells.push(r).drop_last() =~= cells);
    lemma_has_schema_push(cells, r, schema);
    assert(keys_of(cells, schema, field) + Seq::empty() =~= keys_of(cells, schema, field));
}

/// The segments of a schema are those in which one of its cells lies.
pub proof fn lemma_segs_are_those_of_cells(cells: Seq<CellReading>, schema: u32, seg: u64)
    ensures
        segs_of(cells, schema).contains(seg) <==> exists|i: int|
            0 <= i < cells.len() && counts(#[trigger] cells[i], schema) && cells[i]->Sample_0.seg == seg,
    decreases cells.len(),
{
    if cells.len() > 0 {
        let rest = cells.drop_last();
        lemma_segs_are_those_of_cells(rest, schema, seg);
        if exists|i: int|
            0 <= i < rest.len() && counts(#[trigger] rest[i], schema) && rest[i]->Sample_0.seg == seg {
            let i = choose|i: int|
                0 <= i < rest.len() && counts(#[trigger] rest[i], schema) && rest[i]->Sample_0.seg == seg;
            assert(counts(cells[i], schema));
        }
        if exists|i: int|
            0 <= i < cells.len() && counts(#[trigger] cells[i], schema) && cells[i]->Sample_0.seg == seg {
            let i = choose|i: int|
                0 <= i < cells.len() && counts(#[trigger] cells[i], schema) && cells[i]->Sample_0.seg
                    == seg;
            if i < rest.len() {
                assert(counts(rest[i], schema));
            }
        }
    }
}

/// The keys of a field in a cell are those at the field's places, in their order, and none is left
/// out: with one field that of the whole value, with more those of the items at the same places.
/// Nulls have no key.
pub proof fn lemma_keys_of_a_cell(r: CellReading, schema: u32, field: u64) -> (places: Seq<int>)
    requires
        counts(r, schema),
        sound(r),
    ensures
        ({
            let s = r->Sample_0;
            let keys = cell_keys(r, schema, field);
            &&& places.len() == keys.len()
            &&& forall|a: int, b: int|
                0 <= a < b < places.len() ==> #[trigger] places[a] < #[trigger] places[b]
            &&& forall|a: int|
                0 <= a < places.len() ==> {
                    let j = #[trigger] places[a];
                    &&& 0 <= j < s.fields@.len()
                    &&& s.fields@[j] == field
                    &&& s.fields@.len() == 1 ==> s.whole is Some && s.whole->0@ == keys[a]
                    &&& s.fields@.len() != 1 ==> j < s.items->0@.len() && s.items->0@[j] is Some
                        && s.items->0@[j]->0@ == keys[a]
                }
            &&& s.fields@.len() == 1 && s.fields@[0] == field && s.whole is Some ==> keys.len() == 1
            &&& s.fields@.len() != 1 ==> forall|j: int|
                0 <= j < s.items->0@.len() && s.fields@[j] == field && (#[trigger] s.items->0@[j]) is Some
                    ==> places.contains(j)
        }),
{
    let s = r->Sample_0;
    let keys = sample_keys(s)->0;
    let places = lemma_places(s.fields@, keys, keys.len(), field);
    if s.fields@.len() == 1 && s.fields@[0] == field && s.whole is Some {
        assert(keys[0] is Some);
        assert(places.contains(0));
        assert(keys_for(s.fields@, keys, 0, field).len() == 0);
    }
    places
}

proof fn lemma_places(
    fields: Seq<u64>,
    keys: Seq<Option<HistogramKey>>,
    n: nat,
    field: u64,
) -> (places: Seq<int>)
    requires
        n <= keys.len() <= fields.len(),
    ensures
        places.len() == keys_for(fields, keys, n, field).len(),
        forall|a: int, b: int|
            0 <= a < b < places.len() ==> #[trigger] places[a] < #[trigger] places[b],
        forall|a: int|
            0 <= a < places.len() ==> {
                &&& 0 <= #[trigger] places[a] < n
                &&& fields[places[a]] == field
                &&& keys[places[a]] is Some
                &&& keys[places[a]]->0@ == keys_for(fields, keys, n, field)[a]
            },
        forall|j: int|
            0 <= j < n && fields[j] == field && (#[trigger] keys[j]) is Some ==> places.contains(j),
    decreases n,
{
    if n == 0 {
        Seq::empty()
    } else {
        let before = lemma_places(fields, keys, (n - 1) as nat, field);
        if keys[n - 1] is Some && fields[n - 1] == field {
            let places = before.push(n - 1);
            assert forall|j: int|
                0 <= j < n && fields[j] == field && (#[trigger] keys[j]) is Some implies places.contains(
                j,
            ) by {
                if j < n - 1 {
                    let a = choose|a: int| 0 <= a < before.len() && before[a] == j;
                    assert(places[a] == j);
                } else {
                    assert(places[before.len() as int] == j);
                }
            }
            places
        } else {
            before
        }
    }
}

} // verus!
