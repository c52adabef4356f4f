//! Where plans write: no byte twice, and nothing in between is left out.
use super::plan::{
    follow, plan_at, plan_field, plan_items, plan_map, plan_names, plan_subs, plan_tail,
    plan_value, plan_values, put, put_code, put_length, put_null_mark, Inst, Plan, ARRAY_TYPE_MASK,
    NULL_PLACEHOLDER,
};
use super::writer::{executed, inside};
use crate::ram::schema::field::{
    lemma_width_positive, lemma_widths_grow, null_width, placed, width, widths, Field,
};
use crate::ram::types::{
    base_type_of, entry_of, lemma_parts_smaller, stored, value_of, vsize, written, BasicTypes,
    FieldName, OwnedValue, Type,
};
use vstd::prelude::*;

verus! {

/// The stored form of a value takes the space of a place of type `ty`.
pub open spec fn fills(ty: Type, value: OwnedValue) -> bool {
    vsize(ty, value) == stored(value).len()
}

/// The values that go to a field, and to the fields below it, fill their places. Nulls and values
/// that do not go with the field take no place.
pub open spec fn suits(field: Field, arr: bool, value: OwnedValue) -> bool
    decreases field.sub_fields, if arr { 1nat } else { 0nat },
{
    match field.sub_fields {
        Some(subs) => match value {
            OwnedValue::Record(map) => forall|i: int|
                0 <= i < subs@.len() ==> suits(
                    #[trigger] subs@[i],
                    subs@[i].is_array,
                    value_of(map.map@, subs@[i].name_id),
                ),
            OwnedValue::Array(items) => arr ==> forall|i: int|
                0 <= i < items@.len() ==> suits(field, false, #[trigger] items@[i]),
            _ => true,
        },
        None => if arr {
            value matches OwnedValue::Array(items) ==> forall|i: int|
                0 <= i < items@.len() ==> suits(field, false, #[trigger] items@[i])
        } else {
            value is Null || fills(field.data_type, value)
        },
    }
}

/// The plain values in a value fill places of their own types.
pub open spec fn value_suits(types: BasicTypes, value: OwnedValue) -> bool
    decreases value,
{
    match value {
        OwnedValue::Array(items) => forall|i: int|
            0 <= i < items@.len() ==> value_suits(types, #[trigger] items@[i]),
        OwnedValue::Record(map) => {
            &&& forall|i: int|
                0 <= i < map.fields@.len() ==> name_suits(types, #[trigger] map.fields@[i])
            &&& forall|i: int|
                0 <= i < map.map@.len() ==> value_suits(types, (#[trigger] map.map@[i]).1)
        },
        OwnedValue::PrimArray(_) => true,
        OwnedValue::Null => true,
        OwnedValue::NA => true,
        _ => fills(base_type_of(value, types), value),
    }
}

pub open spec fn name_suits(types: BasicTypes, name: FieldName) -> bool {
    fills(base_type_of(name.value, types), name.value)
}

/// The names and the values of a map fill places of their own types.
pub open spec fn map_suits(
    types: BasicTypes,
    names: Seq<FieldName>,
    entries: Seq<(u64, OwnedValue)>,
) -> bool {
    &&& forall|i: int| 0 <= i < names.len() ==> name_suits(types, #[trigger] names[i])
    &&& forall|i: int| 0 <= i < entries.len() ==> value_suits(types, (#[trigger] entries[i]).1)
}

pub open spec fn end_of(i: Inst) -> int {
    i.offset + stored(i.val).len()
}

/// The instructions write from `at` to `end`, one right behind the other.
pub open spec fn tiled(ins: Seq<Inst>, at: int, end: int) -> bool
    decreases ins.len(),
{
    if ins.len() == 0 {
        at == end
    } else {
        end_of(ins.last()) == end && tiled(ins.drop_last(), at, ins.last().offset)
    }
}

/// Two instructions write no byte in common.
pub open spec fn disjoint(a: Inst, b: Inst) -> bool {
    end_of(a) <= b.offset || end_of(b) <= a.offset
}

/// No two instructions write a byte in common.
pub open spec fn apart(ins: Seq<Inst>) -> bool {
    forall|i: int, j: int| 0 <= i < j < ins.len() ==> disjoint(#[trigger] ins[i], #[trigger] ins[j])
}

/// The stored values of the instructions, one behind the other.
pub open spec fn joined_values(ins: Seq<Inst>) -> Seq<u8>
    decreases ins.len(),
{
    if ins.len() == 0 {
        Seq::empty()
    } else {
        joined_values(ins.drop_last()) + stored(ins.last().val)
    }
}

/// Instructions that follow one another, and others behind them.
pub proof fn lemma_tiled_concat(p: Seq<Inst>, q: Seq<Inst>, at: int, mid: int, end: int)
    requires
        tiled(p, at, mid),
        tiled(q, mid, end),
    ensures
        tiled(p + q, at, end),
    decreases q.len(),
{
    if q.len() == 0 {
        assert(p + q =~= p);
    } else {
        assert((p + q).drop_last() =~= p + q.drop_last());
        lemma_tiled_concat(p, q.drop_last(), at, mid, q.last().offset);
    }
}

/// Instructions that follow one another lie between the start and the end, and apart.
pub proof fn lemma_tiled_apart(ins: Seq<Inst>, at: int, end: int)
    requires
        tiled(ins, at, end),
    ensures
        at <= end,
        forall|k: int| 0 <= k < ins.len() ==> at <= (#[trigger] ins[k]).offset && end_of(ins[k]) <= end,
        apart(ins),
    decreases ins.len(),
{
    if ins.len() > 0 {
        let rest = ins.drop_last();
        lemma_tiled_apart(rest, at, ins.last().offset);
        assert forall|k: int| 0 <= k < ins.len() implies at <= (#[trigger] ins[k]).offset && end_of(
            ins[k],
        ) <= end by {
            if k < rest.len() {
                assert(rest[k] == ins[k]);
            }
        }
        assert forall|i: int, j: int| 0 <= i < j < ins.len() implies disjoint(
            #[trigger] ins[i],
            #[trigger] ins[j],
        ) by {
            assert(rest[i] == ins[i]);
            if j < rest.len() {
                assert(rest[j] == ins[j]);
            }
        }
    }
}

/// After a plan whose instructions write no byte in common, each value is there to be read.
pub proof fn lemma_values_stay(buffer: Seq<u8>, ins: Seq<Inst>, k: int, n: nat)
    requires
        0 <= k < n <= ins.len(),
        apart(ins),
        forall|i: int| 0 <= i < ins.len() ==> inside(buffer.len(), #[trigger] ins[i]),
    ensures
        executed(buffer, ins, n).len() == buffer.len(),
        executed(buffer, ins, n).subrange(ins[k].offset, end_of(ins[k])) == stored(ins[k].val),
    decreases n,
{
    let last = ins[n - 1];
    let before = executed(buffer, ins, (n - 1) as nat);
    let after = executed(buffer, ins, n);
    assert(inside(buffer.len(), ins[k]));
    lemma_length_stays(buffer, ins, n);
    lemma_length_stays(buffer, ins, (n - 1) as nat);
    if k == n - 1 {
        assert(after.subrange(last.offset, end_of(last)) =~= stored(last.val));
    } else {
        lemma_values_stay(buffer, ins, k, (n - 1) as nat);
        assert(disjoint(ins[k], ins[n - 1]));
        assert(after.subrange(ins[k].offset, end_of(ins[k])) =~= before.subrange(
            ins[k].offset,
            end_of(ins[k]),
        ));
    }
}

/// The bytes at which no instruction writes stay as they were.
pub proof fn lemma_other_bytes_stay(buffer: Seq<u8>, ins: Seq<Inst>, n: nat, x: int)
    requires
        n <= ins.len(),
        0 <= x < buffer.len(),
        forall|k: int| 0 <= k < n ==> !((#[trigger] ins[k]).offset <= x < end_of(ins[k])),
    ensures
        executed(buffer, ins, n).len() == buffer.len(),
        executed(buffer, ins, n)[x] == buffer[x],
    decreases n,
{
    lemma_length_stays(buffer, ins, n);
    if n > 0 {
        lemma_length_stays(buffer, ins, (n - 1) as nat);
        lemma_other_bytes_stay(buffer, ins, (n - 1) as nat, x);
        assert(!(ins[n - 1].offset <= x < end_of(ins[n - 1])));
    }
}

proof fn lemma_length_stays(buffer: Seq<u8>, ins: Seq<Inst>, n: nat)
    ensures
        executed(buffer, ins, n).len() == buffer.len(),
    decreases n,
{
    if 0 < n <= ins.len() {
        lemma_length_stays(buffer, ins, (n - 1) as nat);
    }
}

/// A plan whose instructions follow one another leaves their values one behind the other, and the
/// bytes before and behind as they were.
pub proof fn lemma_tiled_bytes(buffer: Seq<u8>, ins: Seq<Inst>, at: int, end: int)
    requires
        tiled(ins, at, end),
        0 <= at,
        end <= buffer.len(),
    ensures
        executed(buffer, ins, ins.len()) == buffer.take(at) + joined_values(ins) + buffer.skip(end),
        joined_values(ins).len() == end - at,
    decreases ins.len(),
{
    lemma_tiled_apart(ins, at, end);
    if ins.len() == 0 {
        assert(buffer =~= buffer.take(at) + joined_values(ins) + buffer.skip(end));
    } else {
        let rest = ins.drop_last();
        let mid = ins.last().offset;
        lemma_tiled_apart(rest, at, mid);
        lemma_tiled_bytes(buffer, rest, at, mid);
        lemma_executed_prefix(buffer, ins, rest.len());
        let before = executed(buffer, rest, rest.len());
        assert(executed(buffer, ins, ins.len()) == written(before, stored(ins.last().val), mid));
        assert(written(before, stored(ins.last().val), mid) =~= buffer.take(at) + (joined_values(rest)
            + stored(ins.last().val)) + buffer.skip(end));
    }
}

proof fn lemma_executed_prefix(buffer: Seq<u8>, ins: Seq<Inst>, n: nat)
    requires
        n <= ins.len(),
    ensures
        executed(buffer, ins, n) == executed(buffer, ins.take(n as int), n),
    decreases n,
{
    if n > 0 {
        lemma_executed_prefix(buffer, ins, (n - 1) as nat);
        let t = ins.take(n as int);
        lemma_executed_prefix(buffer, t, (n - 1) as nat);
        assert(t.take(n - 1) =~= ins.take(n - 1));
    }
}

proof fn lemma_put_tiled(at: int, p: Plan)
    requires
        p.ins.len() == 1,
        p.ins[0].offset == at,
        p.tail == end_of(p.ins[0]),
    ensures
        tiled(p.ins, at, p.tail),
{
    assert(p.ins.drop_last() =~= Seq::empty());
    assert(tiled(Seq::<Inst>::empty(), at, at));
}

proof fn lemma_mark_tiled(types: BasicTypes, at: int, field: Field, value: OwnedValue)
    ensures
        tiled(
            put_null_mark(types, at, field, value).ins,
            at,
            put_null_mark(types, at, field, value).tail,
        ),
{
    if field.nullable {
        lemma_put_tiled(at, put_null_mark(types, at, field, value));
    }
}

/// The value of a field that starts at `at` fills all up to the plan's end.
pub proof fn lemma_at_tiled(
    types: BasicTypes,
    at: int,
    field: Field,
    arr: bool,
    value: OwnedValue,
)
    requires
        suits(field, arr, value),
        field.sub_fields is Some ==> arr && value is Array,
    ensures
        tiled(
            plan_at(types, at, field, arr, value).ins,
            at,
            plan_at(types, at, field, arr, value).tail,
        ),
        !plan_at(types, at, field, arr, value).stuck,
    decreases field.sub_fields, if arr { 2nat } else { 0nat }, 0nat,
{
    let plan = plan_at(types, at, field, arr, value);
    let mark = put_null_mark(types, at, field, value);
    lemma_mark_tiled(types, at, field, value);
    if arr {
        match value {
            OwnedValue::Array(items) => {
                let len = put_length(types, mark.tail, items.len());
                let all = plan_items(types, len.tail, field, items@, items@.len());
                lemma_put_tiled(mark.tail, len);
                lemma_items_tiled(types, len.tail, field, items@, items@.len());
                lemma_tiled_concat(len.ins, all.ins, mark.tail, len.tail, all.tail);
                lemma_tiled_concat(mark.ins, len.ins + all.ins, at, mark.tail, all.tail);
            },
            OwnedValue::PrimArray(array) => {
                let len = put_length(types, mark.tail, array.len);
                let bytes = put(len.tail, field.data_type, value, array.bytes@.len() as int);
                lemma_put_tiled(mark.tail, len);
                lemma_put_tiled(len.tail, bytes);
                lemma_tiled_concat(len.ins, bytes.ins, mark.tail, len.tail, bytes.tail);
                lemma_tiled_concat(mark.ins, len.ins + bytes.ins, at, mark.tail, bytes.tail);
            },
            _ => {
                assert(plan.ins =~= mark.ins);
            },
        }
    } else if value is Null {
        assert(plan.ins =~= mark.ins);
    } else {
        let own = put(mark.tail, field.data_type, value, vsize(field.data_type, value));
        lemma_put_tiled(mark.tail, own);
        lemma_tiled_concat(mark.ins, own.ins, at, mark.tail, own.tail);
    }
}

proof fn lemma_items_tiled(
    types: BasicTypes,
    at: int,
    field: Field,
    items: Seq<OwnedValue>,
    n: nat,
)
    requires
        forall|i: int| 0 <= i < items.len() ==> suits(field, false, #[trigger] items[i]),
    ensures
        tiled(
            plan_items(types, at, field, items, n).ins,
            at,
            plan_items(types, at, field, items, n).tail,
        ),
        !plan_items(types, at, field, items, n).stuck,
    decreases field.sub_fields, 1nat, n,
{
    if 0 < n <= items.len() {
        let before = plan_items(types, at, field, items, (n - 1) as nat);
        if before.stopped() {
            lemma_items_tiled(types, at, field, items, (n - 1) as nat);
        } else {
            let mine = plan_field(types, before.tail, field, false, items[n - 1], true);
            lemma_items_tiled(types, at, field, items, (n - 1) as nat);
            lemma_field_tiled(types, before.tail, field, false, items[n - 1]);
            lemma_tiled_concat(before.ins, mine.ins, at, before.tail, mine.tail);
        }
    }
}

/// A field in the part of a cell that varies fills all from the tail up to the plan's end, and
/// never asks for a place of its own.
pub proof fn lemma_field_tiled(
    types: BasicTypes,
    tail: int,
    field: Field,
    arr: bool,
    value: OwnedValue,
)
    requires
        suits(field, arr, value),
    ensures
        tiled(
            plan_field(types, tail, field, arr, value, true).ins,
            tail,
            plan_field(types, tail, field, arr, value, true).tail,
        ),
        !plan_field(types, tail, field, arr, value, true).stuck,
    decreases field.sub_fields, if arr { 2nat } else { 0nat }, 2nat,
{
    match field.sub_fields {
        Some(subs) => match value {
            OwnedValue::Record(map) => {
                lemma_subs_tiled(types, tail, subs@, subs@.len(), map.map@);
            },
            OwnedValue::Array(_) => if arr {
                lemma_at_tiled(types, tail, field, arr, value);
            },
            _ => {},
        },
        None => {
            lemma_at_tiled(types, tail, field, arr, value);
        },
    }
}

proof fn lemma_subs_tiled(
    types: BasicTypes,
    tail: int,
    subs: Seq<Field>,
    n: nat,
    entries: Seq<(u64, OwnedValue)>,
)
    requires
        forall|i: int|
            0 <= i < subs.len() ==> suits(
                #[trigger] subs[i],
                subs[i].is_array,
                value_of(entries, subs[i].name_id),
            ),
    ensures
        tiled(
            plan_subs(types, tail, subs, n, entries, true).ins,
            tail,
            plan_subs(types, tail, subs, n, entries, true).tail,
        ),
        !plan_subs(types, tail, subs, n, entries, true).stuck,
    decreases subs, 0nat, n,
{
    if 0 < n <= subs.len() {
        let before = plan_subs(types, tail, subs, (n - 1) as nat, entries, true);
        if before.stopped() {
            lemma_subs_tiled(types, tail, subs, (n - 1) as nat, entries);
        } else {
            let sub = subs[n - 1];
            let value = value_of(entries, sub.name_id);
            let mine = plan_field(types, before.tail, sub, sub.is_array, value, true);
            lemma_subs_tiled(types, tail, subs, (n - 1) as nat, entries);
            lemma_field_tiled(types, before.tail, sub, sub.is_array, value);
            lemma_tiled_concat(before.ins, mine.ins, tail, before.tail, mine.tail);
        }
    }
}

/// A value with its type code fills all from its start up to the plan's end.
pub proof fn lemma_value_tiled(types: BasicTypes, at: int, value: OwnedValue)
    requires
        value_suits(types, value),
    ensures
        tiled(plan_value(types, at, value).ins, at, plan_value(types, at, value).tail),
    decreases value, 0nat,
{
    match value {
        OwnedValue::Array(items) => {
            lemma_parts_smaller(value);
            let code = put_code(types, at, ARRAY_TYPE_MASK);
            let len = put_length(types, code.tail, items.len());
            let all = plan_values(types, len.tail, items@, items@.len());
            lemma_put_tiled(at, code);
            lemma_put_tiled(code.tail, len);
            lemma_values_tiled(types, len.tail, items@, items@.len());
            lemma_tiled_concat(code.ins, len.ins, at, code.tail, len.tail);
            lemma_tiled_concat(code.ins + len.ins, all.ins, at, len.tail, all.tail);
        },
        OwnedValue::PrimArray(array) => {
            let code = put_code(types, at, ARRAY_TYPE_MASK | array.ty.id);
            let len = put_length(types, code.tail, array.len);
            let bytes = put(len.tail, array.ty, value, array.bytes@.len() as int);
            lemma_put_tiled(at, code);
            lemma_put_tiled(code.tail, len);
            lemma_put_tiled(len.tail, bytes);
            lemma_tiled_concat(code.ins, len.ins, at, code.tail, len.tail);
            lemma_tiled_concat(code.ins + len.ins, bytes.ins, at, len.tail, bytes.tail);
        },
        OwnedValue::Record(map) => {
            lemma_parts_smaller(value);
            lemma_map_tiled(types, at, map.fields@, map.map@);
        },
        OwnedValue::Null => {
            lemma_put_tiled(at, put_code(types, at, NULL_PLACEHOLDER));
        },
        OwnedValue::NA => {
            lemma_put_tiled(at, put_code(types, at, NULL_PLACEHOLDER));
        },
        _ => {
            let ty = base_type_of(value, types);
            let code = put_code(types, at, ty.id);
            let own = put(code.tail, ty, value, vsize(ty, value));
            lemma_put_tiled(at, code);
            lemma_put_tiled(code.tail, own);
            lemma_tiled_concat(code.ins, own.ins, at, code.tail, own.tail);
        },
    }
}

proof fn lemma_values_tiled(types: BasicTypes, at: int, items: Seq<OwnedValue>, n: nat)
    requires
        forall|i: int| 0 <= i < items.len() ==> value_suits(types, #[trigger] items[i]),
    ensures
        tiled(plan_values(types, at, items, n).ins, at, plan_values(types, at, items, n).tail),
    decreases items, n,
{
    if 0 < n <= items.len() {
        let before = plan_values(types, at, items, (n - 1) as nat);
        if before.stopped() {
            lemma_values_tiled(types, at, items, (n - 1) as nat);
        } else {
            let mine = plan_value(types, before.tail, items[n - 1]);
            lemma_values_tiled(types, at, items, (n - 1) as nat);
            lemma_value_tiled(types, before.tail, items[n - 1]);
            lemma_tiled_concat(before.ins, mine.ins, at, before.tail, mine.tail);
        }
    }
}

/// A map with its type code fills all from its start up to the plan's end.
pub proof fn lemma_map_tiled(
    types: BasicTypes,
    at: int,
    names: Seq<FieldName>,
    entries: Seq<(u64, OwnedValue)>,
)
    requires
        map_suits(types, names, entries),
    ensures
        tiled(plan_map(types, at, names, entries).ins, at, plan_map(types, at, names, entries).tail),
    decreases entries, names.len() + 1,
{
    let code = put_code(types, at, types.map.id);
    let len = put_length(types, code.tail, names.len() as usize);
    let all = plan_names(types, len.tail, names, entries, names.len());
    lemma_put_tiled(at, code);
    lemma_put_tiled(code.tail, len);
    lemma_names_tiled(types, len.tail, names, entries, names.len());
    lemma_tiled_concat(code.ins, len.ins, at, code.tail, len.tail);
    lemma_tiled_concat(code.ins + len.ins, all.ins, at, len.tail, all.tail);
}

proof fn lemma_names_tiled(
    types: BasicTypes,
    at: int,
    names: Seq<FieldName>,
    entries: Seq<(u64, OwnedValue)>,
    n: nat,
)
    requires
        map_suits(types, names, entries),
    ensures
        tiled(
            plan_names(types, at, names, entries, n).ins,
            at,
            plan_names(types, at, names, entries, n).tail,
        ),
    decreases entries, n,
{
    if 0 < n <= names.len() {
        let before = plan_names(types, at, names, entries, (n - 1) as nat);
        if before.stopped() {
            lemma_names_tiled(types, at, names, entries, (n - 1) as nat);
        } else {
            let name = names[n - 1].value;
            let ty = base_type_of(name, types);
            let own = put(before.tail, ty, name, vsize(ty, name));
            let head = follow(before, own);
            let i = entry_of(entries, names[n - 1].id);
            let rest = if 0 <= i < entries.len() {
                plan_value(types, head.tail, entries[i].1)
            } else {
                super::plan::missing(head.tail)
            };
            lemma_names_tiled(types, at, names, entries, (n - 1) as nat);
            lemma_put_tiled(before.tail, own);
            lemma_tiled_concat(before.ins, own.ins, at, before.tail, own.tail);
            if 0 <= i < entries.len() {
                assert(decreases_to!(entries => entries[i]));
                assert(decreases_to!(entries[i] => entries[i].1));
                lemma_value_tiled(types, head.tail, entries[i].1);
            }
            lemma_tiled_concat(head.ins, rest.ins, at, head.tail, rest.tail);
        }
    }
}

/// The instruction writes from `lo` to `hi` or from `tail` to `end`.
pub open spec fn kept_to(i: Inst, lo: int, hi: int, tail: int, end: int) -> bool {
    (lo <= i.offset && end_of(i) <= hi) || (tail <= i.offset && end_of(i) <= end)
}

pub open spec fn all_kept_to(ins: Seq<Inst>, lo: int, hi: int, tail: int, end: int) -> bool {
    forall|k: int| 0 <= k < ins.len() ==> kept_to(#[trigger] ins[k], lo, hi, tail, end)
}

/// No array is given a map: the fields of its items have no places of their own.
pub open spec fn no_map_for_array(field: Field, value: OwnedValue) -> bool
    decreases field.sub_fields,
{
    match field.sub_fields {
        Some(subs) => value matches OwnedValue::Record(map) ==> {
            &&& !field.is_array
            &&& forall|i: int|
                0 <= i < subs@.len() ==> no_map_for_array(
                    #[trigger] subs@[i],
                    value_of(map.map@, subs@[i].name_id),
                )
        },
        None => true,
    }
}

proof fn lemma_apart_concat(
    p: Seq<Inst>,
    q: Seq<Inst>,
    lo: int,
    mid: int,
    hi: int,
    tail: int,
    turn: int,
    end: int,
)
    requires
        apart(p),
        apart(q),
        all_kept_to(p, lo, mid, tail, turn),
        all_kept_to(q, mid, hi, turn, end),
        lo <= mid <= hi <= tail <= turn <= end,
    ensures
        apart(p + q),
        all_kept_to(p + q, lo, hi, tail, end),
{
    let all = p + q;
    assert forall|k: int| 0 <= k < all.len() implies kept_to(#[trigger] all[k], lo, hi, tail, end) by {
        if k < p.len() {
            assert(kept_to(p[k], lo, mid, tail, turn));
        } else {
            assert(kept_to(q[k - p.len()], mid, hi, turn, end));
        }
    }
    assert forall|i: int, j: int| 0 <= i < j < all.len() implies disjoint(
        #[trigger] all[i],
        #[trigger] all[j],
    ) by {
        if j < p.len() {
            assert(disjoint(p[i], p[j]));
        } else if i >= p.len() {
            assert(disjoint(q[i - p.len()], q[j - p.len()]));
        } else {
            assert(kept_to(p[i], lo, mid, tail, turn));
            assert(kept_to(q[j - p.len()], mid, hi, turn, end));
        }
    }
}

/// A field of the fixed part that has its place: what is written for it stays within the field's
/// space and behind the tail, no two values share a byte, and no place is missing.
pub proof fn lemma_field_apart(
    types: BasicTypes,
    tail: int,
    before: Field,
    field: Field,
    at: int,
    value: OwnedValue,
)
    requires
        placed(before, field, at),
        0 <= at,
        at + width(before) <= tail,
        at + width(before) <= usize::MAX,
        no_map_for_array(field, value),
        suits(field, field.is_array, value),
    ensures
        ({
            let plan = plan_field(types, tail, field, field.is_array, value, false);
            &&& apart(plan.ins)
            &&& tail <= plan.tail
            &&& all_kept_to(plan.ins, at, at + width(before), tail, plan.tail)
            &&& !plan.stuck
        }),
    decreases field.sub_fields, 1nat, 0nat,
{
    let arr = field.is_array;
    let plan = plan_field(types, tail, field, arr, value, false);
    lemma_width_positive(before);
    match field.sub_fields {
        Some(subs) => match value {
            OwnedValue::Record(map) => {
                let subs0 = before.sub_fields->0@;
                let start = at + null_width(before);
                assert forall|i: int| 0 <= i < subs@.len() implies placed(
                    subs0[i],
                    #[trigger] subs@[i],
                    start + widths(subs0, i as nat),
                ) by {
                    assert(field.sub_fields->0@[i] == subs@[i]);
                }
                lemma_subs_apart(types, tail, subs0, subs@, subs@.len(), start, map.map@);
                lemma_widths_grow(subs0, 0, subs0.len());
                let hi = start + widths(subs0, subs0.len());
                assert forall|k: int| 0 <= k < plan.ins.len() implies kept_to(
                    #[trigger] plan.ins[k],
                    at,
                    at + width(before),
                    tail,
                    plan.tail,
                ) by {
                    assert(kept_to(plan.ins[k], start, hi, tail, plan.tail));
                }
            },
            OwnedValue::Array(_) => if arr {
                lemma_tail_apart(types, tail, before, field, at, value);
            },
            _ => {},
        },
        None => if arr || field.data_type.size is None {
            lemma_tail_apart(types, tail, before, field, at, value);
        } else {
            let there = plan_at(types, at, field, arr, value);
            lemma_at_tiled(types, at, field, arr, value);
            lemma_tiled_apart(there.ins, at, there.tail);
            assert(there.tail <= at + width(before));
            assert forall|k: int| 0 <= k < plan.ins.len() implies kept_to(
                #[trigger] plan.ins[k],
                at,
                at + width(before),
                tail,
                plan.tail,
            ) by {
                assert(at <= there.ins[k].offset);
            }
        },
    }
}

proof fn lemma_tail_apart(
    types: BasicTypes,
    tail: int,
    before: Field,
    field: Field,
    at: int,
    value: OwnedValue,
)
    requires
        placed(before, field, at),
        0 <= at,
        at + width(before) <= tail,
        at + width(before) <= usize::MAX,
        field.is_array || (field.data_type.size is None && field.sub_fields is None),
        suits(field, field.is_array, value),
        field.sub_fields is Some ==> value is Array,
    ensures
        ({
            let plan = plan_tail(types, tail, field, field.is_array, value, false);
            &&& apart(plan.ins)
            &&& tail <= plan.tail
            &&& all_kept_to(plan.ins, at, at + width(before), tail, plan.tail)
            &&& !plan.stuck
        }),
{
    let arr = field.is_array;
    let plan = plan_tail(types, tail, field, arr, value, false);
    let rest = plan_at(types, tail, field, arr, value);
    lemma_at_tiled(types, tail, field, arr, value);
    lemma_tiled_apart(rest.ins, tail, rest.tail);
    let jump = Inst {
        ty: types.length,
        val: OwnedValue::U32((tail as usize) as u32),
        offset: at,
    };
    let hi = at + width(before);
    assert(stored(jump.val).len() == 4);
    assert(seq![jump][0] == jump);
    assert forall|k: int| 0 <= k < rest.ins.len() implies kept_to(
        #[trigger] rest.ins[k],
        hi,
        hi,
        tail,
        rest.tail,
    ) by {
        assert(tail <= rest.ins[k].offset);
    }
    lemma_apart_concat(seq![jump], rest.ins, at, hi, hi, tail, tail, rest.tail);
}

pub proof fn lemma_subs_apart(
    types: BasicTypes,
    tail: int,
    before: Seq<Field>,
    subs: Seq<Field>,
    n: nat,
    start: int,
    entries: Seq<(u64, OwnedValue)>,
)
    requires
        n <= subs.len() == before.len(),
        forall|i: int|
            0 <= i < subs.len() ==> placed(
                before[i],
                #[trigger] subs[i],
                start + widths(before, i as nat),
            ),
        0 <= start,
        start + widths(before, before.len()) <= tail,
        start + widths(before, before.len()) <= usize::MAX,
        forall|i: int|
            0 <= i < subs.len() ==> no_map_for_array(
                #[trigger] subs[i],
                value_of(entries, subs[i].name_id),
            ),
        forall|i: int|
            0 <= i < subs.len() ==> suits(
                #[trigger] subs[i],
                subs[i].is_array,
                value_of(entries, subs[i].name_id),
            ),
    ensures
        ({
            let plan = plan_subs(types, tail, subs, n, entries, false);
            &&& apart(plan.ins)
            &&& tail <= plan.tail
            &&& all_kept_to(plan.ins, start, start + widths(before, n), tail, plan.tail)
            &&& !plan.stuck
        }),
    decreases subs, 0nat, n,
{
    if n > 0 {
        let m = (n - 1) as nat;
        lemma_subs_apart(types, tail, before, subs, m, start, entries);
        lemma_widths_grow(before, 0, m);
        lemma_widths_grow(before, m, n);
        lemma_widths_grow(before, n, before.len());
        let head = plan_subs(types, tail, subs, m, entries, false);
        let mid = start + widths(before, m);
        let hi = start + widths(before, n);
        if head.stopped() {
            assert forall|k: int| 0 <= k < head.ins.len() implies kept_to(
                #[trigger] head.ins[k],
                start,
                hi,
                tail,
                head.tail,
            ) by {
                assert(kept_to(head.ins[k], start, mid, tail, head.tail));
            }
        } else {
            let sub = subs[m as int];
            let value = value_of(entries, sub.name_id);
            let mine = plan_field(types, head.tail, sub, sub.is_array, value, false);
            assert(decreases_to!(subs => subs[m as int]));
            assert(decreases_to!(subs[m as int] => subs[m as int].sub_fields));
            lemma_field_apart(types, head.tail, before[m as int], sub, mid, value);
            lemma_apart_concat(
                head.ins,
                mine.ins,
                start,
                mid,
                hi,
                tail,
                head.tail,
                mine.tail,
            );
        }
    }
}

/// Writing the value of a laid-out field: no byte is written twice, so that after the plan was
/// carried out each value that was planned is there to be read.
pub proof fn lemma_field_reads_back(
    types: BasicTypes,
    tail: int,
    before: Field,
    field: Field,
    value: OwnedValue,
    buffer: Seq<u8>,
    k: int,
)
    requires
        placed(before, field, 0),
        width(before) <= tail,
        width(before) <= usize::MAX,
        no_map_for_array(field, value),
        suits(field, field.is_array, value),
        plan_field(types, tail, field, field.is_array, value, false).tail <= buffer.len(),
        0 <= k < plan_field(types, tail, field, field.is_array, value, false).ins.len(),
    ensures
        ({
            let ins = plan_field(types, tail, field, field.is_array, value, false).ins;
            &&& inside(buffer.len(), ins[k])
            &&& executed(buffer, ins, ins.len()).subrange(ins[k].offset, end_of(ins[k])) == stored(
                ins[k].val,
            )
        }),
{
    let plan = plan_field(types, tail, field, field.is_array, value, false);
    lemma_field_apart(types, tail, before, field, 0, value);
    lemma_width_positive(before);
    assert forall|i: int| 0 <= i < plan.ins.len() implies inside(
        buffer.len(),
        #[trigger] plan.ins[i],
    ) by {
        assert(kept_to(plan.ins[i], 0, width(before), tail, plan.tail));
    }
    lemma_values_stay(buffer, plan.ins, k, plan.ins.len());
}

/// A type code tells which of the four kinds of value follows: none, an array of mixed values, an
/// array of values of one type, or a single value; and of the last two, of which type.
pub proof fn lemma_codes_differ(a: u8, b: u8)
    by (bit_vector)
    requires
        0 < a < NULL_PLACEHOLDER,
        0 < b < NULL_PLACEHOLDER,
    ensures
        NULL_PLACEHOLDER != ARRAY_TYPE_MASK,
        a != NULL_PLACEHOLDER && a != ARRAY_TYPE_MASK,
        (ARRAY_TYPE_MASK | a) != NULL_PLACEHOLDER && (ARRAY_TYPE_MASK | a) != ARRAY_TYPE_MASK,
        (ARRAY_TYPE_MASK | a) != b,
        a != b ==> (ARRAY_TYPE_MASK | a) != (ARRAY_TYPE_MASK | b),
{
}

} // verus!
