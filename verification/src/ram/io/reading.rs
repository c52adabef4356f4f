//! What the bytes of a cell say, told from the schema and the bytes alone; and that what was written
//! says so.
use super::layout::{
    apart, end_of, kept_to, lemma_at_tiled, lemma_field_apart, lemma_map_tiled, lemma_subs_apart,
    lemma_tiled_apart, lemma_value_tiled, lemma_values_stay, map_suits, name_suits, no_map_for_array, suits,
    value_suits,
};
use super::plan::{
    dynamic_entries, dynamic_names, follow, plan_at, plan_field, plan_items, plan_map, plan_names,
    plan_subs, plan_value, plan_values, put, put_code, put_length, put_null_mark, Inst, Plan,
    ARRAY_TYPE_MASK, NULL_PLACEHOLDER,
};
use super::writer::{executed, inside, plan_dynamic};
use crate::ram::schema::field::{
    lemma_width_positive, lemma_widths_grow, null_width, placed, same_field, width, widths, Field,
};
use crate::ram::types::{
    base_type_of, entry_of, lemma_entry_of, lemma_parts_smaller, same_value, stored, u32_bytes,
    value_of, vsize, BasicTypes, FieldName, OwnedValue,
};
use vstd::prelude::*;

verus! {

/// The number in four bytes, the lowest one first.
pub open spec fn number_at(bytes: Seq<u8>, at: int) -> int {
    bytes[at] + 256 * bytes[at + 1] + 65536 * bytes[at + 2] + 16777216 * bytes[at + 3]
}

/// The bytes from `at` to `end` are those of a plain value.
pub open spec fn plain_there(bytes: Seq<u8>, at: int, value: OwnedValue, end: int) -> bool {
    match value {
        OwnedValue::Bool(b) => end == at + 1 && bytes[at] == if b {
            1u8
        } else {
            0u8
        },
        OwnedValue::U8(x) => end == at + 1 && bytes[at] == x,
        OwnedValue::U32(x) => end == at + 4 && number_at(bytes, at) == x,
        OwnedValue::Prim(p) => end == at + p.bytes@.len() && bytes.subrange(at, end) == p.bytes@,
        OwnedValue::PrimArray(a) => end == at + a.bytes@.len() && bytes.subrange(at, end)
            == a.bytes@,
        _ => end == at,
    }
}

/// The four bytes at `at` tell the number of items, if it fits into them.
pub open spec fn count_there(bytes: Seq<u8>, at: int, n: nat) -> bool {
    n <= u32::MAX ==> number_at(bytes, at) == n
}

/// From `at` to `end` stands the value of a field: first, if it may be null, one byte that tells
/// whether it is; then an array with its length before it, or a plain value, or nothing for null.
pub open spec fn value_there(
    bytes: Seq<u8>,
    at: int,
    field: Field,
    arr: bool,
    value: OwnedValue,
    end: int,
) -> bool
    decreases field.sub_fields, if arr { 2nat } else { 0nat }, 0nat,
{
    let mid = if field.nullable {
        at + 1
    } else {
        at
    };
    &&& field.nullable ==> bytes[at] == if value is Null {
        1u8
    } else {
        0u8
    }
    &&& if arr {
        match value {
            OwnedValue::Array(items) => {
                &&& count_there(bytes, mid, items@.len())
                &&& items_there(bytes, mid + 4, field, items@, end)
            },
            OwnedValue::PrimArray(a) => {
                &&& count_there(bytes, mid, a.len as nat)
                &&& plain_there(bytes, mid + 4, value, end)
            },
            _ => false,
        }
    } else if value is Null {
        field.nullable && end == mid
    } else {
        plain_there(bytes, mid, value, end)
    }
}

/// Places from `at` to `end`: where each of `n` parts begins, and where the last one ends.
pub open spec fn spans(places: Seq<int>, n: nat, at: int, end: int) -> bool {
    places.len() == n + 1 && places[0] == at && places.last() == end
}

/// From `at` to `end` stand the items of an array, one behind the other.
pub open spec fn items_there(
    bytes: Seq<u8>,
    at: int,
    field: Field,
    items: Seq<OwnedValue>,
    end: int,
) -> bool
    decreases field.sub_fields, 1nat, 0nat,
{
    exists|places: Seq<int>| #[trigger]
        spans(places, items.len(), at, end) && forall|i: int|
            0 <= i < items.len() ==> row_there(
                bytes,
                places[i],
                field,
                false,
                #[trigger] items[i],
                places[i + 1],
            )
}

/// From `at` to `end` stands a field in the part of a cell that varies: its value, or those of its
/// sub-fields one behind the other.
pub open spec fn row_there(
    bytes: Seq<u8>,
    at: int,
    field: Field,
    arr: bool,
    value: OwnedValue,
    end: int,
) -> bool
    decreases field.sub_fields, if arr { 2nat } else { 0nat }, 2nat,
{
    match field.sub_fields {
        Some(subs) => match value {
            OwnedValue::Record(map) => subs_there(bytes, at, subs@, map.map@, end),
            OwnedValue::Array(_) => arr && value_there(bytes, at, field, arr, value, end),
            _ => false,
        },
        None => value_there(bytes, at, field, arr, value, end),
    }
}

/// From `at` to `end` stand the values of sub-fields, one behind the other, each the one under the
/// id of the sub-field's name.
pub open spec fn subs_there(
    bytes: Seq<u8>,
    at: int,
    subs: Seq<Field>,
    entries: Seq<(u64, OwnedValue)>,
    end: int,
) -> bool
    decreases subs, 0nat, 0nat,
{
    exists|places: Seq<int>| #[trigger]
        spans(places, subs.len(), at, end) && forall|i: int|
            0 <= i < subs.len() ==> row_there(
                bytes,
                places[i],
                #[trigger] subs[i],
                subs[i].is_array,
                value_of(entries, subs[i].name_id),
                places[i + 1],
            )
}

/// The value of a field of the fixed part can be found from the field's place: it stands there if
/// all values of the field take the same space; else the four bytes there tell where it begins. The
/// fields below a field are found in the same way.
pub open spec fn found_there(bytes: Seq<u8>, field: Field, value: OwnedValue) -> bool
    decreases field,
{
    let by_tag = field.is_array || (field.sub_fields is None && field.data_type.size is None);
    if field.sub_fields is Some && value is Record {
        forall|i: int|
            0 <= i < field.sub_fields->0@.len() ==> found_there(
                bytes,
                #[trigger] field.sub_fields->0@[i],
                value_of(value->Record_0.map@, field.sub_fields->0@[i].name_id),
            )
    } else {
        &&& field.offset is Some
        &&& field.sub_fields is Some ==> field.is_array && value is Array
        &&& exists|begin: int, end: int| #[trigger]
            value_there(bytes, begin, field, field.is_array, value, end) && begin == if by_tag {
                number_at(bytes, field.offset->0 as int)
            } else {
                field.offset->0 as int
            }
    }
}

/// Each value of the instructions is in the bytes, at its place.
spec fn carries(bytes: Seq<u8>, ins: Seq<Inst>) -> bool {
    forall|k: int|
        0 <= k < ins.len() ==> carried(bytes, #[trigger] ins[k])
}

spec fn carried(bytes: Seq<u8>, i: Inst) -> bool {
    &&& 0 <= i.offset
    &&& end_of(i) <= bytes.len()
    &&& bytes.subrange(i.offset, end_of(i)) == stored(i.val)
}

proof fn lemma_carries_parts(bytes: Seq<u8>, p: Seq<Inst>, q: Seq<Inst>)
    requires
        carries(bytes, p + q),
    ensures
        carries(bytes, p),
        carries(bytes, q),
{
    assert forall|k: int| 0 <= k < p.len() implies carried(bytes, #[trigger] p[k]) by {
        assert((p + q)[k] == p[k]);
    }
    assert forall|k: int| 0 <= k < q.len() implies carried(bytes, #[trigger] q[k]) by {
        assert((p + q)[p.len() + k] == q[k]);
    }
}

/// Four bytes give back the number that was written.
pub proof fn lemma_number_back(x: u32)
    ensures
        u32_bytes(x).len() == 4,
        number_at(u32_bytes(x), 0) == x,
{
    assert(x == (x % 256) + 256 * ((x / 256) % 256) + 65536 * ((x / 65536) % 256) + 16777216 * ((x
        / 16777216) % 256)) by (bit_vector);
}

/// The stored form of a plain value is read back as the value.
proof fn lemma_plain_back(bytes: Seq<u8>, i: Inst)
    requires
        carried(bytes, i),
    ensures
        plain_there(bytes, i.offset, i.val, end_of(i)),
{
    let s = bytes.subrange(i.offset, end_of(i));
    assert forall|k: int| 0 <= k < s.len() implies s[k] == bytes[i.offset + k] by {}
    match i.val {
        OwnedValue::Bool(_) => {
            assert(s[0] == bytes[i.offset]);
        },
        OwnedValue::U8(_) => {
            assert(s[0] == bytes[i.offset]);
        },
        OwnedValue::U32(x) => {
            lemma_number_back(x);
            assert(s[0] == bytes[i.offset]);
            assert(s[1] == bytes[i.offset + 1]);
            assert(s[2] == bytes[i.offset + 2]);
            assert(s[3] == bytes[i.offset + 3]);
        },
        _ => {},
    }
}

proof fn lemma_mark_back(bytes: Seq<u8>, types: BasicTypes, at: int, field: Field, value: OwnedValue)
    requires
        carries(bytes, put_null_mark(types, at, field, value).ins),
    ensures
        put_null_mark(types, at, field, value).tail == if field.nullable {
            at + 1
        } else {
            at
        },
        field.nullable ==> bytes[at] == if value is Null {
            1u8
        } else {
            0u8
        },
{
    let mark = put_null_mark(types, at, field, value);
    if field.nullable {
        assert(carried(bytes, mark.ins[0]));
        lemma_plain_back(bytes, mark.ins[0]);
    }
}

proof fn lemma_count_back(bytes: Seq<u8>, types: BasicTypes, at: int, n: usize)
    requires
        carries(bytes, put_length(types, at, n).ins),
    ensures
        count_there(bytes, at, n as nat),
        put_length(types, at, n).tail == at + 4,
{
    let p = put_length(types, at, n);
    assert(carried(bytes, p.ins[0]));
    lemma_plain_back(bytes, p.ins[0]);
}

/// The value of a field that was written at `at` stands there.
proof fn lemma_at_back(
    bytes: Seq<u8>,
    types: BasicTypes,
    at: int,
    field: Field,
    arr: bool,
    value: OwnedValue,
)
    requires
        carries(bytes, plan_at(types, at, field, arr, value).ins),
        !plan_at(types, at, field, arr, value).stopped(),
        suits(field, arr, value),
        field.sub_fields is Some ==> arr && value is Array,
    ensures
        value_there(
            bytes,
            at,
            field,
            arr,
            value,
            plan_at(types, at, field, arr, value).tail,
        ),
    decreases field.sub_fields, if arr { 2nat } else { 0nat }, 0nat,
{
    let plan = plan_at(types, at, field, arr, value);
    let mark = put_null_mark(types, at, field, value);
    if arr {
        match value {
            OwnedValue::Array(items) => {
                let len = put_length(types, mark.tail, items.len());
                let all = plan_items(types, len.tail, field, items@, items@.len());
                assert(plan == follow(mark, follow(len, all)));
                lemma_carries_parts(bytes, mark.ins, len.ins + all.ins);
                lemma_carries_parts(bytes, len.ins, all.ins);
                lemma_mark_back(bytes, types, at, field, value);
                lemma_count_back(bytes, types, mark.tail, items.len());
                let places = lemma_items_back(
                    bytes,
                    types,
                    len.tail,
                    field,
                    items@,
                    items@.len(),
                );
                assert(spans(places, items@.len(), len.tail, all.tail));
            },
            OwnedValue::PrimArray(array) => {
                let len = put_length(types, mark.tail, array.len);
                let own = put(len.tail, field.data_type, value, array.bytes@.len() as int);
                assert(plan == follow(mark, follow(len, own)));
                lemma_carries_parts(bytes, mark.ins, len.ins + own.ins);
                lemma_carries_parts(bytes, len.ins, own.ins);
                lemma_mark_back(bytes, types, at, field, value);
                lemma_count_back(bytes, types, mark.tail, array.len);
                assert(carried(bytes, own.ins[0]));
                lemma_plain_back(bytes, own.ins[0]);
            },
            _ => {},
        }
    } else if value is Null {
        assert(plan.ins =~= mark.ins);
        lemma_mark_back(bytes, types, at, field, value);
    } else {
        let own = put(mark.tail, field.data_type, value, vsize(field.data_type, value));
        assert(plan == follow(mark, own));
        lemma_carries_parts(bytes, mark.ins, own.ins);
        lemma_mark_back(bytes, types, at, field, value);
        assert(carried(bytes, own.ins[0]));
        lemma_plain_back(bytes, own.ins[0]);
    }
}

proof fn lemma_items_back(
    bytes: Seq<u8>,
    types: BasicTypes,
    at: int,
    field: Field,
    items: Seq<OwnedValue>,
    n: nat,
) -> (places: Seq<int>)
    requires
        n <= items.len(),
        carries(bytes, plan_items(types, at, field, items, n).ins),
        !plan_items(types, at, field, items, n).stopped(),
        forall|i: int| 0 <= i < items.len() ==> suits(field, false, #[trigger] items[i]),
    ensures
        spans(places, n, at, plan_items(types, at, field, items, n).tail),
        forall|i: int|
            0 <= i < n ==> row_there(
                bytes,
                places[i],
                field,
                false,
                #[trigger] items[i],
                places[i + 1],
            ),
    decreases field.sub_fields, 1nat, n,
{
    if n > 0 {
        let before = plan_items(types, at, field, items, (n - 1) as nat);
        let mine = plan_field(types, before.tail, field, false, items[n - 1], true);
        lemma_carries_parts(bytes, before.ins, mine.ins);
        let head = lemma_items_back(bytes, types, at, field, items, (n - 1) as nat);
        lemma_row_back(bytes, types, before.tail, field, false, items[n - 1]);
        let places = head.push(mine.tail);
        assert forall|i: int| 0 <= i < n implies row_there(
            bytes,
            places[i],
            field,
            false,
            #[trigger] items[i],
            places[i + 1],
        ) by {
            assert(places[i] == head[i]);
            if i < n - 1 {
                assert(places[i + 1] == head[i + 1]);
            }
        }
        places
    } else {
        seq![at]
    }
}

proof fn lemma_row_back(
    bytes: Seq<u8>,
    types: BasicTypes,
    at: int,
    field: Field,
    arr: bool,
    value: OwnedValue,
)
    requires
        carries(bytes, plan_field(types, at, field, arr, value, true).ins),
        !plan_field(types, at, field, arr, value, true).stopped(),
        suits(field, arr, value),
    ensures
        row_there(
            bytes,
            at,
            field,
            arr,
            value,
            plan_field(types, at, field, arr, value, true).tail,
        ),
    decreases field.sub_fields, if arr { 2nat } else { 0nat }, 2nat,
{
    match field.sub_fields {
        Some(subs) => match value {
            OwnedValue::Record(map) => {
                let places = lemma_subs_back(bytes, types, at, subs@, subs@.len(), map.map@);
                assert(spans(
                    places,
                    subs@.len(),
                    at,
                    plan_field(types, at, field, arr, value, true).tail,
                ));
            },
            OwnedValue::Array(_) => if arr {
                lemma_at_back(bytes, types, at, field, arr, value);
            },
            _ => {},
        },
        None => {
            lemma_at_back(bytes, types, at, field, arr, value);
        },
    }
}

proof fn lemma_subs_back(
    bytes: Seq<u8>,
    types: BasicTypes,
    at: int,
    subs: Seq<Field>,
    n: nat,
    entries: Seq<(u64, OwnedValue)>,
) -> (places: Seq<int>)
    requires
        n <= subs.len(),
        carries(bytes, plan_subs(types, at, subs, n, entries, true).ins),
        !plan_subs(types, at, subs, n, entries, true).stopped(),
        forall|i: int|
            0 <= i < subs.len() ==> suits(
                #[trigger] subs[i],
                subs[i].is_array,
                value_of(entries, subs[i].name_id),
            ),
    ensures
        spans(places, n, at, plan_subs(types, at, subs, n, entries, true).tail),
        forall|i: int|
            0 <= i < n ==> row_there(
                bytes,
                places[i],
                #[trigger] subs[i],
                subs[i].is_array,
                value_of(entries, subs[i].name_id),
                places[i + 1],
            ),
    decreases subs, 0nat, n,
{
    if n > 0 {
        let m = (n - 1) as nat;
        let before = plan_subs(types, at, subs, m, entries, true);
        let sub = subs[m as int];
        let value = value_of(entries, sub.name_id);
        let mine = plan_field(types, before.tail, sub, sub.is_array, value, true);
        lemma_carries_parts(bytes, before.ins, mine.ins);
        let head = lemma_subs_back(bytes, types, at, subs, m, entries);
        assert(decreases_to!(subs => subs[m as int]));
        assert(decreases_to!(subs[m as int] => subs[m as int].sub_fields));
        lemma_row_back(bytes, types, before.tail, sub, sub.is_array, value);
        let places = head.push(mine.tail);
        assert forall|i: int| 0 <= i < n implies row_there(
            bytes,
            places[i],
            #[trigger] subs[i],
            subs[i].is_array,
            value_of(entries, subs[i].name_id),
            places[i + 1],
        ) by {
            assert(places[i] == head[i]);
            if i < m {
                assert(places[i + 1] == head[i + 1]);
            }
        }
        places
    } else {
        seq![at]
    }
}

/// The value of a field that was written is found from the field's place.
proof fn lemma_found_back(
    bytes: Seq<u8>,
    types: BasicTypes,
    tail: int,
    before: Field,
    field: Field,
    at: int,
    value: OwnedValue,
)
    requires
        placed(before, field, at),
        0 <= at,
        at + width(before) <= tail,
        at + width(before) <= usize::MAX,
        no_map_for_array(field, value),
        suits(field, field.is_array, value),
        carries(bytes, plan_field(types, tail, field, field.is_array, value, false).ins),
        plan_field(types, tail, field, field.is_array, value, false).bad is None,
        plan_field(types, tail, field, field.is_array, value, false).tail <= u32::MAX,
    ensures
        found_there(bytes, field, value),
    decreases field.sub_fields, 1nat, 0nat,
{
    let arr = field.is_array;
    let plan = plan_field(types, tail, field, arr, value, false);
    lemma_field_apart(types, tail, before, field, at, value);
    lemma_width_positive(before);
    if field.sub_fields is Some && value is Record {
        let subs = field.sub_fields->0;
        let map = value->Record_0;
        let subs0 = before.sub_fields->0@;
        let start = at + null_width(before);
        assert forall|i: int| 0 <= i < subs@.len() implies placed(
            subs0[i],
            #[trigger] subs@[i],
            start + widths(subs0, i as nat),
        ) by {
            assert(field.sub_fields->0@[i] == subs@[i]);
        }
        lemma_subs_found(bytes, types, tail, subs0, subs@, subs@.len(), start, map.map@);
    } else if arr || field.data_type.size is None || field.sub_fields is Some {
        let rest = plan_at(types, tail, field, arr, value);
        let jump = seq![
            Inst {
                ty: types.length,
                val: OwnedValue::U32((tail as usize) as u32),
                offset: at,
            },
        ];
        assert(plan.ins =~= jump + rest.ins);
        lemma_carries_parts(bytes, jump, rest.ins);
        assert(carried(bytes, jump[0]));
        lemma_plain_back(bytes, jump[0]);
        lemma_at_back(bytes, types, tail, field, arr, value);
        assert(number_at(bytes, at) == tail);
        assert(value_there(bytes, number_at(bytes, at), field, arr, value, rest.tail));
    } else {
        let there = plan_at(types, at, field, arr, value);
        lemma_at_tiled(types, at, field, arr, value);
        lemma_at_back(bytes, types, at, field, arr, value);
        assert(value_there(bytes, field.offset->0 as int, field, arr, value, there.tail));
    }
}

proof fn lemma_subs_found(
    bytes: Seq<u8>,
    types: BasicTypes,
    tail: int,
    before: Seq<Field>,
    subs: Seq<Field>,
    n: nat,
    start: int,
    entries: Seq<(u64, OwnedValue)>,
)
    requires
        n <= subs.len() == before.len(),
        forall|i: int|
            0 <= i < subs.len() ==> placed(
                before[i],
                #[trigger] subs[i],
                start + widths(before, i as nat),
            ),
        0 <= start,
        start + widths(before, before.len()) <= tail,
        start + widths(before, before.len()) <= usize::MAX,
        forall|i: int|
            0 <= i < subs.len() ==> no_map_for_array(
                #[trigger] subs[i],
                value_of(entries, subs[i].name_id),
            ),
        forall|i: int|
            0 <= i < subs.len() ==> suits(
                #[trigger] subs[i],
                subs[i].is_array,
                value_of(entries, subs[i].name_id),
            ),
        carries(bytes, plan_subs(types, tail, subs, n, entries, false).ins),
        plan_subs(types, tail, subs, n, entries, false).bad is None,
        plan_subs(types, tail, subs, n, entries, false).tail <= u32::MAX,
    ensures
        forall|i: int|
            0 <= i < n ==> found_there(
                bytes,
                #[trigger] subs[i],
                value_of(entries, subs[i].name_id),
            ),
    decreases subs, 0nat, n,
{
    if n > 0 {
        let m = (n - 1) as nat;
        let head = plan_subs(types, tail, subs, m, entries, false);
        lemma_subs_apart(types, tail, before, subs, m, start, entries);
        lemma_widths_grow(before, 0, m);
        lemma_widths_grow(before, m, n);
        lemma_widths_grow(before, n, before.len());
        let sub = subs[m as int];
        let value = value_of(entries, sub.name_id);
        let mine = plan_field(types, head.tail, sub, sub.is_array, value, false);
        let mid = start + widths(before, m);
        assert(decreases_to!(subs => subs[m as int]));
        assert(decreases_to!(subs[m as int] => subs[m as int].sub_fields));
        lemma_field_apart(types, head.tail, before[m as int], sub, mid, value);
        lemma_carries_parts(bytes, head.ins, mine.ins);
        lemma_subs_found(bytes, types, tail, before, subs, m, start, entries);
        lemma_found_back(bytes, types, head.tail, before[m as int], sub, mid, value);
    }
}

/// What was written for a laid-out root is there to be read: with the schema, the value of each
/// field is found in the bytes. Before each value that may be null stands one byte that tells whether
/// it is, before each array its length, and at the place of a field whose values take different space
/// where its value begins.
pub proof fn lemma_cell_reads_back(
    types: BasicTypes,
    tail: int,
    before: Field,
    field: Field,
    value: OwnedValue,
    buffer: Seq<u8>,
)
    requires
        placed(before, field, 0),
        width(before) <= tail,
        width(before) <= usize::MAX,
        no_map_for_array(field, value),
        suits(field, field.is_array, value),
        plan_field(types, tail, field, field.is_array, value, false).bad is None,
        plan_field(types, tail, field, field.is_array, value, false).tail <= buffer.len(),
        plan_field(types, tail, field, field.is_array, value, false).tail <= u32::MAX,
    ensures
        ({
            let ins = plan_field(types, tail, field, field.is_array, value, false).ins;
            found_there(executed(buffer, ins, ins.len()), field, value)
        }),
{
    let plan = plan_field(types, tail, field, field.is_array, value, false);
    lemma_field_apart(types, tail, before, field, 0, value);
    lemma_width_positive(before);
    assert forall|i: int| 0 <= i < plan.ins.len() implies inside(
        buffer.len(),
        #[trigger] plan.ins[i],
    ) by {
        assert(kept_to(plan.ins[i], 0, width(before), tail, plan.tail));
    }
    lemma_carried_out(buffer, plan.ins);
    lemma_found_back(
        executed(buffer, plan.ins, plan.ins.len()),
        types,
        tail,
        before,
        field,
        0,
        value,
    );
}

proof fn lemma_carried_out(buffer: Seq<u8>, ins: Seq<Inst>)
    requires
        apart(ins),
        forall|i: int| 0 <= i < ins.len() ==> inside(buffer.len(), #[trigger] ins[i]),
    ensures
        carries(executed(buffer, ins, ins.len()), ins),
{
    let bytes = executed(buffer, ins, ins.len());
    assert forall|k: int| 0 <= k < ins.len() implies carried(bytes, #[trigger] ins[k]) by {
        lemma_values_stay(buffer, ins, k, ins.len());
        assert(inside(buffer.len(), ins[k]));
    }
}

/// The value goes with the field: a field with sub-fields takes a map whose values go with them, an
/// array takes items that go with it, and only what may be null takes null.
pub open spec fn goes_with(field: Field, arr: bool, value: OwnedValue) -> bool
    decreases field.sub_fields, if arr { 1nat } else { 0nat },
{
    match field.sub_fields {
        Some(subs) => match value {
            OwnedValue::Record(map) => forall|i: int|
                0 <= i < subs@.len() ==> goes_with(
                    #[trigger] subs@[i],
                    subs@[i].is_array,
                    value_of(map.map@, subs@[i].name_id),
                ),
            OwnedValue::Array(items) => arr && forall|i: int|
                0 <= i < items@.len() ==> goes_with(field, false, #[trigger] items@[i]),
            _ => false,
        },
        None => if arr {
            match value {
                OwnedValue::Array(items) => forall|i: int|
                    0 <= i < items@.len() ==> goes_with(field, false, #[trigger] items@[i]),
                OwnedValue::PrimArray(_) => true,
                _ => false,
            }
        } else {
            value is Null ==> field.nullable
        },
    }
}

/// The plan is refused just if `good` is false, and then it names a field and a value that does not
/// go with it.
spec fn refused_unless(plan: Plan, good: bool) -> bool {
    &&& plan.bad is None <==> good
    &&& plan.bad matches Some((f, v)) ==> !goes_with(f, f.is_array, v)
}

proof fn lemma_at_refused(types: BasicTypes, at: int, field: Field, arr: bool, value: OwnedValue)
    requires
        !plan_at(types, at, field, arr, value).stuck,
        field.sub_fields is Some ==> arr && value is Array,
    ensures
        refused_unless(plan_at(types, at, field, arr, value), goes_with(field, arr, value)),
    decreases field.sub_fields, if arr { 2nat } else { 0nat }, 0nat,
{
    let mark = put_null_mark(types, at, field, value);
    if arr {
        match value {
            OwnedValue::Array(items) => {
                let len = put_length(types, mark.tail, items.len());
                lemma_items_refused(types, len.tail, field, items@, items@.len());
            },
            _ => {},
        }
    }
}

proof fn lemma_items_refused(
    types: BasicTypes,
    at: int,
    field: Field,
    items: Seq<OwnedValue>,
    n: nat,
)
    requires
        n <= items.len(),
        !plan_items(types, at, field, items, n).stuck,
    ensures
        refused_unless(
            plan_items(types, at, field, items, n),
            forall|i: int| 0 <= i < n ==> goes_with(field, false, #[trigger] items[i]),
        ),
    decreases field.sub_fields, 1nat, n,
{
    if n > 0 {
        let before = plan_items(types, at, field, items, (n - 1) as nat);
        lemma_items_refused(types, at, field, items, (n - 1) as nat);
        if before.stopped() {
            assert(!forall|i: int| 0 <= i < n - 1 ==> goes_with(field, false, #[trigger] items[i]));
        } else {
            lemma_field_refused(types, before.tail, field, false, items[n - 1], true);
            assert forall|i: int| 0 <= i < n && goes_with(field, false, items[n - 1]) implies goes_with(
                field,
                false,
                #[trigger] items[i],
            ) by {
                if i < n - 1 {
                    assert(goes_with(field, false, items[i]));
                }
            }
        }
    }
}

/// A value is refused just if it does not go with its field; the refusal names a field, there or
/// below, with the value that does not go with it.
pub proof fn lemma_field_refused(
    types: BasicTypes,
    tail: int,
    field: Field,
    arr: bool,
    value: OwnedValue,
    is_var: bool,
)
    requires
        !plan_field(types, tail, field, arr, value, is_var).stuck,
    ensures
        ({
            let bad = plan_field(types, tail, field, arr, value, is_var).bad;
            &&& bad is None <==> goes_with(field, arr, value)
            &&& bad matches Some((f, v)) ==> !goes_with(f, f.is_array, v)
        }),
    decreases field.sub_fields, if arr { 2nat } else { 0nat }, 2nat,
{
    match field.sub_fields {
        Some(subs) => match value {
            OwnedValue::Record(map) => {
                lemma_subs_refused(types, tail, subs@, subs@.len(), map.map@, is_var);
            },
            OwnedValue::Array(_) => if arr {
                lemma_at_refused(types, tail, field, arr, value);
            },
            _ => {},
        },
        None => if arr || field.data_type.size is None || is_var {
            lemma_at_refused(types, tail, field, arr, value);
        } else {
            lemma_at_refused(types, field.offset->0 as int, field, arr, value);
        },
    }
}

proof fn lemma_subs_refused(
    types: BasicTypes,
    tail: int,
    subs: Seq<Field>,
    n: nat,
    entries: Seq<(u64, OwnedValue)>,
    is_var: bool,
)
    requires
        n <= subs.len(),
        !plan_subs(types, tail, subs, n, entries, is_var).stuck,
    ensures
        refused_unless(
            plan_subs(types, tail, subs, n, entries, is_var),
            forall|i: int|
                0 <= i < n ==> goes_with(
                    #[trigger] subs[i],
                    subs[i].is_array,
                    value_of(entries, subs[i].name_id),
                ),
        ),
    decreases subs, 0nat, n,
{
    if n > 0 {
        let m = (n - 1) as nat;
        let before = plan_subs(types, tail, subs, m, entries, is_var);
        lemma_subs_refused(types, tail, subs, m, entries, is_var);
        let sub = subs[m as int];
        let value = value_of(entries, sub.name_id);
        if before.stopped() {
            assert(!forall|i: int|
                0 <= i < m ==> goes_with(
                    #[trigger] subs[i],
                    subs[i].is_array,
                    value_of(entries, subs[i].name_id),
                ));
        } else {
            assert(decreases_to!(subs => subs[m as int]));
            assert(decreases_to!(subs[m as int] => subs[m as int].sub_fields));
            lemma_field_refused(types, before.tail, sub, sub.is_array, value, is_var);
            assert forall|i: int|
                0 <= i < n && goes_with(sub, sub.is_array, value) implies goes_with(
                #[trigger] subs[i],
                subs[i].is_array,
                value_of(entries, subs[i].name_id),
            ) by {
                if i < m {
                    assert(goes_with(subs[i], subs[i].is_array, value_of(entries, subs[i].name_id)));
                }
            }
        }
    }
}

/// From `at` to `end` stands a value that no field tells about. Its first byte tells what it is: no
/// value, an array of values, an array of values of one type, a map, or a plain value of a type.
pub open spec fn dynamic_there(
    types: BasicTypes,
    bytes: Seq<u8>,
    at: int,
    value: OwnedValue,
    end: int,
) -> bool
    decreases value, 1nat,
{
    match value {
        OwnedValue::Null => bytes[at] == 0x40 && end == at + 1,
        OwnedValue::NA => bytes[at] == 0x40 && end == at + 1,
        OwnedValue::Array(items) => {
            &&& bytes[at] == 0x80
            &&& count_there(bytes, at + 1, items@.len())
            &&& exists|places: Seq<int>| #[trigger]
                spans(places, items@.len(), at + 5, end) && forall|i: int|
                    0 <= i < items@.len() ==> dynamic_there(
                        types,
                        bytes,
                        places[i],
                        #[trigger] items@[i],
                        places[i + 1],
                    )
        },
        OwnedValue::PrimArray(a) => {
            &&& bytes[at] == 0x80u8 | a.ty.id
            &&& count_there(bytes, at + 1, a.len as nat)
            &&& plain_there(bytes, at + 5, value, end)
        },
        OwnedValue::Record(map) => map_there(types, bytes, at, map.fields@, map.map@, end),
        OwnedValue::Bool(_) => bytes[at] == types.boolean.id && plain_there(bytes, at + 1, value, end),
        OwnedValue::U8(_) => bytes[at] == types.type_code.id && plain_there(bytes, at + 1, value, end),
        OwnedValue::U32(_) => bytes[at] == types.length.id && plain_there(bytes, at + 1, value, end),
        OwnedValue::Prim(p) => bytes[at] == p.ty.id && plain_there(bytes, at + 1, value, end),
    }
}

/// From `at` to `end` stands a map: the byte of the type of maps, the number of names, and each name
/// with the value that is found under the name's id.
pub open spec fn map_there(
    types: BasicTypes,
    bytes: Seq<u8>,
    at: int,
    names: Seq<FieldName>,
    entries: Seq<(u64, OwnedValue)>,
    end: int,
) -> bool
    decreases entries, 0nat,
{
    &&& bytes[at] == types.map.id
    &&& count_there(bytes, at + 1, names.len())
    &&& exists|places: Seq<int>, values: Seq<int>, which: Seq<int>| #[trigger]
        spans(places, names.len(), at + 5, end) && #[trigger] picks(which, names, entries)
            && #[trigger] values.len() == names.len() && forall|i: int|
            0 <= i < names.len() ==> {
                &&& plain_there(bytes, places[i], (#[trigger] names[i]).value, values[i])
                &&& 0 <= which[i] < entries.len()
                &&& dynamic_there(types, bytes, values[i], entries[which[i]].1, places[i + 1])
            }
}

/// For each name the first entry under its id.
pub open spec fn picks(
    which: Seq<int>,
    names: Seq<FieldName>,
    entries: Seq<(u64, OwnedValue)>,
) -> bool {
    &&& which.len() == names.len()
    &&& forall|i: int|
        0 <= i < names.len() ==> {
            &&& 0 <= #[trigger] which[i] < entries.len()
            &&& entries[which[i]].0 == names[i].id
            &&& forall|j: int| 0 <= j < which[i] ==> (#[trigger] entries[j]).0 != names[i].id
        }
}

proof fn lemma_code_back(bytes: Seq<u8>, types: BasicTypes, at: int, code: u8)
    requires
        carries(bytes, put_code(types, at, code).ins),
    ensures
        bytes[at] == code,
        put_code(types, at, code).tail == at + 1,
{
    let p = put_code(types, at, code);
    assert(carried(bytes, p.ins[0]));
    lemma_plain_back(bytes, p.ins[0]);
}

proof fn lemma_dynamic_back(bytes: Seq<u8>, types: BasicTypes, at: int, value: OwnedValue)
    requires
        value_suits(types, value),
        carries(bytes, plan_value(types, at, value).ins),
        !plan_value(types, at, value).stopped(),
    ensures
        dynamic_there(types, bytes, at, value, plan_value(types, at, value).tail),
    decreases value, 1nat, 0nat,
{
    let plan = plan_value(types, at, value);
    match value {
        OwnedValue::Array(items) => {
            lemma_parts_smaller(value);
            let code = put_code(types, at, ARRAY_TYPE_MASK);
            let len = put_length(types, code.tail, items.len());
            let all = plan_values(types, len.tail, items@, items@.len());
            assert(plan == follow(follow(code, len), all));
            lemma_carries_parts(bytes, code.ins + len.ins, all.ins);
            lemma_carries_parts(bytes, code.ins, len.ins);
            lemma_code_back(bytes, types, at, ARRAY_TYPE_MASK);
            lemma_count_back(bytes, types, code.tail, items.len());
            let places = lemma_dynamics_back(bytes, types, len.tail, items@, items@.len());
            assert(spans(places, items@.len(), at + 5, all.tail));
        },
        OwnedValue::PrimArray(array) => {
            let code = put_code(types, at, ARRAY_TYPE_MASK | array.ty.id);
            let len = put_length(types, code.tail, array.len);
            let own = put(len.tail, array.ty, value, array.bytes@.len() as int);
            assert(plan == follow(follow(code, len), own));
            lemma_carries_parts(bytes, code.ins + len.ins, own.ins);
            lemma_carries_parts(bytes, code.ins, len.ins);
            lemma_code_back(bytes, types, at, ARRAY_TYPE_MASK | array.ty.id);
            lemma_count_back(bytes, types, code.tail, array.len);
            assert(carried(bytes, own.ins[0]));
            lemma_plain_back(bytes, own.ins[0]);
        },
        OwnedValue::Record(map) => {
            lemma_parts_smaller(value);
            assert(map.fields@.len() == map.fields.len());
            lemma_map_back(bytes, types, at, map.fields@, map.map@);
        },
        OwnedValue::Null => {
            lemma_code_back(bytes, types, at, NULL_PLACEHOLDER);
        },
        OwnedValue::NA => {
            lemma_code_back(bytes, types, at, NULL_PLACEHOLDER);
        },
        _ => {
            let ty = base_type_of(value, types);
            let code = put_code(types, at, ty.id);
            let own = put(code.tail, ty, value, vsize(ty, value));
            assert(plan == follow(code, own));
            lemma_carries_parts(bytes, code.ins, own.ins);
            lemma_code_back(bytes, types, at, ty.id);
            assert(carried(bytes, own.ins[0]));
            lemma_plain_back(bytes, own.ins[0]);
        },
    }
}

proof fn lemma_dynamics_back(
    bytes: Seq<u8>,
    types: BasicTypes,
    at: int,
    items: Seq<OwnedValue>,
    n: nat,
) -> (places: Seq<int>)
    requires
        n <= items.len(),
        forall|i: int| 0 <= i < items.len() ==> value_suits(types, #[trigger] items[i]),
        carries(bytes, plan_values(types, at, items, n).ins),
        !plan_values(types, at, items, n).stopped(),
    ensures
        spans(places, n, at, plan_values(types, at, items, n).tail),
        forall|i: int|
            0 <= i < n ==> dynamic_there(
                types,
                bytes,
                places[i],
                #[trigger] items[i],
                places[i + 1],
            ),
    decreases items, 0nat, n,
{
    if n > 0 {
        let before = plan_values(types, at, items, (n - 1) as nat);
        let mine = plan_value(types, before.tail, items[n - 1]);
        lemma_carries_parts(bytes, before.ins, mine.ins);
        let head = lemma_dynamics_back(bytes, types, at, items, (n - 1) as nat);
        assert(decreases_to!(items => items[n - 1]));
        lemma_dynamic_back(bytes, types, before.tail, items[n - 1]);
        let places = head.push(mine.tail);
        assert forall|i: int| 0 <= i < n implies dynamic_there(
            types,
            bytes,
            places[i],
            #[trigger] items[i],
            places[i + 1],
        ) by {
            assert(places[i] == head[i]);
            if i < n - 1 {
                assert(places[i + 1] == head[i + 1]);
            }
        }
        places
    } else {
        seq![at]
    }
}

proof fn lemma_map_back(
    bytes: Seq<u8>,
    types: BasicTypes,
    at: int,
    names: Seq<FieldName>,
    entries: Seq<(u64, OwnedValue)>,
)
    requires
        names.len() <= usize::MAX,
        map_suits(types, names, entries),
        carries(bytes, plan_map(types, at, names, entries).ins),
        !plan_map(types, at, names, entries).stopped(),
    ensures
        map_there(types, bytes, at, names, entries, plan_map(types, at, names, entries).tail),
    decreases entries, 1nat, 0nat,
{
    let plan = plan_map(types, at, names, entries);
    let code = put_code(types, at, types.map.id);
    let len = put_length(types, code.tail, names.len() as usize);
    let all = plan_names(types, len.tail, names, entries, names.len());
    assert(plan == follow(follow(code, len), all));
    lemma_carries_parts(bytes, code.ins + len.ins, all.ins);
    lemma_carries_parts(bytes, code.ins, len.ins);
    lemma_code_back(bytes, types, at, types.map.id);
    lemma_count_back(bytes, types, code.tail, names.len() as usize);
    let (places, values) = lemma_names_back(bytes, types, len.tail, names, entries, names.len());
    let which = Seq::new(names.len(), |i: int| entry_of(entries, names[i].id));
    assert(spans(places, names.len(), at + 5, all.tail));
    assert forall|i: int| 0 <= i < names.len() implies {
        &&& 0 <= #[trigger] which[i] < entries.len()
        &&& entries[which[i]].0 == names[i].id
        &&& forall|j: int| 0 <= j < which[i] ==> (#[trigger] entries[j]).0 != names[i].id
    } by {
        lemma_entry_of(entries, names[i].id);
        assert(names[i] == names[i]);
    }
    assert(picks(which, names, entries));
    assert(values.len() == names.len());
}

proof fn lemma_names_back(
    bytes: Seq<u8>,
    types: BasicTypes,
    at: int,
    names: Seq<FieldName>,
    entries: Seq<(u64, OwnedValue)>,
    n: nat,
) -> (r: (Seq<int>, Seq<int>))
    requires
        n <= names.len(),
        map_suits(types, names, entries),
        carries(bytes, plan_names(types, at, names, entries, n).ins),
        !plan_names(types, at, names, entries, n).stopped(),
    ensures
        spans(r.0, n, at, plan_names(types, at, names, entries, n).tail),
        r.1.len() == n,
        forall|i: int|
            0 <= i < n ==> {
                let k = entry_of(entries, (#[trigger] names[i]).id);
                &&& plain_there(bytes, r.0[i], names[i].value, r.1[i])
                &&& 0 <= k < entries.len()
                &&& dynamic_there(types, bytes, r.1[i], entries[k].1, r.0[i + 1])
            },
    decreases entries, 0nat, n,
{
    if n > 0 {
        let m = (n - 1) as nat;
        let before = plan_names(types, at, names, entries, m);
        let name = names[m as int].value;
        let ty = base_type_of(name, types);
        let own = put(before.tail, ty, name, vsize(ty, name));
        let head = follow(before, own);
        let k = entry_of(entries, names[m as int].id);
        lemma_entry_of(entries, names[m as int].id);
        assert(k < entries.len());
        let mine = plan_value(types, head.tail, entries[k].1);
        assert(name_suits(types, names[m as int]));
        lemma_carries_parts(bytes, head.ins, mine.ins);
        lemma_carries_parts(bytes, before.ins, own.ins);
        let r = lemma_names_back(bytes, types, at, names, entries, m);
        assert(carried(bytes, own.ins[0]));
        lemma_plain_back(bytes, own.ins[0]);
        assert(decreases_to!(entries => entries[k]));
        assert(decreases_to!(entries[k] => entries[k].1));
        lemma_dynamic_back(bytes, types, head.tail, entries[k].1);
        let places = r.0.push(mine.tail);
        let values = r.1.push(head.tail);
        assert forall|i: int| 0 <= i < n implies {
            let k = entry_of(entries, (#[trigger] names[i]).id);
            &&& plain_there(bytes, places[i], names[i].value, values[i])
            &&& 0 <= k < entries.len()
            &&& dynamic_there(types, bytes, values[i], entries[k].1, places[i + 1])
        } by {
            assert(places[i] == r.0[i]);
            if i < m {
                assert(places[i + 1] == r.0[i + 1]);
                assert(values[i] == r.1[i]);
            }
        }
        (places, values)
    } else {
        (seq![at], Seq::empty())
    }
}

/// What was written for a value that no field tells about is there to be read.
pub proof fn lemma_dynamic_reads_back(types: BasicTypes, at: int, value: OwnedValue, buffer: Seq<u8>)
    requires
        0 <= at,
        value_suits(types, value),
        !plan_value(types, at, value).stopped(),
        plan_value(types, at, value).tail <= buffer.len(),
    ensures
        ({
            let plan = plan_value(types, at, value);
            dynamic_there(
                types,
                executed(buffer, plan.ins, plan.ins.len()),
                at,
                value,
                plan.tail,
            )
        }),
{
    let plan = plan_value(types, at, value);
    lemma_value_tiled(types, at, value);
    lemma_tiled_apart(plan.ins, at, plan.tail);
    lemma_carried_out(buffer, plan.ins);
    lemma_dynamic_back(executed(buffer, plan.ins, plan.ins.len()), types, at, value);
}

/// What was written for a map of values that no field tells about is there to be read.
pub proof fn lemma_dynamic_map_reads_back(
    types: BasicTypes,
    at: int,
    names: Seq<FieldName>,
    entries: Seq<(u64, OwnedValue)>,
    buffer: Seq<u8>,
)
    requires
        0 <= at,
        names.len() <= usize::MAX,
        map_suits(types, names, entries),
        !plan_map(types, at, names, entries).stopped(),
        plan_map(types, at, names, entries).tail <= buffer.len(),
    ensures
        ({
            let plan = plan_map(types, at, names, entries);
            map_there(
                types,
                executed(buffer, plan.ins, plan.ins.len()),
                at,
                names,
                entries,
                plan.tail,
            )
        }),
{
    let plan = plan_map(types, at, names, entries);
    lemma_map_tiled(types, at, names, entries);
    lemma_tiled_apart(plan.ins, at, plan.tail);
    lemma_carried_out(buffer, plan.ins);
    lemma_map_back(executed(buffer, plan.ins, plan.ins.len()), types, at, names, entries);
}

/// The values that no field tells about are those under ids that no sub-field has as its name's id,
/// in their order.
pub proof fn lemma_dynamic_entries(entries: Seq<(u64, OwnedValue)>, subs: Seq<Field>)
    ensures
        dynamic_entries(entries, subs) == entries.filter(
            |e: (u64, OwnedValue)| forall|i: int| 0 <= i < subs.len() ==> (#[trigger] subs[i]).name_id != e.0,
        ),
    decreases entries.len(),
{
    reveal(Seq::filter);
    if entries.len() > 0 {
        lemma_dynamic_entries(entries.drop_last(), subs);
    }
}

/// Of the names those are kept under whose ids there is an entry, in their order.
pub proof fn lemma_dynamic_names(names: Seq<FieldName>, entries: Seq<(u64, OwnedValue)>)
    ensures
        dynamic_names(names, entries) == names.filter(
            |n: FieldName| exists|i: int| 0 <= i < entries.len() && (#[trigger] entries[i]).0 == n.id,
        ),
    decreases names.len(),
{
    reveal(Seq::filter);
    if names.len() > 0 {
        lemma_dynamic_names(names.drop_last(), entries);
        lemma_entry_of(entries, names.last().id);
    }
}

proof fn lemma_dynamic_names_few(names: Seq<FieldName>, entries: Seq<(u64, OwnedValue)>)
    ensures
        dynamic_names(names, entries).len() <= names.len(),
    decreases names.len(),
{
    if names.len() > 0 {
        lemma_dynamic_names_few(names.drop_last(), entries);
    }
}

/// Of a map, those values are written as a map of their own that no sub-field tells about, each with
/// its name, and they are there to be read. Nothing is written where there is no map or are no
/// sub-fields.
pub proof fn lemma_dynamic_fields_read_back(
    types: BasicTypes,
    at: int,
    field: Field,
    value: OwnedValue,
    buffer: Seq<u8>,
)
    requires
        0 <= at,
        plan_dynamic(types, at, field, value).tail <= buffer.len(),
    ensures
        !(value is Record) || field.sub_fields is None ==> plan_dynamic(types, at, field, value).ins.len()
            == 0 && plan_dynamic(types, at, field, value).tail == at,
        value is Record && field.sub_fields is Some ==> {
            let plan = plan_dynamic(types, at, field, value);
            let map = value->Record_0;
            let subs = field.sub_fields->0@;
            let entries = map.map@.filter(
                |e: (u64, OwnedValue)|
                    forall|i: int| 0 <= i < subs.len() ==> (#[trigger] subs[i]).name_id != e.0,
            );
            let names = map.fields@.filter(
                |n: FieldName|
                    exists|i: int| 0 <= i < entries.len() && (#[trigger] entries[i]).0 == n.id,
            );
            map_suits(types, names, entries) && !plan.stopped() ==> map_there(
                types,
                executed(buffer, plan.ins, plan.ins.len()),
                at,
                names,
                entries,
                plan.tail,
            )
        },
{
    if value is Record && field.sub_fields is Some {
        let map = value->Record_0;
        let subs = field.sub_fields->0@;
        let entries = dynamic_entries(map.map@, subs);
        let names = dynamic_names(map.fields@, entries);
        lemma_dynamic_entries(map.map@, subs);
        lemma_dynamic_names(map.fields@, entries);
        lemma_dynamic_names_few(map.fields@, entries);
        assert(map.fields@.len() == map.fields.len());
        let plan = plan_dynamic(types, at, field, value);
        if map_suits(types, names, entries) && !plan.stopped() {
            lemma_dynamic_map_reads_back(types, at, names, entries, buffer);
        }
    }
}

/// Each name of a map has an entry, in the value and in all values inside it.
pub open spec fn all_named(value: OwnedValue) -> bool
    decreases value,
{
    match value {
        OwnedValue::Array(items) => forall|i: int|
            0 <= i < items@.len() ==> all_named(#[trigger] items@[i]),
        OwnedValue::Record(map) => {
            &&& forall|n: int|
                0 <= n < map.fields@.len() ==> has_entry(
                    map.map@,
                    (#[trigger] map.fields@[n]).id,
                )
            &&& forall|i: int| 0 <= i < map.map@.len() ==> all_named((#[trigger] map.map@[i]).1)
        },
        _ => true,
    }
}

/// There is an entry under the id.
pub open spec fn has_entry(entries: Seq<(u64, OwnedValue)>, id: u64) -> bool {
    exists|i: int| 0 <= i < entries.len() && (#[trigger] entries[i]).0 == id
}

/// A value that no field tells about can be written, whatever it is, if each name of its maps has an
/// entry; it takes at least one byte.
pub proof fn lemma_dynamic_is_written(types: BasicTypes, at: int, value: OwnedValue)
    requires
        all_named(value),
        value_suits(types, value),
    ensures
        !plan_value(types, at, value).stopped(),
        plan_value(types, at, value).tail > at,
    decreases value, 1nat, 0nat,
{
    match value {
        OwnedValue::Array(items) => {
            lemma_parts_smaller(value);
            let code = put_code(types, at, ARRAY_TYPE_MASK);
            let len = put_length(types, code.tail, items.len());
            lemma_dynamics_are_written(types, len.tail, items@, items@.len());
        },
        OwnedValue::Record(map) => {
            lemma_parts_smaller(value);
            let code = put_code(types, at, types.map.id);
            let len = put_length(types, code.tail, map.fields@.len() as usize);
            lemma_names_are_written(types, len.tail, map.fields@, map.map@, map.fields@.len());
        },
        _ => {},
    }
}

proof fn lemma_dynamics_are_written(types: BasicTypes, at: int, items: Seq<OwnedValue>, n: nat)
    requires
        n <= items.len(),
        forall|i: int| 0 <= i < items.len() ==> all_named(#[trigger] items[i]),
        forall|i: int| 0 <= i < items.len() ==> value_suits(types, #[trigger] items[i]),
    ensures
        !plan_values(types, at, items, n).stopped(),
        plan_values(types, at, items, n).tail >= at,
    decreases items, 0nat, n,
{
    if n > 0 {
        let before = plan_values(types, at, items, (n - 1) as nat);
        lemma_dynamics_are_written(types, at, items, (n - 1) as nat);
        assert(decreases_to!(items => items[n - 1]));
        lemma_dynamic_is_written(types, before.tail, items[n - 1]);
    }
}

proof fn lemma_names_are_written(
    types: BasicTypes,
    at: int,
    names: Seq<FieldName>,
    entries: Seq<(u64, OwnedValue)>,
    n: nat,
)
    requires
        n <= names.len(),
        map_suits(types, names, entries),
        forall|i: int| 0 <= i < names.len() ==> has_entry(entries, (#[trigger] names[i]).id),
        forall|i: int| 0 <= i < entries.len() ==> all_named((#[trigger] entries[i]).1),
    ensures
        !plan_names(types, at, names, entries, n).stopped(),
        plan_names(types, at, names, entries, n).tail >= at,
    decreases entries, 0nat, n,
{
    if n > 0 {
        let m = n - 1;
        let before = plan_names(types, at, names, entries, m as nat);
        lemma_names_are_written(types, at, names, entries, m as nat);
        let name = names[m].value;
        let ty = base_type_of(name, types);
        let k = entry_of(entries, names[m].id);
        assert(has_entry(entries, names[m].id));
        assert(name_suits(types, names[m]));
        lemma_entry_of(entries, names[m].id);
        assert(k < entries.len());
        assert(decreases_to!(entries => entries[k]));
        assert(decreases_to!(entries[k] => entries[k].1));
        lemma_dynamic_is_written(types, before.tail + vsize(ty, name), entries[k].1);
    }
}

/// Entries that are the same lead to values that are the same.
proof fn lemma_value_of_same(a: Seq<(u64, OwnedValue)>, b: Seq<(u64, OwnedValue)>, id: u64)
    requires
        a.len() == b.len(),
        forall|i: int| 0 <= i < a.len() ==> (#[trigger] a[i]).0 == b[i].0 && same_value(a[i].1, b[i].1),
    ensures
        same_value(value_of(a, id), value_of(b, id)),
{
    lemma_entry_of(a, id);
    lemma_entry_of(b, id);
    let i = entry_of(a, id);
    let j = entry_of(b, id);
    if i < j {
        assert(a[i].0 == b[i].0);
    } else if j < i {
        assert(a[j].0 == b[j].0);
    } else if i < a.len() {
        assert(a[i].0 == b[i].0);
    }
}

/// Whether a value goes with a field does not change when both are copied.
pub proof fn lemma_goes_with_same(f: Field, g: Field, arr: bool, v: OwnedValue, w: OwnedValue)
    requires
        same_field(f, g),
        same_value(v, w),
    ensures
        goes_with(f, arr, v) <==> goes_with(g, arr, w),
    decreases f, if arr { 1nat } else { 0nat },
{
    if v is Array && arr {
        let a = v->Array_0@;
        let b = w->Array_0@;
        assert forall|i: int| 0 <= i < a.len() implies (goes_with(f, false, #[trigger] a[i])
            <==> goes_with(g, false, b[i])) by {
            assert(same_value(a[i], b[i]));
            lemma_goes_with_same(f, g, false, a[i], b[i]);
        }
        if forall|i: int| 0 <= i < a.len() ==> goes_with(f, false, #[trigger] a[i]) {
            assert forall|i: int| 0 <= i < b.len() implies goes_with(g, false, #[trigger] b[i]) by {
                assert(goes_with(f, false, a[i]));
            }
        }
        if forall|i: int| 0 <= i < b.len() ==> goes_with(g, false, #[trigger] b[i]) {
            assert forall|i: int| 0 <= i < a.len() implies goes_with(f, false, #[trigger] a[i]) by {
                assert(goes_with(g, false, b[i]));
            }
        }
    }
    if f.sub_fields is Some && v is Record {
        let x = f.sub_fields->0@;
        let y = g.sub_fields->0@;
        let a = v->Record_0.map@;
        let b = w->Record_0.map@;
        assert forall|i: int| 0 <= i < x.len() implies (goes_with(
            #[trigger] x[i],
            x[i].is_array,
            value_of(a, x[i].name_id),
        ) <==> goes_with(y[i], y[i].is_array, value_of(b, y[i].name_id))) by {
            assert(same_field(x[i], y[i]));
            assert forall|j: int| 0 <= j < a.len() implies (#[trigger] a[j]).0 == b[j].0 && same_value(
                a[j].1,
                b[j].1,
            ) by {
                assert(v->Record_0.map@[j] == a[j]);
            }
            lemma_value_of_same(a, b, x[i].name_id);
            assert(decreases_to!(f => f.sub_fields));
            assert(decreases_to!(f.sub_fields => f.sub_fields->0));
            assert(decreases_to!(f.sub_fields->0 => f.sub_fields->0@));
            assert(decreases_to!(f.sub_fields->0@ => f.sub_fields->0@[i]));
            lemma_goes_with_same(
                x[i],
                y[i],
                x[i].is_array,
                value_of(a, x[i].name_id),
                value_of(b, y[i].name_id),
            );
        }
        if forall|i: int|
            0 <= i < x.len() ==> goes_with(
                #[trigger] x[i],
                x[i].is_array,
                value_of(a, x[i].name_id),
            ) {
            assert forall|i: int| 0 <= i < y.len() implies goes_with(
                #[trigger] y[i],
                y[i].is_array,
                value_of(b, y[i].name_id),
            ) by {
                assert(goes_with(x[i], x[i].is_array, value_of(a, x[i].name_id)));
            }
        }
        if forall|i: int|
            0 <= i < y.len() ==> goes_with(
                #[trigger] y[i],
                y[i].is_array,
                value_of(b, y[i].name_id),
            ) {
            assert forall|i: int| 0 <= i < x.len() implies goes_with(
                #[trigger] x[i],
                x[i].is_array,
                value_of(a, x[i].name_id),
            ) by {
                assert(goes_with(y[i], y[i].is_array, value_of(b, y[i].name_id)));
            }
        }
    }
}

} // verus!
