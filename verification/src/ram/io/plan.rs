//! What it means to write a value: which values go where.
use crate::ram::schema::field::Field;
use crate::ram::types::{
    base_type_of, entry_of, value_of, vsize, BasicTypes, FieldName, OwnedValue, Type, LENGTH_SIZE,
    TYPE_CODE_SIZE,
};
use vstd::prelude::*;

verus! {

/// The mark of an array in a type code.
pub const ARRAY_TYPE_MASK: u8 = 0x80;

/// The type code of a value that is not there.
pub const NULL_PLACEHOLDER: u8 = 0x40;

/// A value, the type of its place, and where it goes.
pub struct Inst {
    pub ty: Type,
    pub val: OwnedValue,
    pub offset: int,
}

/// What writing a value comes to: the instructions, the end of what was written behind the fixed
/// part of the cell, the highest place that was reached, and why the writing ended early: a value
/// does not go with its field, or a place or an entry that is needed is missing.
#[verifier::ext_equal]
pub struct Plan {
    pub ins: Seq<Inst>,
    pub tail: int,
    pub high: int,
    pub bad: Option<(Field, OwnedValue)>,
    pub stuck: bool,
}

impl Plan {
    pub open spec fn stopped(self) -> bool {
        self.bad is Some || self.stuck
    }
}

pub open spec fn larger(a: int, b: int) -> int {
    if a < b {
        b
    } else {
        a
    }
}

/// Nothing to do.
pub open spec fn idle(at: int) -> Plan {
    Plan { ins: Seq::empty(), tail: at, high: at, bad: None, stuck: false }
}

/// The value does not go with the field.
pub open spec fn mismatch(at: int, field: Field, arr: bool, value: OwnedValue) -> Plan {
    Plan { bad: Some((Field { is_array: arr, ..field }, value)), ..idle(at) }
}

/// A place or an entry is missing.
pub open spec fn missing(at: int) -> Plan {
    Plan { stuck: true, ..idle(at) }
}

/// One plan after the other; the second starts where the first ends.
pub open spec fn follow(p: Plan, q: Plan) -> Plan {
    Plan {
        ins: p.ins + q.ins,
        tail: q.tail,
        high: larger(p.high, q.high),
        bad: q.bad,
        stuck: q.stuck,
    }
}

/// One instruction, with which `space` is taken.
pub open spec fn put(at: int, ty: Type, val: OwnedValue, space: int) -> Plan {
    Plan { ins: seq![Inst { ty, val, offset: at }], tail: at + space, high: at + space, ..idle(at) }
}

pub open spec fn put_length(types: BasicTypes, at: int, len: usize) -> Plan {
    put(at, types.length, OwnedValue::U32(len as u32), LENGTH_SIZE as int)
}

pub open spec fn put_code(types: BasicTypes, at: int, code: u8) -> Plan {
    put(at, types.type_code, OwnedValue::U8(code), TYPE_CODE_SIZE as int)
}

/// The mark of a nullable value.
pub open spec fn put_null_mark(types: BasicTypes, at: int, field: Field, value: OwnedValue) -> Plan {
    if field.nullable {
        put(at, types.boolean, OwnedValue::Bool(value is Null), 1)
    } else {
        idle(at)
    }
}

/// The value of a field at `at`, with its null mark. `arr` tells whether the field is an array.
pub open spec fn plan_at(
    types: BasicTypes,
    at: int,
    field: Field,
    arr: bool,
    value: OwnedValue,
) -> Plan
    decreases field.sub_fields, if arr { 2nat } else { 0nat }, 0nat,
{
    let mark = put_null_mark(types, at, field, value);
    follow(
        mark,
        if arr {
            match value {
                OwnedValue::Array(items) => {
                    let len = put_length(types, mark.tail, items.len());
                    follow(len, plan_items(types, len.tail, field, items@, items@.len()))
                },
                OwnedValue::PrimArray(array) => {
                    let len = put_length(types, mark.tail, array.len);
                    follow(
                        len,
                        put(len.tail, field.data_type, value, array.bytes@.len() as int),
                    )
                },
                _ => mismatch(mark.tail, field, arr, value),
            }
        } else if value is Null {
            if field.nullable {
                idle(mark.tail)
            } else {
                mismatch(mark.tail, field, arr, value)
            }
        } else {
            put(mark.tail, field.data_type, value, vsize(field.data_type, value))
        },
    )
}

/// The first `n` items of an array, one behind the other.
pub open spec fn plan_items(
    types: BasicTypes,
    at: int,
    field: Field,
    items: Seq<OwnedValue>,
    n: nat,
) -> Plan
    decreases field.sub_fields, 1nat, n,
{
    if n == 0 || n > items.len() {
        idle(at)
    } else {
        let before = plan_items(types, at, field, items, (n - 1) as nat);
        if before.stopped() {
            before
        } else {
            follow(before, plan_field(types, before.tail, field, false, items[n - 1], true))
        }
    }
}

/// The value of a field behind the fixed part of the cell, where `tail` is. Where the field itself
/// stands in the fixed part, a pointer goes to its place.
pub open spec fn plan_tail(
    types: BasicTypes,
    tail: int,
    field: Field,
    arr: bool,
    value: OwnedValue,
    is_var: bool,
) -> Plan
    decreases field.sub_fields, if arr { 2nat } else { 0nat }, 1nat,
{
    if is_var {
        plan_at(types, tail, field, arr, value)
    } else {
        match field.offset {
            Some(place) => follow(
                Plan {
                    ins: seq![
                        Inst {
                            ty: types.length,
                            val: OwnedValue::U32((tail as usize) as u32),
                            offset: place as int,
                        },
                    ],
                    ..idle(tail)
                },
                plan_at(types, tail, field, arr, value),
            ),
            None => missing(tail),
        }
    }
}

/// The value of a field. Sub-fields take their values from a map; all else is written at the
/// field's place if all its values take the same space, and behind the fixed part if not, or if the
/// field is in the part that varies (`is_var`).
pub open spec fn plan_field(
    types: BasicTypes,
    tail: int,
    field: Field,
    arr: bool,
    value: OwnedValue,
    is_var: bool,
) -> Plan
    decreases field.sub_fields, if arr { 2nat } else { 0nat }, 2nat,
{
    match field.sub_fields {
        Some(subs) => match value {
            OwnedValue::Record(map) => plan_subs(types, tail, subs@, subs@.len(), map.map@, is_var),
            OwnedValue::Array(_) => if arr {
                plan_tail(types, tail, field, arr, value, is_var)
            } else {
                mismatch(tail, field, arr, value)
            },
            _ => mismatch(tail, field, arr, value),
        },
        None => if arr || field.data_type.size is None || is_var {
            plan_tail(types, tail, field, arr, value, is_var)
        } else {
            match field.offset {
                Some(place) => {
                    let there = plan_at(types, place as int, field, arr, value);
                    Plan { tail, high: larger(tail, there.high), ..there }
                },
                None => missing(tail),
            }
        },
    }
}

/// The values of the first `n` sub-fields, each from the entry under the id of its name.
pub open spec fn plan_subs(
    types: BasicTypes,
    tail: int,
    subs: Seq<Field>,
    n: nat,
    entries: Seq<(u64, OwnedValue)>,
    is_var: bool,
) -> Plan
    decreases subs, 0nat, n,
{
    if n == 0 || n > subs.len() {
        idle(tail)
    } else {
        let before = plan_subs(types, tail, subs, (n - 1) as nat, entries, is_var);
        if before.stopped() {
            before
        } else {
            let sub = subs[n - 1];
            follow(
                before,
                plan_field(
                    types,
                    before.tail,
                    sub,
                    sub.is_array,
                    value_of(entries, sub.name_id),
                    is_var,
                ),
            )
        }
    }
}

/// A value that no field tells about: its type code, and the value behind it.
pub open spec fn plan_value(types: BasicTypes, at: int, value: OwnedValue) -> Plan
    decreases value, 0nat,
{
    match value {
        OwnedValue::Array(items) => {
            let code = put_code(types, at, ARRAY_TYPE_MASK);
            let len = put_length(types, code.tail, items.len());
            follow(follow(code, len), plan_values(types, len.tail, items@, items@.len()))
        },
        OwnedValue::PrimArray(array) => {
            let code = put_code(types, at, ARRAY_TYPE_MASK | array.ty.id);
            let len = put_length(types, code.tail, array.len);
            follow(
                follow(code, len),
                put(len.tail, array.ty, value, array.bytes@.len() as int),
            )
        },
        OwnedValue::Record(map) => plan_map(types, at, map.fields@, map.map@),
        OwnedValue::Null => put_code(types, at, NULL_PLACEHOLDER),
        OwnedValue::NA => put_code(types, at, NULL_PLACEHOLDER),
        _ => {
            let ty = base_type_of(value, types);
            let code = put_code(types, at, ty.id);
            follow(code, put(code.tail, ty, value, vsize(ty, value)))
        },
    }
}

/// The first `n` values, one behind the other.
pub open spec fn plan_values(types: BasicTypes, at: int, items: Seq<OwnedValue>, n: nat) -> Plan
    decreases items, n,
{
    if n == 0 || n > items.len() {
        idle(at)
    } else {
        let before = plan_values(types, at, items, (n - 1) as nat);
        if before.stopped() {
            before
        } else {
            follow(before, plan_value(types, before.tail, items[n - 1]))
        }
    }
}

/// A map: its type code, the number of names, and each name with its value.
pub open spec fn plan_map(
    types: BasicTypes,
    at: int,
    names: Seq<FieldName>,
    entries: Seq<(u64, OwnedValue)>,
) -> Plan
    decreases entries, names.len() + 1,
{
    let code = put_code(types, at, types.map.id);
    let len = put_length(types, code.tail, names.len() as usize);
    follow(follow(code, len), plan_names(types, len.tail, names, entries, names.len()))
}

/// The first `n` names of a map, each with its value.
pub open spec fn plan_names(
    types: BasicTypes,
    at: int,
    names: Seq<FieldName>,
    entries: Seq<(u64, OwnedValue)>,
    n: nat,
) -> Plan
    decreases entries, n,
{
    if n == 0 || n > names.len() {
        idle(at)
    } else {
        let before = plan_names(types, at, names, entries, (n - 1) as nat);
        if before.stopped() {
            before
        } else {
            let name = names[n - 1].value;
            let ty = base_type_of(name, types);
            let head = follow(before, put(before.tail, ty, name, vsize(ty, name)));
            let i = entry_of(entries, names[n - 1].id);
            if 0 <= i < entries.len() {
                follow(head, plan_value(types, head.tail, entries[i].1))
            } else {
                follow(head, missing(head.tail))
            }
        }
    }
}

/// No field has the id as its name's id.
pub open spec fn undeclared(subs: Seq<Field>, id: u64) -> bool {
    forall|i: int| 0 <= i < subs.len() ==> (#[trigger] subs[i]).name_id != id
}

/// The entries that no field tells about, in their order.
pub open spec fn dynamic_entries(
    entries: Seq<(u64, OwnedValue)>,
    subs: Seq<Field>,
) -> Seq<(u64, OwnedValue)>
    decreases entries.len(),
{
    if entries.len() == 0 {
        Seq::empty()
    } else {
        let before = dynamic_entries(entries.drop_last(), subs);
        if undeclared(subs, entries.last().0) {
            before.push(entries.last())
        } else {
            before
        }
    }
}

/// The names that have one of the entries, in their order.
pub open spec fn dynamic_names(
    names: Seq<FieldName>,
    entries: Seq<(u64, OwnedValue)>,
) -> Seq<FieldName>
    decreases names.len(),
{
    if names.len() == 0 {
        Seq::empty()
    } else {
        let before = dynamic_names(names.drop_last(), entries);
        if entry_of(entries, names.last().id) < entries.len() {
            before.push(names.last())
        } else {
            before
        }
    }
}

} // verus!
