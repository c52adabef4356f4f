//! Planning writes: a list of instructions that put a value into a cell.
use super::plan::{
    dynamic_entries, dynamic_names, follow, idle, plan_at, plan_field, plan_items, plan_map,
    plan_names, plan_subs, plan_tail, plan_value, plan_values, put, put_code, put_length,
    put_null_mark, undeclared, Inst, Plan, ARRAY_TYPE_MASK, NULL_PLACEHOLDER,
};
use super::reading::{goes_with, lemma_field_refused, lemma_goes_with_same};
use crate::ram::schema::field::{same_field, Field};
use crate::ram::types::{
    base_type_of, entry_of, get_vsize, lemma_entry_of, lemma_parts_smaller, same_value, set_val,
    stored, vsize, written, BasicTypes, FieldName, OwnedValue, Type, LENGTH_SIZE, TYPE_CODE_SIZE,
};
use std::collections::HashSet;
use vstd::prelude::*;

verus! {

/// A value of the caller's, or one made on the way.
pub enum InstData<'a> {
    Ref(&'a OwnedValue),
    Val(OwnedValue),
}

pub open spec fn data_value(data: InstData<'_>) -> OwnedValue {
    match data {
        InstData::Ref(v) => *v,
        InstData::Val(v) => v,
    }
}

impl<'a> InstData<'a> {
    pub fn val_ref(&self) -> (v: &OwnedValue)
        ensures
            *v == data_value(*self),
    {
        match self {
            InstData::Ref(r) => r,
            InstData::Val(v) => v,
        }
    }
}

/// A value, the type of its place, and where it goes.
pub struct Instruction<'a> {
    pub data_type: Type,
    pub val: InstData<'a>,
    pub offset: usize,
}

impl<'a> View for Instruction<'a> {
    type V = Inst;

    open spec fn view(&self) -> Inst {
        Inst { ty: self.data_type, val: data_value(self.val), offset: self.offset as int }
    }
}

pub open spec fn inst_views(ins: Seq<Instruction<'_>>) -> Seq<Inst> {
    ins.map_values(|i: Instruction<'_>| i@)
}

/// Why a value cannot be written.
pub enum WriteError {
    DataMismatchSchema(Field, OwnedValue),
}

/// The result tells whether the plan came to its end, and if not, which value did not go with which
/// field.
pub open spec fn told(plan: Plan, r: Result<(), WriteError>) -> bool {
    match r {
        Ok(_) => plan.bad is None,
        Err(WriteError::DataMismatchSchema(f, v)) => match plan.bad {
            Some((field, value)) => same_field(field, f) && same_value(value, v),
            None => false,
        },
    }
}

/// Nothing that is needed is missing, and all places are within reach.
pub open spec fn feasible(plan: Plan) -> bool {
    !plan.stuck && plan.high <= usize::MAX
}

/// Appends an instruction and moves on by the space that it takes.
fn push_inst<'a>(
    ins: &mut Vec<Instruction<'a>>,
    offset: &mut usize,
    data_type: Type,
    val: InstData<'a>,
    space: usize,
)
    requires
        *old(offset) + space <= usize::MAX,
    ensures
        *final(offset) == *old(offset) + space,
        inst_views(final(ins)@) == inst_views(old(ins)@) + put(
            *old(offset) as int,
            data_type,
            data_value(val),
            space as int,
        ).ins,
{
    let ghost before = ins@;
    ins.push(Instruction { data_type, val, offset: *offset });
    *offset = *offset + space;
    assert(inst_views(ins@) =~= inst_views(before) + put(
        *old(offset) as int,
        data_type,
        data_value(val),
        space as int,
    ).ins);
}

/// A mismatch of a field, taken as an array or not, and a value.
fn mismatch_error(field: &Field, arr: bool, value: &OwnedValue) -> (e: WriteError)
    ensures
        e matches WriteError::DataMismatchSchema(f, v) && same_field(
            Field { is_array: arr, ..*field },
            f,
        ) && same_value(*value, v),
{
    let mut f = field.duplicate();
    f.is_array = arr;
    WriteError::DataMismatchSchema(f, value.duplicate())
}

/// Plans the value of a field at `offset`.
fn write_at<'a>(
    types: &BasicTypes,
    offset: &mut usize,
    field: &Field,
    arr: bool,
    value: &'a OwnedValue,
    ins: &mut Vec<Instruction<'a>>,
) -> (r: Result<(), WriteError>)
    requires
        feasible(plan_at(*types, *old(offset) as int, *field, arr, *value)),
    ensures
        ({
            let plan = plan_at(*types, *old(offset) as int, *field, arr, *value);
            &&& inst_views(final(ins)@) == inst_views(old(ins)@) + plan.ins
            &&& *final(offset) == plan.tail
            &&& told(plan, r)
        }),
        field.nullable ==> {
            let mark = inst_views(final(ins)@)[old(ins)@.len() as int];
            &&& final(ins)@.len() > old(ins)@.len()
            &&& mark.offset == *old(offset)
            &&& mark.ty == types.boolean
            &&& mark.val == OwnedValue::Bool(*value is Null)
        },
    decreases field.sub_fields, if arr { 2nat } else { 0nat }, 0nat,
{
    let ghost base = inst_views(ins@);
    let ghost at = *offset as int;
    let ghost plan = plan_at(*types, at, *field, arr, *value);
    let ghost mark = put_null_mark(*types, at, *field, *value);
    let is_null = match value {
        OwnedValue::Null => true,
        _ => false,
    };
    if field.nullable {
        push_inst(ins, offset, types.boolean, InstData::Val(OwnedValue::Bool(is_null)), 1);
    }
    assert(inst_views(ins@) =~= base + mark.ins);
    if arr {
        match value {
            OwnedValue::Array(items) => {
                let ghost len = put_length(*types, mark.tail, items.len());
                let ghost n = items@.len();
                proof {
                    lemma_items_reach(*types, len.tail, *field, items@, 0, n);
                }
                push_inst(
                    ins,
                    offset,
                    types.length,
                    InstData::Val(OwnedValue::U32(items.len() as u32)),
                    LENGTH_SIZE,
                );
                let ghost head = base + mark.ins + len.ins;
                let ghost start = *offset as int;
                let mut i: usize = 0;
                assert(inst_views(ins@) =~= head + plan_items(*types, start, *field, items@, 0).ins);
                while i < items.len()
                    invariant
                        i <= items@.len(),
                        *offset == plan_items(*types, start, *field, items@, i as nat).tail,
                        inst_views(ins@) == head + plan_items(
                            *types,
                            start,
                            *field,
                            items@,
                            i as nat,
                        ).ins,
                        !plan_items(*types, start, *field, items@, i as nat).stopped(),
                        feasible(plan_items(*types, start, *field, items@, items@.len())),
                        n == items@.len(),
                        start == len.tail,
                        head == base + mark.ins + len.ins,
                        mark == put_null_mark(*types, at, *field, *value),
                        len == put_length(*types, mark.tail, items.len()),
                        plan == plan_at(*types, at, *field, arr, *value),
                        *value == OwnedValue::Array(*items),
                        base == inst_views(old(ins)@),
                        at == *old(offset),
                        arr,
                    decreases items@.len() - i,
                {
                    let item = &items[i];
                    let ghost before = plan_items(*types, start, *field, items@, i as nat);
                    let ghost mine = plan_field(
                        *types,
                        before.tail,
                        *field,
                        false,
                        items@[i as int],
                        true,
                    );
                    let ghost next = plan_items(*types, start, *field, items@, (i + 1) as nat);
                    proof {
                        lemma_items_reach(*types, start, *field, items@, (i + 1) as nat, n);
                        assert(next == follow(before, mine));
                    }
                    let r = write_field(types, offset, field, false, item, ins, true);
                    assert(inst_views(ins@) =~= head + next.ins);
                    if r.is_err() {
                        proof {
                            lemma_items_stop(*types, start, *field, items@, (i + 1) as nat, n);
                            assert(head + next.ins =~= base + plan.ins);
                        }
                        return r;
                    }
                    i += 1;
                }
                assert(head + plan_items(*types, start, *field, items@, n).ins =~= base + plan.ins);
            },
            OwnedValue::PrimArray(array) => {
                let ghost len = put_length(*types, mark.tail, array.len);
                push_inst(
                    ins,
                    offset,
                    types.length,
                    InstData::Val(OwnedValue::U32(array.len as u32)),
                    LENGTH_SIZE,
                );
                push_inst(ins, offset, field.data_type, InstData::Ref(value), array.bytes.len());
                assert(inst_views(ins@) =~= base + plan.ins);
            },
            _ => {
                assert(inst_views(ins@) =~= base + plan.ins);
                return Err(mismatch_error(field, arr, value));
            },
        }
    } else {
        if !field.nullable && is_null {
            assert(inst_views(ins@) =~= base + plan.ins);
            return Err(mismatch_error(field, arr, value));
        }
        if !is_null {
            let size: usize = get_vsize(field.data_type, value);
            push_inst(ins, offset, field.data_type, InstData::Ref(value), size);
        }
        assert(inst_views(ins@) =~= base + plan.ins);
    }
    Ok(())
}

/// Plans the value of a field behind the fixed part of the cell.
fn write_tail<'a>(
    types: &BasicTypes,
    tail_offset: &mut usize,
    field: &Field,
    arr: bool,
    value: &'a OwnedValue,
    ins: &mut Vec<Instruction<'a>>,
    is_var: bool,
) -> (r: Result<(), WriteError>)
    requires
        feasible(plan_tail(*types, *old(tail_offset) as int, *field, arr, *value, is_var)),
    ensures
        ({
            let plan = plan_tail(*types, *old(tail_offset) as int, *field, arr, *value, is_var);
            &&& inst_views(final(ins)@) == inst_views(old(ins)@) + plan.ins
            &&& *final(tail_offset) == plan.tail
            &&& told(plan, r)
        }),
    decreases field.sub_fields, if arr { 2nat } else { 0nat }, 1nat,
{
    let ghost base = inst_views(ins@);
    let ghost plan = plan_tail(*types, *tail_offset as int, *field, arr, *value, is_var);
    if !is_var {
        match field.offset {
            Some(place) => {
                let mut at: usize = place;
                push_inst(
                    ins,
                    &mut at,
                    types.length,
                    InstData::Val(OwnedValue::U32(*tail_offset as u32)),
                    0,
                );
            },
            None => {},
        }
    }
    let ghost jumped = inst_views(ins@);
    let r = write_at(types, tail_offset, field, arr, value, ins);
    assert(inst_views(ins@) =~= base + plan.ins);
    r
}

/// Plans the value of a field, which is taken as an array or not.
fn write_field<'a>(
    types: &BasicTypes,
    tail_offset: &mut usize,
    field: &Field,
    arr: bool,
    value: &'a OwnedValue,
    ins: &mut Vec<Instruction<'a>>,
    is_var: bool,
) -> (r: Result<(), WriteError>)
    requires
        feasible(plan_field(*types, *old(tail_offset) as int, *field, arr, *value, is_var)),
    ensures
        ({
            let plan = plan_field(*types, *old(tail_offset) as int, *field, arr, *value, is_var);
            &&& inst_views(final(ins)@) == inst_views(old(ins)@) + plan.ins
            &&& *final(tail_offset) == plan.tail
            &&& told(plan, r)
        }),
    decreases field.sub_fields, if arr { 2nat } else { 0nat }, 2nat,
{
    let ghost base = inst_views(ins@);
    let ghost start = *tail_offset as int;
    let ghost plan = plan_field(*types, start, *field, arr, *value, is_var);
    match &field.sub_fields {
        Some(subs) => match value {
            OwnedValue::Record(map) => {
                let ghost entries = map.map@;
                let ghost n = subs@.len();
                proof {
                    lemma_subs_reach(*types, start, subs@, 0, n, entries, is_var);
                }
                assert(inst_views(ins@) =~= base + plan_subs(*types, start, subs@, 0, entries, is_var).ins);
                let mut i: usize = 0;
                while i < subs.len()
                    invariant
                        i <= subs@.len(),
                        n == subs@.len(),
                        *tail_offset == plan_subs(*types, start, subs@, i as nat, entries, is_var).tail,
                        inst_views(ins@) == base + plan_subs(
                            *types,
                            start,
                            subs@,
                            i as nat,
                            entries,
                            is_var,
                        ).ins,
                        !plan_subs(*types, start, subs@, i as nat, entries, is_var).stopped(),
                        feasible(plan_subs(*types, start, subs@, n, entries, is_var)),
                        plan == plan_subs(*types, start, subs@, n, entries, is_var),
                        entries == map.map@,
                        field.sub_fields == Some(*subs),
                        base == inst_views(old(ins)@),
                        plan == plan_field(*types, start, *field, arr, *value, is_var),
                        start == *old(tail_offset),
                    decreases subs@.len() - i,
                {
                    let sub = &subs[i];
                    let val = map.get_by_key_id(sub.name_id);
                    let ghost before = plan_subs(*types, start, subs@, i as nat, entries, is_var);
                    let ghost mine = plan_field(
                        *types,
                        before.tail,
                        *sub,
                        sub.is_array,
                        *val,
                        is_var,
                    );
                    let ghost next = plan_subs(*types, start, subs@, (i + 1) as nat, entries, is_var);
                    proof {
                        lemma_subs_reach(*types, start, subs@, (i + 1) as nat, n, entries, is_var);
                        assert(next == follow(before, mine));
                        assert(decreases_to!(field.sub_fields => field.sub_fields->0));
                        assert(decreases_to!(field.sub_fields->0 => field.sub_fields->0@));
                        assert(decreases_to!(field.sub_fields->0@ => field.sub_fields->0@[i as int]));
                        assert(decreases_to!(field.sub_fields->0@[i as int] => field.sub_fields->0@[i as int].sub_fields));
                    }
                    let r = write_field(types, tail_offset, sub, sub.is_array, val, ins, is_var);
                    assert(inst_views(ins@) =~= base + next.ins);
                    if r.is_err() {
                        proof {
                            lemma_subs_stop(*types, start, subs@, (i + 1) as nat, n, entries, is_var);
                        }
                        return r;
                    }
                    i += 1;
                }
                Ok(())
            },
            OwnedValue::Array(_) => {
                if !arr {
                    assert(inst_views(ins@) =~= base + plan.ins);
                    return Err(mismatch_error(field, arr, value));
                }
                write_tail(types, tail_offset, field, arr, value, ins, is_var)
            },
            _ => {
                assert(inst_views(ins@) =~= base + plan.ins);
                Err(mismatch_error(field, arr, value))
            },
        },
        None => {
            if arr || field.data_type.size.is_none() || is_var {
                write_tail(types, tail_offset, field, arr, value, ins, is_var)
            } else {
                match field.offset {
                    Some(place) => {
                        let mut at: usize = place;
                        write_at(types, &mut at, field, arr, value, ins)
                    },
                    None => Ok(()),
                }
            }
        },
    }
}

/// Plans the value of a field: behind the fixed part of the cell, from `tail_offset` on, or at the
/// field's own place. What was planned before a mismatch stays planned.
pub fn plan_write_field<'a>(
    types: &BasicTypes,
    tail_offset: &mut usize,
    field: &Field,
    value: &'a OwnedValue,
    ins: &mut Vec<Instruction<'a>>,
    is_var: bool,
) -> (r: Result<(), WriteError>)
    requires
        feasible(
            plan_field(*types, *old(tail_offset) as int, *field, field.is_array, *value, is_var),
        ),
    ensures
        ({
            let plan = plan_field(
                *types,
                *old(tail_offset) as int,
                *field,
                field.is_array,
                *value,
                is_var,
            );
            &&& inst_views(final(ins)@) == inst_views(old(ins)@) + plan.ins
            &&& *final(tail_offset) == plan.tail
            &&& told(plan, r)
        }),
        r is Ok <==> goes_with(*field, field.is_array, *value),
        r matches Err(WriteError::DataMismatchSchema(f, v)) ==> !goes_with(f, f.is_array, v),
{
    proof {
        lemma_field_refused(
            *types,
            *tail_offset as int,
            *field,
            field.is_array,
            *value,
            is_var,
        );
    }
    let ghost plan = plan_field(
        *types,
        *tail_offset as int,
        *field,
        field.is_array,
        *value,
        is_var,
    );
    let r = write_field(types, tail_offset, field, field.is_array, value, ins, is_var);
    proof {
        if r is Err {
            let WriteError::DataMismatchSchema(f, v) = r->Err_0;
            let (own, given) = plan.bad->0;
            lemma_goes_with_same(own, f, own.is_array, given, v);
        }
    }
    r
}

/// The places that a plan reaches grow with the number of items, and a plan with a missing place
/// stays one.
proof fn lemma_items_reach(
    types: BasicTypes,
    at: int,
    field: Field,
    items: Seq<OwnedValue>,
    i: nat,
    j: nat,
)
    requires
        i <= j <= items.len(),
    ensures
        plan_items(types, at, field, items, i).high <= plan_items(types, at, field, items, j).high,
        plan_items(types, at, field, items, i).stuck ==> plan_items(types, at, field, items, j).stuck,
        at <= plan_items(types, at, field, items, i).high,
    decreases j,
{
    if i < j {
        lemma_items_reach(types, at, field, items, i, (j - 1) as nat);
    } else if j > 0 {
        lemma_items_reach(types, at, field, items, (j - 1) as nat, (j - 1) as nat);
    }
}

proof fn lemma_items_stop(
    types: BasicTypes,
    at: int,
    field: Field,
    items: Seq<OwnedValue>,
    i: nat,
    j: nat,
)
    requires
        i <= j <= items.len(),
        plan_items(types, at, field, items, i).stopped(),
    ensures
        plan_items(types, at, field, items, j) == plan_items(types, at, field, items, i),
    decreases j,
{
    if i < j {
        lemma_items_stop(types, at, field, items, i, (j - 1) as nat);
    }
}

proof fn lemma_subs_reach(
    types: BasicTypes,
    tail: int,
    subs: Seq<Field>,
    i: nat,
    j: nat,
    entries: Seq<(u64, OwnedValue)>,
    is_var: bool,
)
    requires
        i <= j <= subs.len(),
    ensures
        plan_subs(types, tail, subs, i, entries, is_var).high <= plan_subs(
            types,
            tail,
            subs,
            j,
            entries,
            is_var,
        ).high,
        plan_subs(types, tail, subs, i, entries, is_var).stuck ==> plan_subs(
            types,
            tail,
            subs,
            j,
            entries,
            is_var,
        ).stuck,
    decreases j,
{
    if i < j {
        lemma_subs_reach(types, tail, subs, i, (j - 1) as nat, entries, is_var);
    }
}

proof fn lemma_subs_stop(
    types: BasicTypes,
    tail: int,
    subs: Seq<Field>,
    i: nat,
    j: nat,
    entries: Seq<(u64, OwnedValue)>,
    is_var: bool,
)
    requires
        i <= j <= subs.len(),
        plan_subs(types, tail, subs, i, entries, is_var).stopped(),
    ensures
        plan_subs(types, tail, subs, j, entries, is_var) == plan_subs(
            types,
            tail,
            subs,
            i,
            entries,
            is_var,
        ),
    decreases j,
{
    if i < j {
        lemma_subs_stop(types, tail, subs, i, (j - 1) as nat, entries, is_var);
    }
}

/// The names that references lead to.
pub open spec fn names_behind(names: Seq<&FieldName>) -> Seq<FieldName> {
    Seq::new(names.len(), |i: int| *names[i])
}

/// The entries with the values that references lead to.
pub open spec fn entries_behind(map: Seq<(u64, &OwnedValue)>) -> Seq<(u64, OwnedValue)> {
    Seq::new(map.len(), |i: int| (map[i].0, *map[i].1))
}

/// The value under a key.
fn find_entry<'a>(map: &Vec<(u64, &'a OwnedValue)>, id: u64) -> (r: Option<&'a OwnedValue>)
    ensures
        ({
            let entries = entries_behind(map@);
            let i = entry_of(entries, id);
            match r {
                Some(v) => 0 <= i < entries.len() && *v == entries[i].1,
                None => i == entries.len(),
            }
        }),
{
    let ghost entries = entries_behind(map@);
    assert(entries.skip(0) =~= entries);
    let mut i: usize = 0;
    while i < map.len()
        invariant
            i <= entries.len(),
            entries == entries_behind(map@),
            entry_of(entries, id) == i + entry_of(entries.skip(i as int), id),
        decreases entries.len() - i,
    {
        assert(entries.skip(i as int).drop_first() =~= entries.skip(i + 1));
        if map[i].0 == id {
            return Some(map[i].1);
        }
        i += 1;
    }
    None
}

/// Plans a map; `entries` is what `map` leads to.
fn write_map<'a>(
    types: &BasicTypes,
    offset: &mut usize,
    names: &Vec<&'a FieldName>,
    map: &Vec<(u64, &'a OwnedValue)>,
    ins: &mut Vec<Instruction<'a>>,
    Ghost(entries): Ghost<Seq<(u64, OwnedValue)>>,
)
    requires
        entries == entries_behind(map@),
        feasible(plan_map(*types, *old(offset) as int, names_behind(names@), entries)),
    ensures
        ({
            let plan = plan_map(*types, *old(offset) as int, names_behind(names@), entries);
            &&& inst_views(final(ins)@) == inst_views(old(ins)@) + plan.ins
            &&& *final(offset) == plan.tail
        }),
    decreases entries, 1nat,
{
    let ghost base = inst_views(ins@);
    let ghost at = *offset as int;
    let ghost all = names_behind(names@);
    let ghost n = all.len();
    let ghost code = put_code(*types, at, types.map.id);
    let ghost len = put_length(*types, code.tail, n as usize);
    let ghost start = len.tail;
    let ghost head = base + (code.ins + len.ins);
    proof {
        assert(names.len() == n);
        lemma_names_reach(*types, start, all, entries, 0, n);
    }
    push_inst(
        ins,
        offset,
        types.type_code,
        InstData::Val(OwnedValue::U8(types.map.id)),
        TYPE_CODE_SIZE,
    );
    push_inst(
        ins,
        offset,
        types.length,
        InstData::Val(OwnedValue::U32(names.len() as u32)),
        LENGTH_SIZE,
    );
    assert(inst_views(ins@) =~= head + plan_names(*types, start, all, entries, 0).ins);
    let mut i: usize = 0;
    while i < names.len()
        invariant
            i <= names@.len(),
            n == names@.len(),
            all == names_behind(names@),
            entries == entries_behind(map@),
            *offset == plan_names(*types, start, all, entries, i as nat).tail,
            inst_views(ins@) == head + plan_names(*types, start, all, entries, i as nat).ins,
            !plan_names(*types, start, all, entries, i as nat).stopped(),
            feasible(plan_names(*types, start, all, entries, n)),
        decreases names@.len() - i,
    {
        let name: &FieldName = names[i];
        let ghost before = plan_names(*types, start, all, entries, i as nat);
        let ghost next = plan_names(*types, start, all, entries, (i + 1) as nat);
        let ghost ty = base_type_of(name.value, *types);
        let ghost named = follow(
            before,
            put(before.tail, ty, name.value, vsize(ty, name.value)),
        );
        proof {
            assert(all[i as int] == *name);
            lemma_names_reach(*types, start, all, entries, (i + 1) as nat, n);
            lemma_entry_of(entries, name.id);
        }
        let value = find_entry(map, name.id);
        let name_type = name.value.base_type(types);
        let name_size: usize = get_vsize(name_type, &name.value);
        assert(next.high >= named.high) by {
            lemma_value_grows(*types, named.tail, entries[entry_of(entries, name.id)].1);
        }
        push_inst(ins, offset, name_type, InstData::Ref(&name.value), name_size);
        match value {
            Some(v) => {
                proof {
                    let k = entry_of(entries, name.id);
                    assert(decreases_to!(entries => entries[k]));
                    assert(decreases_to!(entries[k] => entries[k].1));
                    lemma_value_good(*types, named.tail, *v);
                }
                write_value(types, offset, v, ins);
                assert(inst_views(ins@) =~= head + next.ins);
            },
            None => {},
        }
        i += 1;
    }
    assert(head + plan_names(*types, start, all, entries, n).ins =~= base + plan_map(
        *types,
        at,
        all,
        entries,
    ).ins);
}

/// Plans a value with its type code.
fn write_value<'a>(
    types: &BasicTypes,
    offset: &mut usize,
    value: &'a OwnedValue,
    ins: &mut Vec<Instruction<'a>>,
)
    requires
        feasible(plan_value(*types, *old(offset) as int, *value)),
    ensures
        ({
            let plan = plan_value(*types, *old(offset) as int, *value);
            &&& inst_views(final(ins)@) == inst_views(old(ins)@) + plan.ins
            &&& *final(offset) == plan.tail
        }),
    decreases value, 0nat,
{
    let ghost base = inst_views(ins@);
    let ghost at = *offset as int;
    let ghost plan = plan_value(*types, at, *value);
    match value {
        OwnedValue::Array(items) => {
            let ghost n = items@.len();
            let ghost code = put_code(*types, at, ARRAY_TYPE_MASK);
            let ghost len = put_length(*types, code.tail, items.len());
            let ghost start = len.tail;
            let ghost head = base + (code.ins + len.ins);
            proof {
                lemma_values_reach(*types, start, items@, 0, n);
            }
            push_inst(
                ins,
                offset,
                types.type_code,
                InstData::Val(OwnedValue::U8(ARRAY_TYPE_MASK)),
                TYPE_CODE_SIZE,
            );
            push_inst(
                ins,
                offset,
                types.length,
                InstData::Val(OwnedValue::U32(items.len() as u32)),
                LENGTH_SIZE,
            );
            assert(inst_views(ins@) =~= head + plan_values(*types, start, items@, 0).ins);
            let mut i: usize = 0;
            while i < items.len()
                invariant
                    i <= items@.len(),
                    n == items@.len(),
                    *value == OwnedValue::Array(*items),
                    *offset == plan_values(*types, start, items@, i as nat).tail,
                    inst_views(ins@) == head + plan_values(*types, start, items@, i as nat).ins,
                    !plan_values(*types, start, items@, i as nat).stopped(),
                    feasible(plan_values(*types, start, items@, n)),
                decreases items@.len() - i,
            {
                let item = &items[i];
                let ghost before = plan_values(*types, start, items@, i as nat);
                let ghost next = plan_values(*types, start, items@, (i + 1) as nat);
                proof {
                    lemma_values_reach(*types, start, items@, (i + 1) as nat, n);
                    lemma_parts_smaller(*value);
                    assert(decreases_to!(value => value->Array_0@[i as int]));
                    lemma_value_good(*types, before.tail, *item);
                }
                write_value(types, offset, item, ins);
                assert(inst_views(ins@) =~= head + next.ins);
                i += 1;
            }
            assert(inst_views(ins@) =~= base + plan.ins);
        },
        OwnedValue::PrimArray(array) => {
            push_inst(
                ins,
                offset,
                types.type_code,
                InstData::Val(OwnedValue::U8(ARRAY_TYPE_MASK | array.ty.id)),
                TYPE_CODE_SIZE,
            );
            push_inst(
                ins,
                offset,
                types.length,
                InstData::Val(OwnedValue::U32(array.len as u32)),
                LENGTH_SIZE,
            );
            push_inst(ins, offset, array.ty, InstData::Ref(value), array.bytes.len());
            assert(inst_views(ins@) =~= base + plan.ins);
        },
        OwnedValue::Record(map) => {
            let mut names: Vec<&FieldName> = Vec::new();
            let mut i: usize = 0;
            while i < map.fields.len()
                invariant
                    i <= map.fields@.len(),
                    names_behind(names@) == map.fields@.take(i as int),
                decreases map.fields@.len() - i,
            {
                let ghost was = names@;
                names.push(&map.fields[i]);
                i += 1;
                proof {
                    assert(names_behind(was).len() == was.len());
                    assert forall|k: int| 0 <= k < was.len() implies *was[k] == map.fields@[k] by {
                        assert(names_behind(was)[k] == *was[k]);
                    }
                    assert(names_behind(names@) =~= map.fields@.take(i as int));
                }
            }
            assert(map.fields@.take(i as int) =~= map.fields@);
            let mut entries: Vec<(u64, &OwnedValue)> = Vec::new();
            let mut j: usize = 0;
            while j < map.map.len()
                invariant
                    j <= map.map@.len(),
                    entries_behind(entries@) == map.map@.take(j as int),
                decreases map.map@.len() - j,
            {
                let ghost was = entries@;
                entries.push((map.map[j].0, &map.map[j].1));
                j += 1;
                proof {
                    assert(entries_behind(was).len() == was.len());
                    assert forall|k: int| 0 <= k < was.len() implies was[k].0 == map.map@[k].0
                        && *was[k].1 == map.map@[k].1 by {
                        assert(entries_behind(was)[k] == (was[k].0, *was[k].1));
                    }
                    assert(entries_behind(entries@) =~= map.map@.take(j as int));
                }
            }
            assert(map.map@.take(j as int) =~= map.map@);
            proof {
                lemma_parts_smaller(*value);
                assert(decreases_to!(value => value->Record_0.map@));
            }
            write_map(types, offset, &names, &entries, ins, Ghost(map.map@));
        },
        OwnedValue::Null | OwnedValue::NA => {
            push_inst(
                ins,
                offset,
                types.type_code,
                InstData::Val(OwnedValue::U8(NULL_PLACEHOLDER)),
                TYPE_CODE_SIZE,
            );
            assert(inst_views(ins@) =~= base + plan.ins);
        },
        _ => {
            let ty = value.base_type(types);
            let value_size: usize = get_vsize(ty, value);
            push_inst(
                ins,
                offset,
                types.type_code,
                InstData::Val(OwnedValue::U8(ty.id)),
                TYPE_CODE_SIZE,
            );
            push_inst(ins, offset, ty, InstData::Ref(value), value_size);
            assert(inst_views(ins@) =~= base + plan.ins);
        },
    }
}

/// No value stops at a mismatch, and what is planned reaches no place before its start.
proof fn lemma_value_good(types: BasicTypes, at: int, value: OwnedValue)
    ensures
        plan_value(types, at, value).bad is None,
    decreases value, 0nat,
{
    match value {
        OwnedValue::Array(items) => {
            lemma_parts_smaller(value);
            lemma_values_good(types, at + TYPE_CODE_SIZE + LENGTH_SIZE, items@, items@.len());
        },
        OwnedValue::Record(map) => {
            lemma_parts_smaller(value);
            lemma_names_good(
                types,
                at + TYPE_CODE_SIZE + LENGTH_SIZE,
                map.fields@,
                map.map@,
                map.fields@.len(),
            );
        },
        _ => {},
    }
}

proof fn lemma_values_good(types: BasicTypes, at: int, items: Seq<OwnedValue>, n: nat)
    ensures
        plan_values(types, at, items, n).bad is None,
    decreases items, n,
{
    if 0 < n <= items.len() {
        lemma_values_good(types, at, items, (n - 1) as nat);
        lemma_value_good(types, plan_values(types, at, items, (n - 1) as nat).tail, items[n - 1]);
    }
}

proof fn lemma_names_good(
    types: BasicTypes,
    at: int,
    names: Seq<FieldName>,
    entries: Seq<(u64, OwnedValue)>,
    n: nat,
)
    ensures
        plan_names(types, at, names, entries, n).bad is None,
    decreases entries, n,
{
    if 0 < n <= names.len() {
        lemma_names_good(types, at, names, entries, (n - 1) as nat);
        let before = plan_names(types, at, names, entries, (n - 1) as nat);
        let name = names[n - 1].value;
        let ty = base_type_of(name, types);
        let i = entry_of(entries, names[n - 1].id);
        if 0 <= i < entries.len() {
            assert(decreases_to!(entries => entries[i]));
            assert(decreases_to!(entries[i] => entries[i].1));
            lemma_value_good(types, before.tail + vsize(ty, name), entries[i].1);
        }
    }
}

proof fn lemma_value_grows(types: BasicTypes, at: int, value: OwnedValue)
    ensures
        at <= plan_value(types, at, value).tail <= plan_value(types, at, value).high,
    decreases value, 0nat,
{
    match value {
        OwnedValue::Array(items) => {
            lemma_parts_smaller(value);
            lemma_values_grow(types, at + TYPE_CODE_SIZE + LENGTH_SIZE, items@, items@.len());
        },
        OwnedValue::Record(map) => {
            lemma_parts_smaller(value);
            lemma_names_grow(
                types,
                at + TYPE_CODE_SIZE + LENGTH_SIZE,
                map.fields@,
                map.map@,
                map.fields@.len(),
            );
        },
        _ => {},
    }
}

proof fn lemma_values_grow(types: BasicTypes, at: int, items: Seq<OwnedValue>, n: nat)
    ensures
        at <= plan_values(types, at, items, n).tail <= plan_values(types, at, items, n).high,
    decreases items, n,
{
    if 0 < n <= items.len() {
        lemma_values_grow(types, at, items, (n - 1) as nat);
        lemma_value_grows(types, plan_values(types, at, items, (n - 1) as nat).tail, items[n - 1]);
    }
}

proof fn lemma_names_grow(
    types: BasicTypes,
    at: int,
    names: Seq<FieldName>,
    entries: Seq<(u64, OwnedValue)>,
    n: nat,
)
    ensures
        at <= plan_names(types, at, names, entries, n).tail <= plan_names(
            types,
            at,
            names,
            entries,
            n,
        ).high,
    decreases entries, n,
{
    if 0 < n <= names.len() {
        lemma_names_grow(types, at, names, entries, (n - 1) as nat);
        let before = plan_names(types, at, names, entries, (n - 1) as nat);
        let name = names[n - 1].value;
        let ty = base_type_of(name, types);
        let i = entry_of(entries, names[n - 1].id);
        if 0 <= i < entries.len() {
            assert(decreases_to!(entries => entries[i]));
            assert(decreases_to!(entries[i] => entries[i].1));
            lemma_value_grows(types, before.tail + vsize(ty, name), entries[i].1);
        }
    }
}

proof fn lemma_values_reach(types: BasicTypes, at: int, items: Seq<OwnedValue>, i: nat, j: nat)
    requires
        i <= j <= items.len(),
    ensures
        plan_values(types, at, items, i).high <= plan_values(types, at, items, j).high,
        plan_values(types, at, items, i).stuck ==> plan_values(types, at, items, j).stuck,
        at <= plan_values(types, at, items, i).high,
        plan_values(types, at, items, i).bad is None,
    decreases j,
{
    lemma_values_grow(types, at, items, i);
    lemma_values_good(types, at, items, i);
    if i < j {
        lemma_values_reach(types, at, items, i, (j - 1) as nat);
    }
}

proof fn lemma_names_reach(
    types: BasicTypes,
    at: int,
    names: Seq<FieldName>,
    entries: Seq<(u64, OwnedValue)>,
    i: nat,
    j: nat,
)
    requires
        i <= j <= names.len(),
    ensures
        plan_names(types, at, names, entries, i).high <= plan_names(
            types,
            at,
            names,
            entries,
            j,
        ).high,
        plan_names(types, at, names, entries, i).stuck ==> plan_names(
            types,
            at,
            names,
            entries,
            j,
        ).stuck,
        at <= plan_names(types, at, names, entries, i).high,
        plan_names(types, at, names, entries, i).bad is None,
    decreases j,
{
    lemma_names_grow(types, at, names, entries, i);
    lemma_names_good(types, at, names, entries, i);
    if i < j {
        lemma_names_reach(types, at, names, entries, i, (j - 1) as nat);
    }
}

/// Plans a map that no field tells about: its type code, the number of names, and each name with
/// its value.
pub fn plan_write_dynamic_map<'a>(
    types: &BasicTypes,
    offset: &mut usize,
    names: &Vec<&'a FieldName>,
    map: &Vec<(u64, &'a OwnedValue)>,
    ins: &mut Vec<Instruction<'a>>,
) -> (r: Result<(), WriteError>)
    requires
        feasible(
            plan_map(*types, *old(offset) as int, names_behind(names@), entries_behind(map@)),
        ),
    ensures
        ({
            let plan = plan_map(
                *types,
                *old(offset) as int,
                names_behind(names@),
                entries_behind(map@),
            );
            &&& inst_views(final(ins)@) == inst_views(old(ins)@) + plan.ins
            &&& *final(offset) == plan.tail
            &&& r is Ok
        }),
{
    write_map(types, offset, names, map, ins, Ghost(entries_behind(map@)));
    Ok(())
}

/// Plans a value that no field tells about: its type code, and the value behind it.
pub fn plan_write_dynamic_value<'a>(
    types: &BasicTypes,
    offset: &mut usize,
    value: &'a OwnedValue,
    ins: &mut Vec<Instruction<'a>>,
) -> (r: Result<(), WriteError>)
    requires
        feasible(plan_value(*types, *old(offset) as int, *value)),
    ensures
        ({
            let plan = plan_value(*types, *old(offset) as int, *value);
            &&& inst_views(final(ins)@) == inst_views(old(ins)@) + plan.ins
            &&& *final(offset) == plan.tail
            &&& r is Ok
        }),
{
    write_value(types, offset, value, ins);
    Ok(())
}

fn schema_keys(subs: &Vec<Field>) -> (keys: HashSet<u64>)
    ensures
        forall|id: u64| #[trigger] keys@.contains(id) <==> !undeclared(subs@, id),
{
    broadcast use vstd::std_specs::hash::group_hash_axioms;

    let mut keys: HashSet<u64> = HashSet::new();
    let mut i: usize = 0;
    while i < subs.len()
        invariant
            i <= subs@.len(),
            forall|id: u64| #[trigger] keys@.contains(id) <==> !undeclared(subs@.take(i as int), id),
        decreases subs@.len() - i,
    {
        broadcast use vstd::std_specs::hash::group_hash_axioms;

        let ghost was = keys@;
        let ghost now = subs@.take(i + 1);
        let ghost before = subs@.take(i as int);
        keys.insert(subs[i].name_id);
        proof {
            assert forall|id: u64| #[trigger] keys@.contains(id) <==> !undeclared(now, id) by {
                assert(was.contains(id) <==> !undeclared(before, id));
                assert(now[i as int].name_id == subs@[i as int].name_id);
                assert forall|k: int| 0 <= k < before.len() implies now[k] == before[k] by {}
                if undeclared(before, id) && subs@[i as int].name_id != id {
                    assert(undeclared(now, id)) by {
                        assert forall|k: int| 0 <= k < now.len() implies (#[trigger] now[k]).name_id
                            != id by {
                            if k < i {
                                assert(before[k].name_id != id);
                            }
                        }
                    }
                }
                if !undeclared(before, id) {
                    let k = choose|k: int| 0 <= k < before.len() && (#[trigger] before[k]).name_id == id;
                    assert(now[k].name_id == id);
                }
            }
        }
        i += 1;
    }
    assert(subs@.take(i as int) =~= subs@);
    keys
}

fn filter_entries<'a>(map: &'a Vec<(u64, OwnedValue)>, subs: &Vec<Field>) -> (out: Vec<
    (u64, &'a OwnedValue),
>)
    ensures
        entries_behind(out@) == dynamic_entries(map@, subs@),
{
    broadcast use vstd::std_specs::hash::group_hash_axioms;

    let keys = schema_keys(subs);
    let mut out: Vec<(u64, &OwnedValue)> = Vec::new();
    let mut i: usize = 0;
    assert(entries_behind(out@) =~= dynamic_entries(map@.take(0), subs@));
    while i < map.len()
        invariant
            i <= map@.len(),
            forall|id: u64| #[trigger] keys@.contains(id) <==> !undeclared(subs@, id),
            entries_behind(out@) == dynamic_entries(map@.take(i as int), subs@),
        decreases map@.len() - i,
    {
        broadcast use vstd::std_specs::hash::group_hash_axioms;

        let ghost was = out@;
        assert(map@.take(i + 1).drop_last() =~= map@.take(i as int));
        if !keys.contains(&map[i].0) {
            out.push((map[i].0, &map[i].1));
            assert(entries_behind(out@) =~= entries_behind(was).push(map@[i as int]));
        }
        i += 1;
    }
    assert(map@.take(i as int) =~= map@);
    out
}

fn filter_names<'a>(names: &'a Vec<FieldName>, map: &Vec<(u64, &'a OwnedValue)>) -> (out: Vec<
    &'a FieldName,
>)
    ensures
        names_behind(out@) == dynamic_names(names@, entries_behind(map@)),
{
    let ghost entries = entries_behind(map@);
    let mut out: Vec<&FieldName> = Vec::new();
    let mut i: usize = 0;
    assert(names_behind(out@) =~= dynamic_names(names@.take(0), entries));
    while i < names.len()
        invariant
            i <= names@.len(),
            entries == entries_behind(map@),
            names_behind(out@) == dynamic_names(names@.take(i as int), entries),
        decreases names@.len() - i,
    {
        let ghost was = out@;
        assert(names@.take(i + 1).drop_last() =~= names@.take(i as int));
        if find_entry(map, names[i].id).is_some() {
            out.push(&names[i]);
            assert(names_behind(out@) =~= names_behind(was).push(names@[i as int]));
        }
        i += 1;
    }
    assert(names@.take(i as int) =~= names@);
    out
}

/// What writing the values that no field tells about comes to.
pub open spec fn plan_dynamic(types: BasicTypes, at: int, field: Field, value: OwnedValue) -> Plan {
    match (value, field.sub_fields) {
        (OwnedValue::Record(map), Some(subs)) => {
            let entries = dynamic_entries(map.map@, subs@);
            plan_map(types, at, dynamic_names(map.fields@, entries), entries)
        },
        _ => idle(at),
    }
}

/// Plans the values of a map that no field tells about, as a map of their own. There is nothing to
/// plan where the value is no map or the field has no sub-fields.
pub fn plan_write_dynamic_fields<'a>(
    types: &BasicTypes,
    offset: &mut usize,
    field: &Field,
    value: &'a OwnedValue,
    ins: &mut Vec<Instruction<'a>>,
) -> (r: Result<(), WriteError>)
    requires
        feasible(plan_dynamic(*types, *old(offset) as int, *field, *value)),
    ensures
        ({
            let plan = plan_dynamic(*types, *old(offset) as int, *field, *value);
            &&& inst_views(final(ins)@) == inst_views(old(ins)@) + plan.ins
            &&& *final(offset) == plan.tail
            &&& r is Ok
        }),
{
    match value {
        OwnedValue::Record(data) => match &field.sub_fields {
            Some(subs) => {
                let map = filter_entries(&data.map, subs);
                let names = filter_names(&data.fields, &map);
                return plan_write_dynamic_map(types, offset, &names, &map, ins);
            },
            None => {},
        },
        _ => {},
    }
    assert(inst_views(ins@) =~= inst_views(ins@) + idle(*offset as int).ins);
    Ok(())
}

/// A buffer after the first `n` instructions, one after the other.
pub open spec fn executed(buffer: Seq<u8>, ins: Seq<Inst>, n: nat) -> Seq<u8>
    decreases n,
{
    if n == 0 || n > ins.len() {
        buffer
    } else {
        written(
            executed(buffer, ins, (n - 1) as nat),
            stored(ins[n - 1].val),
            ins[n - 1].offset,
        )
    }
}

/// The instruction writes inside the buffer.
pub open spec fn inside(len: nat, i: Inst) -> bool {
    0 <= i.offset && i.offset + stored(i.val).len() <= len
}

proof fn lemma_executed_len(buffer: Seq<u8>, ins: Seq<Inst>, n: nat)
    ensures
        executed(buffer, ins, n).len() == buffer.len(),
    decreases n,
{
    if 0 < n <= ins.len() {
        lemma_executed_len(buffer, ins, (n - 1) as nat);
    }
}

/// Carries the instructions out, one after the other.
pub fn execute_plan(buffer: &mut Vec<u8>, instructions: &Vec<Instruction<'_>>)
    requires
        forall|i: int|
            0 <= i < instructions@.len() ==> inside(
                old(buffer)@.len(),
                (#[trigger] instructions@[i])@,
            ),
    ensures
        final(buffer)@ == executed(
            old(buffer)@,
            inst_views(instructions@),
            instructions@.len(),
        ),
{
    let ghost ins = inst_views(instructions@);
    let mut i: usize = 0;
    while i < instructions.len()
        invariant
            i <= instructions@.len(),
            ins == inst_views(instructions@),
            buffer@ == executed(old(buffer)@, ins, i as nat),
            forall|k: int|
                0 <= k < instructions@.len() ==> inside(
                    old(buffer)@.len(),
                    (#[trigger] instructions@[k])@,
                ),
        decreases instructions@.len() - i,
    {
        let instruction = &instructions[i];
        proof {
            lemma_executed_len(old(buffer)@, ins, i as nat);
            assert(inside(old(buffer)@.len(), instructions@[i as int]@));
            assert(ins[i as int] == instructions@[i as int]@);
        }
        set_val(buffer, instruction.val.val_ref(), instruction.offset);
        i += 1;
    }
}

} // verus!
