//! The part of a cell behind the fixed one: it has no gaps, and the tags in the fixed part tell where
//! in it the data of their fields begins.
use super::layout::{
    end_of, lemma_at_tiled, lemma_field_apart, lemma_tiled_apart,
    lemma_tiled_concat, no_map_for_array, suits, tiled,
};
use super::plan::{plan_at, plan_field, plan_subs, plan_tail, Inst};
use crate::ram::schema::field::{
    lemma_width_positive, lemma_widths_grow, null_width, placed, width, widths, Field,
};
use crate::ram::types::{stored, value_of, BasicTypes, OwnedValue};
use vstd::prelude::*;

verus! {

/// The instructions that write at `tail` or behind it.
pub open spec fn behind(ins: Seq<Inst>, tail: int) -> Seq<Inst>
    decreases ins.len(),
{
    if ins.len() == 0 {
        Seq::empty()
    } else {
        let rest = behind(ins.drop_last(), tail);
        if tail <= ins.last().offset < end_of(ins.last()) {
            rest.push(ins.last())
        } else {
            rest
        }
    }
}

proof fn lemma_behind_join(p: Seq<Inst>, q: Seq<Inst>, tail: int)
    ensures
        behind(p + q, tail) == behind(p, tail) + behind(q, tail),
    decreases q.len(),
{
    if q.len() == 0 {
        assert(p + q =~= p);
        assert(behind(p, tail) + behind(q, tail) =~= behind(p, tail));
    } else {
        assert((p + q).drop_last() =~= p + q.drop_last());
        lemma_behind_join(p, q.drop_last(), tail);
        assert(behind(p + q, tail) =~= behind(p, tail) + behind(q, tail));
    }
}

/// What follows one another from `at` on does so without what writes nothing.
proof fn lemma_behind_tiled(ins: Seq<Inst>, tail: int, at: int, end: int)
    requires
        tiled(ins, at, end),
        tail <= at,
    ensures
        tiled(behind(ins, tail), at, end),
    decreases ins.len(),
{
    if ins.len() > 0 {
        let last = ins.last();
        lemma_tiled_apart(ins.drop_last(), at, last.offset);
        lemma_behind_tiled(ins.drop_last(), tail, at, last.offset);
        let rest = behind(ins.drop_last(), tail);
        if last.offset < end_of(last) {
            assert(rest.push(last).drop_last() =~= rest);
        }
    }
}

/// What ends before `tail` does not write behind it.
proof fn lemma_none_behind(ins: Seq<Inst>, tail: int)
    requires
        forall|k: int| 0 <= k < ins.len() ==> end_of(#[trigger] ins[k]) <= tail,
    ensures
        behind(ins, tail) == Seq::<Inst>::empty(),
    decreases ins.len(),
{
    if ins.len() > 0 {
        let rest = ins.drop_last();
        assert forall|k: int| 0 <= k < rest.len() implies end_of(#[trigger] rest[k]) <= tail by {
            assert(rest[k] == ins[k]);
        }
        lemma_none_behind(rest, tail);
        assert(end_of(ins[ins.len() - 1]) <= tail);
    }
}

/// A field of the fixed part fills the tail without gaps.
proof fn lemma_field_behind(
    types: BasicTypes,
    from: int,
    tail: int,
    before: Field,
    field: Field,
    at: int,
    value: OwnedValue,
)
    requires
        placed(before, field, at),
        0 <= at,
        at + width(before) <= from <= tail,
        at + width(before) <= usize::MAX,
        no_map_for_array(field, value),
        suits(field, field.is_array, value),
    ensures
        ({
            let plan = plan_field(types, tail, field, field.is_array, value, false);
            tiled(behind(plan.ins, from), tail, plan.tail)
        }),
    decreases field.sub_fields, 1nat, 0nat,
{
    let arr = field.is_array;
    let plan = plan_field(types, tail, field, arr, value, false);
    lemma_width_positive(before);
    assert(tiled(Seq::<Inst>::empty(), tail, tail));
    match field.sub_fields {
        Some(subs) => match value {
            OwnedValue::Record(map) => {
                let subs0 = before.sub_fields->0@;
                let start = at + null_width(before);
                assert forall|i: int| 0 <= i < subs@.len() implies placed(
                    subs0[i],
                    #[trigger] subs@[i],
                    start + widths(subs0, i as nat),
                ) by {
                    assert(field.sub_fields->0@[i] == subs@[i]);
                }
                lemma_subs_behind(types, from, tail, subs0, subs@, subs@.len(), start, map.map@);
            },
            OwnedValue::Array(_) => if arr {
                lemma_tail_behind(types, from, tail, before, field, at, value);
            },
            _ => {},
        },
        None => if arr || field.data_type.size is None {
            lemma_tail_behind(types, from, tail, before, field, at, value);
        } else {
            let there = plan_at(types, at, field, arr, value);
            lemma_at_tiled(types, at, field, arr, value);
            lemma_tiled_apart(there.ins, at, there.tail);
            assert(there.tail <= at + width(before));
            lemma_none_behind(plan.ins, from);
        },
    }
}

proof fn lemma_tail_behind(
    types: BasicTypes,
    from: int,
    tail: int,
    before: Field,
    field: Field,
    at: int,
    value: OwnedValue,
)
    requires
        placed(before, field, at),
        0 <= at,
        at + width(before) <= from <= tail,
        at + width(before) <= usize::MAX,
        field.is_array || (field.data_type.size is None && field.sub_fields is None),
        suits(field, field.is_array, value),
        field.sub_fields is Some ==> value is Array,
    ensures
        ({
            let plan = plan_tail(types, tail, field, field.is_array, value, false);
            tiled(behind(plan.ins, from), tail, plan.tail)
        }),
{
    let arr = field.is_array;
    let plan = plan_tail(types, tail, field, arr, value, false);
    let rest = plan_at(types, tail, field, arr, value);
    lemma_at_tiled(types, tail, field, arr, value);
    let jump = Inst {
        ty: types.length,
        val: OwnedValue::U32((tail as usize) as u32),
        offset: at,
    };
    assert(stored(jump.val).len() == 4);
    assert(plan.ins =~= seq![jump] + rest.ins);
    assert(end_of(seq![jump][0]) <= from);
    lemma_none_behind(seq![jump], from);
    lemma_behind_join(seq![jump], rest.ins, from);
    lemma_behind_tiled(rest.ins, from, tail, rest.tail);
    assert(behind(plan.ins, from) =~= behind(rest.ins, from));
}

proof fn lemma_subs_behind(
    types: BasicTypes,
    from: int,
    tail: int,
    before: Seq<Field>,
    subs: Seq<Field>,
    n: nat,
    start: int,
    entries: Seq<(u64, OwnedValue)>,
)
    requires
        n <= subs.len() == before.len(),
        forall|i: int|
            0 <= i < subs.len() ==> placed(
                before[i],
                #[trigger] subs[i],
                start + widths(before, i as nat),
            ),
        0 <= start,
        start + widths(before, before.len()) <= from <= tail,
        start + widths(before, before.len()) <= usize::MAX,
        forall|i: int|
            0 <= i < subs.len() ==> no_map_for_array(
                #[trigger] subs[i],
                value_of(entries, subs[i].name_id),
            ),
        forall|i: int|
            0 <= i < subs.len() ==> suits(
                #[trigger] subs[i],
                subs[i].is_array,
                value_of(entries, subs[i].name_id),
            ),
    ensures
        ({
            let plan = plan_subs(types, tail, subs, n, entries, false);
            &&& tiled(behind(plan.ins, from), tail, plan.tail)
            &&& tail <= plan.tail
        }),
    decreases subs, 0nat, n,
{
    if n > 0 {
        let m = (n - 1) as nat;
        lemma_subs_behind(types, from, tail, before, subs, m, start, entries);
        lemma_widths_grow(before, 0, m);
        lemma_widths_grow(before, m, n);
        lemma_widths_grow(before, n, before.len());
        let head = plan_subs(types, tail, subs, m, entries, false);
        if !head.stopped() {
            let sub = subs[m as int];
            let value = value_of(entries, sub.name_id);
            let mine = plan_field(types, head.tail, sub, sub.is_array, value, false);
            let mid = start + widths(before, m);
            assert(decreases_to!(subs => subs[m as int]));
            assert(decreases_to!(subs[m as int] => subs[m as int].sub_fields));
            lemma_field_behind(types, from, head.tail, before[m as int], sub, mid, value);
            lemma_behind_join(head.ins, mine.ins, from);
            lemma_tiled_concat(
                behind(head.ins, from),
                behind(mine.ins, from),
                tail,
                head.tail,
                mine.tail,
            );
            lemma_tiled_apart(behind(mine.ins, from), head.tail, mine.tail);
        }
    }
}

/// The field's value goes behind the fixed part, and a tag to the field's place.
pub open spec fn is_tagged(field: Field, value: OwnedValue) -> bool {
    match field.sub_fields {
        Some(_) => field.is_array && value is Array,
        None => field.is_array || field.data_type.size is None,
    }
}

/// The instruction at `k` writes `begin` at the field's place, and what is written next, up to the
/// instruction at `m`, is the field's value from `begin` on.
pub open spec fn tag_at(
    types: BasicTypes,
    ins: Seq<Inst>,
    field: Field,
    value: OwnedValue,
    k: int,
    m: int,
    begin: int,
) -> bool {
    &&& 0 <= k < m <= ins.len()
    &&& field.offset is Some
    &&& ins[k].offset == field.offset->0
    &&& ins[k].val == OwnedValue::U32((begin as usize) as u32)
    &&& ins.subrange(k + 1, m) == plan_at(types, begin, field, field.is_array, value).ins
}

/// The field, and each field below it, whose value goes behind the fixed part has a tag that tells
/// where its value begins.
pub open spec fn tags_hold(
    types: BasicTypes,
    ins: Seq<Inst>,
    field: Field,
    value: OwnedValue,
) -> bool
    decreases field,
{
    if is_tagged(field, value) {
        exists|k: int, m: int, begin: int| tag_at(types, ins, field, value, k, m, begin)
    } else {
        match field.sub_fields {
            Some(subs) => match value {
                OwnedValue::Record(map) => forall|i: int|
                    0 <= i < subs@.len() ==> tags_hold(
                        types,
                        ins,
                        #[trigger] subs@[i],
                        value_of(map.map@, subs@[i].name_id),
                    ),
                _ => true,
            },
            None => true,
        }
    }
}

/// Tags hold whatever else is written before or after.
proof fn lemma_tags_stay(
    types: BasicTypes,
    p: Seq<Inst>,
    ins: Seq<Inst>,
    q: Seq<Inst>,
    field: Field,
    value: OwnedValue,
)
    requires
        tags_hold(types, ins, field, value),
    ensures
        tags_hold(types, p + ins + q, field, value),
    decreases field,
{
    let all = p + ins + q;
    if is_tagged(field, value) {
        let (k, m, begin) = choose|k: int, m: int, begin: int|
            tag_at(types, ins, field, value, k, m, begin);
        let d = p.len();
        assert(all.subrange(d + k + 1, d + m) =~= ins.subrange(k + 1, m));
        assert(all[d + k] == ins[k]);
        assert(tag_at(types, all, field, value, d + k, d + m, begin));
    } else {
        match field.sub_fields {
            Some(subs) => match value {
                OwnedValue::Record(map) => {
                    assert forall|i: int| 0 <= i < subs@.len() implies tags_hold(
                        types,
                        all,
                        #[trigger] subs@[i],
                        value_of(map.map@, subs@[i].name_id),
                    ) by {
                        lemma_tags_stay(
                            types,
                            p,
                            ins,
                            q,
                            subs@[i],
                            value_of(map.map@, subs@[i].name_id),
                        );
                    }
                },
                _ => {},
            },
            None => {},
        }
    }
}

proof fn lemma_field_tags(types: BasicTypes, tail: int, field: Field, value: OwnedValue)
    requires
        !plan_field(types, tail, field, field.is_array, value, false).stopped(),
    ensures
        tags_hold(
            types,
            plan_field(types, tail, field, field.is_array, value, false).ins,
            field,
            value,
        ),
    decreases field.sub_fields, 1nat, 0nat,
{
    let plan = plan_field(types, tail, field, field.is_array, value, false);
    if is_tagged(field, value) {
        let rest = plan_at(types, tail, field, field.is_array, value);
        assert(field.offset is Some);
        let n = plan.ins.len() as int;
        assert(plan.ins.subrange(1, n) =~= rest.ins);
        assert(tag_at(types, plan.ins, field, value, 0, n, tail));
    } else {
        match field.sub_fields {
            Some(subs) => match value {
                OwnedValue::Record(map) => {
                    lemma_subs_tags(types, tail, subs@, subs@.len(), map.map@);
                },
                _ => {},
            },
            None => {},
        }
    }
}

proof fn lemma_subs_tags(
    types: BasicTypes,
    tail: int,
    subs: Seq<Field>,
    n: nat,
    entries: Seq<(u64, OwnedValue)>,
)
    requires
        n <= subs.len(),
        !plan_subs(types, tail, subs, n, entries, false).stopped(),
    ensures
        forall|i: int|
            0 <= i < n ==> tags_hold(
                types,
                plan_subs(types, tail, subs, n, entries, false).ins,
                #[trigger] subs[i],
                value_of(entries, subs[i].name_id),
            ),
    decreases subs, 0nat, n,
{
    if n > 0 {
        let m = (n - 1) as nat;
        let head = plan_subs(types, tail, subs, m, entries, false);
        lemma_subs_tags(types, tail, subs, m, entries);
        let sub = subs[m as int];
        let value = value_of(entries, sub.name_id);
        let mine = plan_field(types, head.tail, sub, sub.is_array, value, false);
        assert(decreases_to!(subs => subs[m as int]));
        assert(decreases_to!(subs[m as int] => subs[m as int].sub_fields));
        lemma_field_tags(types, head.tail, sub, value);
        let all = head.ins + mine.ins;
        let none = Seq::<Inst>::empty();
        assert forall|i: int| 0 <= i < n implies tags_hold(
            types,
            all,
            #[trigger] subs[i],
            value_of(entries, subs[i].name_id),
        ) by {
            if i < m {
                lemma_tags_stay(
                    types,
                    none,
                    head.ins,
                    mine.ins,
                    subs[i],
                    value_of(entries, subs[i].name_id),
                );
                assert(none + head.ins + mine.ins =~= all);
            } else {
                lemma_tags_stay(types, head.ins, mine.ins, none, sub, value);
                assert(head.ins + mine.ins + none =~= all);
            }
        }
    }
}

/// The cell of a laid-out root: what is written behind the fixed part follows one another from the
/// tail to the plan's end, with no byte in between; and unless a value does not go with its field,
/// each field whose value is there has a tag at its place that tells where the value begins.
pub proof fn lemma_root_laid_out(
    types: BasicTypes,
    tail: int,
    before: Field,
    field: Field,
    value: OwnedValue,
)
    requires
        placed(before, field, 0),
        width(before) <= tail,
        width(before) <= usize::MAX,
        no_map_for_array(field, value),
        suits(field, field.is_array, value),
    ensures
        ({
            let plan = plan_field(types, tail, field, field.is_array, value, false);
            &&& tiled(behind(plan.ins, tail), tail, plan.tail)
            &&& plan.bad is None ==> tags_hold(types, plan.ins, field, value)
        }),
{
    lemma_field_behind(types, tail, tail, before, field, 0, value);
    lemma_field_apart(types, tail, before, field, 0, value);
    let plan = plan_field(types, tail, field, field.is_array, value, false);
    if plan.bad is None {
        lemma_field_tags(types, tail, field, value);
    }
}

} // verus!
