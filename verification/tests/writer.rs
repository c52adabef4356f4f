use neb::ram::io::plan::{ARRAY_TYPE_MASK, NULL_PLACEHOLDER};
use neb::ram::io::writer::{
    execute_plan, plan_write_dynamic_fields, plan_write_dynamic_map, plan_write_dynamic_value,
    plan_write_field, InstData, Instruction, WriteError,
};
use neb::ram::schema::field::Field;
use neb::ram::schema::map::{path_names, Schema, SchemaHashes};
use neb::ram::types::{
    get_vsize, BasicTypes, FieldName, OwnedMap, OwnedValue, Primitive, PrimitiveArray, Type,
};

const BOOL: Type = Type { id: 1, size: Some(1) };
const CODE: Type = Type { id: 2, size: Some(1) };
const LEN: Type = Type { id: 3, size: Some(4) };
const MAP: Type = Type { id: 4, size: None };
const SHORT: Type = Type { id: 7, size: Some(2) };
const TEXT: Type = Type { id: 9, size: None };
const TYPES: BasicTypes = BasicTypes { boolean: BOOL, type_code: CODE, length: LEN, map: MAP };

fn short(n: u16) -> OwnedValue {
    OwnedValue::Prim(Primitive { ty: SHORT, bytes: n.to_le_bytes().to_vec() })
}

fn text(s: &str) -> OwnedValue {
    OwnedValue::Prim(Primitive { ty: TEXT, bytes: s.as_bytes().to_vec() })
}

fn shorts(ns: &[u16]) -> OwnedValue {
    OwnedValue::PrimArray(PrimitiveArray {
        ty: SHORT,
        len: ns.len(),
        bytes: ns.iter().flat_map(|n| n.to_le_bytes()).collect(),
    })
}

fn id(name: &str) -> u64 {
    name.bytes().fold(7, |h, b| h * 31 + b as u64)
}

fn record(entries: Vec<(&str, OwnedValue)>) -> OwnedValue {
    let fields = entries.iter().map(|(n, _)| FieldName { id: id(n), value: text(n) }).collect();
    let map = entries.into_iter().map(|(n, v)| (id(n), v)).collect();
    OwnedValue::Record(OwnedMap { fields, map })
}

fn field(name: &str, ty: Type, nullable: bool, array: bool, subs: Option<Vec<Field>>) -> Field {
    Field::new(name, id(name), ty, nullable, array, subs, vec![])
}

fn placed(f: Field) -> Schema {
    let paths = (0..path_names(&f).len() as u64).collect();
    Schema::new("s", None, f, SchemaHashes { keys: vec![], paths }, false, false)
}

fn written(size: usize, ins: &Vec<Instruction>) -> Vec<u8> {
    let mut buffer = vec![0xEEu8; size];
    execute_plan(&mut buffer, ins);
    buffer
}

fn offsets(ins: &Vec<Instruction>) -> Vec<usize> {
    ins.iter().map(|i| i.offset).collect()
}

#[test]
fn instruction_data_is_a_value() {
    let v = short(3);
    assert!(matches!(InstData::Ref(&v).val_ref(), OwnedValue::Prim(p) if p.bytes == vec![3, 0]));
    assert!(matches!(InstData::Val(OwnedValue::U8(4)).val_ref(), OwnedValue::U8(4)));
    assert_eq!(get_vsize(SHORT, &v), 2);
    assert_eq!(get_vsize(TEXT, &text("abc")), 3);
}

#[test]
fn a_fixed_value_goes_to_its_place() {
    let s = placed(field("a", SHORT, false, false, None));
    let v = short(0x0102);
    let mut ins = vec![];
    let mut tail = s.static_bound;
    assert!(plan_write_field(&TYPES, &mut tail, &s.fields, &v, &mut ins, false).is_ok());
    assert_eq!(tail, 2);
    assert_eq!(written(3, &ins), vec![2, 1, 0xEE]);
}

#[test]
fn a_text_goes_behind_the_fixed_part() {
    let s = placed(field("a", TEXT, false, false, None));
    let v = text("hey");
    let mut ins = vec![];
    let mut tail = s.static_bound;
    assert!(plan_write_field(&TYPES, &mut tail, &s.fields, &v, &mut ins, false).is_ok());
    assert_eq!(tail, 7);
    assert_eq!(written(7, &ins), vec![4, 0, 0, 0, b'h', b'e', b'y']);
}

#[test]
fn nulls_are_marked() {
    let s = placed(field("a", SHORT, true, false, None));
    let mut ins = vec![];
    let mut tail = s.static_bound;
    let null = OwnedValue::Null;
    assert!(plan_write_field(&TYPES, &mut tail, &s.fields, &null, &mut ins, false).is_ok());
    assert_eq!(written(3, &ins), vec![1, 0xEE, 0xEE]);
    let mut ins = vec![];
    let v = short(5);
    assert!(plan_write_field(&TYPES, &mut tail, &s.fields, &v, &mut ins, false).is_ok());
    assert_eq!(written(3, &ins), vec![0, 5, 0]);
    let s = placed(field("a", TEXT, true, false, None));
    let mut tail = s.static_bound;
    let mut ins = vec![];
    assert!(plan_write_field(&TYPES, &mut tail, &s.fields, &null, &mut ins, false).is_ok());
    assert_eq!(tail, 5);
    assert_eq!(written(5, &ins), vec![4, 0, 0, 0, 1]);
}

#[test]
fn a_null_needs_a_nullable_field() {
    let s = placed(field("a", SHORT, false, false, None));
    let mut ins = vec![];
    let mut tail = 2;
    let null = OwnedValue::Null;
    match plan_write_field(&TYPES, &mut tail, &s.fields, &null, &mut ins, false) {
        Err(WriteError::DataMismatchSchema(f, v)) => {
            assert_eq!(f.name, "a");
            assert!(matches!(v, OwnedValue::Null));
        }
        Ok(()) => panic!("a mismatch"),
    }
    assert!(ins.is_empty());
}

#[test]
fn arrays_hold_their_length_and_items() {
    let s = placed(field("a", SHORT, false, true, None));
    let v = OwnedValue::Array(vec![short(1), short(2)]);
    let mut ins = vec![];
    let mut tail = s.static_bound;
    assert!(plan_write_field(&TYPES, &mut tail, &s.fields, &v, &mut ins, false).is_ok());
    assert_eq!(offsets(&ins), vec![0, 4, 8, 10]);
    assert_eq!(tail, 12);
    assert_eq!(written(12, &ins), vec![4, 0, 0, 0, 2, 0, 0, 0, 1, 0, 2, 0]);
    let v = shorts(&[1, 2]);
    let mut ins = vec![];
    let mut tail = s.static_bound;
    assert!(plan_write_field(&TYPES, &mut tail, &s.fields, &v, &mut ins, false).is_ok());
    assert_eq!(tail, 12);
    assert_eq!(written(12, &ins), vec![4, 0, 0, 0, 2, 0, 0, 0, 1, 0, 2, 0]);
}

#[test]
fn an_array_field_needs_an_array() {
    let s = placed(field("a", SHORT, true, true, None));
    let mut ins = vec![];
    let mut tail = s.static_bound;
    let v = short(1);
    match plan_write_field(&TYPES, &mut tail, &s.fields, &v, &mut ins, false) {
        Err(WriteError::DataMismatchSchema(f, _)) => assert!(f.is_array),
        Ok(()) => panic!("a mismatch"),
    }
    // the pointer and the null mark were planned before
    assert_eq!(ins.len(), 2);
    assert_eq!(tail, 5);
}

#[test]
fn an_item_that_does_not_fit_is_told_as_an_item() {
    let s = placed(field("a", SHORT, false, true, None));
    let v = OwnedValue::Array(vec![short(1), OwnedValue::Null, short(2)]);
    let mut ins = vec![];
    let mut tail = s.static_bound;
    match plan_write_field(&TYPES, &mut tail, &s.fields, &v, &mut ins, false) {
        Err(WriteError::DataMismatchSchema(f, v)) => {
            assert!(!f.is_array);
            assert!(matches!(v, OwnedValue::Null));
        }
        Ok(()) => panic!("a mismatch"),
    }
    assert_eq!(ins.len(), 3);
    assert_eq!(tail, 10);
}

fn person() -> Schema {
    placed(field(
        "*",
        MAP,
        false,
        false,
        Some(vec![
            field("id", SHORT, false, false, None),
            field("name", TEXT, false, false, None),
            field("nick", TEXT, true, false, None),
            field(
                "rows",
                MAP,
                false,
                true,
                Some(vec![field("x", SHORT, false, false, None), field("y", TEXT, false, false, None)]),
            ),
        ]),
    ))
}

#[test]
fn a_record_is_written_field_by_field() {
    let s = person();
    assert_eq!(s.static_bound, 14);
    let v = record(vec![
        ("rows", OwnedValue::Array(vec![
            record(vec![("x", short(7)), ("y", text("q"))]),
            record(vec![("y", text("")), ("x", short(8))]),
        ])),
        ("name", text("Ann")),
        ("id", short(3)),
    ]);
    let mut ins = vec![];
    let mut tail = s.static_bound;
    assert!(plan_write_field(&TYPES, &mut tail, &s.fields, &v, &mut ins, false).is_ok());
    let buffer = written(tail, &ins);
    let expected = vec![
        3, 0, // id
        14, 0, 0, 0, // where the name is
        17, 0, 0, 0, // where the nick is
        18, 0, 0, 0, // where the rows are
        b'A', b'n', b'n', 1, // the name, and a null nick
        2, 0, 0, 0, 7, 0, b'q', 8, 0, // the rows
    ];
    assert_eq!(buffer, expected);
    // no byte is written twice
    let mut hits = vec![0; tail];
    for i in &ins {
        for k in 0..i.val.val_ref().stored_len() {
            hits[i.offset + k] += 1;
        }
    }
    assert!(hits.iter().all(|h| *h == 1));
}

#[test]
fn a_record_needs_fields() {
    let s = person();
    let mut ins = vec![];
    let mut tail = s.static_bound;
    let v = short(1);
    assert!(plan_write_field(&TYPES, &mut tail, &s.fields, &v, &mut ins, false).is_err());
    let v = OwnedValue::Array(vec![]);
    assert!(plan_write_field(&TYPES, &mut tail, &s.fields, &v, &mut ins, false).is_err());
    let v = record(vec![("id", short(1))]);
    // the id was planned, and a pointer to the missing name
    assert!(plan_write_field(&TYPES, &mut tail, &s.fields, &v, &mut ins, false).is_err());
    assert_eq!(ins.len(), 2);
}

#[test]
fn dynamic_values_carry_their_types() {
    let v = OwnedValue::Array(vec![
        short(5),
        OwnedValue::Null,
        OwnedValue::NA,
        shorts(&[1, 2]),
        OwnedValue::Bool(true),
        record(vec![("k", OwnedValue::U8(6))]),
    ]);
    let mut ins = vec![];
    let mut at = 0;
    assert!(plan_write_dynamic_value(&TYPES, &mut at, &v, &mut ins).is_ok());
    let expected = vec![
        ARRAY_TYPE_MASK, 6, 0, 0, 0, // an array of six
        SHORT.id, 5, 0, // a number
        NULL_PLACEHOLDER, NULL_PLACEHOLDER, // nothing
        ARRAY_TYPE_MASK | SHORT.id, 2, 0, 0, 0, 1, 0, 2, 0, // numbers
        BOOL.id, 1, // a flag
        MAP.id, 1, 0, 0, 0, b'k', CODE.id, 6, // a map
    ];
    assert_eq!(at, expected.len());
    assert_eq!(written(at, &ins), expected);
}

#[test]
fn undeclared_values_are_written_as_a_map() {
    let s = person();
    let v = record(vec![("extra", short(9)), ("name", text("Ann")), ("more", OwnedValue::Null)]);
    let mut ins = vec![];
    let mut at = 10;
    assert!(plan_write_dynamic_fields(&TYPES, &mut at, &s.fields, &v, &mut ins).is_ok());
    let mut expected = vec![0xEE; 10];
    expected.extend([MAP.id, 2, 0, 0, 0]);
    expected.extend(b"extra");
    expected.extend([SHORT.id, 9, 0]);
    expected.extend(b"more");
    expected.extend([NULL_PLACEHOLDER]);
    assert_eq!(at, expected.len());
    assert_eq!(written(at, &ins), expected);
    // nothing undeclared is an empty map, and nothing at all is nothing
    let v = record(vec![("name", text("Ann"))]);
    let mut ins = vec![];
    let mut at = 0;
    assert!(plan_write_dynamic_fields(&TYPES, &mut at, &s.fields, &v, &mut ins).is_ok());
    assert_eq!(at, 5);
    let v = short(1);
    assert!(plan_write_dynamic_fields(&TYPES, &mut at, &s.fields, &v, &mut ins).is_ok());
    assert_eq!(at, 5);
}

#[test]
fn a_map_is_written_in_the_order_of_its_names() {
    let (a, b) = (short(1), short(2));
    let names = [FieldName { id: 2, value: text("b") }, FieldName { id: 1, value: text("a") }];
    let mut ins = vec![];
    let mut at = 0;
    let r = plan_write_dynamic_map(
        &TYPES,
        &mut at,
        &names.iter().collect(),
        &vec![(1, &a), (2, &b)],
        &mut ins,
    );
    assert!(r.is_ok());
    assert_eq!(written(at, &ins), vec![MAP.id, 2, 0, 0, 0, b'b', SHORT.id, 2, 0, b'a', SHORT.id, 1, 0]);
}

#[test]
fn copies_of_values_are_the_same() {
    let v = record(vec![("a", OwnedValue::Array(vec![short(1), OwnedValue::U32(70000)])), ("b", shorts(&[4]))]);
    let copy = v.duplicate();
    let mut one = vec![];
    let mut two = vec![];
    let (mut x, mut y) = (0, 0);
    plan_write_dynamic_value(&TYPES, &mut x, &v, &mut one).ok().unwrap();
    plan_write_dynamic_value(&TYPES, &mut y, &copy, &mut two).ok().unwrap();
    assert_eq!(written(x, &one), written(y, &two));
    assert!(matches!(copy, OwnedValue::Record(ref m) if matches!(m.get_by_key_id(1), OwnedValue::Null)));
}

#[test]
fn tags_tell_where_values_begin() {
    let s = person();
    let v = record(vec![
        ("id", short(3)),
        ("name", text("Ann")),
        ("nick", text("A")),
        ("rows", OwnedValue::Array(vec![record(vec![("x", short(7)), ("y", text("q"))])])),
    ]);
    let mut ins = vec![];
    let mut tail = s.static_bound;
    assert!(plan_write_field(&TYPES, &mut tail, &s.fields, &v, &mut ins, false).is_ok());
    // what is written behind the fixed part has no gaps
    let mut at = s.static_bound;
    for i in ins.iter().filter(|i| i.offset >= s.static_bound) {
        assert_eq!(i.offset, at);
        at += i.val.val_ref().stored_len();
    }
    assert_eq!(at, tail);
    // the value that follows a tag begins where the tag tells
    let tags: Vec<usize> = (0..ins.len())
        .filter(|k| {
            matches!(ins[*k].val.val_ref(), OwnedValue::U32(_)) && ins[*k].offset < s.static_bound
        })
        .collect();
    assert_eq!(tags.len(), 3);
    for k in tags {
        match ins[k].val.val_ref() {
            OwnedValue::U32(begin) => assert_eq!(ins[k + 1].offset, *begin as usize),
            _ => unreachable!(),
        }
    }
}
