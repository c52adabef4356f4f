//! Plain values that cells are made of.
use vstd::prelude::*;

verus! {

/// The id of a cell: two words, of which the higher one places the cell on a server.
#[derive(Clone, Copy, Debug, PartialEq, Eq, Structural)]
pub struct Id {
    pub higher: u64,
    pub lower: u64,
}

impl Id {
    pub fn new(higher: u64, lower: u64) -> (id: Id)
        ensures
            id == (Id { higher, lower }),
    {
        Id { higher, lower }
    }

    /// The id of no cell.
    pub fn unit_id() -> (id: Id)
        ensures
            id == (Id { higher: 0, lower: 0 }),
    {
        Id { higher: 0, lower: 0 }
    }
}

/// A type of stored values: its id and, where all its values take the same space, that space.
#[derive(Clone, Copy, Debug, PartialEq, Eq, Structural)]
pub struct Type {
    pub id: u8,
    pub size: Option<usize>,
}

/// Whether all values of a type take the same space.
pub fn fixed_size(ty: Type) -> (r: bool)
    ensures
        r == ty.size is Some,
{
    ty.size.is_some()
}

/// The space that a value of a type takes.
pub fn size_of_type(ty: Type) -> (n: usize)
    requires
        ty.size is Some,
    ensures
        Some(n) == ty.size,
{
    ty.size.unwrap()
}

/// The types of the marks that a stored cell holds beside its values.
#[derive(Clone, Copy, Debug, PartialEq, Eq, Structural)]
pub struct BasicTypes {
    /// Whether a nullable value is null.
    pub boolean: Type,
    /// The type id of a dynamic value.
    pub type_code: Type,
    /// The length of an array, or where a value stands.
    pub length: Type,
    pub map: Type,
}

/// The space of a type code.
pub const TYPE_CODE_SIZE: usize = 1;

/// The space of a length, or of a pointer to a value.
pub const LENGTH_SIZE: usize = 4;

/// A value of one type in its stored form.
#[derive(Debug)]
pub struct Primitive {
    pub ty: Type,
    pub bytes: Vec<u8>,
}

/// An array of values of one type in its stored form.
#[derive(Debug)]
pub struct PrimitiveArray {
    pub ty: Type,
    pub len: usize,
    pub bytes: Vec<u8>,
}

/// The name of a map's field with the id that stands for it; `value` is the name as a stored value.
#[derive(Debug)]
pub struct FieldName {
    pub id: u64,
    pub value: OwnedValue,
}

/// Named values, found by the ids of their names. The names stand in the order they came in.
#[derive(Debug)]
pub struct OwnedMap {
    pub fields: Vec<FieldName>,
    pub map: Vec<(u64, OwnedValue)>,
}

#[derive(Debug)]
pub enum OwnedValue {
    Null,
    NA,
    Bool(bool),
    U8(u8),
    U32(u32),
    Prim(Primitive),
    PrimArray(PrimitiveArray),
    Array(Vec<OwnedValue>),
    Record(OwnedMap),
}

/// Where the first entry of a key stands, or the number of entries.
pub open spec fn entry_of(entries: Seq<(u64, OwnedValue)>, id: u64) -> int
    decreases entries.len(),
{
    if entries.len() == 0 {
        0
    } else if entries[0].0 == id {
        0
    } else {
        1 + entry_of(entries.drop_first(), id)
    }
}

pub proof fn lemma_entry_of(entries: Seq<(u64, OwnedValue)>, id: u64)
    ensures
        0 <= entry_of(entries, id) <= entries.len(),
        entry_of(entries, id) < entries.len() ==> entries[entry_of(entries, id)].0 == id,
        forall|i: int| 0 <= i < entry_of(entries, id) ==> (#[trigger] entries[i]).0 != id,
    decreases entries.len(),
{
    if entries.len() > 0 && entries[0].0 != id {
        lemma_entry_of(entries.drop_first(), id);
        let rest = entries.drop_first();
        assert forall|i: int| 0 <= i < entry_of(entries, id) implies (#[trigger] entries[i]).0 != id by {
            if i > 0 {
                assert(rest[i - 1] == entries[i]);
            }
        }
    }
}

/// The value of a key, null if there is none.
pub open spec fn value_of(entries: Seq<(u64, OwnedValue)>, id: u64) -> OwnedValue {
    let i = entry_of(entries, id);
    if 0 <= i < entries.len() {
        entries[i].1
    } else {
        OwnedValue::Null
    }
}

/// The value under an id is that of the first entry with the id, and null if no entry has it.
pub proof fn lemma_value_of(entries: Seq<(u64, OwnedValue)>, id: u64, i: int)
    ensures
        0 <= i < entries.len() && entries[i].0 == id && (forall|j: int|
            0 <= j < i ==> (#[trigger] entries[j]).0 != id) ==> value_of(entries, id) == entries[i].1,
        (forall|j: int| 0 <= j < entries.len() ==> (#[trigger] entries[j]).0 != id) ==> value_of(
            entries,
            id,
        ) is Null,
{
    lemma_entry_of(entries, id);
    let k = entry_of(entries, id);
    if k < entries.len() {
        assert(entries[k].0 == id);
    }
}

/// What is stored of a plain value tells the value: a flag in one byte, a number in one byte or in
/// four with the lowest one first, and the bytes of values of other types as they are.
pub proof fn lemma_stored(v: OwnedValue)
    ensures
        v matches OwnedValue::Bool(b) ==> stored(v).len() == 1 && stored(v)[0] == if b {
            1u8
        } else {
            0u8
        },
        v matches OwnedValue::U8(x) ==> stored(v).len() == 1 && stored(v)[0] == x,
        v matches OwnedValue::U32(x) ==> stored(v).len() == 4 && stored(v)[0] + 256 * stored(v)[1]
            + 65536 * stored(v)[2] + 16777216 * stored(v)[3] == x,
        v matches OwnedValue::Prim(p) ==> stored(v) == p.bytes@,
        v matches OwnedValue::PrimArray(a) ==> stored(v) == a.bytes@,
        v is Null || v is NA || v is Array || v is Record ==> stored(v).len() == 0,
{
    if v is U32 {
        let x = v->U32_0;
        assert(x == (x % 256) + 256 * ((x / 256) % 256) + 65536 * ((x / 65536) % 256) + 16777216 * ((
        x / 16777216) % 256)) by (bit_vector);
    }
}

impl OwnedMap {
    /// The value of a key, null if there is none.
    pub fn get_by_key_id(&self, id: u64) -> (v: &OwnedValue)
        ensures
            *v == value_of(self.map@, id),
    {
        let mut i: usize = 0;
        let ghost entries = self.map@;
        assert(entries.skip(0) =~= entries);
        while i < self.map.len()
            invariant
                i <= entries.len(),
                entries == self.map@,
                entry_of(entries, id) == i + entry_of(entries.skip(i as int), id),
            decreases entries.len() - i,
        {
            assert(entries.skip(i as int).drop_first() =~= entries.skip(i + 1));
            if self.map[i].0 == id {
                return &self.map[i].1;
            }
            i += 1;
        }
        &OwnedValue::Null
    }
}

/// The four bytes of a number, the lowest first.
pub open spec fn u32_bytes(x: u32) -> Seq<u8> {
    seq![
        (x % 256) as u8,
        ((x / 256) % 256) as u8,
        ((x / 65536) % 256) as u8,
        ((x / 16777216) % 256) as u8,
    ]
}

/// The stored form of a value. Arrays, maps and nulls have none of their own.
pub open spec fn stored(v: OwnedValue) -> Seq<u8> {
    match v {
        OwnedValue::Bool(b) => seq![
            if b {
                1u8
            } else {
                0u8
            },
        ],
        OwnedValue::U8(x) => seq![x],
        OwnedValue::U32(x) => u32_bytes(x),
        OwnedValue::Prim(p) => p.bytes@,
        OwnedValue::PrimArray(a) => a.bytes@,
        _ => Seq::empty(),
    }
}

/// The type of a value's stored form.
pub open spec fn base_type_of(v: OwnedValue, types: BasicTypes) -> Type {
    match v {
        OwnedValue::Bool(_) => types.boolean,
        OwnedValue::U8(_) => types.type_code,
        OwnedValue::U32(_) => types.length,
        OwnedValue::Prim(p) => p.ty,
        OwnedValue::PrimArray(a) => a.ty,
        _ => types.map,
    }
}

/// The space that a value takes in a place of type `ty`.
pub open spec fn vsize(ty: Type, v: OwnedValue) -> int {
    match ty.size {
        Some(n) => n as int,
        None => stored(v).len() as int,
    }
}

impl OwnedValue {
    pub fn base_type(&self, types: &BasicTypes) -> (ty: Type)
        ensures
            ty == base_type_of(*self, *types),
            *self is Bool ==> ty == types.boolean,
            *self is U8 ==> ty == types.type_code,
            *self is U32 ==> ty == types.length,
            *self matches OwnedValue::Prim(p) ==> ty == p.ty,
            *self matches OwnedValue::PrimArray(a) ==> ty == a.ty,
            *self is Record ==> ty == types.map,
    {
        match self {
            OwnedValue::Bool(_) => types.boolean,
            OwnedValue::U8(_) => types.type_code,
            OwnedValue::U32(_) => types.length,
            OwnedValue::Prim(p) => p.ty,
            OwnedValue::PrimArray(a) => a.ty,
            _ => types.map,
        }
    }

    pub fn stored_len(&self) -> (n: usize)
        ensures
            n == stored(*self).len(),
    {
        match self {
            OwnedValue::Bool(_) => 1,
            OwnedValue::U8(_) => 1,
            OwnedValue::U32(_) => 4,
            OwnedValue::Prim(p) => p.bytes.len(),
            OwnedValue::PrimArray(a) => a.bytes.len(),
            _ => 0,
        }
    }
}

/// The space that a value takes in a place of type `ty`.
pub fn get_vsize(ty: Type, v: &OwnedValue) -> (n: usize)
    ensures
        n == vsize(ty, *v),
        ty.size matches Some(size) ==> n == size,
        ty.size is None ==> n == stored(*v).len(),
{
    match ty.size {
        Some(n) => n,
        None => v.stored_len(),
    }
}

/// Writes the stored form of a value at `at`.
pub fn set_val(buffer: &mut Vec<u8>, v: &OwnedValue, at: usize)
    requires
        at + stored(*v).len() <= old(buffer)@.len(),
    ensures
        final(buffer)@ == written(old(buffer)@, stored(*v), at as int),
{
    match v {
        OwnedValue::Bool(b) => {
            let bytes: Vec<u8> = vec![
                if *b {
                    1
                } else {
                    0
                },
            ];
            assert(bytes@ =~= stored(*v));
            write_bytes(buffer, &bytes, at);
        },
        OwnedValue::U8(x) => {
            let bytes: Vec<u8> = vec![*x];
            assert(bytes@ =~= stored(*v));
            write_bytes(buffer, &bytes, at);
        },
        OwnedValue::U32(x) => {
            let bytes: Vec<u8> = vec![
                (*x % 256) as u8,
                ((*x / 256) % 256) as u8,
                ((*x / 65536) % 256) as u8,
                ((*x / 16777216) % 256) as u8,
            ];
            assert(bytes@ =~= stored(*v));
            write_bytes(buffer, &bytes, at);
        },
        OwnedValue::Prim(p) => write_bytes(buffer, &p.bytes, at),
        OwnedValue::PrimArray(a) => write_bytes(buffer, &a.bytes, at),
        _ => {
            assert(buffer@ =~= written(buffer@, Seq::empty(), at as int));
        },
    }
}

/// A buffer with bytes written at `at`.
pub open spec fn written(buffer: Seq<u8>, bytes: Seq<u8>, at: int) -> Seq<u8> {
    Seq::new(
        buffer.len(),
        |i: int|
            if at <= i < at + bytes.len() {
                bytes[i - at]
            } else {
                buffer[i]
            },
    )
}

fn write_bytes(buffer: &mut Vec<u8>, bytes: &Vec<u8>, at: usize)
    requires
        at + bytes@.len() <= old(buffer)@.len(),
    ensures
        final(buffer)@ == written(old(buffer)@, bytes@, at as int),
{
    let ghost before = buffer@;
    let mut i: usize = 0;
    assert(buffer@ =~= written(before, bytes@.take(0), at as int));
    assert(buffer.len() == buffer@.len());
    while i < bytes.len()
        invariant
            i <= bytes@.len(),
            before.len() <= usize::MAX,
            at + bytes@.len() <= before.len(),
            buffer@ == written(before, bytes@.take(i as int), at as int),
        decreases bytes@.len() - i,
    {
        let b: u8 = bytes[i];
        buffer.set(at + i, b);
        assert(buffer@ =~= written(before, bytes@.take(i + 1), at as int));
        i += 1;
    }
    assert(bytes@.take(i as int) =~= bytes@);
}

/// Two values are the same through and through.
pub open spec fn same_value(a: OwnedValue, b: OwnedValue) -> bool
    decreases a,
{
    match (a, b) {
        (OwnedValue::Null, OwnedValue::Null) => true,
        (OwnedValue::NA, OwnedValue::NA) => true,
        (OwnedValue::Bool(x), OwnedValue::Bool(y)) => x == y,
        (OwnedValue::U8(x), OwnedValue::U8(y)) => x == y,
        (OwnedValue::U32(x), OwnedValue::U32(y)) => x == y,
        (OwnedValue::Prim(x), OwnedValue::Prim(y)) => x.ty == y.ty && x.bytes@ == y.bytes@,
        (OwnedValue::PrimArray(x), OwnedValue::PrimArray(y)) => x.ty == y.ty && x.len == y.len
            && x.bytes@ == y.bytes@,
        (OwnedValue::Array(x), OwnedValue::Array(y)) => x@.len() == y@.len() && forall|i: int|
            0 <= i < x@.len() ==> same_value(#[trigger] x@[i], y@[i]),
        (OwnedValue::Record(x), OwnedValue::Record(y)) => {
            &&& x.fields@.len() == y.fields@.len()
            &&& x.map@.len() == y.map@.len()
            &&& forall|i: int|
                0 <= i < x.fields@.len() ==> (#[trigger] x.fields@[i]).id == y.fields@[i].id
                    && same_value(x.fields@[i].value, y.fields@[i].value)
            &&& forall|i: int|
                0 <= i < x.map@.len() ==> (#[trigger] x.map@[i]).0 == y.map@[i].0 && same_value(
                    x.map@[i].1,
                    y.map@[i].1,
                )
        },
        _ => false,
    }
}

/// What a value is made of is smaller than the value.
pub proof fn lemma_parts_smaller(v: OwnedValue)
    ensures
        v is Array ==> decreases_to!(v => v->Array_0@),
        v is Array ==> forall|i: int|
            0 <= i < v->Array_0@.len() ==> (decreases_to!(v => #[trigger] v->Array_0@[i])),
        v is Record ==> decreases_to!(v => v->Record_0.map@),
        v is Record ==> forall|i: int|
            0 <= i < v->Record_0.map@.len() ==> (decreases_to!(v => (#[trigger] v->Record_0.map@[i]).1)),
        v is Record ==> forall|i: int|
            0 <= i < v->Record_0.fields@.len() ==> (decreases_to!(v => (#[trigger] v->Record_0.fields@[i]).value)),
{
    match v {
        OwnedValue::Array(_) => {
            assert(decreases_to!(v => v->Array_0));
            assert(decreases_to!(v->Array_0 => v->Array_0@));
        },
        OwnedValue::Record(_) => {
            assert(decreases_to!(v => v->Record_0));
            assert(decreases_to!(v->Record_0 => v->Record_0.map));
            assert(decreases_to!(v->Record_0.map => v->Record_0.map@));
            assert(decreases_to!(v->Record_0 => v->Record_0.fields));
            assert(decreases_to!(v->Record_0.fields => v->Record_0.fields@));
            assert forall|i: int| 0 <= i < v->Record_0.map@.len() implies (decreases_to!(v => (#[trigger] v->Record_0.map@[i]).1)) by {
                assert(decreases_to!(v->Record_0.map@ => v->Record_0.map@[i]));
                assert(decreases_to!(v->Record_0.map@[i] => v->Record_0.map@[i].1));
            }
            assert forall|i: int| 0 <= i < v->Record_0.fields@.len() implies (decreases_to!(v => (#[trigger] v->Record_0.fields@[i]).value)) by {
                assert(decreases_to!(v->Record_0.fields@ => v->Record_0.fields@[i]));
                assert(decreases_to!(v->Record_0.fields@[i] => v->Record_0.fields@[i].value));
            }
        },
        _ => {},
    }
}

fn copy_bytes(bytes: &Vec<u8>) -> (out: Vec<u8>)
    ensures
        out@ == bytes@,
{
    crate::index::key::slice_to_vec(bytes.as_slice())
}

impl OwnedValue {
    /// A copy of the value.
    pub fn duplicate(&self) -> (v: OwnedValue)
        ensures
            same_value(*self, v),
            *self is Null ==> v is Null,
            *self is NA ==> v is NA,
            *self is Bool || *self is U8 || *self is U32 ==> v == *self,
            *self matches OwnedValue::Prim(p) ==> v matches OwnedValue::Prim(q) && q.ty == p.ty
                && q.bytes@ == p.bytes@,
            *self matches OwnedValue::PrimArray(a) ==> v matches OwnedValue::PrimArray(b) && b.ty
                == a.ty && b.len == a.len && b.bytes@ == a.bytes@,
        decreases self,
    {
        match self {
            OwnedValue::Null => OwnedValue::Null,
            OwnedValue::NA => OwnedValue::NA,
            OwnedValue::Bool(x) => OwnedValue::Bool(*x),
            OwnedValue::U8(x) => OwnedValue::U8(*x),
            OwnedValue::U32(x) => OwnedValue::U32(*x),
            OwnedValue::Prim(p) => OwnedValue::Prim(
                Primitive { ty: p.ty, bytes: copy_bytes(&p.bytes) },
            ),
            OwnedValue::PrimArray(a) => OwnedValue::PrimArray(
                PrimitiveArray { ty: a.ty, len: a.len, bytes: copy_bytes(&a.bytes) },
            ),
            OwnedValue::Array(items) => {
                let mut out: Vec<OwnedValue> = Vec::new();
                let mut i: usize = 0;
                while i < items.len()
                    invariant
                        *self == OwnedValue::Array(*items),
                        i <= items@.len(),
                        out@.len() == i,
                        forall|j: int| 0 <= j < i ==> same_value(#[trigger] items@[j], out@[j]),
                    decreases items@.len() - i,
                {
                    let item = &items[i];
                    proof {
                        lemma_parts_smaller(*self);
                        assert(decreases_to!(self => self->Array_0@[i as int]));
                    }
                    out.push(item.duplicate());
                    i += 1;
                }
                OwnedValue::Array(out)
            },
            OwnedValue::Record(m) => {
                let mut fields: Vec<FieldName> = Vec::new();
                let mut i: usize = 0;
                while i < m.fields.len()
                    invariant
                        *self == OwnedValue::Record(*m),
                        i <= m.fields@.len(),
                        fields@.len() == i,
                        forall|j: int|
                            0 <= j < i ==> (#[trigger] m.fields@[j]).id == fields@[j].id
                                && same_value(m.fields@[j].value, fields@[j].value),
                    decreases m.fields@.len() - i,
                {
                    let name = &m.fields[i];
                    proof {
                        lemma_parts_smaller(*self);
                        assert(decreases_to!(self => self->Record_0.fields@[i as int].value));
                    }
                    fields.push(FieldName { id: name.id, value: name.value.duplicate() });
                    i += 1;
                }
                let mut map: Vec<(u64, OwnedValue)> = Vec::new();
                let mut j: usize = 0;
                while j < m.map.len()
                    invariant
                        *self == OwnedValue::Record(*m),
                        j <= m.map@.len(),
                        map@.len() == j,
                        forall|k: int|
                            0 <= k < j ==> (#[trigger] m.map@[k]).0 == map@[k].0 && same_value(
                                m.map@[k].1,
                                map@[k].1,
                            ),
                    decreases m.map@.len() - j,
                {
                    let entry = &m.map[j];
                    proof {
                        lemma_parts_smaller(*self);
                        assert(decreases_to!(self => self->Record_0.map@[j as int].1));
                    }
                    map.push((entry.0, entry.1.duplicate()));
                    j += 1;
                }
                OwnedValue::Record(OwnedMap { fields, map })
            },
        }
    }
}

} // verus!
