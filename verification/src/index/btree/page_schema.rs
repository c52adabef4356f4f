//! The schema of the cells that store leaf pages.
use crate::ram::schema::field::{field_paths, indexed, index_view, placed, sub_paths, width, widths, Field};
use crate::ram::schema::map::{Schema, SchemaHashes};
use crate::ram::types::{Type, LENGTH_SIZE};
use vstd::prelude::*;

verus! {

pub const PAGE_SCHEMA: &'static str = "NEB_BTREE_PAGE";

pub const KEYS_FIELD: &'static str = "keys";

pub const NEXT_FIELD: &'static str = "next";

pub const PREV_FIELD: &'static str = "prev";

/// The ids that stand for the names in the page schema.
#[derive(Clone, Copy, Debug, PartialEq, Eq, Structural)]
pub struct PageNames {
    pub schema: u32,
    pub root: u64,
    pub next: u64,
    pub prev: u64,
    pub keys: u64,
}

/// The hashes of the name paths of a page's fields.
#[derive(Clone, Copy, Debug, PartialEq, Eq, Structural)]
pub struct PagePaths {
    pub next: u64,
    pub prev: u64,
    pub keys: u64,
}

/// The types of a page's fields: the page itself, an id, and a run of bytes.
#[derive(Clone, Copy, Debug, PartialEq, Eq, Structural)]
pub struct PageTypes {
    pub root: Type,
    pub id: Type,
    pub bytes: Type,
}

/// A field of a page: it is not nullable, has no sub-fields and no indices.
pub open spec fn page_field(
    f: Field,
    name: Seq<char>,
    name_id: u64,
    data_type: Type,
    is_array: bool,
    offset: Option<usize>,
) -> bool {
    &&& f.name@ == name
    &&& f.name_id == name_id
    &&& f.data_type == data_type
    &&& f.is_array == is_array
    &&& f.offset == offset
    &&& !f.nullable
    &&& f.sub_fields is None
    &&& f.indices@.len() == 0
}

/// The schema of page cells: the ids of the next and the previous page, and the keys.
pub fn page_schema(names: &PageNames, paths: &PagePaths, types: &PageTypes) -> (s: Schema)
    requires
        types.id.size matches Some(n) && 2 * n + LENGTH_SIZE <= usize::MAX,
    ensures
        ({
            let n = types.id.size->0;
            &&& s.id == names.schema
            &&& s.name@ == PAGE_SCHEMA@
            &&& s.key_field is None
            &&& s.str_key_field is None
            &&& !s.is_dynamic
            &&& !s.is_scannable
            &&& s.fields.name@ == "*"@
            &&& s.fields.name_id == names.root
            &&& s.fields.data_type == types.root
            &&& !s.fields.nullable
            &&& !s.fields.is_array
            &&& s.fields.indices@.len() == 0
            &&& s.fields.offset == Some(0usize)
            &&& s.fields.sub_fields is Some
            &&& s.fields.sub_fields->0@.len() == 3
            &&& page_field(
                s.fields.sub_fields->0@[0],
                NEXT_FIELD@,
                names.next,
                types.id,
                false,
                Some(0),
            )
            &&& page_field(
                s.fields.sub_fields->0@[1],
                PREV_FIELD@,
                names.prev,
                types.id,
                false,
                Some(n),
            )
            &&& page_field(
                s.fields.sub_fields->0@[2],
                KEYS_FIELD@,
                names.keys,
                types.bytes,
                true,
                Some((n + n) as usize),
            )
            &&& forall|i: int|
                0 <= i < 3 ==> {
                    let f = #[trigger] s.fields.sub_fields->0@[i];
                    &&& !f.nullable
                    &&& f.sub_fields is None
                    &&& f.indices@.len() == 0
                    &&& f.is_array == (i == 2)
                    &&& f.data_type == if i == 2 {
                        types.bytes
                    } else {
                        types.id
                    }
                }
            &&& s.fields.sub_fields->0@[0].offset == Some(0usize)
            &&& s.fields.sub_fields->0@[1].offset == Some(n)
            &&& s.fields.sub_fields->0@[2].offset == Some((n + n) as usize)
            &&& s.fields.sub_fields->0@[0].name@ == NEXT_FIELD@
            &&& s.fields.sub_fields->0@[0].name_id == names.next
            &&& s.fields.sub_fields->0@[1].name@ == PREV_FIELD@
            &&& s.fields.sub_fields->0@[1].name_id == names.prev
            &&& s.fields.sub_fields->0@[2].name@ == KEYS_FIELD@
            &&& s.fields.sub_fields->0@[2].name_id == names.keys
            &&& s.static_bound == 2 * n + LENGTH_SIZE
            &&& index_view(s.id_index@) == Map::<u64, Seq<usize>>::empty().insert(
                paths.next,
                seq![0usize],
            ).insert(paths.prev, seq![1usize]).insert(paths.keys, seq![2usize])
        }),
{
    let next = Field::new(NEXT_FIELD, names.next, types.id, false, false, None, Vec::new());
    let prev = Field::new(PREV_FIELD, names.prev, types.id, false, false, None, Vec::new());
    let keys = Field::new(KEYS_FIELD, names.keys, types.bytes, false, true, None, Vec::new());
    let subs: Vec<Field> = vec![next, prev, keys];
    let ghost parts = subs@;
    let root = Field::new("*", names.root, types.root, false, false, Some(subs), Vec::new());
    let hashes = SchemaHashes { keys: Vec::new(), paths: vec![paths.next, paths.prev, paths.keys] };
    let ghost n = types.id.size->0;
    let ghost none: Seq<usize> = Seq::empty();
    let ghost all = seq![seq![0usize], seq![1usize], seq![2usize]];
    proof {
        reveal_with_fuel(widths, 4);
        reveal_with_fuel(width, 3);
        reveal_with_fuel(sub_paths, 4);
        reveal_with_fuel(field_paths, 3);
        assert(widths(parts, 2) == n + n);
        assert(widths(parts, 3) == n + n + LENGTH_SIZE);
        assert(width(root) == n + n + LENGTH_SIZE);
        assert(none.push(0usize) =~= seq![0usize]);
        assert(none.push(1usize) =~= seq![1usize]);
        assert(none.push(2usize) =~= seq![2usize]);
        assert(sub_paths(parts, 0, none) =~= Seq::empty());
        assert(sub_paths(parts, 1, none) =~= seq![seq![0usize]]);
        assert(sub_paths(parts, 2, none) =~= seq![seq![0usize], seq![1usize]]);
        assert(sub_paths(parts, 3, none) =~= all);
        assert(field_paths(root, none) =~= all);
    }
    let s = Schema::new_with_id(names.schema, PAGE_SCHEMA, None, root, hashes, false, false);
    proof {
        let h = hashes.paths@;
        let m = Map::<u64, Seq<usize>>::empty();
        assert(all.drop_last().drop_last().drop_last() =~= Seq::empty());
        assert(indexed(m, h, all.drop_last().drop_last().drop_last()) == m);
        assert(indexed(m, h, all.drop_last().drop_last()) == m.insert(h[0], seq![0usize]));
        assert(indexed(m, h, all.drop_last()) == m.insert(h[0], seq![0usize]).insert(
            h[1],
            seq![1usize],
        ));
        reveal_with_fuel(placed, 2);
        reveal_with_fuel(widths, 4);
        reveal_with_fuel(width, 3);
        assert(placed(parts[0], s.fields.sub_fields->0@[0], 0));
        assert(placed(parts[1], s.fields.sub_fields->0@[1], n as int));
        assert(placed(parts[2], s.fields.sub_fields->0@[2], n + n));
        let got = s.fields.sub_fields->0@;
        assert forall|i: int| 0 <= i < 3 implies {
            &&& !(#[trigger] got[i]).nullable
            &&& got[i].sub_fields is None
            &&& got[i].indices@.len() == 0
            &&& got[i].is_array == (i == 2)
            &&& got[i].data_type == if i == 2 {
                types.bytes
            } else {
                types.id
            }
        } by {
            assert(i == 0 || i == 1 || i == 2);
        }
    }
    s
}

} // verus!
