//! Schemas, and the schemas that a server knows.
use super::field::{field_names, field_paths, index_view, indexed, placed, same_field, width, Field};
use super::field::{copy_path, lemma_paths_lead_to_names, names_along, string_views};
use std::collections::HashMap;
use vstd::prelude::*;
use vstd::string::*;

verus! {

/// What the cells of a kind hold. `id_index` leads from the hash of a field's name path to the
/// field, and `static_bound` is the space that all cells of the schema have in common.
#[derive(Debug)]
pub struct Schema {
    pub id: u32,
    pub name: String,
    pub key_field: Option<Vec<u64>>,
    pub str_key_field: Option<Vec<String>>,
    pub id_index: HashMap<u64, Vec<usize>>,
    pub fields: Field,
    pub static_bound: usize,
    pub is_dynamic: bool,
    pub is_scannable: bool,
}

/// The hashes of the names that a schema is made of: those of the key fields, and those of the name
/// paths of its fields.
#[derive(Debug)]
pub struct SchemaHashes {
    pub keys: Vec<u64>,
    pub paths: Vec<u64>,
}

/// The hashes are as many as the names.
pub open spec fn hashes_fit(hashes: SchemaHashes, key_field: Option<Vec<String>>, fields: Field) -> bool {
    &&& key_field matches Some(keys) ==> hashes.keys@.len() == keys@.len()
    &&& hashes.paths@.len() == field_paths(fields, Seq::empty()).len()
}

/// `s` is the schema of these fields.
pub open spec fn laid_out(s: Schema, fields: Field, hashes: SchemaHashes) -> bool {
    &&& placed(fields, s.fields, 0)
    &&& s.static_bound == width(fields)
    &&& index_view(s.id_index@) == indexed(
        Map::empty(),
        hashes.paths@,
        field_paths(fields, Seq::empty()),
    )
    &&& match s.str_key_field {
        Some(_) => s.key_field == Some(hashes.keys),
        None => s.key_field is None,
    }
}

impl Schema {
    /// The schema of the given fields, without an id.
    pub fn new(
        name: &str,
        key_field: Option<Vec<String>>,
        fields: Field,
        hashes: SchemaHashes,
        is_dynamic: bool,
        is_scannable: bool,
    ) -> (s: Schema)
        requires
            hashes_fit(hashes, key_field, fields),
            width(fields) <= usize::MAX,
        ensures
            s.id == 0,
            s.name@ == name@,
            s.str_key_field == key_field,
            s.is_dynamic == is_dynamic,
            s.is_scannable == is_scannable,
            laid_out(s, fields, hashes),
            placed(fields, s.fields, 0),
            s.static_bound == width(fields),
            key_field is Some ==> s.key_field == Some(hashes.keys),
            key_field is None ==> s.key_field is None,
    {
        let mut fields = fields;
        let mut bound: usize = 0;
        let mut id_index: HashMap<u64, Vec<usize>> = HashMap::new();
        let mut next: usize = 0;
        let path: Vec<usize> = Vec::new();
        assert(path@ =~= Seq::empty());
        assert(index_view(id_index@) =~= Map::empty());
        assert(hashes.paths@.skip(0) =~= hashes.paths@);
        fields.assign_offsets(&mut bound, &mut id_index, &hashes.paths, &mut next, &path);
        let key_ids = match &key_field {
            Some(_) => Some(hashes.keys),
            None => None,
        };
        Schema {
            id: 0,
            name: name.to_owned(),
            key_field: key_ids,
            str_key_field: key_field,
            id_index,
            fields,
            static_bound: bound,
            is_dynamic,
            is_scannable,
        }
    }

    pub fn new_with_id(
        id: u32,
        name: &str,
        key_field: Option<Vec<String>>,
        fields: Field,
        hashes: SchemaHashes,
        dynamic: bool,
        scannable: bool,
    ) -> (s: Schema)
        requires
            hashes_fit(hashes, key_field, fields),
            width(fields) <= usize::MAX,
        ensures
            s.id == id,
            s.name@ == name@,
            s.str_key_field == key_field,
            s.is_dynamic == dynamic,
            s.is_scannable == scannable,
            laid_out(s, fields, hashes),
            placed(fields, s.fields, 0),
            s.static_bound == width(fields),
            key_field is Some ==> s.key_field == Some(hashes.keys),
            key_field is None ==> s.key_field is None,
    {
        let mut schema = Schema::new(name, key_field, fields, hashes, dynamic, scannable);
        schema.id = id;
        schema
    }
}

/// Two schemas are the same through and through.
pub open spec fn same_schema(a: Schema, b: Schema) -> bool {
    &&& a.id == b.id
    &&& a.name@ == b.name@
    &&& match (a.key_field, b.key_field) {
        (Some(x), Some(y)) => x@ == y@,
        (None, None) => true,
        _ => false,
    }
    &&& match (a.str_key_field, b.str_key_field) {
        (Some(x), Some(y)) => string_views(x@) == string_views(y@),
        (None, None) => true,
        _ => false,
    }
    &&& index_view(a.id_index@) == index_view(b.id_index@)
    &&& same_field(a.fields, b.fields)
    &&& a.static_bound == b.static_bound
    &&& a.is_dynamic == b.is_dynamic
    &&& a.is_scannable == b.is_scannable
}

fn duplicate_words(words: &Vec<u64>) -> (out: Vec<u64>)
    ensures
        out@ == words@,
{
    let mut out: Vec<u64> = Vec::new();
    let mut i: usize = 0;
    while i < words.len()
        invariant
            i <= words@.len(),
            out@ == words@.take(i as int),
        decreases words@.len() - i,
    {
        out.push(words[i]);
        i += 1;
        assert(out@ =~= words@.take(i as int));
    }
    assert(out@ =~= words@);
    out
}

fn duplicate_names(names: &Vec<String>) -> (out: Vec<String>)
    ensures
        string_views(out@) == string_views(names@),
{
    let mut out: Vec<String> = Vec::new();
    let mut i: usize = 0;
    while i < names.len()
        invariant
            i <= names@.len(),
            out@.len() == i,
            forall|j: int| 0 <= j < i ==> (#[trigger] out@[j])@ == names@[j]@,
        decreases names@.len() - i,
    {
        out.push(names[i].clone());
        i += 1;
    }
    assert(string_views(out@) =~= string_views(names@));
    out
}

fn duplicate_index(index: &HashMap<u64, Vec<usize>>) -> (out: HashMap<u64, Vec<usize>>)
    ensures
        index_view(out@) == index_view(index@),
{
    broadcast use vstd::std_specs::hash::group_hash_axioms;

    let mut out: HashMap<u64, Vec<usize>> = HashMap::new();
    for hash in hashes: index.keys()
        invariant
            hashes.seq().unref().to_set() == index@.dom(),
            out@.dom() == hashes.seq().unref().take(hashes.index()).to_set(),
            hashes.index() == hashes.seq().len() ==> out@.dom() == index@.dom(),
            forall|h: u64| #[trigger]
                out@.contains_key(h) ==> index@.contains_key(h) && out@[h]@ == index@[h]@,
    {
        broadcast use vstd::std_specs::hash::group_hash_axioms;

        let ghost all = hashes.seq().unref();
        let ghost n = hashes.index();
        assert(all[n] == *hash);
        assert(all.to_set().contains(*hash));
        match index.get(hash) {
            Some(path) => {
                let copy = copy_path(path);
                out.insert(*hash, copy);
                proof {
                    let next = all.take(n + 1);
                    assert(next =~= all.take(n).push(*hash));
                    assert forall|h: u64| next.to_set().contains(h) <==> all.take(n).to_set().insert(
                        *hash,
                    ).contains(h) by {
                        if all.take(n).contains(h) {
                            let i = choose|i: int| 0 <= i < n && all.take(n)[i] == h;
                            assert(next[i] == h);
                        }
                        assert(next[n] == *hash);
                    }
                    assert(next.to_set() =~= all.take(n).to_set().insert(*hash));
                    assert(n + 1 == all.len() ==> next =~= all);
                }
            },
            None => {},
        }
    }
    assert(index_view(out@) =~= index_view(index@));
    out
}

impl Schema {
    /// A copy of the schema.
    pub fn duplicate(&self) -> (s: Schema)
        ensures
            same_schema(*self, s),
            s.id == self.id,
            s.name@ == self.name@,
            s.key_field is Some <==> self.key_field is Some,
            self.key_field matches Some(keys) ==> s.key_field->0@ == keys@,
            s.str_key_field is Some <==> self.str_key_field is Some,
            self.str_key_field matches Some(names) ==> string_views(s.str_key_field->0@)
                == string_views(names@),
            index_view(s.id_index@) == index_view(self.id_index@),
            same_field(self.fields, s.fields),
            s.static_bound == self.static_bound,
            s.is_dynamic == self.is_dynamic,
            s.is_scannable == self.is_scannable,
    {
        Schema {
            id: self.id,
            name: self.name.clone(),
            key_field: match &self.key_field {
                Some(keys) => Some(duplicate_words(keys)),
                None => None,
            },
            str_key_field: match &self.str_key_field {
                Some(names) => Some(duplicate_names(names)),
                None => None,
            },
            id_index: duplicate_index(&self.id_index),
            fields: self.fields.duplicate(),
            static_bound: self.static_bound,
            is_dynamic: self.is_dynamic,
            is_scannable: self.is_scannable,
        }
    }
}

/// The names whose hashes a schema of these fields needs, in their order.
pub fn path_names(fields: &Field) -> (names: Vec<String>)
    ensures
        string_views(names@) == field_names(*fields, Seq::empty(), true),
        names@.len() == field_paths(*fields, Seq::empty()).len(),
{
    let mut names: Vec<String> = Vec::new();
    let top = String::new();
    assert(top@ =~= Seq::empty());
    assert(string_views(names@) =~= Seq::empty());
    fields.name_paths(&top, true, &mut names);
    proof {
        super::field::lemma_paths_match_names(*fields, Seq::empty(), Seq::empty());
        assert(string_views(names@) =~= field_names(*fields, Seq::empty(), true));
        assert(string_views(names@).len() == names@.len());
    }
    names
}

/// What stands under the hash of a path when no two hashes are equal: the path.
proof fn lemma_indexed_finds(
    m: Map<u64, Seq<usize>>,
    hashes: Seq<u64>,
    paths: Seq<Seq<usize>>,
    k: int,
)
    requires
        hashes.no_duplicates(),
        0 <= k < paths.len() <= hashes.len(),
    ensures
        indexed(m, hashes, paths).contains_key(hashes[k]),
        indexed(m, hashes, paths)[hashes[k]] == paths[k],
    decreases paths.len(),
{
    if k < paths.len() - 1 {
        lemma_indexed_finds(m, hashes, paths.drop_last(), k);
        assert(hashes[k] != hashes[paths.len() - 1]);
    }
}

/// A schema's index leads from the hash of a name path to the field with these names, where no two
/// name paths have the same hash.
pub proof fn lemma_index_finds_field(s: Schema, fields: Field, hashes: SchemaHashes, k: int)
    requires
        laid_out(s, fields, hashes),
        hashes.paths@.len() == field_paths(fields, Seq::empty()).len(),
        hashes.paths@.no_duplicates(),
        0 <= k < hashes.paths@.len(),
    ensures
        s.id_index@.contains_key(hashes.paths@[k]),
        k < field_names(fields, Seq::empty(), true).len(),
        names_along(fields, s.id_index@[hashes.paths@[k]]@, Seq::empty()) == Some(
            field_names(fields, Seq::empty(), true)[k],
        ),
{
    let paths = field_paths(fields, Seq::empty());
    let none: Seq<usize> = Seq::empty();
    lemma_indexed_finds(Map::empty(), hashes.paths@, paths, k);
    lemma_paths_lead_to_names(fields, none, Seq::empty(), k);
    assert(paths[k].skip(0) =~= paths[k]);
    let view = index_view(s.id_index@);
    assert(view.contains_key(hashes.paths@[k]));
    assert(view[hashes.paths@[k]] == s.id_index@[hashes.paths@[k]]@);
}

/// The ids that the names of a list stand for.
pub open spec fn names_of(list: Seq<(String, u32)>) -> Map<Seq<char>, u32>
    decreases list.len(),
{
    if list.len() == 0 {
        Map::empty()
    } else {
        names_of(list.drop_last()).insert(list.last().0@, list.last().1)
    }
}

/// No name stands twice.
pub open spec fn names_differ(list: Seq<(String, u32)>) -> bool {
    forall|i: int, j: int| 0 <= i < j < list.len() ==> (#[trigger] list[i]).0@ != (#[trigger] list[j]).0@
}

proof fn lemma_names_of(list: Seq<(String, u32)>)
    requires
        names_differ(list),
    ensures
        forall|i: int|
            0 <= i < list.len() ==> names_of(list).contains_key((#[trigger] list[i]).0@)
                && names_of(list)[list[i].0@] == list[i].1,
        forall|name: Seq<char>| #[trigger]
            names_of(list).contains_key(name) ==> exists|i: int|
                0 <= i < list.len() && (#[trigger] list[i]).0@ == name,
    decreases list.len(),
{
    if list.len() > 0 {
        let rest = list.drop_last();
        assert forall|i: int, j: int| 0 <= i < j < rest.len() implies (#[trigger] rest[i]).0@ != (
        #[trigger] rest[j]).0@ by {
            assert(list[i].0@ != list[j].0@);
        }
        lemma_names_of(rest);
        assert forall|i: int| 0 <= i < list.len() implies names_of(list).contains_key(
            (#[trigger] list[i]).0@,
        ) && names_of(list)[list[i].0@] == list[i].1 by {
            if i < rest.len() {
                assert(rest[i] == list[i]);
                assert(list[i].0@ != list[list.len() - 1].0@);
            }
        }
        assert forall|name: Seq<char>| #[trigger] names_of(list).contains_key(name) implies exists|
            i: int,
        | 0 <= i < list.len() && (#[trigger] list[i]).0@ == name by {
            if name == list.last().0@ {
                assert(list[list.len() - 1].0@ == name);
            } else {
                assert(names_of(rest).contains_key(name));
                let i = choose|i: int| 0 <= i < rest.len() && (#[trigger] rest[i]).0@ == name;
                assert(list[i] == rest[i]);
            }
        }
    }
}

/// The schemas of a cluster by their ids, and their ids by their names.
pub struct SchemasMap {
    schema_map: HashMap<u32, Schema>,
    name_map: Vec<(String, u32)>,
    id_counter: u32,
}

/// The id is taken by no schema and comes after the counter.
pub open spec fn free_id(schemas: Map<u32, Schema>, counter: u32, id: u32) -> bool {
    id > counter && !schemas.contains_key(id)
}

/// The schemas after those of a list were added one after the other.
pub open spec fn with_schemas(schemas: Map<u32, Schema>, data: Seq<Schema>) -> Map<u32, Schema>
    decreases data.len(),
{
    if data.len() == 0 {
        schemas
    } else {
        with_schemas(schemas, data.drop_last()).insert(data.last().id, data.last())
    }
}

/// The names after the schemas of a list were added one after the other.
pub open spec fn with_names(names: Map<Seq<char>, u32>, data: Seq<Schema>) -> Map<Seq<char>, u32>
    decreases data.len(),
{
    if data.len() == 0 {
        names
    } else {
        with_names(names, data.drop_last()).insert(data.last().name@, data.last().id)
    }
}

impl SchemasMap {
    pub closed spec fn schemas(&self) -> Map<u32, Schema> {
        self.schema_map@
    }

    pub closed spec fn names(&self) -> Map<Seq<char>, u32> {
        names_of(self.name_map@)
    }

    /// The highest id that was handed out.
    pub closed spec fn counter(&self) -> u32 {
        self.id_counter
    }

    /// No name stands twice, and each schema stands under its own id.
    pub closed spec fn wf(&self) -> bool {
        &&& names_differ(self.name_map@)
        &&& forall|id: u32| #[trigger]
            self.schema_map@.contains_key(id) ==> self.schema_map@[id].id == id
    }

    pub fn new() -> (map: SchemasMap)
        ensures
            map.wf(),
            map.schemas() == Map::<u32, Schema>::empty(),
            map.names() == Map::<Seq<char>, u32>::empty(),
            map.counter() == 0,
    {
        SchemasMap { schema_map: HashMap::new(), name_map: Vec::new(), id_counter: 0 }
    }

    /// Where a name stands in the list, or the list's length.
    fn position(&self, name: &str) -> (pos: usize)
        ensures
            pos <= self.name_map@.len(),
            pos < self.name_map@.len() ==> self.name_map@[pos as int].0@ == name@,
            forall|i: int| 0 <= i < pos ==> (#[trigger] self.name_map@[i]).0@ != name@,
    {
        let wanted = name.to_owned();
        let mut i: usize = 0;
        while i < self.name_map.len()
            invariant
                i <= self.name_map@.len(),
                wanted@ == name@,
                forall|j: int| 0 <= j < i ==> (#[trigger] self.name_map@[j]).0@ != name@,
            decreases self.name_map@.len() - i,
        {
            if self.name_map[i].0 == wanted {
                return i;
            }
            i += 1;
        }
        i
    }

    /// Takes a name out of the list.
    fn remove_name(&mut self, name: &str)
        requires
            old(self).wf(),
        ensures
            final(self).wf(),
            final(self).names() == old(self).names().remove(name@),
            final(self).schemas() == old(self).schemas(),
            final(self).counter() == old(self).counter(),
            forall|i: int|
                0 <= i < final(self).name_map@.len() ==> (#[trigger] final(self).name_map@[i]).0@
                    != name@,
    {
        let pos = self.position(name);
        let ghost before = self.name_map@;
        proof {
            lemma_names_of(before);
        }
        if pos < self.name_map.len() {
            self.name_map.remove(pos);
            let ghost after = self.name_map@;
            proof {
                assert forall|i: int, j: int| 0 <= i < j < after.len() implies (#[trigger] after[i]).0@
                    != (#[trigger] after[j]).0@ by {
                    let a = if i < pos { i } else { i + 1 };
                    let b = if j < pos { j } else { j + 1 };
                    assert(before[a].0@ != before[b].0@);
                }
                lemma_names_of(after);
                assert forall|i: int| 0 <= i < after.len() implies (#[trigger] after[i]).0@ != name@ by {
                    let a = if i < pos { i } else { i + 1 };
                    if a < pos {
                        assert(before[a].0@ != before[pos as int].0@);
                    } else {
                        assert(before[pos as int].0@ != before[a].0@);
                    }
                }
                assert forall|n: Seq<char>| #[trigger]
                    names_of(before).remove(name@).contains_key(n) implies names_of(after).contains_key(n)
                    && names_of(after)[n] == names_of(before)[n] by {
                    let i = choose|i: int| 0 <= i < before.len() && (#[trigger] before[i]).0@ == n;
                    let a = if i < pos { i } else { i - 1 };
                    assert(after[a] == before[i]);
                }
                assert forall|n: Seq<char>| #[trigger] names_of(after).contains_key(n) implies names_of(
                    before,
                ).remove(name@).contains_key(n) by {
                    let i = choose|i: int| 0 <= i < after.len() && (#[trigger] after[i]).0@ == n;
                    let a = if i < pos { i } else { i + 1 };
                    assert(after[i] == before[a]);
                }
                assert(names_of(after) =~= names_of(before).remove(name@));
            }
        } else {
            assert(names_of(before).remove(name@) =~= names_of(before));
        }
    }

    /// Adds a schema under its id and its name, in place of those that had them.
    pub fn new_schema(&mut self, schema: Schema)
        requires
            old(self).wf(),
        ensures
            final(self).wf(),
            final(self).schemas() == old(self).schemas().insert(schema.id, schema),
            final(self).names() == old(self).names().insert(schema.name@, schema.id),
            final(self).counter() == old(self).counter(),
    {
        broadcast use vstd::std_specs::hash::group_hash_axioms;

        let name = schema.name.clone();
        let id = schema.id;
        self.schema_map.insert(id, schema);
        self.remove_name(name.as_str());
        let ghost before = self.name_map@;
        self.name_map.push((name, id));
        proof {
            assert(self.name_map@.drop_last() =~= before);
            assert(old(self).names().remove(name@).insert(name@, id) =~= old(self).names().insert(
                name@,
                id,
            ));
        }
    }

    /// Takes the schema of a name out, and the name with it.
    pub fn del_schema(&mut self, name: &str) -> (r: Result<(), ()>)
        requires
            old(self).wf(),
        ensures
            final(self).wf(),
            r is Ok,
            final(self).names() == old(self).names().remove(name@),
            final(self).schemas() == if old(self).names().contains_key(name@) {
                old(self).schemas().remove(old(self).names()[name@])
            } else {
                old(self).schemas()
            },
            final(self).counter() == old(self).counter(),
    {
        broadcast use vstd::std_specs::hash::group_hash_axioms;

        match self.name_to_id(name) {
            Some(id) => {
                self.schema_map.remove(&id);
            },
            None => {},
        }
        self.remove_name(name);
        Ok(())
    }

    pub fn get_by_name(&self, name: &str) -> (r: Option<&Schema>)
        requires
            self.wf(),
        ensures
            match r {
                Some(s) => {
                    &&& self.names().contains_key(name@)
                    &&& self.schemas().contains_key(self.names()[name@])
                    &&& *s == self.schemas()[self.names()[name@]]
                },
                None => !self.names().contains_key(name@) || !self.schemas().contains_key(
                    self.names()[name@],
                ),
            },
    {
        match self.name_to_id(name) {
            Some(id) => self.get(&id),
            None => None,
        }
    }

    pub fn get(&self, id: &u32) -> (r: Option<&Schema>)
        ensures
            match r {
                Some(s) => self.schemas().contains_key(*id) && *s == self.schemas()[*id],
                None => !self.schemas().contains_key(*id),
            },
    {
        broadcast use vstd::std_specs::hash::group_hash_axioms;

        self.schema_map.get(id)
    }

    pub fn name_to_id(&self, name: &str) -> (r: Option<u32>)
        requires
            self.wf(),
        ensures
            match r {
                Some(id) => self.names().contains_key(name@) && id == self.names()[name@],
                None => !self.names().contains_key(name@),
            },
    {
        proof {
            lemma_names_of(self.name_map@);
        }
        let pos = self.position(name);
        if pos < self.name_map.len() {
            Some(self.name_map[pos].1)
        } else {
            None
        }
    }

    /// Hands out the least id that is free.
    pub fn next_id(&mut self) -> (id: u32)
        requires
            old(self).wf(),
            exists|id: u32| free_id(old(self).schemas(), old(self).counter(), id),
        ensures
            final(self).wf(),
            free_id(old(self).schemas(), old(self).counter(), id),
            id > old(self).counter(),
            !old(self).schemas().contains_key(id),
            forall|other: u32|
                old(self).counter() < other < id ==> #[trigger] old(self).schemas().contains_key(
                    other,
                ),
            forall|other: u32| #[trigger]
                free_id(old(self).schemas(), old(self).counter(), other) ==> id <= other,
            final(self).counter() == id,
            final(self).schemas() == old(self).schemas(),
            final(self).names() == old(self).names(),
    {
        broadcast use vstd::std_specs::hash::group_hash_axioms;

        let ghost free = choose|id: u32| free_id(self.schemas(), self.counter(), id);
        let ghost start = self.id_counter;
        self.id_counter = self.id_counter + 1;
        while self.schema_map.contains_key(&self.id_counter)
            invariant
                self.schema_map == old(self).schema_map,
                self.name_map == old(self).name_map,
                free_id(self.schema_map@, start, free),
                start < self.id_counter <= free,
                forall|id: u32|
                    start < id < self.id_counter ==> #[trigger] self.schema_map@.contains_key(id),
            decreases free - self.id_counter,
        {
            broadcast use vstd::std_specs::hash::group_hash_axioms;

            self.id_counter = self.id_counter + 1;
        }
        self.id_counter
    }

    /// Copies of all schemas, in any order.
    pub fn get_all(&self) -> (all: Vec<Schema>)
        requires
            self.wf(),
        ensures
            self.schemas().dom().finite(),
            all@.len() == self.schemas().len(),
            forall|i: int|
                0 <= i < all@.len() ==> self.schemas().contains_key((#[trigger] all@[i]).id)
                    && same_schema(self.schemas()[all@[i].id], all@[i]),
            forall|i: int, j: int|
                0 <= i < j < all@.len() ==> (#[trigger] all@[i]).id != (#[trigger] all@[j]).id,
    {
        broadcast use vstd::std_specs::hash::group_hash_axioms;

        let mut all: Vec<Schema> = Vec::new();
        for id in ids: self.schema_map.keys()
            invariant
                self.wf(),
                ids.seq().unref().to_set() == self.schema_map@.dom(),
                ids.seq().no_duplicates(),
                all@.len() == ids.index(),
                forall|i: int|
                    0 <= i < all@.len() ==> (#[trigger] all@[i]).id == *ids.seq()[i]
                        && self.schema_map@.contains_key(all@[i].id) && same_schema(
                        self.schema_map@[all@[i].id],
                        all@[i],
                    ),
        {
            broadcast use vstd::std_specs::hash::group_hash_axioms;

            assert(ids.seq().unref()[ids.index()] == *id);
            assert(ids.seq().unref().to_set().contains(*id));
            match self.schema_map.get(id) {
                Some(s) => {
                    all.push(s.duplicate());
                },
                None => {},
            }
        }
        all
    }

    /// Adds the schemas of a list one after the other.
    pub fn load_from_list(&mut self, data: Vec<Schema>)
        requires
            old(self).wf(),
        ensures
            final(self).wf(),
            final(self).schemas() == with_schemas(old(self).schemas(), data@),
            final(self).names() == with_names(old(self).names(), data@),
            final(self).counter() == old(self).counter(),
    {
        let ghost all = data@;
        let mut data = data;
        let mut left: Vec<Schema> = Vec::new();
        while data.len() > 0
            invariant
                all == data@ + left@.reverse(),
            decreases data@.len(),
        {
            let ghost before = data@;
            let ghost back = left@;
            match data.pop() {
                Some(schema) => {
                    left.push(schema);
                    assert(left@.reverse() =~= seq![schema] + back.reverse());
                    assert(data@ + left@.reverse() =~= before + back.reverse());
                },
                None => {},
            }
        }
        let ghost mut done: Seq<Schema> = Seq::empty();
        assert(all =~= left@.reverse());
        while left.len() > 0
            invariant
                self.wf(),
                all == done + left@.reverse(),
                self.schemas() == with_schemas(old(self).schemas(), done),
                self.names() == with_names(old(self).names(), done),
                self.counter() == old(self).counter(),
            decreases left@.len(),
        {
            let ghost before = left@;
            match left.pop() {
                Some(schema) => {
                    proof {
                        assert(before.reverse() =~= seq![schema] + left@.reverse());
                        assert(done.push(schema).drop_last() =~= done);
                        assert(done + before.reverse() =~= done.push(schema) + left@.reverse());
                        done = done.push(schema);
                    }
                    self.new_schema(schema);
                },
                None => {},
            }
        }
        assert(all =~= done);
    }
}

/// A schema that was added is found by its name; once it is taken out, it is found no more, neither
/// by its name nor by its id.
pub proof fn lemma_added_then_taken_out(
    schemas: Map<u32, Schema>,
    names: Map<Seq<char>, u32>,
    s: Schema,
)
    ensures
        ({
            let added = schemas.insert(s.id, s);
            let named = names.insert(s.name@, s.id);
            &&& named.contains_key(s.name@) && added.contains_key(named[s.name@])
            &&& added[named[s.name@]] == s
            &&& !named.remove(s.name@).contains_key(s.name@)
            &&& !added.remove(named[s.name@]).contains_key(s.id)
            &&& forall|id: u32|
                id != s.id ==> (added.remove(named[s.name@]).contains_key(id)
                    <==> #[trigger] schemas.contains_key(id))
        }),
{
}

/// A list of schemas with different ids leads to those schemas.
proof fn lemma_list_found(all: Seq<Schema>)
    requires
        forall|i: int, j: int|
            0 <= i < j < all.len() ==> (#[trigger] all[i]).id != (#[trigger] all[j]).id,
    ensures
        forall|i: int|
            0 <= i < all.len() ==> {
                &&& with_schemas(Map::empty(), all).contains_key((#[trigger] all[i]).id)
                &&& with_schemas(Map::empty(), all)[all[i].id] == all[i]
            },
        forall|id: u32| #[trigger]
            with_schemas(Map::empty(), all).contains_key(id) ==> exists|i: int|
                0 <= i < all.len() && (#[trigger] all[i]).id == id,
    decreases all.len(),
{
    if all.len() > 0 {
        let front = all.drop_last();
        lemma_list_found(front);
        assert forall|i: int| 0 <= i < all.len() implies {
            &&& with_schemas(Map::empty(), all).contains_key((#[trigger] all[i]).id)
            &&& with_schemas(Map::empty(), all)[all[i].id] == all[i]
        } by {
            if i < front.len() {
                assert(front[i] == all[i]);
            }
        }
        assert forall|id: u32| #[trigger]
            with_schemas(Map::empty(), all).contains_key(id) implies exists|i: int|
            0 <= i < all.len() && (#[trigger] all[i]).id == id by {
            if id == all.last().id {
                assert(all[all.len() - 1].id == id);
            } else {
                assert(with_schemas(Map::empty(), front).contains_key(id));
                let i = choose|i: int| 0 <= i < front.len() && (#[trigger] front[i]).id == id;
                assert(all[i].id == id);
            }
        }
    }
}

/// Loading the schemas that another map gave away, in whatever order, leads to the same schemas.
pub proof fn lemma_schemas_carry_over(schemas: Map<u32, Schema>, all: Seq<Schema>)
    requires
        schemas.dom().finite(),
        all.len() == schemas.len(),
        forall|i: int|
            0 <= i < all.len() ==> schemas.contains_key((#[trigger] all[i]).id) && same_schema(
                schemas[all[i].id],
                all[i],
            ),
        forall|i: int, j: int|
            0 <= i < j < all.len() ==> (#[trigger] all[i]).id != (#[trigger] all[j]).id,
    ensures
        with_schemas(Map::empty(), all).dom() == schemas.dom(),
        forall|id: u32| #[trigger]
            schemas.contains_key(id) ==> same_schema(
                schemas[id],
                with_schemas(Map::empty(), all)[id],
            ),
{
    let ids = all.map_values(|s: Schema| s.id);
    let loaded = with_schemas(Map::empty(), all);
    lemma_list_found(all);
    assert(ids.no_duplicates()) by {
        assert forall|i: int, j: int| 0 <= i < ids.len() && 0 <= j < ids.len() && i != j implies ids[i]
            != ids[j] by {
            assert(ids[i] == all[i].id && ids[j] == all[j].id);
        }
    }
    ids.unique_seq_to_set();
    vstd::seq_lib::seq_to_set_is_finite(ids);
    assert(ids.to_set().subset_of(schemas.dom())) by {
        assert forall|id: u32| ids.to_set().contains(id) implies schemas.dom().contains(id) by {
            let i = choose|i: int| 0 <= i < ids.len() && ids[i] == id;
            assert(schemas.contains_key(all[i].id));
        }
    }
    vstd::set_lib::lemma_subset_equality(ids.to_set(), schemas.dom());
    assert forall|id: u32| schemas.contains_key(id) implies loaded.contains_key(id) && same_schema(
        schemas[id],
        loaded[id],
    ) by {
        assert(ids.to_set().contains(id));
        let i = choose|i: int| 0 <= i < ids.len() && ids[i] == id;
        assert(all[i].id == id);
    }
    assert(loaded.dom() =~= schemas.dom());
}

/// A schema that comes later in a list takes the place of those before it with the same id, and its
/// name is then that of its own id; all others stay.
pub proof fn lemma_later_schema_counts(
    schemas: Map<u32, Schema>,
    names: Map<Seq<char>, u32>,
    data: Seq<Schema>,
    s: Schema,
)
    ensures
        with_schemas(schemas, Seq::empty()) == schemas,
        with_names(names, Seq::empty()) == names,
        with_schemas(schemas, data.push(s)) == with_schemas(schemas, data).insert(s.id, s),
        with_names(names, data.push(s)) == with_names(names, data).insert(s.name@, s.id),
{
    assert(data.push(s).drop_last() =~= data);
}

} // verus!
