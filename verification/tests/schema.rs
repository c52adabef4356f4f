use neb::ram::schema::field::{Field, IndexType};
use neb::ram::schema::map::{path_names, Schema, SchemaHashes, SchemasMap};
use neb::ram::types::Type;

const NUMBER: Type = Type { id: 3, size: Some(8) };
const SMALL: Type = Type { id: 2, size: Some(1) };
const TEXT: Type = Type { id: 5, size: None };
const MAP: Type = Type { id: 0, size: None };

fn field(name: &str, ty: Type, nullable: bool, array: bool, subs: Option<Vec<Field>>) -> Field {
    Field::new(name, name.len() as u64, ty, nullable, array, subs, vec![])
}

/// Fields of all kinds, two levels deep.
fn fields() -> Field {
    field(
        "*",
        MAP,
        false,
        false,
        Some(vec![
            field("id", NUMBER, false, false, None),
            field("age", SMALL, true, false, None),
            field("name", TEXT, true, false, None),
            field("scores", NUMBER, false, true, None),
            field(
                "place",
                MAP,
                false,
                false,
                Some(vec![field("x", NUMBER, false, false, None), field("y", NUMBER, true, false, None)]),
            ),
            field("rows", MAP, false, true, Some(vec![field("z", SMALL, false, false, None)])),
        ]),
    )
}

fn hashes(fields: &Field) -> SchemaHashes {
    SchemaHashes { keys: vec![], paths: (0..path_names(fields).len() as u64).map(|i| 1000 + i).collect() }
}

fn schema(id: u32, name: &str) -> Schema {
    let f = field(name, MAP, false, false, Some(vec![field("a", NUMBER, false, false, None)]));
    let h = hashes(&f);
    Schema::new_with_id(id, name, None, f, h, false, true)
}

#[test]
fn fields_know_whether_they_vary() {
    assert!(!field("a", NUMBER, false, false, None).is_var());
    assert!(field("a", NUMBER, false, true, None).is_var());
    assert!(field("a", TEXT, false, false, None).is_var());
    let f = Field::new("a", 9, NUMBER, true, false, None, vec![IndexType::Ranged, IndexType::Statistics]);
    assert_eq!((f.name.as_str(), f.name_id, f.offset), ("a", 9, None));
    let copy = f.duplicate();
    assert_eq!(copy.indices, vec![IndexType::Ranged, IndexType::Statistics]);
    assert!(copy.nullable && copy.sub_fields.is_none());
}

#[test]
fn fields_stand_one_behind_the_other() {
    let f = fields();
    let h = hashes(&f);
    let s = Schema::new("people", None, f, h, true, false);
    assert_eq!((s.id, s.name.as_str(), s.is_dynamic, s.is_scannable), (0, "people", true, false));
    let subs = s.fields.sub_fields.as_ref().unwrap();
    // id 8, age 1 and a null mark, name 4, scores 4, place 8 and 8 with a null mark, rows 4
    assert_eq!(
        subs.iter().map(|f| f.offset.unwrap()).collect::<Vec<_>>(),
        vec![0, 8, 10, 14, 18, 35]
    );
    let place = subs[4].sub_fields.as_ref().unwrap();
    assert_eq!(place.iter().map(|f| f.offset.unwrap()).collect::<Vec<_>>(), vec![18, 26]);
    assert_eq!(subs[5].sub_fields.as_ref().unwrap()[0].offset, None);
    assert_eq!(s.static_bound, 39);
}

#[test]
fn paths_lead_to_fields() {
    let f = fields();
    let names = path_names(&f);
    assert_eq!(names, vec!["id", "age", "name", "scores", "place|x", "place|y", "place", "rows"]);
    let h = hashes(&f);
    let s = Schema::new("people", None, f, h, false, false);
    assert_eq!(s.id_index.len(), 8);
    assert_eq!(s.id_index.get(&1000), Some(&vec![0]));
    assert_eq!(s.id_index.get(&1005), Some(&vec![4, 1]));
    assert_eq!(s.id_index.get(&1006), Some(&vec![4]));
    assert_eq!(s.id_index.get(&1007), Some(&vec![5]));
}

#[test]
fn a_lone_field_has_no_path() {
    let f = field("a", NUMBER, true, false, None);
    assert!(path_names(&f).is_empty());
    let s = Schema::new("one", None, f, SchemaHashes { keys: vec![], paths: vec![] }, false, false);
    assert_eq!(s.static_bound, 9);
    assert!(s.id_index.is_empty());
}

#[test]
fn key_fields_keep_their_hashes() {
    let f = field("a", NUMBER, false, false, None);
    let h = SchemaHashes { keys: vec![71, 72], paths: vec![] };
    let s = Schema::new_with_id(4, "k", Some(vec!["a".to_string(), "b".to_string()]), f, h, false, false);
    assert_eq!(s.id, 4);
    assert_eq!(s.key_field, Some(vec![71, 72]));
    assert_eq!(s.str_key_field, Some(vec!["a".to_string(), "b".to_string()]));
    let copy = s.duplicate();
    assert_eq!(copy.key_field, s.key_field);
    assert_eq!(copy.str_key_field, s.str_key_field);
    let f = field("a", NUMBER, false, false, None);
    let h = SchemaHashes { keys: vec![1], paths: vec![] };
    assert_eq!(Schema::new("k", None, f, h, false, false).key_field, None);
}

#[test]
fn schemas_are_found_by_name_and_id() {
    let mut map = SchemasMap::new();
    assert!(map.get(&1).is_none());
    assert!(map.get_by_name("a").is_none());
    map.new_schema(schema(1, "a"));
    map.new_schema(schema(2, "b"));
    assert_eq!(map.name_to_id("a"), Some(1));
    assert_eq!(map.get_by_name("b").unwrap().id, 2);
    assert_eq!(map.get(&2).unwrap().name, "b");
    assert!(map.del_schema("a").is_ok());
    assert!(map.del_schema("a").is_ok());
    assert_eq!(map.name_to_id("a"), None);
    assert!(map.get(&1).is_none());
    assert!(map.get(&2).is_some());
}

#[test]
fn a_later_schema_takes_the_place_of_an_earlier_one() {
    let mut map = SchemasMap::new();
    map.new_schema(schema(1, "a"));
    map.new_schema(schema(7, "a"));
    assert_eq!(map.name_to_id("a"), Some(7));
    assert!(map.get(&1).is_some());
    map.new_schema(schema(7, "c"));
    assert_eq!(map.get_by_name("a").unwrap().name, "c");
    map.del_schema("c").unwrap();
    assert_eq!(map.name_to_id("a"), Some(7));
    assert!(map.get_by_name("a").is_none());
}

#[test]
fn ids_are_handed_out_once() {
    let mut map = SchemasMap::new();
    map.new_schema(schema(2, "b"));
    map.new_schema(schema(3, "c"));
    assert_eq!(map.next_id(), 1);
    assert_eq!(map.next_id(), 4);
    assert_eq!(map.next_id(), 5);
}

#[test]
fn all_schemas_are_copied_and_loaded() {
    let mut map = SchemasMap::new();
    for i in 1..6 {
        map.new_schema(schema(i, &format!("s{}", i)));
    }
    let mut all = map.get_all();
    all.sort_by_key(|s| s.id);
    assert_eq!(all.iter().map(|s| s.name.clone()).collect::<Vec<_>>(), vec!["s1", "s2", "s3", "s4", "s5"]);
    assert_eq!(all[0].id_index.get(&1000), Some(&vec![0]));
    assert_eq!(all[0].static_bound, 8);
    let mut other = SchemasMap::new();
    other.load_from_list(all);
    assert_eq!(other.get_by_name("s3").unwrap().id, 3);
    other.load_from_list(vec![schema(30, "s3"), schema(31, "s3")]);
    assert_eq!(other.name_to_id("s3"), Some(31));
    assert!(other.get(&30).is_some());
}

#[test]
fn the_space_of_fields_is_told_if_it_fits() {
    let f = fields();
    let h = hashes(&f);
    assert_eq!(f.checked_width(), Some(39));
    assert_eq!(Schema::new("people", None, f, h, true, false).static_bound, 39);
    let huge = Type { id: 9, size: Some(usize::MAX) };
    assert_eq!(field("a", huge, false, false, None).checked_width(), Some(usize::MAX));
    assert_eq!(field("a", huge, true, false, None).checked_width(), None);
    let two = vec![field("a", huge, false, false, None), field("b", SMALL, false, false, None)];
    assert_eq!(field("*", MAP, false, false, Some(two)).checked_width(), None);
}
