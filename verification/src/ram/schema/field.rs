//! Fields and their places in a cell.
use crate::ram::types::{fixed_size, size_of_type, Type, LENGTH_SIZE};
use std::collections::HashMap;
use vstd::prelude::*;
use vstd::string::*;

verus! {

#[derive(Clone, Copy, Debug, PartialEq, Eq, Structural)]
pub enum IndexType {
    Ranged,
    Hashed,
    Vectorized,
    Statistics,
}

/// A field of a cell. `name_id` stands for the name, and `offset` is where the field's value, or a
/// pointer to it, stands.
#[derive(Debug)]
pub struct Field {
    pub data_type: Type,
    pub nullable: bool,
    pub is_array: bool,
    pub sub_fields: Option<Vec<Field>>,
    pub name: String,
    pub name_id: u64,
    pub indices: Vec<IndexType>,
    pub offset: Option<usize>,
}

/// The values of a field differ in size, so that the field holds a pointer.
pub open spec fn var_field(f: Field) -> bool {
    f.is_array || f.data_type.size is None
}

/// The space of the null mark in front of a field.
pub open spec fn null_width(f: Field) -> int {
    if f.nullable && !var_field(f) {
        1
    } else {
        0
    }
}

/// The space that a field takes in the part of a cell that all cells of a schema share.
pub open spec fn width(f: Field) -> int
    decreases f, 0nat,
{
    null_width(f) + if f.is_array {
        LENGTH_SIZE as int
    } else {
        match f.sub_fields {
            Some(subs) => widths(subs@, subs@.len()),
            None => match f.data_type.size {
                Some(n) => n as int,
                None => LENGTH_SIZE as int,
            },
        }
    }
}

/// The space of the first `n` fields.
pub open spec fn widths(subs: Seq<Field>, n: nat) -> int
    decreases subs, n,
{
    if n == 0 || n > subs.len() {
        0
    } else {
        widths(subs, (n - 1) as nat) + width(subs[n - 1])
    }
}

/// `after` is `before` with the place `at`: its sub-fields stand one behind the other, but those of
/// an array have no places.
pub open spec fn placed(before: Field, after: Field, at: int) -> bool
    decreases before,
{
    &&& after == (Field { offset: after.offset, sub_fields: after.sub_fields, ..before })
    &&& after.offset == Some(at as usize)
    &&& if before.is_array || before.sub_fields is None {
        after.sub_fields == before.sub_fields
    } else {
        &&& after.sub_fields is Some
        &&& after.sub_fields->0@.len() == before.sub_fields->0@.len()
        &&& forall|i: int|
            0 <= i < before.sub_fields->0@.len() ==> placed(
                before.sub_fields->0@[i],
                #[trigger] after.sub_fields->0@[i],
                at + null_width(before) + widths(before.sub_fields->0@, i as nat),
            )
    }
}

/// The paths to the fields below a field, by positions, in the order in which the fields get their
/// places; a field comes after its sub-fields. The outermost field has no path.
pub open spec fn field_paths(f: Field, path: Seq<usize>) -> Seq<Seq<usize>>
    decreases f, 0nat,
{
    let inner = if f.is_array {
        Seq::empty()
    } else {
        match f.sub_fields {
            Some(subs) => sub_paths(subs@, subs@.len(), path),
            None => Seq::empty(),
        }
    };
    if path.len() == 0 {
        inner
    } else {
        inner.push(path)
    }
}

pub open spec fn sub_paths(subs: Seq<Field>, n: nat, path: Seq<usize>) -> Seq<Seq<usize>>
    decreases subs, n,
{
    if n == 0 || n > subs.len() {
        Seq::empty()
    } else {
        sub_paths(subs, (n - 1) as nat, path) + field_paths(
            subs[n - 1],
            path.push((n - 1) as usize),
        )
    }
}

/// The names along a path, parted by bars.
pub open spec fn joined(path: Seq<char>, name: Seq<char>) -> Seq<char> {
    if path.len() == 0 {
        name
    } else {
        path + seq!['|'] + name
    }
}

/// The paths to the same fields, by names, in the same order.
pub open spec fn field_names(f: Field, path: Seq<char>, top: bool) -> Seq<Seq<char>>
    decreases f, 0nat,
{
    let inner = if f.is_array {
        Seq::empty()
    } else {
        match f.sub_fields {
            Some(subs) => sub_names(subs@, subs@.len(), path),
            None => Seq::empty(),
        }
    };
    if top {
        inner
    } else {
        inner.push(path)
    }
}

pub open spec fn sub_names(subs: Seq<Field>, n: nat, path: Seq<char>) -> Seq<Seq<char>>
    decreases subs, n,
{
    if n == 0 || n > subs.len() {
        Seq::empty()
    } else {
        sub_names(subs, (n - 1) as nat, path) + field_names(
            subs[n - 1],
            joined(path, subs[n - 1].name@),
            false,
        )
    }
}

/// An index with further paths: each under its hash, a later one in place of an earlier one.
pub open spec fn indexed(
    m: Map<u64, Seq<usize>>,
    hashes: Seq<u64>,
    paths: Seq<Seq<usize>>,
) -> Map<u64, Seq<usize>>
    decreases paths.len(),
{
    if paths.len() == 0 {
        m
    } else {
        indexed(m, hashes, paths.drop_last()).insert(
            hashes[paths.len() - 1],
            paths.last(),
        )
    }
}

pub open spec fn index_view(m: Map<u64, Vec<usize>>) -> Map<u64, Seq<usize>> {
    m.map_values(|v: Vec<usize>| v@)
}

proof fn lemma_indexed_concat(
    m: Map<u64, Seq<usize>>,
    hashes: Seq<u64>,
    p1: Seq<Seq<usize>>,
    p2: Seq<Seq<usize>>,
)
    requires
        p1.len() + p2.len() <= hashes.len(),
    ensures
        indexed(m, hashes, p1 + p2) == indexed(
            indexed(m, hashes, p1),
            hashes.skip(p1.len() as int),
            p2,
        ),
    decreases p2.len(),
{
    if p2.len() == 0 {
        assert(p1 + p2 =~= p1);
    } else {
        assert((p1 + p2).drop_last() =~= p1 + p2.drop_last());
        lemma_indexed_concat(m, hashes, p1, p2.drop_last());
        assert((p1 + p2).last() == p2.last());
        assert(hashes.skip(p1.len() as int)[p2.len() - 1] == hashes[p1.len() + p2.len() - 1]);
    }
}

/// The space of fields does not shrink with their number.
pub proof fn lemma_widths_grow(subs: Seq<Field>, i: nat, j: nat)
    requires
        i <= j <= subs.len(),
    ensures
        0 <= widths(subs, i) <= widths(subs, j),
    decreases subs, j,
{
    if j > 0 {
        lemma_width_positive(subs[j - 1]);
        if i < j {
            lemma_widths_grow(subs, i, (j - 1) as nat);
        } else {
            lemma_widths_grow(subs, (j - 1) as nat, (j - 1) as nat);
        }
    }
}

pub proof fn lemma_width_positive(f: Field)
    ensures
        0 <= width(f),
    decreases f, 0nat,
{
    if !f.is_array && f.sub_fields is Some {
        let subs = f.sub_fields->0@;
        assert(decreases_to!(f => f.sub_fields));
        assert(decreases_to!(f.sub_fields => f.sub_fields->0));
        assert(decreases_to!(f.sub_fields->0 => f.sub_fields->0@));
        lemma_widths_grow(subs, subs.len(), subs.len());
    }
}

/// Sub-fields stand inside their field, one behind the other: no two share a byte.
pub proof fn lemma_sub_fields_apart(f: Field, at: int, i: int, j: int)
    requires
        f.sub_fields is Some,
        !f.is_array,
        0 <= i < j < f.sub_fields->0@.len(),
    ensures
        ({
            let subs = f.sub_fields->0@;
            let start = at + null_width(f);
            &&& at <= start + widths(subs, i as nat)
            &&& start + widths(subs, i as nat) + width(subs[i]) <= start + widths(subs, j as nat)
            &&& start + widths(subs, j as nat) + width(subs[j]) <= at + width(f)
        }),
{
    let subs = f.sub_fields->0@;
    lemma_widths_grow(subs, 0, i as nat);
    lemma_widths_grow(subs, (i + 1) as nat, j as nat);
    lemma_widths_grow(subs, (j + 1) as nat, subs.len());
}

/// The place of a field tells the places of all below it, with no gaps. A field that is no record
/// takes four bytes if its values differ in size, and the size of its values if not, after one byte
/// that tells whether the value is null if it may be. The first sub-field of a record begins where the
/// record does, but for that byte; each other one begins where the one before it ends; and the record
/// ends with its last one.
pub proof fn lemma_layout_has_no_gaps(before: Field, after: Field, at: int)
    requires
        placed(before, after, at),
        0 <= at,
        at + width(before) <= usize::MAX,
    ensures
        after.offset matches Some(place) && place == at,
        before.is_array ==> width(before) == 4,
        !before.is_array && before.sub_fields is None && before.data_type.size is None ==> width(before)
            == 4,
        !before.is_array && before.sub_fields is None && before.data_type.size is Some ==> width(before)
            == before.data_type.size->0 + if before.nullable {
            1int
        } else {
            0int
        },
        !before.is_array && before.sub_fields is Some ==> {
            let subs = after.sub_fields->0@;
            let old_subs = before.sub_fields->0@;
            let start = at + if before.nullable && before.data_type.size is Some {
                1int
            } else {
                0int
            };
            &&& subs.len() == old_subs.len()
            &&& subs.len() == 0 ==> width(before) == start - at
            &&& subs.len() > 0 ==> subs[0].offset == Some(start as usize)
            &&& subs.len() > 0 ==> subs.last().offset->0 + width(old_subs.last()) == at + width(before)
            &&& forall|i: int, j: int|
                0 <= i < subs.len() && j == i + 1 && j < subs.len() ==> #[trigger] subs[j].offset->0
                    == #[trigger] subs[i].offset->0 + width(old_subs[i])
            &&& forall|i: int| 0 <= i < subs.len() ==> (#[trigger] subs[i]).offset is Some
        },
{
    lemma_width_positive(before);
    if !before.is_array && before.sub_fields is Some {
        let subs = after.sub_fields->0@;
        let old_subs = before.sub_fields->0@;
        let start = at + null_width(before);
        assert forall|i: int| 0 <= i < subs.len() implies (#[trigger] subs[i]).offset is Some
            && subs[i].offset->0 == start + widths(old_subs, i as nat) by {
            assert(placed(old_subs[i], after.sub_fields->0@[i], start + widths(old_subs, i as nat)));
            lemma_widths_grow(old_subs, 0, i as nat);
            lemma_widths_grow(old_subs, i as nat, old_subs.len());
        }
    }
}

/// After paths were put in an index, there is under each of their hashes the last path with that hash,
/// and under each other one what there was before.
pub proof fn lemma_indexed(
    m: Map<u64, Seq<usize>>,
    hashes: Seq<u64>,
    paths: Seq<Seq<usize>>,
    h: u64,
    k: int,
)
    requires
        paths.len() <= hashes.len(),
    ensures
        0 <= k < paths.len() && hashes[k] == h && (forall|j: int|
            k < j < paths.len() ==> #[trigger] hashes[j] != h) ==> indexed(m, hashes, paths).contains_key(
            h,
        ) && indexed(m, hashes, paths)[h] == paths[k],
        (forall|j: int| 0 <= j < paths.len() ==> #[trigger] hashes[j] != h) ==> (indexed(
            m,
            hashes,
            paths,
        ).contains_key(h) <==> m.contains_key(h)) && indexed(m, hashes, paths)[h] == m[h],
    decreases paths.len(),
{
    if paths.len() > 0 {
        lemma_indexed(m, hashes, paths.drop_last(), h, k);
        assert(hashes[paths.len() - 1] == hashes[paths.len() - 1]);
    }
}

/// All fields below a field are listed: each path by positions that leads to a field, through no
/// array, is among the paths of the field.
pub proof fn lemma_paths_complete(f: Field, path: Seq<usize>, rest: Seq<usize>, name: Seq<char>)
    requires
        names_along(f, rest, name) is Some,
        path.len() + rest.len() > 0,
    ensures
        field_paths(f, path).contains(path + rest),
    decreases f, 0nat,
{
    if rest.len() == 0 {
        assert(path + rest =~= path);
        assert(field_paths(f, path).last() == path);
    } else {
        let subs = f.sub_fields->0@;
        let i = rest[0] as int;
        let p = path.push(rest[0]);
        assert(decreases_to!(f => f.sub_fields));
        assert(decreases_to!(f.sub_fields => f.sub_fields->0));
        assert(decreases_to!(f.sub_fields->0 => f.sub_fields->0@));
        assert(decreases_to!(subs => subs[i]));
        lemma_paths_complete(subs[i], p, rest.drop_first(), joined(name, subs[i].name@));
        assert(p + rest.drop_first() =~= path + rest);
        lemma_sub_paths_hold(subs, subs.len(), path, i, path + rest);
        let inner = sub_paths(subs, subs.len(), path);
        let k = choose|k: int| 0 <= k < inner.len() && inner[k] == path + rest;
        assert(field_paths(f, path)[k] == path + rest);
    }
}

proof fn lemma_sub_paths_hold(subs: Seq<Field>, n: nat, path: Seq<usize>, i: int, q: Seq<usize>)
    requires
        0 <= i < n <= subs.len() <= usize::MAX,
        field_paths(subs[i], path.push(i as usize)).contains(q),
    ensures
        sub_paths(subs, n, path).contains(q),
    decreases n,
{
    let head = sub_paths(subs, (n - 1) as nat, path);
    let mine = field_paths(subs[n - 1], path.push((n - 1) as usize));
    if i == n - 1 {
        let k = choose|k: int| 0 <= k < mine.len() && mine[k] == q;
        assert((head + mine)[head.len() + k] == q);
    } else {
        lemma_sub_paths_hold(subs, (n - 1) as nat, path, i, q);
        let k = choose|k: int| 0 <= k < head.len() && head[k] == q;
        assert((head + mine)[k] == q);
    }
}

fn push_copy(path: &Vec<usize>, i: usize) -> (out: Vec<usize>)
    ensures
        out@ == path@.push(i),
{
    let mut out: Vec<usize> = Vec::new();
    let mut k: usize = 0;
    while k < path.len()
        invariant
            k <= path@.len(),
            out@ == path@.take(k as int),
        decreases path@.len() - k,
    {
        assert(path@.take(k + 1) =~= path@.take(k as int).push(path@[k as int]));
        out.push(path[k]);
        k += 1;
    }
    assert(path@.take(k as int) =~= path@);
    out.push(i);
    out
}

pub fn copy_path(path: &Vec<usize>) -> (out: Vec<usize>)
    ensures
        out@ == path@,
{
    let mut out = push_copy(path, 0);
    out.pop();
    assert(out@ =~= path@);
    out
}

fn join_name(path: &String, name: &String) -> (out: String)
    ensures
        out@ == joined(path@, name@),
        path@.len() == 0 ==> out@ == name@,
        path@.len() > 0 ==> out@ == path@ + seq!['|'] + name@,
{
    let mut out = path.clone();
    if path.as_str().unicode_len() > 0 {
        proof {
            reveal_strlit("|");
        }
        out.append("|");
        out.append(name.as_str());
        assert(out@ =~= path@ + seq!['|'] + name@);
    } else {
        out.append(name.as_str());
        assert(out@ =~= name@);
    }
    out
}

pub open spec fn string_views(names: Seq<String>) -> Seq<Seq<char>> {
    names.map_values(|n: String| n@)
}

impl Field {
    /// A field without a place; `name_id` is the id that stands for the name.
    pub fn new(
        name: &str,
        name_id: u64,
        data_type: Type,
        nullable: bool,
        is_array: bool,
        sub_fields: Option<Vec<Field>>,
        indices: Vec<IndexType>,
    ) -> (f: Field)
        ensures
            f.name@ == name@,
            f.name_id == name_id,
            f.data_type == data_type,
            f.nullable == nullable,
            f.is_array == is_array,
            f.sub_fields == sub_fields,
            f.indices == indices,
            f.offset is None,
    {
        Field {
            name: name.to_owned(),
            name_id,
            data_type,
            nullable,
            is_array,
            sub_fields,
            indices,
            offset: None,
        }
    }

    /// Whether the field holds a pointer to its value.
    pub fn is_var(&self) -> (r: bool)
        ensures
            r == var_field(*self),
    {
        self.is_array || !fixed_size(self.data_type)
    }

    /// The space that the field takes, if a machine word can tell it.
    pub fn checked_width(&self) -> (r: Option<usize>)
        ensures
            match r {
                Some(n) => n == width(*self),
                None => width(*self) > usize::MAX,
            },
        decreases self,
    {
        let mark: usize = if self.nullable && !self.is_var() {
            1
        } else {
            0
        };
        let own: usize = if self.is_array {
            LENGTH_SIZE
        } else {
            match &self.sub_fields {
                Some(subs) => {
                    let mut sum: usize = 0;
                    let mut i: usize = 0;
                    while i < subs.len()
                        invariant
                            i <= subs@.len(),
                            sum == widths(subs@, i as nat),
                            !self.is_array,
                            self.sub_fields == Some(*subs),
                        decreases subs@.len() - i,
                    {
                        proof {
                            lemma_widths_grow(subs@, (i + 1) as nat, subs@.len());
                            assert(decreases_to!(self => self.sub_fields));
                            assert(decreases_to!(self.sub_fields => self.sub_fields->0));
                            assert(decreases_to!(self.sub_fields->0 => self.sub_fields->0@));
                            assert(decreases_to!(subs@ => subs@[i as int]));
                        }
                        let next = match subs[i].checked_width() {
                            Some(n) => n,
                            None => return None,
                        };
                        sum = match sum.checked_add(next) {
                            Some(n) => n,
                            None => return None,
                        };
                        i = i + 1;
                    }
                    sum
                },
                None => if fixed_size(self.data_type) {
                    size_of_type(self.data_type)
                } else {
                    LENGTH_SIZE
                },
            }
        };
        own.checked_add(mark)
    }

    /// Gives the field and its sub-fields their places from `offset` on, and puts the path to each
    /// in the index, under the hashes from `next` on.
    pub fn assign_offsets(
        &mut self,
        offset: &mut usize,
        id_index: &mut HashMap<u64, Vec<usize>>,
        hashes: &Vec<u64>,
        next: &mut usize,
        field_path: &Vec<usize>,
    )
        requires
            *old(offset) + width(*old(self)) <= usize::MAX,
            *old(next) + field_paths(*old(self), field_path@).len() <= hashes@.len(),
        ensures
            placed(*old(self), *final(self), *old(offset) as int),
            final(self).offset == Some(*old(offset)),
            *final(offset) == *old(offset) + width(*old(self)),
            *final(next) == *old(next) + field_paths(*old(self), field_path@).len(),
            index_view(final(id_index)@) == indexed(
                index_view(old(id_index)@),
                hashes@.skip(*old(next) as int),
                field_paths(*old(self), field_path@),
            ),
        decreases *old(self),
    {
        broadcast use vstd::std_specs::hash::group_hash_axioms;

        let ghost f0 = *self;
        let ghost at = *offset as int;
        let ghost n0 = *next as int;
        let ghost m0 = index_view(id_index@);
        let ghost path = field_path@;
        let ghost mut inner: Seq<Seq<usize>> = Seq::empty();
        let var = self.is_var();
        self.offset = Some(*offset);
        proof {
            lemma_width_positive(f0);
            if !f0.is_array && f0.sub_fields is Some {
                lemma_widths_grow(f0.sub_fields->0@, 0, f0.sub_fields->0@.len());
            }
        }
        if self.nullable && !var {
            *offset = *offset + 1;
        }
        if self.is_array {
            *offset = *offset + LENGTH_SIZE;
        } else {
            let mut taken: Option<Vec<Field>> = None;
            std::mem::swap(&mut self.sub_fields, &mut taken);
            match taken {
                Some(mut subs) => {
                    let ghost subs0 = subs@;
                    let start: usize = *offset;
                    let n: usize = subs.len();
                    let mut i: usize = 0;
                    while i < n
                        invariant
                            i <= n,
                            n == subs0.len(),
                            subs@.len() == n,
                            f0.sub_fields matches Some(v) && v@ == subs0,
                            !f0.is_array,
                            f0 == *old(self),
                            0 <= n0,
                            start + widths(subs0, n as nat) <= usize::MAX,
                            n0 + sub_paths(subs0, n as nat, path).len() <= hashes@.len(),
                            path == field_path@,
                            *offset == start + widths(subs0, i as nat),
                            *next == n0 + sub_paths(subs0, i as nat, path).len(),
                            index_view(id_index@) == indexed(
                                m0,
                                hashes@.skip(n0),
                                sub_paths(subs0, i as nat, path),
                            ),
                            forall|j: int| i <= j < n ==> #[trigger] subs@[j] == subs0[j],
                            forall|j: int|
                                0 <= j < i ==> placed(
                                    subs0[j],
                                    #[trigger] subs@[j],
                                    start + widths(subs0, j as nat),
                                ),
                        decreases n - i,
                    {
                        let new_path = push_copy(field_path, i);
                        proof {
                            assert(decreases_to!(f0 => f0.sub_fields));
                            assert(decreases_to!(f0.sub_fields => f0.sub_fields->0));
                            assert(decreases_to!(f0.sub_fields->0 => f0.sub_fields->0@));
                            assert(decreases_to!(f0.sub_fields->0@ => f0.sub_fields->0@[i as int]));
                            lemma_widths_grow(subs0, (i + 1) as nat, n as nat);
                            lemma_sub_paths_grow(subs0, (i + 1) as nat, n as nat, path);
                        }
                        let ghost before = subs@;
                        let ghost done = sub_paths(subs0, i as nat, path);
                        let ghost mid = index_view(id_index@);
                        let ghost mine = field_paths(subs0[i as int], new_path@);
                        subs[i].assign_offsets(offset, id_index, hashes, next, &new_path);
                        proof {
                            lemma_indexed_concat(m0, hashes@.skip(n0), done, mine);
                            assert(hashes@.skip(n0).skip(done.len() as int) =~= hashes@.skip(
                                n0 + done.len(),
                            ));
                            assert forall|j: int| 0 <= j < i + 1 implies placed(
                                subs0[j],
                                #[trigger] subs@[j],
                                start + widths(subs0, j as nat),
                            ) by {
                                if j < i {
                                    assert(subs@[j] == before[j]);
                                }
                            }
                        }
                        i += 1;
                    }
                    proof {
                        inner = sub_paths(subs0, n as nat, path);
                    }
                    self.sub_fields = Some(subs);
                },
                None => {
                    if !var {
                        *offset = *offset + size_of_type(self.data_type);
                    } else {
                        *offset = *offset + LENGTH_SIZE;
                    }
                },
            }
        }
        assert(index_view(id_index@) == indexed(m0, hashes@.skip(n0), inner));
        if field_path.len() > 0 {
            let ghost m1 = id_index@;
            let copy = copy_path(field_path);
            assert(hashes.len() == hashes@.len());
            let hash: u64 = hashes[*next];
            id_index.insert(hash, copy);
            *next = *next + 1;
            proof {
                assert(inner.push(path).drop_last() =~= inner);
                assert(hashes@.skip(n0)[inner.len() as int] == hash);
                assert(index_view(id_index@) =~= index_view(m1).insert(hash, path));
            }
        }
    }

    /// The paths by names of the fields below this one, in the order in which they get their places.
    pub fn name_paths(&self, path: &String, top: bool, out: &mut Vec<String>)
        ensures
            string_views(final(out)@) == string_views(old(out)@) + field_names(*self, path@, top),
        decreases self,
    {
        let ghost before = string_views(out@);
        let ghost mut inner: Seq<Seq<char>> = Seq::empty();
        assert(before + inner =~= before);
        if !self.is_array {
            match &self.sub_fields {
                Some(subs) => {
                    let mut i: usize = 0;
                    while i < subs.len()
                        invariant
                            i <= subs@.len(),
                            self.sub_fields == Some(*subs),
                            string_views(out@) == before + sub_names(subs@, i as nat, path@),
                        decreases subs@.len() - i,
                    {
                        let sub = &subs[i];
                        let name = join_name(path, &sub.name);
                        proof {
                            assert(decreases_to!(self => self.sub_fields));
                            assert(decreases_to!(self.sub_fields => self.sub_fields->0));
                            assert(decreases_to!(self.sub_fields->0 => self.sub_fields->0@));
                            assert(decreases_to!(self.sub_fields->0@ => self.sub_fields->0@[i as int]));
                        }
                        sub.name_paths(&name, false, out);
                        proof {
                            let a = sub_names(subs@, i as nat, path@);
                            let b = field_names(subs@[i as int], name@, false);
                            assert((before + a) + b =~= before + (a + b));
                        }
                        i += 1;
                    }
                    proof {
                        inner = sub_names(subs@, subs@.len(), path@);
                    }
                },
                None => {},
            }
        }
        if !top {
            let ghost o1 = out@;
            let copy = path.clone();
            out.push(copy);
            proof {
                assert(string_views(out@) =~= string_views(o1).push(path@));
                assert((before + inner).push(path@) =~= before + inner.push(path@));
            }
        }
    }
}

/// Two fields are the same through and through.
pub open spec fn same_field(a: Field, b: Field) -> bool
    decreases a,
{
    &&& a.data_type == b.data_type
    &&& a.nullable == b.nullable
    &&& a.is_array == b.is_array
    &&& a.name@ == b.name@
    &&& a.name_id == b.name_id
    &&& a.indices@ == b.indices@
    &&& a.offset == b.offset
    &&& match (a.sub_fields, b.sub_fields) {
        (Some(x), Some(y)) => x@.len() == y@.len() && forall|i: int|
            0 <= i < x@.len() ==> same_field(#[trigger] x@[i], y@[i]),
        (None, None) => true,
        _ => false,
    }
}

impl Field {
    /// A copy of the field.
    pub fn duplicate(&self) -> (f: Field)
        ensures
            same_field(*self, f),
            f.data_type == self.data_type,
            f.nullable == self.nullable,
            f.is_array == self.is_array,
            f.name@ == self.name@,
            f.name_id == self.name_id,
            f.indices@ == self.indices@,
            f.offset == self.offset,
            f.sub_fields is Some <==> self.sub_fields is Some,
            self.sub_fields matches Some(subs) ==> f.sub_fields->0@.len() == subs@.len(),
        decreases self,
    {
        let mut indices: Vec<IndexType> = Vec::new();
        let mut i: usize = 0;
        while i < self.indices.len()
            invariant
                i <= self.indices@.len(),
                indices@ == self.indices@.take(i as int),
            decreases self.indices@.len() - i,
        {
            indices.push(self.indices[i]);
            i += 1;
            assert(indices@ =~= self.indices@.take(i as int));
        }
        assert(indices@ =~= self.indices@);
        let sub_fields = match &self.sub_fields {
            Some(subs) => {
                let mut out: Vec<Field> = Vec::new();
                let mut j: usize = 0;
                while j < subs.len()
                    invariant
                        self.sub_fields == Some(*subs),
                        j <= subs@.len(),
                        out@.len() == j,
                        forall|k: int| 0 <= k < j ==> same_field(#[trigger] subs@[k], out@[k]),
                    decreases subs@.len() - j,
                {
                    let sub = &subs[j];
                    proof {
                        assert(decreases_to!(self => self.sub_fields));
                        assert(decreases_to!(self.sub_fields => self.sub_fields->0));
                        assert(decreases_to!(self.sub_fields->0 => self.sub_fields->0@));
                        assert(decreases_to!(self.sub_fields->0@ => self.sub_fields->0@[j as int]));
                    }
                    out.push(sub.duplicate());
                    j += 1;
                }
                Some(out)
            },
            None => None,
        };
        Field {
            data_type: self.data_type,
            nullable: self.nullable,
            is_array: self.is_array,
            sub_fields,
            name: self.name.clone(),
            name_id: self.name_id,
            indices,
            offset: self.offset,
        }
    }
}

proof fn lemma_sub_paths_grow(subs: Seq<Field>, i: nat, j: nat, path: Seq<usize>)
    requires
        i <= j <= subs.len(),
    ensures
        sub_paths(subs, i, path).len() <= sub_paths(subs, j, path).len(),
    decreases j - i,
{
    if i < j {
        lemma_sub_paths_grow(subs, i, (j - 1) as nat, path);
    }
}

/// Each field has one path by positions and one by names.
pub proof fn lemma_paths_match_names(f: Field, path: Seq<usize>, name: Seq<char>)
    ensures
        field_paths(f, path).len() == field_names(f, name, path.len() == 0).len(),
    decreases f, 0nat,
{
    if !f.is_array && f.sub_fields is Some {
        let subs = f.sub_fields->0@;
        assert(decreases_to!(f => f.sub_fields));
        assert(decreases_to!(f.sub_fields => f.sub_fields->0));
        assert(decreases_to!(f.sub_fields->0 => f.sub_fields->0@));
        lemma_sub_paths_match(subs, subs.len(), path, name);
    }
}

proof fn lemma_sub_paths_match(subs: Seq<Field>, n: nat, path: Seq<usize>, name: Seq<char>)
    requires
        n <= subs.len(),
    ensures
        sub_paths(subs, n, path).len() == sub_names(subs, n, name).len(),
    decreases subs, n,
{
    if n > 0 {
        lemma_sub_paths_match(subs, (n - 1) as nat, path, name);
        lemma_paths_match_names(
            subs[n - 1],
            path.push((n - 1) as usize),
            joined(name, subs[n - 1].name@),
        );
    }
}

/// The names on the way down a path, behind `name`; there are none where the path leads nowhere.
pub open spec fn names_along(f: Field, path: Seq<usize>, name: Seq<char>) -> Option<Seq<char>>
    decreases path.len(),
{
    if path.len() == 0 {
        Some(name)
    } else if f.is_array || f.sub_fields is None || path[0] >= f.sub_fields->0@.len() {
        None
    } else {
        let sub = f.sub_fields->0@[path[0] as int];
        names_along(sub, path.drop_first(), joined(name, sub.name@))
    }
}

/// The paths by positions and by names of a field go together: the names on the way down the first
/// are the second.
pub proof fn lemma_paths_lead_to_names(f: Field, path: Seq<usize>, name: Seq<char>, k: int)
    requires
        0 <= k < field_paths(f, path).len(),
    ensures
        k < field_names(f, name, path.len() == 0).len(),
        path.is_prefix_of(field_paths(f, path)[k]),
        names_along(f, field_paths(f, path)[k].skip(path.len() as int), name) == Some(
            field_names(f, name, path.len() == 0)[k],
        ),
    decreases f, 0nat,
{
    lemma_paths_match_names(f, path, name);
    let q = field_paths(f, path)[k];
    if path.len() > 0 && k == field_paths(f, path).len() - 1 {
        assert(q.skip(path.len() as int) =~= Seq::empty());
    } else {
        let subs = f.sub_fields->0@;
        assert(decreases_to!(f => f.sub_fields));
        assert(decreases_to!(f.sub_fields => f.sub_fields->0));
        assert(decreases_to!(f.sub_fields->0 => f.sub_fields->0@));
        lemma_sub_paths_match(subs, subs.len(), path, name);
        assert(f.sub_fields->0.len() == subs.len());
        lemma_sub_paths_lead(subs, subs.len(), path, name, k);
        let rest = q.skip(path.len() as int);
        assert(rest.drop_first() =~= q.skip(path.len() as int + 1));
        assert(rest[0] == q[path.len() as int]);
    }
}

proof fn lemma_sub_paths_lead(
    subs: Seq<Field>,
    n: nat,
    path: Seq<usize>,
    name: Seq<char>,
    k: int,
)
    requires
        n <= subs.len() <= usize::MAX,
        0 <= k < sub_paths(subs, n, path).len(),
    ensures
        k < sub_names(subs, n, name).len(),
        ({
            let q = sub_paths(subs, n, path)[k];
            let i = q[path.len() as int];
            &&& path.len() < q.len()
            &&& path.is_prefix_of(q)
            &&& i < n
            &&& names_along(
                subs[i as int],
                q.skip(path.len() as int + 1),
                joined(name, subs[i as int].name@),
            ) == Some(sub_names(subs, n, name)[k])
        }),
    decreases subs, n,
{
    lemma_sub_paths_match(subs, n, path, name);
    let before = sub_paths(subs, (n - 1) as nat, path);
    lemma_sub_paths_match(subs, (n - 1) as nat, path, name);
    if k < before.len() {
        lemma_sub_paths_lead(subs, (n - 1) as nat, path, name, k);
    } else {
        let p = path.push((n - 1) as usize);
        lemma_paths_lead_to_names(
            subs[n - 1],
            p,
            joined(name, subs[n - 1].name@),
            k - before.len(),
        );
        let q = sub_paths(subs, n, path)[k];
        assert(q == field_paths(subs[n - 1], p)[k - before.len()]);
        assert(q[path.len() as int] == p[path.len() as int]);
        assert forall|j: int| 0 <= j < path.len() implies path[j] == q[j] by {
            assert(p[j] == q[j]);
        }
    }
}

} // verus!
