//! Which cursors were used when, the one that was not used for longest first.
use linked_hash_map::LinkedHashMap;
use vstd::prelude::*;

verus! {

/// `linked_hash_map::LinkedHashMap`: a hash map whose entries stand in a row.
#[verifier::external_type_specification]
#[verifier::external_body]
#[verifier::reject_recursive_types(K)]
#[verifier::reject_recursive_types(V)]
#[verifier::reject_recursive_types(S)]
pub struct ExLinkedHashMap<K, V, S>(LinkedHashMap<K, V, S>);

/// The ids that a map holds with the times of their last use, front to back.
pub uninterp spec fn entries_of(map: LinkedHashMap<u64, u32>) -> Seq<(u64, u32)>;

/// The row holds the id.
pub open spec fn has_id(entries: Seq<(u64, u32)>, id: u64) -> bool {
    exists|i: int| 0 <= i < entries.len() && (#[trigger] entries[i]).0 == id
}

/// `LinkedHashMap::new`: the map is empty.
#[verifier::external_body]
pub(crate) fn recent_new() -> (map: LinkedHashMap<u64, u32>)
    ensures
        entries_of(map) == Seq::<(u64, u32)>::empty(),
{
    LinkedHashMap::new()
}

/// `LinkedHashMap::iter`, of which the first item is the entry at the front.
#[verifier::external_body]
pub(crate) fn recent_front(map: &LinkedHashMap<u64, u32>) -> (r: Option<(&u64, &u32)>)
    ensures
        match r {
            Some((id, time)) => entries_of(*map).len() > 0 && entries_of(*map)[0] == (*id, *time),
            None => entries_of(*map).len() == 0,
        },
{
    map.iter().next()
}

/// `LinkedHashMap::pop_front`: the entry at the front is taken out and given back.
#[verifier::external_body]
pub(crate) fn recent_pop_front(map: &mut LinkedHashMap<u64, u32>) -> (r: Option<(u64, u32)>)
    ensures
        match r {
            Some(entry) => {
                &&& entries_of(*old(map)).len() > 0
                &&& entry == entries_of(*old(map))[0]
                &&& entries_of(*final(map)) == entries_of(*old(map)).drop_first()
            },
            None => entries_of(*old(map)).len() == 0 && entries_of(*final(map)) == entries_of(
                *old(map),
            ),
        },
{
    map.pop_front()
}

/// `LinkedHashMap::insert`: the id stands at the back with the given time. Where it stood before
/// with another time, that time is given back.
#[verifier::external_body]
pub(crate) fn recent_insert(map: &mut LinkedHashMap<u64, u32>, id: u64, time: u32) -> (r: Option<u32>)
    ensures
        match r {
            Some(was) => exists|i: int|
                0 <= i < entries_of(*old(map)).len() && #[trigger] entries_of(*old(map))[i] == (id, was)
                    && entries_of(*final(map)) == entries_of(*old(map)).remove(i).push((id, time)),
            None => !has_id(entries_of(*old(map)), id) && entries_of(*final(map)) == entries_of(
                *old(map),
            ).push((id, time)),
        },
{
    map.insert(id, time)
}

/// `LinkedHashMap::get_refresh`: an id that is there moves to the back, and its time can be set.
#[verifier::external_body]
pub(crate) fn recent_get_refresh<'a>(map: &'a mut LinkedHashMap<u64, u32>, id: &u64) -> (r: Option<
    &'a mut u32,
>)
    ensures
        match r {
            Some(time) => exists|i: int|
                0 <= i < entries_of(*old(map)).len() && #[trigger] entries_of(*old(map))[i] == (
                    *id,
                    *time,
                ) && entries_of(*final(map)) == entries_of(*old(map)).remove(i).push(
                    (*id, *final(time)),
                ),
            None => !has_id(entries_of(*old(map)), *id) && entries_of(*final(map)) == entries_of(
                *old(map),
            ),
        },
{
    map.get_refresh(id)
}

/// `LinkedHashMap::remove`: an id that is there is taken out, and its time given back.
#[verifier::external_body]
pub(crate) fn recent_remove(map: &mut LinkedHashMap<u64, u32>, id: &u64) -> (r: Option<u32>)
    ensures
        match r {
            Some(time) => exists|i: int|
                0 <= i < entries_of(*old(map)).len() && #[trigger] entries_of(*old(map))[i] == (
                    *id,
                    time,
                ) && entries_of(*final(map)) == entries_of(*old(map)).remove(i),
            None => !has_id(entries_of(*old(map)), *id) && entries_of(*final(map)) == entries_of(
                *old(map),
            ),
        },
{
    map.remove(id)
}

} // verus!
