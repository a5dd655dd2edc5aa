//! The insertion-ordered hash map that backs both stores of the cache.
//!
//! `linked_hash_map::LinkedHashMap` keeps its pairs in a doubly linked list,
//! oldest first. Nothing in this module is proved: each function states what
//! the corresponding method of that crate does to the list.

use linked_hash_map::LinkedHashMap;
use vstd::prelude::*;
use crate::keyed::{has_key, key_index, payload_of, without_key};

verus! {

/// `linked_hash_map::LinkedHashMap`, taken as it is: the proofs see nothing
/// inside a value of it, only what [`linked_entries`] says it holds.
#[verifier::external_type_specification]
#[verifier::external_body]
#[verifier::reject_recursive_types(K)]
#[verifier::reject_recursive_types(V)]
#[verifier::reject_recursive_types(S)]
pub struct ExLinkedHashMap<K, V, S>(LinkedHashMap<K, V, S>);

/// The pairs held by a linked hash map, from the front of its list (the pair
/// that `pop_front` would take) to the back (the pair touched last).
pub uninterp spec fn linked_entries(m: LinkedHashMap<u64, u64>) -> Seq<(u64, u64)>;

/// `LinkedHashMap::new`: a map that holds nothing.
#[verifier::external_body]
pub(crate) fn linked_new() -> (m: LinkedHashMap<u64, u64>)
    ensures
        linked_entries(m) == Seq::<(u64, u64)>::empty(),
{
    LinkedHashMap::new()
}

/// `LinkedHashMap::len`: the number of pairs held.
#[verifier::external_body]
pub(crate) fn linked_len(m: &LinkedHashMap<u64, u64>) -> (n: usize)
    ensures
        n == linked_entries(*m).len(),
{
    m.len()
}

/// `LinkedHashMap::get`: the payload under `k`, the list untouched.
#[verifier::external_body]
pub(crate) fn linked_get(m: &LinkedHashMap<u64, u64>, k: u64) -> (r: Option<u64>)
    ensures
        r == payload_of(linked_entries(*m), k),
{
    m.get(&k).copied()
}

/// `LinkedHashMap::insert`: a new key is attached at the back; for a key
/// already held the payload is replaced, its node is detached and attached
/// at the back again, and the former payload is returned.
#[verifier::external_body]
pub(crate) fn linked_insert(m: &mut LinkedHashMap<u64, u64>, k: u64, v: u64) -> (r: Option<u64>)
    ensures
        r == payload_of(linked_entries(*old(m)), k),
        linked_entries(*final(m)) == without_key(linked_entries(*old(m)), k).push((k, v)),
{
    m.insert(k, v)
}

/// `LinkedHashMap::get_refresh`: for a key that is held, its node is moved to
/// the back and its payload returned; for another key nothing changes.
#[verifier::external_body]
pub(crate) fn linked_get_refresh(m: &mut LinkedHashMap<u64, u64>, k: u64) -> (r: Option<u64>)
    ensures
        r == payload_of(linked_entries(*old(m)), k),
        has_key(linked_entries(*old(m)), k) ==> linked_entries(*final(m)) == without_key(
            linked_entries(*old(m)),
            k,
        ).push(linked_entries(*old(m))[key_index(linked_entries(*old(m)), k)]),
        !has_key(linked_entries(*old(m)), k) ==> linked_entries(*final(m))
            == linked_entries(*old(m)),
{
    m.get_refresh(&k).copied()
}

/// `LinkedHashMap::remove`: the pair under `k` leaves the list, the others
/// keep their order; the payload that was held is returned.
#[verifier::external_body]
pub(crate) fn linked_remove(m: &mut LinkedHashMap<u64, u64>, k: u64) -> (r: Option<u64>)
    ensures
        r == payload_of(linked_entries(*old(m)), k),
        linked_entries(*final(m)) == without_key(linked_entries(*old(m)), k),
{
    m.remove(&k)
}

/// `LinkedHashMap::pop_front`: the pair at the front leaves the list and is
/// returned; an empty map stays empty and gives `None`.
#[verifier::external_body]
pub(crate) fn linked_pop_front(m: &mut LinkedHashMap<u64, u64>) -> (r: Option<(u64, u64)>)
    ensures
        linked_entries(*old(m)).len() == 0 ==> r.is_none() && linked_entries(*final(m))
            == linked_entries(*old(m)),
        linked_entries(*old(m)).len() > 0 ==> r == Some(linked_entries(*old(m))[0])
            && linked_entries(*final(m)) == linked_entries(*old(m)).drop_first(),
{
    m.pop_front()
}

/// `LinkedHashMap::clear`: every pair leaves.
#[verifier::external_body]
pub(crate) fn linked_clear(m: &mut LinkedHashMap<u64, u64>)
    ensures
        linked_entries(*final(m)) == Seq::<(u64, u64)>::empty(),
{
    m.clear()
}

/// `LinkedHashMap::iter`: the pairs from front to back, copied out.
#[verifier::external_body]
pub(crate) fn linked_to_vec(m: &LinkedHashMap<u64, u64>) -> (r: Vec<(u64, u64)>)
    ensures
        r@ == linked_entries(*m),
{
    m.iter().map(|(k, v)| (*k, *v)).collect()
}

} // verus!
