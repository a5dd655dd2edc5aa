//! The recency store: pairs kept in the order in which they were last touched.

use linked_hash_map::LinkedHashMap;
use vstd::prelude::*;
use crate::keyed::{
    distinct_keys, has_key, key_index, lemma_push_fresh, lemma_refresh, lemma_remove_at,
    payload_of, without_key,
};
use crate::linked::{
    linked_clear, linked_entries, linked_get, linked_get_refresh, linked_insert, linked_len,
    linked_new, linked_pop_front, linked_to_vec,
};

verus! {

/// The order after writing `v` under `k` into a store of `capacity` pairs: a
/// key that is held moves to the back with the new value; a new key is
/// appended, after the front pair has left if the store was full.
pub open spec fn recency_put(s: Seq<(u64, u64)>, capacity: nat, k: u64, v: u64) -> Seq<(u64, u64)> {
    if has_key(s, k) {
        without_key(s, k).push((k, v))
    } else if s.len() >= capacity && s.len() > 0 {
        s.drop_first().push((k, v))
    } else {
        s.push((k, v))
    }
}

/// The order after reading `k`: a key that is held moves to the back.
pub open spec fn recency_read(s: Seq<(u64, u64)>, k: u64) -> Seq<(u64, u64)> {
    if has_key(s, k) {
        without_key(s, k).push(s[key_index(s, k)])
    } else {
        s
    }
}

/// Key/value pairs ordered from least to most recently used.
pub struct RecencyStore {
    capacity: usize,
    map: LinkedHashMap<u64, u64>,
}

impl RecencyStore {
    /// The pairs held, least recently used first.
    pub closed spec fn entries(&self) -> Seq<(u64, u64)> {
        linked_entries(self.map)
    }

    /// The largest number of pairs the store will hold.
    pub closed spec fn limit(&self) -> nat {
        self.capacity as nat
    }

    /// Keys are distinct and the store is within its limit.
    pub open spec fn wf(&self) -> bool {
        &&& distinct_keys(self.entries())
        &&& self.entries().len() <= self.limit()
        &&& self.limit() > 0
    }

    /// An empty store for up to `capacity` pairs.
    pub fn new(capacity: usize) -> (s: Self)
        requires
            capacity > 0,
        ensures
            s.wf(),
            s.limit() == capacity,
            s.entries() == Seq::<(u64, u64)>::empty(),
    {
        RecencyStore { capacity, map: linked_new() }
    }

    /// The number of pairs held.
    pub fn len(&self) -> (n: usize)
        ensures
            n == self.entries().len(),
    {
        linked_len(&self.map)
    }

    /// Writes `value` under `key` and makes it the most recently used pair,
    /// evicting the least recently used one when a new key meets a full
    /// store. Returns whether the key was already held.
    pub fn touch_or_insert(&mut self, key: u64, value: u64) -> (hit: bool)
        requires
            old(self).wf(),
        ensures
            final(self).wf(),
            final(self).limit() == old(self).limit(),
            hit == has_key(old(self).entries(), key),
            final(self).entries() == recency_put(old(self).entries(), old(self).limit(), key, value),
    {
        let ghost before = self.entries();
        let hit = linked_get(&self.map, key).is_some();
        if !hit && linked_len(&self.map) >= self.capacity {
            let _ = linked_pop_front(&mut self.map);
            proof {
                lemma_remove_at(before, 0);
                assert(before.drop_first() =~= before.remove(0));
            }
        }
        let _ = linked_insert(&mut self.map, key, value);
        proof {
            lemma_refresh(before, key, value);
            if !hit && before.len() >= self.capacity {
                lemma_push_fresh(before.drop_first(), key, value);
            }
        }
        hit
    }

    /// Looks `key` up and, where it is held, makes it the most recently used.
    pub fn read(&mut self, key: u64) -> (r: Option<u64>)
        requires
            old(self).wf(),
        ensures
            final(self).wf(),
            final(self).limit() == old(self).limit(),
            r == payload_of(old(self).entries(), key),
            final(self).entries() == recency_read(old(self).entries(), key),
    {
        let ghost before = self.entries();
        let r = linked_get_refresh(&mut self.map, key);
        proof {
            if has_key(before, key) {
                lemma_refresh(before, key, before[key_index(before, key)].1);
            }
        }
        r
    }

    /// Removes and returns the least recently used pair; `None` when empty.
    pub fn evict_one(&mut self) -> (r: Option<(u64, u64)>)
        requires
            old(self).wf(),
        ensures
            final(self).wf(),
            final(self).limit() == old(self).limit(),
            old(self).entries().len() == 0 ==> r.is_none()
                && final(self).entries() == old(self).entries(),
            old(self).entries().len() > 0 ==> r == Some(old(self).entries()[0])
                && final(self).entries() == old(self).entries().drop_first(),
    {
        let ghost before = self.entries();
        let r = linked_pop_front(&mut self.map);
        proof {
            if before.len() > 0 {
                lemma_remove_at(before, 0);
                assert(before.drop_first() =~= before.remove(0));
            }
        }
        r
    }

    /// Empties the store.
    pub fn clear(&mut self)
        ensures
            final(self).limit() == old(self).limit(),
            final(self).entries() == Seq::<(u64, u64)>::empty(),
    {
        linked_clear(&mut self.map);
    }

    /// The pairs held, least recently used first.
    pub fn snapshot(&self) -> (r: Vec<(u64, u64)>)
        ensures
            r@ == self.entries(),
    {
        linked_to_vec(&self.map)
    }
}

} // verus!
