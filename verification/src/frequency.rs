//! The frequency store: pairs with an access count, evicted lowest count
//! first and, among equal counts, in the order in which they reached it.
//!
//! The store keeps a hash map from each key to its value and count, and one
//! linked list of `(key, count)` in which a key moves to the end whenever its
//! count changes. The keys with one count, read off that list, are the
//! bucket of that count in the order in which they entered it ([`bucket`]);
//! a bucket without keys takes no room. An access is one move to the end of
//! the list, and an eviction takes the first pair with the lowest count.

use linked_hash_map::LinkedHashMap;
use std::collections::HashMap;
use vstd::prelude::*;
use crate::keyed::{
    distinct_keys, has_key, key_index, lemma_key_index_unique, lemma_refresh,
    lemma_remove_at, payload_of, without_key,
};
use crate::linked::{
    linked_clear, linked_entries, linked_insert, linked_len, linked_new, linked_remove,
    linked_to_vec,
};

verus! {

broadcast use vstd::std_specs::hash::group_hash_axioms;

/// The next access count; a count that has reached the largest `u64` stays.
pub open spec fn bump(count: u64) -> u64 {
    if count < u64::MAX {
        (count + 1) as u64
    } else {
        count
    }
}

/// Position `i` of `s` holds the lowest count, and no earlier position does.
pub open spec fn is_victim(s: Seq<(u64, u64)>, i: int) -> bool {
    &&& 0 <= i < s.len()
    &&& forall|j: int| 0 <= j < s.len() ==> s[i].1 <= (#[trigger] s[j]).1
    &&& forall|j: int| 0 <= j < i ==> (#[trigger] s[j]).1 != s[i].1
}

/// The position that the next eviction takes, in a non-empty sequence.
pub open spec fn victim_index(s: Seq<(u64, u64)>) -> int {
    choose|i: int| is_victim(s, i)
}

/// The `(key, count)` order after an access to `k`: a key that is held
/// leaves its place and joins the end with its count raised.
pub open spec fn frequency_touch(s: Seq<(u64, u64)>, k: u64) -> Seq<(u64, u64)> {
    if has_key(s, k) {
        without_key(s, k).push((k, bump(s[key_index(s, k)].1)))
    } else {
        s
    }
}

/// The `(key, count)` order after one eviction.
pub open spec fn frequency_evict(s: Seq<(u64, u64)>) -> Seq<(u64, u64)> {
    if s.len() > 0 {
        s.remove(victim_index(s))
    } else {
        s
    }
}

/// The order from which a new key starts: one pair has left if the store
/// was full.
pub open spec fn frequency_room(s: Seq<(u64, u64)>, capacity: nat) -> Seq<(u64, u64)> {
    if s.len() >= capacity {
        frequency_evict(s)
    } else {
        s
    }
}

/// The values from which a new key starts: the victim's has left if the
/// store was full.
pub open spec fn values_room(s: Seq<(u64, u64)>, values: Map<u64, u64>, capacity: nat) -> Map<
    u64,
    u64,
> {
    if s.len() >= capacity && s.len() > 0 {
        values.remove(s[victim_index(s)].0)
    } else {
        values
    }
}

/// Only one position can be the victim.
pub proof fn lemma_victim_unique(s: Seq<(u64, u64)>, i: int)
    requires
        is_victim(s, i),
    ensures
        victim_index(s) == i,
{
    let j = victim_index(s);
    assert(is_victim(s, j));
    if j < i {
        assert(s[j].1 != s[i].1);
        assert(s[i].1 <= s[j].1);
        assert(s[j].1 <= s[i].1);
    } else if i < j {
        assert(s[i].1 != s[j].1);
        assert(s[i].1 <= s[j].1);
        assert(s[j].1 <= s[i].1);
    }
}

/// Finds the first position with the lowest count.
fn find_victim(list: &Vec<(u64, u64)>) -> (at: usize)
    requires
        list@.len() > 0,
    ensures
        is_victim(list@, at as int),
{
    let mut best: usize = 0;
    let mut i: usize = 1;
    while i < list.len()
        invariant
            1 <= i <= list@.len(),
            best < i,
            forall|j: int| 0 <= j < i ==> list@[best as int].1 <= (#[trigger] list@[j]).1,
            forall|j: int| 0 <= j < best ==> (#[trigger] list@[j]).1 != list@[best as int].1,
        decreases list@.len() - i,
    {
        if list[i].1 < list[best].1 {
            best = i;
        }
        i += 1;
    }
    best
}

/// Key/value pairs with access counts.
pub struct FrequencyStore {
    capacity: usize,
    map: HashMap<u64, (u64, u64)>,
    order: LinkedHashMap<u64, u64>,
}

impl FrequencyStore {
    /// The `(key, count)` pairs. Pairs with the same count form that count's
    /// bucket, and stand in the order in which they entered it.
    pub closed spec fn counts(&self) -> Seq<(u64, u64)> {
        linked_entries(self.order)
    }

    /// The value held under each key.
    pub closed spec fn values(&self) -> Map<u64, u64> {
        Map::new(|k: u64| self.map@.contains_key(k), |k: u64| self.map@[k].0)
    }

    /// The largest number of pairs the store will hold.
    pub closed spec fn limit(&self) -> nat {
        self.capacity as nat
    }

    /// The count kept beside each value is the one in the order.
    pub closed spec fn agrees(&self) -> bool {
        forall|k: u64| #[trigger]
            self.map@.contains_key(k) ==> payload_of(self.counts(), k) == Some(self.map@[k].1)
    }

    /// Every key has one value and one count of at least one, and the store
    /// is within its limit.
    pub open spec fn wf(&self) -> bool {
        &&& self.agrees()
        &&& distinct_keys(self.counts())
        &&& forall|k: u64|
            #![trigger self.values().contains_key(k)]
            #![trigger has_key(self.counts(), k)]
            self.values().contains_key(k) <==> has_key(self.counts(), k)
        &&& forall|i: int| 0 <= i < self.counts().len() ==> (#[trigger] self.counts()[i]).1 >= 1
        &&& self.counts().len() <= self.limit()
        &&& self.limit() > 0
    }

    /// A store without pairs has no count to disagree about.
    pub proof fn lemma_empty_agrees(&self)
        requires
            self.values() == Map::<u64, u64>::empty(),
        ensures
            self.agrees(),
    {
        assert forall|k: u64| #[trigger] self.map@.contains_key(k) implies payload_of(
            self.counts(),
            k,
        ) == Some(self.map@[k].1) by {
            assert(self.values().contains_key(k));
        }
    }

    /// An empty store for up to `capacity` pairs.
    pub fn new(capacity: usize) -> (s: Self)
        requires
            capacity > 0,
        ensures
            s.wf(),
            s.limit() == capacity,
            s.counts() == Seq::<(u64, u64)>::empty(),
            s.values() == Map::<u64, u64>::empty(),
    {
        let s = FrequencyStore { capacity, map: HashMap::new(), order: linked_new() };
        assert(s.values() =~= Map::<u64, u64>::empty());
        s
    }

    /// The number of pairs held.
    pub fn len(&self) -> (n: usize)
        ensures
            n == self.counts().len(),
    {
        linked_len(&self.order)
    }

    /// Looks `key` up and, where it is held, raises its count and moves it
    /// to the end of the bucket of the new count.
    pub fn read(&mut self, key: u64) -> (r: Option<u64>)
        requires
            old(self).wf(),
        ensures
            final(self).wf(),
            final(self).limit() == old(self).limit(),
            r == (if has_key(old(self).counts(), key) {
                Some(old(self).values()[key])
            } else {
                None
            }),
            final(self).counts() == frequency_touch(old(self).counts(), key),
            final(self).values() == old(self).values(),
    {
        let held = match self.map.get(&key) {
            Some(pair) => Some(*pair),
            None => None,
        };
        match held {
            Some((value, count)) => {
                assert(old(self).values().contains_key(key));
                self.raise(key, value, count);
                assert(final(self).values() =~= old(self).values());
                Some(value)
            },
            None => {
                assert(!old(self).values().contains_key(key));
                None
            },
        }
    }

    /// Writes `value` under a key that is held, and counts the access as
    /// `read` does. Returns whether the key was held; otherwise nothing
    /// changes.
    pub fn update(&mut self, key: u64, value: u64) -> (hit: bool)
        requires
            old(self).wf(),
        ensures
            final(self).wf(),
            final(self).limit() == old(self).limit(),
            hit == has_key(old(self).counts(), key),
            final(self).counts() == frequency_touch(old(self).counts(), key),
            final(self).values() == (if hit {
                old(self).values().insert(key, value)
            } else {
                old(self).values()
            }),
    {
        let held = match self.map.get(&key) {
            Some(pair) => Some(*pair),
            None => None,
        };
        match held {
            Some((_, count)) => {
                assert(old(self).values().contains_key(key));
                self.raise(key, value, count);
                true
            },
            None => {
                assert(!old(self).values().contains_key(key));
                false
            },
        }
    }

    /// Moves `key` from the bucket of `count` to the end of the next one and
    /// stores `value` under it.
    fn raise(&mut self, key: u64, value: u64, count: u64)
        requires
            old(self).wf(),
            old(self).map@.contains_key(key),
            old(self).map@[key].1 == count,
        ensures
            final(self).wf(),
            final(self).limit() == old(self).limit(),
            final(self).counts() == frequency_touch(old(self).counts(), key),
            final(self).values() =~= old(self).values().insert(key, value),
    {
        let ghost before = self.counts();
        let next: u64 = if count < u64::MAX {
            count + 1
        } else {
            count
        };
        proof {
            assert(old(self).values().contains_key(key));
            assert(payload_of(before, key) == Some(count));
            lemma_refresh(before, key, next);
        }
        let _ = linked_insert(&mut self.order, key, next);
        let _ = self.map.insert(key, (value, next));
        proof {
            let after = self.counts();
            assert(after == without_key(before, key).push((key, next)));
            assert forall|i: int| 0 <= i < after.len() implies (#[trigger] after[i]).1 >= 1 by {
                let a = key_index(before, key);
                if i < after.len() - 1 {
                    assert(after[i] == before[if i < a { i } else { i + 1 }]);
                }
            }
            assert forall|k: u64| #[trigger]
                self.map@.contains_key(k) implies payload_of(after, k) == Some(self.map@[k].1) by {
                if k != key {
                    assert(old(self).map@.contains_key(k));
                }
            }
            assert forall|k: u64| self.values().contains_key(k) <==> has_key(after, k) by {
                if k != key {
                    assert(self.values().contains_key(k) == old(self).values().contains_key(k));
                }
            }
        }
    }

    /// Removes the oldest pair of the lowest bucket and returns its key and
    /// value; `None` when the store is empty.
    pub fn evict_one(&mut self) -> (r: Option<(u64, u64)>)
        requires
            old(self).wf(),
        ensures
            final(self).wf(),
            final(self).limit() == old(self).limit(),
            final(self).counts() == frequency_evict(old(self).counts()),
            old(self).counts().len() == 0 ==> r.is_none() && final(self).values() == old(
                self,
            ).values(),
            old(self).counts().len() > 0 ==> {
                let k = old(self).counts()[victim_index(old(self).counts())].0;
                &&& r == Some((k, old(self).values()[k]))
                &&& final(self).values() == old(self).values().remove(k)
            },
    {
        let ghost before = self.counts();
        let list = linked_to_vec(&self.order);
        if list.len() == 0 {
            return None;
        }
        let at = find_victim(&list);
        let key = list[at].0;
        proof {
            lemma_victim_unique(before, at as int);
            lemma_key_index_unique(before, at as int);
            lemma_remove_at(before, at as int);
            assert(old(self).values().contains_key(key));
        }
        let _ = linked_remove(&mut self.order, key);
        let removed = self.map.remove(&key);
        proof {
            let after = self.counts();
            assert(after == before.remove(at as int));
            assert(self.values() =~= old(self).values().remove(key));
            assert forall|i: int| 0 <= i < after.len() implies (#[trigger] after[i]).1 >= 1 by {
                assert(after[i] == before[if i < at { i } else { i + 1 }]);
            }
            assert forall|k: u64| #[trigger]
                self.map@.contains_key(k) implies payload_of(after, k) == Some(self.map@[k].1) by {
                assert(old(self).map@.contains_key(k));
            }
            assert forall|k: u64| self.values().contains_key(k) <==> has_key(after, k) by {
                assert(self.values().contains_key(k) == (k != key && old(self).values().contains_key(k)));
                assert(has_key(after, k) == (k != key && has_key(before, k)));
                assert(old(self).values().contains_key(k) == has_key(before, k));
            }
        }
        match removed {
            Some((value, _)) => Some((key, value)),
            None => None,
        }
    }

    /// Stores a key that is not held, with count one, at the end of the
    /// first bucket; a full store evicts one pair before.
    pub fn insert_new(&mut self, key: u64, value: u64)
        requires
            old(self).wf(),
            !has_key(old(self).counts(), key),
        ensures
            final(self).wf(),
            final(self).limit() == old(self).limit(),
            final(self).counts() == frequency_room(old(self).counts(), old(self).limit()).push(
                (key, 1u64),
            ),
            final(self).values() == values_room(
                old(self).counts(),
                old(self).values(),
                old(self).limit(),
            ).insert(key, value),
    {
        if linked_len(&self.order) >= self.capacity {
            let _ = self.evict_one();
        }
        let ghost room = self.counts();
        let ghost room_values = self.values();
        let ghost room_map = self.map@;
        proof {
            assert(!has_key(room, key)) by {
                if old(self).counts().len() >= old(self).limit() {
                    lemma_victim_exists(old(self).counts());
                    lemma_remove_at(old(self).counts(), victim_index(old(self).counts()));
                }
            }
            assert(room.len() < self.limit()) by {
                if old(self).counts().len() >= old(self).limit() {
                    lemma_victim_exists(old(self).counts());
                }
            }
            lemma_refresh(room, key, 1u64);
            assert(without_key(room, key) == room);
        }
        let _ = linked_insert(&mut self.order, key, 1u64);
        let _ = self.map.insert(key, (value, 1u64));
        proof {
            let after = self.counts();
            assert(after == room.push((key, 1u64)));
            assert(self.values() =~= room_values.insert(key, value));
            assert forall|i: int| 0 <= i < after.len() implies (#[trigger] after[i]).1 >= 1 by {
                if i < room.len() {
                    assert(after[i] == room[i]);
                }
            }
            assert forall|k: u64| #[trigger]
                self.map@.contains_key(k) implies payload_of(after, k) == Some(self.map@[k].1) by {
                if k != key {
                    assert(room_map.contains_key(k));
                }
            }
            assert forall|k: u64| self.values().contains_key(k) <==> has_key(after, k) by {
                assert(self.values().contains_key(k) == (k == key || room_values.contains_key(k)));
                assert(has_key(after, k) == (k == key || has_key(room, k)));
                assert(room_values.contains_key(k) == has_key(room, k));
            }
        }
    }

    /// Empties the store: values, counts and buckets.
    pub fn clear(&mut self)
        ensures
            final(self).limit() == old(self).limit(),
            final(self).counts() == Seq::<(u64, u64)>::empty(),
            final(self).values() == Map::<u64, u64>::empty(),
    {
        self.map.clear();
        linked_clear(&mut self.order);
        assert(self.values() =~= Map::<u64, u64>::empty());
    }

    /// The `(key, value)` pairs, in the order of `counts`.
    pub fn snapshot(&self) -> (r: Vec<(u64, u64)>)
        requires
            self.wf(),
        ensures
            r@.len() == self.counts().len(),
            forall|i: int| 0 <= i < r@.len() ==> (#[trigger] r@[i]) == (
                self.counts()[i].0,
                self.values()[self.counts()[i].0],
            ),
    {
        let list = linked_to_vec(&self.order);
        let mut out: Vec<(u64, u64)> = Vec::new();
        let mut i: usize = 0;
        while i < list.len()
            invariant
                self.wf(),
                list@ == self.counts(),
                0 <= i <= list@.len(),
                out@.len() == i,
                forall|j: int| 0 <= j < i ==> (#[trigger] out@[j]) == (
                    list@[j].0,
                    self.values()[list@[j].0],
                ),
            decreases list@.len() - i,
        {
            let key = list[i].0;
            proof {
                lemma_key_index_unique(list@, i as int);
                assert(self.values().contains_key(key));
            }
            let value = match self.map.get(&key) {
                Some(pair) => pair.0,
                None => 0u64,
            };
            out.push((key, value));
            i += 1;
        }
        out
    }
}

/// The bucket of `count`: the keys that have this access count, in the
/// order in which they reached it.
pub open spec fn bucket(s: Seq<(u64, u64)>, count: u64) -> Seq<u64>
    decreases s.len(),
{
    if s.len() == 0 {
        Seq::empty()
    } else if s.last().1 == count {
        bucket(s.drop_last(), count).push(s.last().0)
    } else {
        bucket(s.drop_last(), count)
    }
}

/// The bucket of a sequence in two parts is the bucket of the first part
/// followed by that of the second.
pub proof fn lemma_bucket_parts(a: Seq<(u64, u64)>, b: Seq<(u64, u64)>, count: u64)
    ensures
        bucket(a + b, count) == bucket(a, count) + bucket(b, count),
    decreases b.len(),
{
    if b.len() == 0 {
        assert(a + b =~= a);
        assert(bucket(a, count) + bucket(b, count) =~= bucket(a, count));
    } else {
        assert((a + b).drop_last() =~= a + b.drop_last());
        lemma_bucket_parts(a, b.drop_last(), count);
        if b.last().1 == count {
            assert(bucket(a, count) + bucket(b, count) =~= (bucket(a, count) + bucket(
                b.drop_last(),
                count,
            )).push(b.last().0));
        }
    }
}

/// A count that no pair has owns an empty bucket.
pub proof fn lemma_bucket_unused(s: Seq<(u64, u64)>, count: u64)
    requires
        forall|i: int| 0 <= i < s.len() ==> (#[trigger] s[i]).1 != count,
    ensures
        bucket(s, count) == Seq::<u64>::empty(),
    decreases s.len(),
{
    if s.len() > 0 {
        let t = s.drop_last();
        assert forall|i: int| 0 <= i < t.len() implies (#[trigger] t[i]).1 != count by {
            assert(t[i] == s[i]);
        }
        lemma_bucket_unused(t, count);
        assert(s.last() == s[s.len() - 1]);
    }
}

/// The bucket of `count` around position `i`: what stands before, the key
/// at `i` if it has that count, and what stands behind.
pub proof fn lemma_bucket_around(s: Seq<(u64, u64)>, i: int, count: u64)
    requires
        0 <= i < s.len(),
    ensures
        bucket(s, count) == bucket(s.take(i), count) + (if s[i].1 == count {
            seq![s[i].0]
        } else {
            Seq::<u64>::empty()
        }) + bucket(s.skip(i + 1), count),
        bucket(s.remove(i), count) == bucket(s.take(i), count) + bucket(s.skip(i + 1), count),
{
    let one = seq![s[i]];
    assert(s =~= s.take(i) + one + s.skip(i + 1));
    assert(s.remove(i) =~= s.take(i) + s.skip(i + 1));
    lemma_bucket_parts(s.take(i) + one, s.skip(i + 1), count);
    lemma_bucket_parts(s.take(i), one, count);
    lemma_bucket_parts(s.take(i), s.skip(i + 1), count);
    assert(one.drop_last() =~= Seq::<(u64, u64)>::empty());
    assert(one.last() == s[i]);
    assert(bucket(one.drop_last(), count) =~= Seq::<u64>::empty());
    if s[i].1 == count {
        assert(bucket(one, count) =~= seq![s[i].0]);
    } else {
        assert(bucket(one, count) =~= Seq::<u64>::empty());
    }
}

/// A new key joins the end of the first bucket; no other bucket changes.
pub proof fn lemma_insert_joins_first_bucket(s: Seq<(u64, u64)>, k: u64, count: u64)
    ensures
        bucket(s.push((k, 1u64)), count) == if count == 1 {
            bucket(s, count).push(k)
        } else {
            bucket(s, count)
        },
{
    let t = s.push((k, 1u64));
    assert(t.drop_last() =~= s);
    assert(t.last() == (k, 1u64));
}

/// An access moves a key from its bucket to the end of the next one. The
/// keys that stay in the old bucket keep their order, and no other bucket
/// changes. A bucket left without keys is empty: nothing of it remains.
pub proof fn lemma_touch_promotes(s: Seq<(u64, u64)>, k: u64, count: u64)
    requires
        distinct_keys(s),
        has_key(s, k),
        s[key_index(s, k)].1 < u64::MAX,
    ensures
        ({
            let i = key_index(s, k);
            let from = s[i].1;
            let to = (from + 1) as u64;
            bucket(frequency_touch(s, k), count) == if count == to {
                bucket(s, count).push(k)
            } else if count == from {
                bucket(s.take(i), count) + bucket(s.skip(i + 1), count)
            } else {
                bucket(s, count)
            }
        }),
        bucket(s, s[key_index(s, k)].1) == bucket(s.take(key_index(s, k)), s[key_index(s, k)].1).push(
            k,
        ) + bucket(s.skip(key_index(s, k) + 1), s[key_index(s, k)].1),
{
    let i = key_index(s, k);
    let from = s[i].1;
    let to = (from + 1) as u64;
    let rest = s.remove(i);
    let after = rest.push((k, to));
    assert(frequency_touch(s, k) == after);
    assert(after.drop_last() =~= rest);
    assert(after.last() == (k, to));
    lemma_bucket_around(s, i, count);
    lemma_bucket_around(s, i, from);
    assert(bucket(s.take(i), from) + seq![k] =~= bucket(s.take(i), from).push(k));
    if count != from {
        assert(bucket(s.take(i), count) + Seq::<u64>::empty() =~= bucket(s.take(i), count));
    }
}

/// The pair that an eviction takes is the oldest of the lowest bucket:
/// every lower count has an empty bucket, and the victim's key heads its
/// own.
pub proof fn lemma_victim_heads_lowest_bucket(s: Seq<(u64, u64)>)
    requires
        s.len() > 0,
    ensures
        bucket(s, s[victim_index(s)].1).len() > 0,
        bucket(s, s[victim_index(s)].1)[0] == s[victim_index(s)].0,
        forall|count: u64| count < s[victim_index(s)].1 ==> bucket(s, count) == Seq::<u64>::empty(),
        bucket(frequency_evict(s), s[victim_index(s)].1) == bucket(
            s,
            s[victim_index(s)].1,
        ).drop_first(),
{
    lemma_victim_exists(s);
    let i = victim_index(s);
    let low = s[i].1;
    lemma_bucket_around(s, i, low);
    let head = s.take(i);
    assert forall|j: int| 0 <= j < head.len() implies (#[trigger] head[j]).1 != low by {
        assert(head[j] == s[j]);
    }
    lemma_bucket_unused(head, low);
    let tail = bucket(s.skip(i + 1), low);
    assert(Seq::<u64>::empty() + seq![s[i].0] + tail =~= seq![s[i].0] + tail);
    assert((seq![s[i].0] + tail).drop_first() =~= tail);
    assert(Seq::<u64>::empty() + tail =~= tail);
    assert forall|count: u64| count < low implies bucket(s, count) == Seq::<u64>::empty() by {
        assert forall|j: int| 0 <= j < s.len() implies (#[trigger] s[j]).1 != count by {
            assert(s[i].1 <= s[j].1);
        }
        lemma_bucket_unused(s, count);
    }
}

/// A non-empty sequence has a victim.
pub proof fn lemma_victim_exists(s: Seq<(u64, u64)>)
    requires
        s.len() > 0,
    ensures
        is_victim(s, victim_index(s)),
    decreases s.len(),
{
    if s.len() == 1 {
        assert(is_victim(s, 0));
    } else {
        let t = s.drop_last();
        lemma_victim_exists(t);
        let b = victim_index(t);
        let last = s.len() - 1;
        assert forall|j: int| 0 <= j < t.len() implies t[j] == s[j] by {}
        if s[last].1 < s[b].1 {
            assert forall|j: int| 0 <= j < s.len() implies s[last].1 <= (#[trigger] s[j]).1 by {
                if j < last {
                    assert(t[b].1 <= t[j].1);
                }
            }
            assert forall|j: int| 0 <= j < last implies (#[trigger] s[j]).1 != s[last].1 by {
                assert(t[b].1 <= t[j].1);
            }
            assert(is_victim(s, last));
        } else {
            assert forall|j: int| 0 <= j < s.len() implies s[b].1 <= (#[trigger] s[j]).1 by {
                if j < last {
                    assert(t[b].1 <= t[j].1);
                }
            }
            assert forall|j: int| 0 <= j < b implies (#[trigger] s[j]).1 != s[b].1 by {
                assert(t[j].1 != t[b].1);
            }
            assert(is_victim(s, b));
        }
    }
}

} // verus!
