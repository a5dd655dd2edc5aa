//! A bounded key-value cache that watches its own hit rate and switches
//! between least-recently-used and least-frequently-used eviction.
//!
//! Every `get` and `put` counts as a hit when the key was held and as a miss
//! otherwise. After each window of [`DECISION_WINDOW`] accesses the cache
//! picks the discipline for the next window: frequency-based when more than
//! three fifths of the accesses were hits, recency-based otherwise. When the
//! discipline changes, every pair moves to the other store.

use vstd::prelude::*;
use crate::frequency::{
    bump, frequency_room, frequency_touch, lemma_victim_exists, values_room, victim_index,
    FrequencyStore,
};
use crate::keyed::{
    as_map, distinct_keys, has_key, key_index, lemma_key_index_unique, lemma_push_fresh,
    lemma_refresh, lemma_remove_at,
};
use crate::recency::{recency_put, recency_read, RecencyStore};

verus! {

/// The number of accesses after which the discipline is reconsidered.
pub const DECISION_WINDOW: u64 = 100;

/// The eviction discipline in force.
#[derive(PartialEq, Eq, Structural, Debug, Clone, Copy)]
pub enum CacheStrategy {
    /// Least recently used.
    LRU,
    /// Least frequently used.
    LFU,
}

/// Why a cache could not be built.
#[derive(PartialEq, Eq, Structural, Debug, Clone, Copy)]
pub enum CacheError {
    /// A cache must be able to hold at least one pair.
    ZeroCapacity,
}

/// The discipline chosen at the end of a window: frequency-based exactly
/// when the hit rate `hits / (hits + misses)` exceeds 3/5.
pub open spec fn target_strategy(hits: nat, misses: nat) -> CacheStrategy {
    if 5 * hits > 3 * (hits + misses) {
        CacheStrategy::LFU
    } else {
        CacheStrategy::LRU
    }
}

/// What a cache is, apart from how it is stored.
pub struct CacheModel {
    /// The largest number of pairs held.
    pub capacity: nat,
    /// The discipline in force.
    pub strategy: CacheStrategy,
    /// Hits in the current window.
    pub hits: nat,
    /// Misses in the current window.
    pub misses: nat,
    /// The recency store: `(key, value)`, least recently used first.
    pub recency: Seq<(u64, u64)>,
    /// The frequency store: `(key, count)`; equal counts form a bucket, in
    /// the order in which the keys entered it.
    pub counts: Seq<(u64, u64)>,
    /// The frequency store: the value under each key.
    pub values: Map<u64, u64>,
}

impl CacheModel {
    /// An empty cache for `capacity` pairs: recency-based, at the start of
    /// a window.
    pub open spec fn fresh(capacity: nat) -> CacheModel {
        CacheModel {
            capacity,
            strategy: CacheStrategy::LRU,
            hits: 0,
            misses: 0,
            recency: Seq::empty(),
            counts: Seq::empty(),
            values: Map::empty(),
        }
    }

    /// The number of pairs held, both stores together.
    pub open spec fn len(self) -> nat {
        self.recency.len() + self.counts.len()
    }

    /// The value under each key held by the store in force.
    pub open spec fn contents(self) -> Map<u64, u64> {
        match self.strategy {
            CacheStrategy::LRU => as_map(self.recency),
            CacheStrategy::LFU => self.values,
        }
    }

    /// `k` is held.
    pub open spec fn holds(self, k: u64) -> bool {
        self.contents().contains_key(k)
    }

    /// The value under `k`, if it is held.
    pub open spec fn lookup(self, k: u64) -> Option<u64> {
        if self.holds(k) {
            Some(self.contents()[k])
        } else {
            None
        }
    }

    /// Both stores are sound, neither exceeds the capacity, and the store
    /// that is not in force is empty.
    pub open spec fn stores_wf(self) -> bool {
        &&& self.capacity > 0
        &&& distinct_keys(self.recency)
        &&& distinct_keys(self.counts)
        &&& forall|k: u64|
            #![trigger self.values.contains_key(k)]
            #![trigger has_key(self.counts, k)]
            self.values.contains_key(k) <==> has_key(self.counts, k)
        &&& forall|i: int| 0 <= i < self.counts.len() ==> (#[trigger] self.counts[i]).1 >= 1
        &&& self.recency.len() <= self.capacity
        &&& self.counts.len() <= self.capacity
        &&& self.strategy == CacheStrategy::LRU ==> self.counts.len() == 0
        &&& self.strategy == CacheStrategy::LFU ==> self.recency.len() == 0
    }

    /// The stores are sound and the window is not yet full.
    pub open spec fn wf(self) -> bool {
        &&& self.stores_wf()
        &&& self.hits + self.misses < DECISION_WINDOW
    }

    /// The cache after every pair has moved to the store of `to`. Pairs moved
    /// to the frequency store start with count one, in recency order; pairs
    /// moved to the recency store keep the order of `counts`.
    pub open spec fn migrate(self, to: CacheStrategy) -> CacheModel {
        match to {
            CacheStrategy::LFU => CacheModel {
                strategy: to,
                recency: Seq::empty(),
                counts: Seq::new(self.recency.len(), |i: int| (self.recency[i].0, 1u64)),
                values: as_map(self.recency),
                ..self
            },
            CacheStrategy::LRU => CacheModel {
                strategy: to,
                recency: Seq::new(
                    self.counts.len(),
                    |i: int| (self.counts[i].0, self.values[self.counts[i].0]),
                ),
                counts: Seq::empty(),
                values: Map::empty(),
                ..self
            },
        }
    }

    /// The cache after one more access was counted.
    pub open spec fn record(self, hit: bool) -> CacheModel {
        if hit {
            CacheModel { hits: self.hits + 1, ..self }
        } else {
            CacheModel { misses: self.misses + 1, ..self }
        }
    }

    /// The cache after the check that ends an access: once the window is
    /// full the discipline for the next one is chosen, the pairs migrate if
    /// it differs, and both counters start again from zero.
    pub open spec fn decide(self) -> CacheModel {
        if self.hits + self.misses >= DECISION_WINDOW {
            let to = target_strategy(self.hits, self.misses);
            let moved = if to != self.strategy {
                self.migrate(to)
            } else {
                self
            };
            CacheModel { hits: 0, misses: 0, ..moved }
        } else {
            self
        }
    }

    /// The stores after a read of `k`.
    pub open spec fn touched(self, k: u64) -> CacheModel {
        match self.strategy {
            CacheStrategy::LRU => CacheModel { recency: recency_read(self.recency, k), ..self },
            CacheStrategy::LFU => CacheModel { counts: frequency_touch(self.counts, k), ..self },
        }
    }

    /// The stores after `v` was written under `k`.
    pub open spec fn stored(self, k: u64, v: u64) -> CacheModel {
        match self.strategy {
            CacheStrategy::LRU => CacheModel {
                recency: recency_put(self.recency, self.capacity, k, v),
                ..self
            },
            CacheStrategy::LFU => if has_key(self.counts, k) {
                CacheModel {
                    counts: frequency_touch(self.counts, k),
                    values: self.values.insert(k, v),
                    ..self
                }
            } else {
                CacheModel {
                    counts: frequency_room(self.counts, self.capacity).push((k, 1u64)),
                    values: values_room(self.counts, self.values, self.capacity).insert(k, v),
                    ..self
                }
            },
        }
    }

    /// The key that leaves when `k` is written: none while `k` is held or
    /// there is room; otherwise the least recently used key, or the oldest
    /// key of the lowest bucket.
    pub open spec fn evicted_by(self, k: u64) -> Option<u64> {
        if self.holds(k) || self.len() < self.capacity {
            None
        } else {
            match self.strategy {
                CacheStrategy::LRU => Some(self.recency[0].0),
                CacheStrategy::LFU => Some(self.counts[victim_index(self.counts)].0),
            }
        }
    }

    /// The keys and values after `v` was written under `k`.
    pub open spec fn contents_after_put(self, k: u64, v: u64) -> Map<u64, u64> {
        match self.evicted_by(k) {
            Some(e) => self.contents().remove(e).insert(k, v),
            None => self.contents().insert(k, v),
        }
    }

    /// The cache after `get(k)`.
    pub open spec fn after_get(self, k: u64) -> CacheModel {
        self.touched(k).record(self.holds(k)).decide()
    }

    /// The cache after `put(k, v)`.
    pub open spec fn after_put(self, k: u64, v: u64) -> CacheModel {
        self.stored(k, v).record(self.holds(k)).decide()
    }
}

/// A cache of `u64` keys and values that adapts its eviction discipline.
pub struct SelfOptimizingCache {
    capacity: usize,
    strategy: CacheStrategy,
    lru: RecencyStore,
    lfu: FrequencyStore,
    hits: u64,
    misses: u64,
}

impl View for SelfOptimizingCache {
    type V = CacheModel;

    closed spec fn view(&self) -> CacheModel {
        CacheModel {
            capacity: self.capacity as nat,
            strategy: self.strategy,
            hits: self.hits as nat,
            misses: self.misses as nat,
            recency: self.lru.entries(),
            counts: self.lfu.counts(),
            values: self.lfu.values(),
        }
    }
}

impl SelfOptimizingCache {
    /// The two stores are sound and sized for this cache.
    pub closed spec fn stores_wf(&self) -> bool {
        &&& self.lru.wf()
        &&& self.lfu.wf()
        &&& self.lru.limit() == self.capacity
        &&& self.lfu.limit() == self.capacity
        &&& self@.stores_wf()
    }

    /// The cache is sound: see [`CacheModel::wf`].
    pub closed spec fn wf(&self) -> bool {
        &&& self.stores_wf()
        &&& self@.wf()
    }

    /// A sound cache has a sound model.
    pub proof fn lemma_wf_model(&self)
        requires
            self.wf(),
        ensures
            self@.wf(),
    {
    }

    /// Creates an empty cache for `capacity` pairs, recency-based at first.
    pub fn new(capacity: usize) -> (cache: Self)
        requires
            capacity > 0,
        ensures
            cache.wf(),
            cache@ == CacheModel::fresh(capacity as nat),
            cache@.wf(),
    {
        SelfOptimizingCache {
            capacity,
            strategy: CacheStrategy::LRU,
            lru: RecencyStore::new(capacity),
            lfu: FrequencyStore::new(capacity),
            hits: 0,
            misses: 0,
        }
    }

    /// Creates an empty cache, or refuses a capacity of zero.
    pub fn try_new(capacity: usize) -> (r: Result<Self, CacheError>)
        ensures
            capacity == 0 <==> r == Err::<Self, CacheError>(CacheError::ZeroCapacity),
            capacity > 0 ==> r.is_ok() && r.unwrap().wf() && r.unwrap()@ == CacheModel::fresh(
                capacity as nat,
            ),
    {
        if capacity == 0 {
            Err(CacheError::ZeroCapacity)
        } else {
            Ok(Self::new(capacity))
        }
    }

    /// Returns the value under `key`, if it is held, and counts the access.
    /// The pair becomes the most recently used one, or its count rises; no
    /// stored value changes and no pair leaves.
    pub fn get(&mut self, key: &u64) -> (result: Option<u64>)
        requires
            old(self).wf(),
        ensures
            final(self).wf(),
            final(self)@.wf(),
            result == old(self)@.lookup(*key),
            final(self)@ == old(self)@.after_get(*key),
            final(self)@.contents() == old(self)@.contents(),
            final(self)@.len() <= final(self)@.capacity,
    {
        let result = match self.strategy {
            CacheStrategy::LRU => self.lru_get(key),
            CacheStrategy::LFU => self.lfu_get(key),
        };
        if result.is_some() {
            self.hits += 1;
        } else {
            self.misses += 1;
        }
        proof {
            assert(self@ == old(self)@.touched(*key).record(old(self)@.holds(*key)));
            lemma_touched_keeps_contents(old(self)@, *key);
            lemma_decide_keeps_contents(self@);
        }
        self.adapt_strategy();
        result
    }

    /// Writes `value` under `key` and counts the access: a hit when the key
    /// was held, a miss otherwise. A new key that meets a full cache evicts
    /// one pair first.
    pub fn put(&mut self, key: u64, value: u64)
        requires
            old(self).wf(),
        ensures
            final(self).wf(),
            final(self)@.wf(),
            final(self)@ == old(self)@.after_put(key, value),
            final(self)@.contents() == old(self)@.contents_after_put(key, value),
            final(self)@.lookup(key) == Some(value),
            final(self)@.len() <= final(self)@.capacity,
    {
        let hit = match self.strategy {
            CacheStrategy::LRU => self.lru_put(key, value),
            CacheStrategy::LFU => self.lfu_put(key, value),
        };
        if hit {
            self.hits += 1;
        } else {
            self.misses += 1;
        }
        proof {
            assert(self@ == old(self)@.stored(key, value).record(old(self)@.holds(key)));
            assert(self@.lookup(key) == Some(value));
            lemma_stored_contents(old(self)@, key, value);
            lemma_decide_keeps_contents(self@);
        }
        self.adapt_strategy();
    }

    /// The discipline in force.
    pub fn get_strategy(&self) -> (strategy: &CacheStrategy)
        ensures
            *strategy == self@.strategy,
    {
        &self.strategy
    }

    /// The number of pairs held.
    pub fn len(&self) -> (n: usize)
        requires
            self.wf(),
        ensures
            n == self@.len(),
            n == self@.contents().len(),
    {
        proof {
            lemma_contents_len(self@);
        }
        match self.strategy {
            CacheStrategy::LRU => self.lru.len(),
            CacheStrategy::LFU => self.lfu.len(),
        }
    }

    fn lru_get(&mut self, key: &u64) -> (result: Option<u64>)
        requires
            old(self).wf(),
            old(self).strategy == CacheStrategy::LRU,
        ensures
            final(self).stores_wf(),
            result == old(self)@.lookup(*key),
            final(self)@ == old(self)@.touched(*key),
    {
        self.lru.read(*key)
    }

    fn lru_put(&mut self, key: u64, value: u64) -> (hit: bool)
        requires
            old(self).wf(),
            old(self).strategy == CacheStrategy::LRU,
        ensures
            final(self).stores_wf(),
            hit == old(self)@.holds(key),
            final(self)@ == old(self)@.stored(key, value),
            final(self)@.lookup(key) == Some(value),
    {
        let hit = self.lru.touch_or_insert(key, value);
        proof {
            let before = old(self).lru.entries();
            lemma_refresh(before, key, value);
            if !hit && before.len() >= self.capacity {
                lemma_remove_at(before, 0);
                assert(before.drop_first() =~= before.remove(0));
                lemma_push_fresh(before.drop_first(), key, value);
            } else if !hit {
                lemma_push_fresh(before, key, value);
            }
        }
        hit
    }

    fn lfu_get(&mut self, key: &u64) -> (result: Option<u64>)
        requires
            old(self).wf(),
            old(self).strategy == CacheStrategy::LFU,
        ensures
            final(self).stores_wf(),
            result == old(self)@.lookup(*key),
            final(self)@ == old(self)@.touched(*key),
    {
        self.lfu.read(*key)
    }

    fn lfu_put(&mut self, key: u64, value: u64) -> (hit: bool)
        requires
            old(self).wf(),
            old(self).strategy == CacheStrategy::LFU,
        ensures
            final(self).stores_wf(),
            hit == old(self)@.holds(key),
            final(self)@ == old(self)@.stored(key, value),
            final(self)@.lookup(key) == Some(value),
    {
        let hit = self.lfu.update(key, value);
        if !hit {
            self.lfu.insert_new(key, value);
        }
        hit
    }

    /// Ends an access: see [`CacheModel::decide`].
    fn adapt_strategy(&mut self)
        requires
            old(self).stores_wf(),
            old(self).hits + old(self).misses <= DECISION_WINDOW,
        ensures
            final(self).wf(),
            final(self)@ == old(self)@.decide(),
    {
        if self.hits + self.misses >= DECISION_WINDOW {
            let new_strategy = if 5 * self.hits > 3 * (self.hits + self.misses) {
                CacheStrategy::LFU
            } else {
                CacheStrategy::LRU
            };
            if new_strategy != self.strategy {
                self.migrate_cache(&new_strategy);
            }
            self.hits = 0;
            self.misses = 0;
        }
    }

    /// Moves every pair to the store of `new_strategy` and puts that
    /// discipline in force: see [`CacheModel::migrate`].
    fn migrate_cache(&mut self, new_strategy: &CacheStrategy)
        requires
            old(self).stores_wf(),
            *new_strategy != old(self).strategy,
        ensures
            final(self).stores_wf(),
            final(self)@ == old(self)@.migrate(*new_strategy),
    {
        match new_strategy {
            CacheStrategy::LFU => {
                let data_to_migrate = self.lru.snapshot();
                self.lru.clear();
                let n = data_to_migrate.len();
                let mut i: usize = 0;
                proof {
                    assert forall|k: u64| !self.lfu.values().contains_key(k) by {
                        if has_key(self.lfu.counts(), k) {
                            let j = key_index(self.lfu.counts(), k);
                        }
                    }
                    assert(self.lfu.values() =~= as_map(data_to_migrate@.take(0)));
                    assert(self.lfu.counts() =~= Seq::new(
                        0nat,
                        |j: int| (data_to_migrate@[j].0, 1u64),
                    ));
                }
                while i < n
                    invariant
                        n == data_to_migrate@.len(),
                        0 <= i <= n,
                        n <= self.capacity,
                        data_to_migrate@ == old(self).lru.entries(),
                        distinct_keys(data_to_migrate@),
                        self.lfu.wf(),
                        self.lfu.limit() == self.capacity,
                        self.lru.wf(),
                        self.lru.limit() == self.capacity,
                        self.lru.entries() == Seq::<(u64, u64)>::empty(),
                        self.capacity == old(self).capacity,
                        self.hits == old(self).hits,
                        self.misses == old(self).misses,
                        self.lfu.counts() == Seq::new(
                            i as nat,
                            |j: int| (data_to_migrate@[j].0, 1u64),
                        ),
                        self.lfu.values() == as_map(data_to_migrate@.take(i as int)),
                        distinct_keys(data_to_migrate@.take(i as int)),
                    decreases n - i,
                {
                    let key = data_to_migrate[i].0;
                    let value = data_to_migrate[i].1;
                    proof {
                        let counts = self.lfu.counts();
                        let prefix = data_to_migrate@.take(i as int);
                        if has_key(counts, key) {
                            let j = key_index(counts, key);
                            assert(data_to_migrate@[j].0 != data_to_migrate@[i as int].0);
                        }
                        if has_key(prefix, key) {
                            let j = key_index(prefix, key);
                            assert(data_to_migrate@[j].0 != data_to_migrate@[i as int].0);
                        }
                        lemma_push_fresh(prefix, key, value);
                        assert(data_to_migrate@.take(i + 1) =~= prefix.push((key, value)));
                    }
                    self.lfu.insert_new(key, value);
                    assert(self.lfu.counts() =~= Seq::new(
                        (i + 1) as nat,
                        |j: int| (data_to_migrate@[j].0, 1u64),
                    ));
                    i += 1;
                }
                assert(data_to_migrate@.take(n as int) =~= data_to_migrate@);
                self.strategy = CacheStrategy::LFU;
            },
            CacheStrategy::LRU => {
                let data_to_migrate = self.lfu.snapshot();
                let ghost counts = self.lfu.counts();
                let ghost values = self.lfu.values();
                self.lfu.clear();
                let n = data_to_migrate.len();
                proof {
                    assert forall|a: int, b: int| 0 <= a < b < n implies (
                    #[trigger] data_to_migrate@[a]).0 != (#[trigger] data_to_migrate@[b]).0 by {
                        assert(counts[a].0 != counts[b].0);
                    }
                }
                let mut i: usize = 0;
                while i < n
                    invariant
                        n == data_to_migrate@.len(),
                        0 <= i <= n,
                        n <= self.capacity,
                        distinct_keys(data_to_migrate@),
                        self.lfu.limit() == self.capacity,
                        self.lfu.counts() == Seq::<(u64, u64)>::empty(),
                        self.lfu.values() == Map::<u64, u64>::empty(),
                        self.lru.wf(),
                        self.lru.limit() == self.capacity,
                        self.capacity == old(self).capacity,
                        self.hits == old(self).hits,
                        self.misses == old(self).misses,
                        self.lru.entries() == data_to_migrate@.take(i as int),
                    decreases n - i,
                {
                    let key = data_to_migrate[i].0;
                    let value = data_to_migrate[i].1;
                    proof {
                        let prefix = data_to_migrate@.take(i as int);
                        if has_key(prefix, key) {
                            let j = key_index(prefix, key);
                            assert(data_to_migrate@[j].0 != data_to_migrate@[i as int].0);
                        }
                        assert(data_to_migrate@.take(i + 1) =~= prefix.push((key, value)));
                    }
                    let _ = self.lru.touch_or_insert(key, value);
                    i += 1;
                }
                proof {
                    assert(data_to_migrate@.take(n as int) =~= data_to_migrate@);
                    assert(data_to_migrate@ =~= Seq::new(
                        counts.len(),
                        |i: int| (counts[i].0, values[counts[i].0]),
                    ));
                    lemma_empty_store(self.lfu);
                }
                self.strategy = CacheStrategy::LRU;
            },
        }
    }
}

/// An emptied frequency store is sound.
proof fn lemma_empty_store(s: FrequencyStore)
    requires
        s.counts() == Seq::<(u64, u64)>::empty(),
        s.values() == Map::<u64, u64>::empty(),
        s.limit() > 0,
    ensures
        s.wf(),
{
    s.lemma_empty_agrees();
}

/// No key is held by both stores: the one that is not in force is empty.
pub proof fn lemma_one_store(m: CacheModel, k: u64)
    requires
        m.stores_wf(),
    ensures
        !(has_key(m.recency, k) && has_key(m.counts, k)),
        m.strategy == CacheStrategy::LRU ==> m.counts.len() == 0 && m.values == Map::<u64, u64>::empty(),
        m.strategy == CacheStrategy::LFU ==> m.recency.len() == 0,
        m.len() == m.contents().len(),
        m.len() <= m.capacity,
{
    lemma_contents_len(m);
    if m.strategy == CacheStrategy::LRU {
        assert forall|q: u64| !m.values.contains_key(q) by {
            if has_key(m.counts, q) {
                let i = key_index(m.counts, q);
            }
        }
        assert(m.values =~= Map::<u64, u64>::empty());
    }
}

/// A migration keeps every pair: the keys held and their values are the
/// same before and after, and the stores stay sound.
pub proof fn lemma_migrate_keeps_contents(m: CacheModel, to: CacheStrategy)
    requires
        m.stores_wf(),
        to != m.strategy,
    ensures
        m.migrate(to).stores_wf(),
        m.migrate(to).contents() == m.contents(),
        m.migrate(to).len() == m.len(),
{
    let after = m.migrate(to);
    match to {
        CacheStrategy::LFU => {
            assert forall|k: u64| has_key(after.counts, k) <==> has_key(m.recency, k) by {
                if has_key(after.counts, k) {
                    let i = key_index(after.counts, k);
                    assert(m.recency[i].0 == k);
                }
                if has_key(m.recency, k) {
                    let i = key_index(m.recency, k);
                    assert(after.counts[i].0 == k);
                }
            }
            assert forall|a: int, b: int| 0 <= a < b < after.counts.len() implies (
            #[trigger] after.counts[a]).0 != (#[trigger] after.counts[b]).0 by {
                assert(m.recency[a].0 != m.recency[b].0);
            }
            assert(m.counts =~= Seq::<(u64, u64)>::empty());
        },
        CacheStrategy::LRU => {
            assert forall|k: u64| has_key(after.recency, k) <==> has_key(m.counts, k) by {
                if has_key(after.recency, k) {
                    let i = key_index(after.recency, k);
                    assert(m.counts[i].0 == k);
                }
                if has_key(m.counts, k) {
                    let i = key_index(m.counts, k);
                    assert(after.recency[i].0 == k);
                }
            }
            assert forall|a: int, b: int| 0 <= a < b < after.recency.len() implies (
            #[trigger] after.recency[a]).0 != (#[trigger] after.recency[b]).0 by {
                assert(m.counts[a].0 != m.counts[b].0);
            }
            assert forall|k: u64| as_map(after.recency).contains_key(k) implies #[trigger] as_map(
                after.recency,
            )[k] == m.values[k] by {
                let i = key_index(after.recency, k);
                assert(after.recency[i].0 == k);
            }
            assert(as_map(after.recency) =~= m.values);
            assert(m.recency =~= Seq::<(u64, u64)>::empty());
        },
    }
}

/// The check that ends an access keeps every pair, whether or not the
/// discipline changes, and leaves a sound cache with a fresh or unfinished
/// window.
pub proof fn lemma_decide_keeps_contents(m: CacheModel)
    requires
        m.stores_wf(),
        m.hits + m.misses <= DECISION_WINDOW,
    ensures
        m.decide().wf(),
        m.decide().contents() == m.contents(),
        m.decide().len() == m.len(),
{
    if m.hits + m.misses >= DECISION_WINDOW {
        let to = target_strategy(m.hits, m.misses);
        if to != m.strategy {
            lemma_migrate_keeps_contents(m, to);
        }
    }
}

/// At the end of a window the discipline follows the hit rate alone: with
/// more than 60 hits among the 100 accesses the next window is
/// frequency-based, otherwise recency-based, whatever was in force before;
/// and the next window starts with both counters at zero.
pub proof fn lemma_decide_follows_hit_rate(m: CacheModel)
    requires
        m.hits + m.misses == DECISION_WINDOW,
    ensures
        m.decide().strategy == (if m.hits > 60 {
            CacheStrategy::LFU
        } else {
            CacheStrategy::LRU
        }),
        m.decide().hits == 0,
        m.decide().misses == 0,
        m.decide().capacity == m.capacity,
{
}

/// Before the end of a window nothing is decided: the discipline and the
/// stores stay as they are.
pub proof fn lemma_decide_waits(m: CacheModel)
    requires
        m.hits + m.misses < DECISION_WINDOW,
    ensures
        m.decide() == m,
{
}

/// A read changes the order or the counts, never a key or a value.
pub proof fn lemma_touched_keeps_contents(m: CacheModel, k: u64)
    requires
        m.stores_wf(),
    ensures
        m.touched(k).contents() == m.contents(),
{
    match m.strategy {
        CacheStrategy::LRU => {
            if has_key(m.recency, k) {
                let i = key_index(m.recency, k);
                lemma_refresh(m.recency, k, m.recency[i].1);
                assert(as_map(m.recency).insert(k, m.recency[i].1) =~= as_map(m.recency));
            }
        },
        CacheStrategy::LFU => {},
    }
}

/// A write keeps the stores sound: afterwards the store in force holds at
/// most `capacity` pairs, `k` among them with the value `v`, and the other
/// store is still empty.
pub proof fn lemma_stored_keeps_invariant(m: CacheModel, k: u64, v: u64)
    requires
        m.stores_wf(),
    ensures
        m.stored(k, v).stores_wf(),
        m.stored(k, v).lookup(k) == Some(v),
        m.stored(k, v).len() <= m.capacity,
{
    let after = m.stored(k, v);
    match m.strategy {
        CacheStrategy::LRU => {
            let s = m.recency;
            lemma_refresh(s, k, v);
            if !has_key(s, k) {
                if s.len() >= m.capacity {
                    lemma_remove_at(s, 0);
                    assert(s.drop_first() =~= s.remove(0));
                    lemma_push_fresh(s.drop_first(), k, v);
                } else {
                    lemma_push_fresh(s, k, v);
                }
            }
        },
        CacheStrategy::LFU => {
            let s = m.counts;
            if has_key(s, k) {
                let i = key_index(s, k);
                let next = bump(s[i].1);
                lemma_refresh(s, k, next);
                let t = after.counts;
                assert forall|j: int| 0 <= j < t.len() implies (#[trigger] t[j]).1 >= 1 by {
                    if j < t.len() - 1 {
                        assert(t[j] == s[if j < i { j } else { j + 1 }]);
                    }
                }
            } else {
                let room = frequency_room(s, m.capacity);
                let room_values = values_room(s, m.values, m.capacity);
                if s.len() >= m.capacity {
                    lemma_victim_exists(s);
                    let at = victim_index(s);
                    lemma_remove_at(s, at);
                    lemma_key_index_unique(s, at);
                    assert forall|j: int| 0 <= j < room.len() implies (#[trigger] room[j]).1 >= 1 by {
                        assert(room[j] == s[if j < at { j } else { j + 1 }]);
                    }
                }
                assert forall|q: u64| room_values.contains_key(q) <==> has_key(room, q) by {
                    assert(m.values.contains_key(q) <==> has_key(s, q));
                }
                lemma_push_fresh(room, k, 1u64);
                let t = after.counts;
                assert forall|j: int| 0 <= j < t.len() implies (#[trigger] t[j]).1 >= 1 by {
                    if j < room.len() {
                        assert(t[j] == room[j]);
                    }
                }
            }
        },
    }
}

/// A write changes the keys and values at `k` and, where a pair had to
/// leave, at the key of that pair: see [`CacheModel::evicted_by`].
pub proof fn lemma_stored_contents(m: CacheModel, k: u64, v: u64)
    requires
        m.stores_wf(),
    ensures
        m.stored(k, v).contents() == m.contents_after_put(k, v),
{
    match m.strategy {
        CacheStrategy::LRU => {
            let s = m.recency;
            lemma_refresh(s, k, v);
            if !has_key(s, k) {
                if s.len() >= m.capacity {
                    lemma_remove_at(s, 0);
                    assert(s.drop_first() =~= s.remove(0));
                    lemma_push_fresh(s.drop_first(), k, v);
                } else {
                    lemma_push_fresh(s, k, v);
                }
            }
            assert(m.stored(k, v).contents() =~= m.contents_after_put(k, v));
        },
        CacheStrategy::LFU => {
            assert(m.stored(k, v).contents() =~= m.contents_after_put(k, v));
        },
    }
}

/// A read keeps the stores sound.
pub proof fn lemma_touched_keeps_invariant(m: CacheModel, k: u64)
    requires
        m.stores_wf(),
    ensures
        m.touched(k).stores_wf(),
        m.touched(k).len() == m.len(),
{
    let after = m.touched(k);
    match m.strategy {
        CacheStrategy::LRU => {
            let s = m.recency;
            if has_key(s, k) {
                lemma_refresh(s, k, s[key_index(s, k)].1);
            }
        },
        CacheStrategy::LFU => {
            let s = m.counts;
            if has_key(s, k) {
                let i = key_index(s, k);
                let next = bump(s[i].1);
                lemma_refresh(s, k, next);
                let t = after.counts;
                assert forall|j: int| 0 <= j < t.len() implies (#[trigger] t[j]).1 >= 1 by {
                    if j < t.len() - 1 {
                        assert(t[j] == s[if j < i { j } else { j + 1 }]);
                    }
                }
            }
        },
    }
}

/// The capacity invariant: from a sound cache, a `put` leads to a sound
/// cache of the same capacity, whatever the key and the value. So after any
/// sequence of calls the store in force holds at most `capacity` pairs and
/// the other store none.
pub proof fn lemma_put_keeps_invariant(m: CacheModel, k: u64, v: u64)
    requires
        m.wf(),
    ensures
        m.after_put(k, v).wf(),
        m.after_put(k, v).capacity == m.capacity,
        m.after_put(k, v).len() <= m.capacity,
        m.after_put(k, v).lookup(k) == Some(v),
        m.after_put(k, v).contents() == m.contents_after_put(k, v),
{
    lemma_stored_keeps_invariant(m, k, v);
    lemma_stored_contents(m, k, v);
    let counted = m.stored(k, v).record(m.holds(k));
    lemma_decide_keeps_contents(counted);
    assert(counted.contents() == m.stored(k, v).contents());
}

/// A `get` leads from a sound cache to a sound cache that holds the same
/// keys with the same values: reads, however often repeated, change the
/// order and the counts only.
pub proof fn lemma_get_keeps_invariant(m: CacheModel, k: u64)
    requires
        m.wf(),
    ensures
        m.after_get(k).wf(),
        m.after_get(k).capacity == m.capacity,
        m.after_get(k).contents() == m.contents(),
        m.after_get(k).lookup(k) == m.lookup(k),
{
    lemma_touched_keeps_invariant(m, k);
    lemma_touched_keeps_contents(m, k);
    let counted = m.touched(k).record(m.holds(k));
    lemma_decide_keeps_contents(counted);
    assert(counted.contents() == m.touched(k).contents());
}

/// In a sound cache the number of keys held is the length of the store in
/// force.
pub proof fn lemma_contents_len(m: CacheModel)
    requires
        m.stores_wf(),
    ensures
        m.contents().dom().finite(),
        m.contents().len() == m.len(),
{
    match m.strategy {
        CacheStrategy::LRU => {
            lemma_as_map_len(m.recency);
        },
        CacheStrategy::LFU => {
            lemma_as_map_len(m.counts);
            assert(m.values.dom() =~= as_map(m.counts).dom());
        },
    }
}

/// A sequence with distinct keys has as many pairs as its map has keys.
pub proof fn lemma_as_map_len(s: Seq<(u64, u64)>)
    requires
        distinct_keys(s),
    ensures
        as_map(s).dom().finite(),
        as_map(s).dom().len() == s.len(),
    decreases s.len(),
{
    if s.len() == 0 {
        assert(as_map(s).dom() =~= Set::<u64>::empty());
    } else {
        let last = s.len() - 1;
        let t = s.remove(last);
        lemma_remove_at(s, last);
        lemma_key_index_unique(s, last);
        lemma_as_map_len(t);
        assert(as_map(s).dom() =~= as_map(t).dom().insert(s[last].0));
    }
}

} // verus!
