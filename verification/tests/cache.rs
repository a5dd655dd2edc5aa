use computational_fundamentals::frequency::FrequencyStore;
use computational_fundamentals::recency::RecencyStore;
use computational_fundamentals::self_modifying::{CacheError, CacheStrategy, SelfOptimizingCache};

#[test]
fn test_verify_self_modification() {
    let mut cache = SelfOptimizingCache::new(10);
    assert_eq!(*cache.get_strategy(), CacheStrategy::LRU, "Initial strategy should be LRU");

    // Fill the cache
    for i in 0..10 {
        cache.put(i, i);
    }

    // Simulate a workload that favors LFU (high hit rate)
    for _ in 0..100 {
        cache.get(&0);
    }

    assert_eq!(*cache.get_strategy(), CacheStrategy::LFU, "Strategy should adapt to LFU");

    // Simulate a workload that favors LRU (low hit rate)
    for i in 0..100 {
        cache.get(&(i % 20)); // Access a wider range of keys
    }
    assert_eq!(*cache.get_strategy(), CacheStrategy::LRU, "Strategy should adapt back to LRU");
}

/// Brings an empty cache to the frequency discipline with one window of
/// one miss and 99 hits on `key`.
fn warm_to_lfu(cache: &mut SelfOptimizingCache, key: u64, value: u64) {
    cache.put(key, value);
    for _ in 0..99 {
        assert_eq!(cache.get(&key), Some(value));
    }
    assert_eq!(*cache.get_strategy(), CacheStrategy::LFU);
}

#[test]
fn zero_capacity_is_refused() {
    assert!(matches!(SelfOptimizingCache::try_new(0), Err(CacheError::ZeroCapacity)));
}

#[test]
fn positive_capacity_is_accepted() {
    let mut cache = match SelfOptimizingCache::try_new(1) {
        Ok(cache) => cache,
        Err(_) => panic!("a capacity of one is valid"),
    };
    assert_eq!(*cache.get_strategy(), CacheStrategy::LRU);
    assert_eq!(cache.len(), 0);
    assert_eq!(cache.get(&7), None);
}

#[test]
fn get_of_missing_key_is_none() {
    let mut cache = SelfOptimizingCache::new(3);
    assert_eq!(cache.get(&1), None);
    cache.put(1, 11);
    assert_eq!(cache.get(&1), Some(11));
    assert_eq!(cache.get(&2), None);
}

#[test]
fn put_overwrites() {
    let mut cache = SelfOptimizingCache::new(2);
    cache.put(1, 10);
    cache.put(1, 20);
    assert_eq!(cache.len(), 1);
    assert_eq!(cache.get(&1), Some(20));
}

#[test]
fn size_never_exceeds_capacity() {
    let mut cache = SelfOptimizingCache::new(4);
    for i in 0..500u64 {
        cache.put(i % 37, i);
        assert!(cache.len() <= 4);
        if i % 3 == 0 {
            cache.get(&(i % 5));
            assert!(cache.len() <= 4);
        }
    }
    assert_eq!(cache.len(), 4);
}

#[test]
fn lru_evicts_least_recently_used() {
    let mut cache = SelfOptimizingCache::new(2);
    cache.put(1, 1);
    cache.put(2, 2);
    assert_eq!(cache.get(&1), Some(1));
    cache.put(3, 3);
    assert_eq!(cache.len(), 2);
    assert_eq!(cache.get(&2), None);
    assert_eq!(cache.get(&1), Some(1));
    assert_eq!(cache.get(&3), Some(3));
}

#[test]
fn lru_overwrite_of_held_key_evicts_nothing() {
    let mut cache = SelfOptimizingCache::new(2);
    cache.put(1, 1);
    cache.put(2, 2);
    cache.put(1, 100);
    assert_eq!(cache.len(), 2);
    cache.put(3, 3);
    assert_eq!(cache.get(&2), None);
    assert_eq!(cache.get(&1), Some(100));
    assert_eq!(cache.get(&3), Some(3));
}

#[test]
fn lfu_evicts_lowest_frequency() {
    let mut cache = SelfOptimizingCache::new(2);
    warm_to_lfu(&mut cache, 9, 9);
    cache.put(1, 1);
    cache.put(2, 2);
    // the pair migrated first was the oldest of the first bucket
    assert_eq!(cache.len(), 2);
    for _ in 0..3 {
        assert_eq!(cache.get(&1), Some(1));
    }
    cache.put(3, 3);
    assert_eq!(*cache.get_strategy(), CacheStrategy::LFU);
    assert_eq!(cache.len(), 2);
    assert_eq!(cache.get(&2), None);
    assert_eq!(cache.get(&9), None);
    assert_eq!(cache.get(&1), Some(1));
    assert_eq!(cache.get(&3), Some(3));
}

#[test]
fn adaptation_follows_hit_rate() {
    let mut cache = SelfOptimizingCache::new(10);
    cache.put(0, 0);
    for _ in 0..29 {
        assert_eq!(cache.get(&1000), None);
    }
    for _ in 0..69 {
        assert_eq!(cache.get(&0), Some(0));
    }
    assert_eq!(*cache.get_strategy(), CacheStrategy::LRU);
    assert_eq!(cache.get(&0), Some(0));
    // 70 hits, 30 misses
    assert_eq!(*cache.get_strategy(), CacheStrategy::LFU);
    for _ in 0..20 {
        assert_eq!(cache.get(&0), Some(0));
    }
    for _ in 0..79 {
        assert_eq!(cache.get(&1000), None);
    }
    assert_eq!(*cache.get_strategy(), CacheStrategy::LFU);
    assert_eq!(cache.get(&1000), None);
    // 20 hits, 80 misses
    assert_eq!(*cache.get_strategy(), CacheStrategy::LRU);
}

#[test]
fn hit_rate_of_exactly_three_fifths_keeps_lru() {
    let mut cache = SelfOptimizingCache::new(10);
    cache.put(0, 0);
    for _ in 0..39 {
        cache.get(&1000);
    }
    for _ in 0..60 {
        cache.get(&0);
    }
    // the window closed with 60 hits and 40 misses
    assert_eq!(*cache.get_strategy(), CacheStrategy::LRU);
    // the next window: 61 hits and 39 misses
    for _ in 0..39 {
        cache.get(&1000);
    }
    for _ in 0..61 {
        cache.get(&0);
    }
    assert_eq!(*cache.get_strategy(), CacheStrategy::LFU);
}

#[test]
fn discipline_can_flap_every_window() {
    let mut cache = SelfOptimizingCache::new(10);
    cache.put(0, 0);
    for _ in 0..99 {
        cache.get(&0);
    }
    assert_eq!(*cache.get_strategy(), CacheStrategy::LFU);
    for round in 0..4 {
        for _ in 0..100 {
            cache.get(&1000);
        }
        assert_eq!(*cache.get_strategy(), CacheStrategy::LRU, "round {}", round);
        for _ in 0..100 {
            cache.get(&0);
        }
        assert_eq!(*cache.get_strategy(), CacheStrategy::LFU, "round {}", round);
    }
    assert_eq!(cache.get(&0), Some(0));
}

#[test]
fn puts_count_as_accesses() {
    let mut cache = SelfOptimizingCache::new(10);
    cache.put(0, 0);
    // 99 overwrites of a held key are 99 hits
    for i in 0..99 {
        cache.put(0, i);
    }
    assert_eq!(*cache.get_strategy(), CacheStrategy::LFU);
    assert_eq!(cache.get(&0), Some(98));
}

#[test]
fn migration_keeps_every_pair() {
    let mut cache = SelfOptimizingCache::new(5);
    for i in 0..5u64 {
        cache.put(i, i * 10);
    }
    for _ in 0..95 {
        cache.get(&0);
    }
    assert_eq!(*cache.get_strategy(), CacheStrategy::LFU);
    assert_eq!(cache.len(), 5);
    for i in 0..5u64 {
        assert_eq!(cache.get(&i), Some(i * 10));
    }
    // 5 hits so far in this window; 95 misses bring the recency store back
    for _ in 0..95 {
        cache.get(&1000);
    }
    assert_eq!(*cache.get_strategy(), CacheStrategy::LRU);
    assert_eq!(cache.len(), 5);
    for i in 0..5u64 {
        assert_eq!(cache.get(&i), Some(i * 10));
    }
}

#[test]
fn migration_to_lru_orders_by_bucket_entry() {
    let mut cache = SelfOptimizingCache::new(3);
    warm_to_lfu(&mut cache, 1, 1);
    cache.put(2, 2);
    cache.put(3, 3);
    // key 1 is read again: it is now the pair that entered its bucket last
    assert_eq!(cache.get(&1), Some(1));
    // 1 hit and 2 misses so far; 97 misses close the window
    for _ in 0..97 {
        cache.get(&1000);
    }
    assert_eq!(*cache.get_strategy(), CacheStrategy::LRU);
    // recency order is now 2, 3, 1: a new key evicts 2
    cache.put(4, 4);
    assert_eq!(cache.get(&2), None);
    assert_eq!(cache.get(&3), Some(3));
    assert_eq!(cache.get(&1), Some(1));
    assert_eq!(cache.get(&4), Some(4));
}

#[test]
fn repeated_reads_return_the_same_value() {
    let mut cache = SelfOptimizingCache::new(3);
    cache.put(5, 55);
    cache.put(6, 66);
    for _ in 0..250 {
        assert_eq!(cache.get(&5), Some(55));
    }
    assert_eq!(cache.get(&6), Some(66));
    assert_eq!(cache.len(), 2);
}

#[test]
fn recency_store_orders_by_last_touch() {
    let mut store = RecencyStore::new(3);
    assert!(!store.touch_or_insert(1, 10));
    assert!(!store.touch_or_insert(2, 20));
    assert!(!store.touch_or_insert(3, 30));
    assert_eq!(store.snapshot(), vec![(1, 10), (2, 20), (3, 30)]);
    assert_eq!(store.read(1), Some(10));
    assert_eq!(store.snapshot(), vec![(2, 20), (3, 30), (1, 10)]);
    assert!(store.touch_or_insert(3, 33));
    assert_eq!(store.snapshot(), vec![(2, 20), (1, 10), (3, 33)]);
    assert!(!store.touch_or_insert(4, 40));
    assert_eq!(store.snapshot(), vec![(1, 10), (3, 33), (4, 40)]);
    assert_eq!(store.read(2), None);
    assert_eq!(store.snapshot(), vec![(1, 10), (3, 33), (4, 40)]);
    assert_eq!(store.len(), 3);
}

#[test]
fn recency_store_evicts_from_the_front() {
    let mut store = RecencyStore::new(2);
    assert_eq!(store.evict_one(), None);
    store.touch_or_insert(1, 10);
    store.touch_or_insert(2, 20);
    assert_eq!(store.evict_one(), Some((1, 10)));
    assert_eq!(store.snapshot(), vec![(2, 20)]);
    store.clear();
    assert_eq!(store.len(), 0);
    assert_eq!(store.snapshot(), vec![]);
}

#[test]
fn frequency_store_breaks_ties_by_oldest() {
    let mut store = FrequencyStore::new(3);
    store.insert_new(1, 10);
    store.insert_new(2, 20);
    store.insert_new(3, 30);
    assert_eq!(store.snapshot(), vec![(1, 10), (2, 20), (3, 30)]);
    // all three have count one: the oldest leaves
    store.insert_new(4, 40);
    assert_eq!(store.snapshot(), vec![(2, 20), (3, 30), (4, 40)]);
    assert_eq!(store.read(2), Some(20));
    assert_eq!(store.read(3), Some(30));
    assert_eq!(store.read(2), Some(20));
    // counts: 4 -> 1, 3 -> 2, 2 -> 3
    assert_eq!(store.snapshot(), vec![(4, 40), (3, 30), (2, 20)]);
    assert_eq!(store.evict_one(), Some((4, 40)));
    assert_eq!(store.evict_one(), Some((3, 30)));
    assert_eq!(store.evict_one(), Some((2, 20)));
    assert_eq!(store.evict_one(), None);
    assert_eq!(store.len(), 0);
}

#[test]
fn frequency_store_evicts_lowest_count_wherever_it_stands() {
    let mut store = FrequencyStore::new(2);
    store.insert_new(1, 10);
    assert_eq!(store.read(1), Some(10));
    // key 1 has count two and entered its bucket before key 2 was stored
    store.insert_new(2, 20);
    store.insert_new(3, 30);
    assert_eq!(store.read(2), None);
    assert_eq!(store.read(1), Some(10));
    assert_eq!(store.read(3), Some(30));
}

#[test]
fn frequency_store_update_counts_and_overwrites() {
    let mut store = FrequencyStore::new(2);
    assert!(!store.update(1, 10));
    assert_eq!(store.len(), 0);
    store.insert_new(1, 10);
    store.insert_new(2, 20);
    assert!(store.update(1, 11));
    assert_eq!(store.snapshot(), vec![(2, 20), (1, 11)]);
    store.insert_new(3, 30);
    assert_eq!(store.snapshot(), vec![(1, 11), (3, 30)]);
    store.clear();
    assert_eq!(store.snapshot(), vec![]);
    assert_eq!(store.read(1), None);
}

#[test]
fn frequency_store_keeps_the_often_read_key() {
    let mut store = FrequencyStore::new(2);
    store.insert_new(1, 1);
    store.insert_new(2, 2);
    for _ in 0..3 {
        assert_eq!(store.read(1), Some(1));
    }
    store.insert_new(3, 3);
    assert_eq!(store.snapshot(), vec![(1, 1), (3, 3)]);
    assert_eq!(store.read(2), None);
}

#[test]
fn stores_never_share_a_key() {
    let mut cache = SelfOptimizingCache::new(3);
    cache.put(1, 1);
    cache.put(2, 2);
    cache.put(3, 3);
    for _ in 0..97 {
        cache.get(&1);
    }
    assert_eq!(*cache.get_strategy(), CacheStrategy::LFU);
    // every key is held once: three pairs, and a fourth evicts one of them
    assert_eq!(cache.len(), 3);
    cache.put(4, 4);
    assert_eq!(cache.len(), 3);
    let held = (1..=4u64).filter(|k| cache.get(k).is_some()).count();
    assert_eq!(held, 3);
}
