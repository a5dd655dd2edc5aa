use computational_fundamentals::adversarial_first::SecureHashMap;

#[test]
fn test_verify_adversarial_resistance() {
    let mut map = SecureHashMap::new();
    for i in 0..20 {
        map.set(&format!("user{}", i), &format!("data{}", i));
    }

    for i in 0..100 {
        map.set(&format!("attack_payload_{}", i), &format!("malicious_{}", i));
    }
    // The test passes if it doesn't panic or enter an infinite loop,
    // which is a basic check for the collision resistance mechanism.
}

#[test]
fn every_pair_survives_rehashing() {
    let mut map = SecureHashMap::new();
    for i in 0..400 {
        map.set(&format!("key{}", i), &format!("value{}", i));
    }
    for i in 0..400 {
        assert_eq!(map.get(&format!("key{}", i)), Some(&format!("value{}", i)));
    }
    assert_eq!(map.get("key400"), None);
}

#[test]
fn set_overwrites() {
    let mut map = SecureHashMap::new();
    assert_eq!(map.get("a"), None);
    map.set("a", "1");
    map.set("b", "2");
    map.set("a", "3");
    assert_eq!(map.get("a"), Some(&"3".to_string()));
    assert_eq!(map.get("b"), Some(&"2".to_string()));
    assert_eq!(map.get(""), None);
    map.set("", "empty");
    assert_eq!(map.get(""), Some(&"empty".to_string()));
}

#[test]
fn hash_stays_within_the_slots() {
    let map = SecureHashMap::default();
    for i in 0..200 {
        let key = format!("k\u{e9}y{}", i);
        let slot = map.hash(&key);
        assert!(slot < 16);
        assert_eq!(slot, map.hash(&key));
    }
}

fn mix(v: u64, m: u64, k: u64) -> u64 {
    ((v.wrapping_add(m) ^ k).rotate_left(13)).wrapping_add(k)
}

#[test]
fn hash_follows_the_seeds() {
    let map = SecureHashMap::with_seeds(5, 7);
    assert_eq!(map.hash(""), 5);
    // (5 + 97) ^ 7 = 97; 97 << 13 = 794624; 794624 + 7 = 794631
    assert_eq!(map.hash("a"), 7);
    let mut h = 5u64;
    for c in "na\u{ef}ve \u{1f980}".chars() {
        h = mix(h, c as u64, 7);
    }
    assert_eq!(map.hash("na\u{ef}ve \u{1f980}"), (h % 16) as usize);
    let wrapped = SecureHashMap::with_seeds(u64::MAX, u64::MAX);
    assert_eq!(wrapped.hash("z"), (mix(u64::MAX, 122, u64::MAX) % 16) as usize);
}

#[test]
fn long_chain_keeps_its_pairs() {
    // with both seeds zero, a key of one character `c` stands in the slot
    // of `(c << 13) % 16`, which is slot zero
    let mut map = SecureHashMap::with_seeds(0, 0);
    let keys: Vec<String> = ('a'..='z').map(|c| c.to_string()).collect();
    for key in &keys {
        assert_eq!(map.hash(key), 0);
    }
    for (i, key) in keys.iter().enumerate() {
        map.set(key, &i.to_string());
    }
    for (i, key) in keys.iter().enumerate() {
        assert_eq!(map.get(key), Some(&i.to_string()));
    }
}
