//! Sequences of `(key, payload)` pairs in which a key occurs at most once.
//!
//! Both stores of the adaptive cache are described by such sequences: the
//! position of a pair is its place in the eviction order.

use vstd::prelude::*;

verus! {

/// Some pair of `s` carries the key `k`.
pub open spec fn has_key(s: Seq<(u64, u64)>, k: u64) -> bool {
    exists|i: int| 0 <= i < s.len() && (#[trigger] s[i]).0 == k
}

/// A position at which `s` carries the key `k`, where there is one.
pub open spec fn key_index(s: Seq<(u64, u64)>, k: u64) -> int {
    choose|i: int| 0 <= i < s.len() && (#[trigger] s[i]).0 == k
}

/// The payload stored under `k`, if any.
pub open spec fn payload_of(s: Seq<(u64, u64)>, k: u64) -> Option<u64> {
    if has_key(s, k) {
        Some(s[key_index(s, k)].1)
    } else {
        None
    }
}

/// `s` with the pair under `k` taken out, the others keeping their order.
pub open spec fn without_key(s: Seq<(u64, u64)>, k: u64) -> Seq<(u64, u64)> {
    if has_key(s, k) {
        s.remove(key_index(s, k))
    } else {
        s
    }
}

/// No key occurs at two positions.
pub open spec fn distinct_keys(s: Seq<(u64, u64)>) -> bool {
    forall|i: int, j: int| 0 <= i < j < s.len() ==> (#[trigger] s[i]).0 != (#[trigger] s[j]).0
}

/// The finite map from each key of `s` to its payload.
pub open spec fn as_map(s: Seq<(u64, u64)>) -> Map<u64, u64> {
    Map::new(|k: u64| has_key(s, k), |k: u64| s[key_index(s, k)].1)
}

/// In a sequence with distinct keys the position of a key is unique.
pub proof fn lemma_key_index_unique(s: Seq<(u64, u64)>, i: int)
    requires
        distinct_keys(s),
        0 <= i < s.len(),
    ensures
        has_key(s, s[i].0),
        key_index(s, s[i].0) == i,
{
    let k = s[i].0;
    assert(has_key(s, k));
    let j = key_index(s, k);
    assert(0 <= j < s.len() && s[j].0 == k);
    if j < i {
        assert(s[j].0 != s[i].0);
    } else if i < j {
        assert(s[i].0 != s[j].0);
    }
}

/// Appending a pair under a fresh key keeps the keys distinct and extends the map.
pub proof fn lemma_push_fresh(s: Seq<(u64, u64)>, k: u64, v: u64)
    requires
        distinct_keys(s),
        !has_key(s, k),
    ensures
        distinct_keys(s.push((k, v))),
        has_key(s.push((k, v)), k),
        key_index(s.push((k, v)), k) == s.len(),
        forall|q: u64| has_key(s.push((k, v)), q) <==> (q == k || has_key(s, q)),
        forall|q: u64| q != k ==> payload_of(s.push((k, v)), q) == payload_of(s, q),
        as_map(s.push((k, v))) =~= as_map(s).insert(k, v),
{
    let t = s.push((k, v));
    assert forall|i: int, j: int| 0 <= i < j < t.len() implies (#[trigger] t[i]).0 != (#[trigger] t[j]).0 by {
        if j == s.len() {
            assert(s[i].0 != k);
        } else {
            assert(s[i].0 != s[j].0);
        }
    }
    assert(t[s.len() as int].0 == k);
    lemma_key_index_unique(t, s.len() as int);
    assert forall|q: u64| has_key(t, q) <==> (q == k || has_key(s, q)) by {
        if has_key(t, q) {
            let i = key_index(t, q);
            if i < s.len() {
                assert(s[i].0 == q);
            }
        }
        if has_key(s, q) {
            let i = key_index(s, q);
            assert(t[i].0 == q);
        }
    }
    assert forall|q: u64| q != k implies payload_of(t, q) == payload_of(s, q) by {
        if has_key(s, q) {
            let i = key_index(s, q);
            assert(t[i] == s[i]);
            lemma_key_index_unique(t, i);
        }
    }
    assert forall|q: u64| as_map(t).dom().contains(q) implies #[trigger] as_map(t)[q] == as_map(s).insert(k, v)[q] by {
        if q != k {
            assert(payload_of(t, q) == payload_of(s, q));
        }
    }
}

/// Taking a pair out keeps the keys distinct and removes its key from the map.
pub proof fn lemma_remove_at(s: Seq<(u64, u64)>, i: int)
    requires
        distinct_keys(s),
        0 <= i < s.len(),
    ensures
        distinct_keys(s.remove(i)),
        !has_key(s.remove(i), s[i].0),
        forall|q: u64| has_key(s.remove(i), q) <==> (q != s[i].0 && has_key(s, q)),
        forall|q: u64| q != s[i].0 ==> payload_of(s.remove(i), q) == payload_of(s, q),
        as_map(s.remove(i)) =~= as_map(s).remove(s[i].0),
{
    let t = s.remove(i);
    let k = s[i].0;
    assert forall|a: int| 0 <= a < t.len() implies (#[trigger] t[a]) == s[if a < i { a } else { a + 1 }] by {}
    assert forall|a: int, b: int| 0 <= a < b < t.len() implies (#[trigger] t[a]).0 != (#[trigger] t[b]).0 by {
        let a2 = if a < i { a } else { a + 1 };
        let b2 = if b < i { b } else { b + 1 };
        assert(s[a2].0 != s[b2].0);
    }
    assert forall|q: u64| has_key(t, q) <==> (q != k && has_key(s, q)) by {
        if has_key(t, q) {
            let a = key_index(t, q);
            let a2 = if a < i { a } else { a + 1 };
            assert(s[a2].0 == q);
            if a2 < i {
                assert(s[a2].0 != s[i].0);
            } else {
                assert(s[i].0 != s[a2].0);
            }
        }
        if q != k && has_key(s, q) {
            let a = key_index(s, q);
            let a1 = if a < i { a } else { a - 1 };
            assert(t[a1] == s[a]);
        }
    }
    assert forall|q: u64| q != k implies payload_of(t, q) == payload_of(s, q) by {
        if has_key(t, q) {
            let a = key_index(t, q);
            let a2 = if a < i { a } else { a + 1 };
            assert(s[a2] == t[a]);
            lemma_key_index_unique(s, a2);
        }
    }
    assert forall|q: u64| as_map(t).dom().contains(q) implies #[trigger] as_map(t)[q] == as_map(s).remove(k)[q] by {
        assert(payload_of(t, q) == payload_of(s, q));
    }
}

/// Moving the pair under `k` to the end, with a new payload, keeps the keys
/// distinct and changes the map at `k` only.
pub proof fn lemma_refresh(s: Seq<(u64, u64)>, k: u64, v: u64)
    requires
        distinct_keys(s),
    ensures
        distinct_keys(without_key(s, k)),
        !has_key(without_key(s, k), k),
        distinct_keys(without_key(s, k).push((k, v))),
        as_map(without_key(s, k).push((k, v))) =~= as_map(s).insert(k, v),
        without_key(s, k).push((k, v)).len() == if has_key(s, k) { s.len() } else { s.len() + 1 },
        forall|q: u64| has_key(without_key(s, k).push((k, v)), q) <==> (q == k || has_key(s, q)),
        forall|q: u64| q != k ==> payload_of(without_key(s, k).push((k, v)), q) == payload_of(s, q),
        payload_of(without_key(s, k).push((k, v)), k) == Some(v),
{
    if has_key(s, k) {
        let i = key_index(s, k);
        lemma_remove_at(s, i);
    }
    lemma_push_fresh(without_key(s, k), k, v);
}

} // verus!
