//! A string-to-string hash map that keys its hash function with two random
//! seeds and draws new seeds when chains grow long, so that keys chosen to
//! collide under one pair of seeds are spread again under the next.

use rand::{thread_rng, Rng};
use vstd::prelude::*;

verus! {

broadcast use vstd::string::group_string_axioms;

/// The chain length from which a write counts as having met a long chain.
pub const MAX_CHAIN_LENGTH: usize = 8;

/// The number of long chains met after which new seeds are drawn.
pub const COLLISION_THRESHOLD: u32 = 3;

/// The map as stored: one chain of `(key, value)` pairs per slot.
pub type Table = Seq<Seq<(Seq<char>, Seq<char>)>>;

/// One mixing step: add the message word, xor the key, rotate left by 13
/// bits, add the key; additions wrap.
pub open spec fn sip_round_spec(v: u64, m: u64, k: u64) -> u64 {
    let a = ((v + m) % 0x1_0000_0000_0000_0000) as u64 ^ k;
    let r = (a << 13) | (a >> 51);
    ((r + k) % 0x1_0000_0000_0000_0000) as u64
}

/// The state after mixing in every character of `key`, starting from `h`.
pub open spec fn absorb(h: u64, key: Seq<char>, k: u64) -> u64
    decreases key.len(),
{
    if key.len() == 0 {
        h
    } else {
        sip_round_spec(absorb(h, key.drop_last(), k), key.last() as u64, k)
    }
}

/// The slot of `key` among `slots` slots under the seeds `seed1`, `seed2`.
pub open spec fn slot_of(seed1: u64, seed2: u64, key: Seq<char>, slots: nat) -> int {
    absorb(seed1, key, seed2) as int % slots as int
}

/// Some chain holds the pair `(k, v)`.
pub open spec fn stored(t: Table, k: Seq<char>, v: Seq<char>) -> bool {
    exists|a: int, b: int| 0 <= a < t.len() && 0 <= b < t[a].len() && #[trigger] t[a][b] == (k, v)
}

/// Every pair stands in the chain of its key's slot.
pub open spec fn placed(t: Table, seed1: u64, seed2: u64) -> bool {
    forall|a: int, b: int|
        0 <= a < t.len() && 0 <= b < t[a].len() ==> slot_of(
            seed1,
            seed2,
            (#[trigger] t[a][b]).0,
            t.len(),
        ) == a
}

/// No chain holds a key twice.
pub open spec fn unique(t: Table) -> bool {
    forall|a: int, b: int, c: int|
        0 <= a < t.len() && 0 <= b < c < t[a].len() ==> (#[trigger] t[a][b]).0 != (
        #[trigger] t[a][c]).0
}

/// The map that a table stands for.
pub open spec fn contents(t: Table) -> Map<Seq<char>, Seq<char>> {
    Map::new(
        |k: Seq<char>| exists|v: Seq<char>| stored(t, k, v),
        |k: Seq<char>| choose|v: Seq<char>| stored(t, k, v),
    )
}

/// The pairs stored before position `(a, b)`, chains taken in order.
pub open spec fn stored_before(t: Table, a: int, b: int, k: Seq<char>, v: Seq<char>) -> bool {
    exists|x: int, y: int|
        0 <= x < t.len() && 0 <= y < t[x].len() && (x < a || (x == a && y < b)) && #[trigger] t[x][y]
            == (k, v)
}

/// The table held by a vector of chains.
pub open spec fn table_of(buckets: Seq<Vec<(String, String)>>) -> Table {
    Seq::new(
        buckets.len(),
        |a: int| Seq::new(buckets[a]@.len(), |b: int| (buckets[a]@[b].0@, buckets[a]@[b].1@)),
    )
}

/// In a table that is placed and without repeated keys, a key has one value.
pub proof fn lemma_one_value(t: Table, seed1: u64, seed2: u64)
    requires
        placed(t, seed1, seed2),
        unique(t),
    ensures
        forall|k: Seq<char>, v: Seq<char>, w: Seq<char>| stored(t, k, v) && stored(t, k, w) ==> v == w,
        forall|k: Seq<char>, v: Seq<char>|
            stored(t, k, v) <==> (contents(t).contains_key(k) && contents(t)[k] == v),
{
    assert forall|k: Seq<char>, v: Seq<char>, w: Seq<char>| stored(t, k, v) && stored(t, k, w) implies v
        == w by {
        let (a, b) = choose|a: int, b: int|
            0 <= a < t.len() && 0 <= b < t[a].len() && #[trigger] t[a][b] == (k, v);
        let (c, d) = choose|c: int, d: int|
            0 <= c < t.len() && 0 <= d < t[c].len() && #[trigger] t[c][d] == (k, w);
        assert(slot_of(seed1, seed2, t[a][b].0, t.len()) == a);
        assert(slot_of(seed1, seed2, t[c][d].0, t.len()) == c);
        if b < d {
            assert(t[a][b].0 != t[a][d].0);
        } else if d < b {
            assert(t[a][d].0 != t[a][b].0);
        }
    }
    assert forall|k: Seq<char>, v: Seq<char>|
        stored(t, k, v) <==> (contents(t).contains_key(k) && contents(t)[k] == v) by {
        if stored(t, k, v) {
            let w = choose|w: Seq<char>| stored(t, k, w);
            assert(stored(t, k, w));
        }
    }
}

/// A table whose pairs are exactly those of a map stands for that map.
pub proof fn lemma_contents_are(t: Table, m: Map<Seq<char>, Seq<char>>)
    requires
        forall|k: Seq<char>, v: Seq<char>| stored(t, k, v) <==> (m.contains_key(k) && m[k] == v),
    ensures
        contents(t) == m,
{
    assert forall|k: Seq<char>| contents(t).contains_key(k) <==> m.contains_key(k) by {
        if contents(t).contains_key(k) {
            let v = choose|v: Seq<char>| stored(t, k, v);
            assert(stored(t, k, v));
        }
        if m.contains_key(k) {
            assert(stored(t, k, m[k]));
        }
    }
    assert forall|k: Seq<char>| contents(t).contains_key(k) implies #[trigger] contents(t)[k] == m[k] by {
        let v = choose|v: Seq<char>| stored(t, k, v);
        assert(stored(t, k, v));
    }
    assert(contents(t) =~= m);
}

/// Appending a pair to a chain adds that pair and no other.
pub proof fn lemma_append(t: Table, idx: int, k: Seq<char>, v: Seq<char>)
    requires
        0 <= idx < t.len(),
    ensures
        forall|q: Seq<char>, w: Seq<char>|
            stored(t.update(idx, t[idx].push((k, v))), q, w) <==> (stored(t, q, w) || (q == k && w
                == v)),
{
    let u = t.update(idx, t[idx].push((k, v)));
    assert forall|q: Seq<char>, w: Seq<char>|
        stored(u, q, w) <==> (stored(t, q, w) || (q == k && w == v)) by {
        if stored(u, q, w) {
            let (a, b) = choose|a: int, b: int|
                0 <= a < u.len() && 0 <= b < u[a].len() && #[trigger] u[a][b] == (q, w);
            if a == idx && b == t[idx].len() {
            } else {
                assert(t[a][b] == (q, w));
            }
        }
        if stored(t, q, w) {
            let (a, b) = choose|a: int, b: int|
                0 <= a < t.len() && 0 <= b < t[a].len() && #[trigger] t[a][b] == (q, w);
            assert(u[a][b] == (q, w));
        }
        if q == k && w == v {
            assert(u[idx][t[idx].len() as int] == (q, w));
        }
    }
}

/// Draws a seed from the thread-local generator of `rand` (`Rng::gen`).
/// Nothing is promised of the value.
#[verifier::external_body]
fn random_seed() -> u64 {
    thread_rng().gen()
}

/// One mixing step.
fn sip_round(v: u64, m: u64, k: u64) -> (r: u64)
    ensures
        r == sip_round_spec(v, m, k),
{
    let a: u64 = v.wrapping_add(m) ^ k;
    let r: u64 = (a << 13) | (a >> 51);
    r.wrapping_add(k)
}

/// The slot of `key` under the given seeds.
fn slot(seed1: u64, seed2: u64, key: &str, capacity: usize) -> (idx: usize)
    requires
        capacity > 0,
    ensures
        idx == slot_of(seed1, seed2, key@, capacity as nat),
        idx < capacity,
{
    let mut h: u64 = seed1;
    for c in it: key.chars()
        invariant
            it.seq() == key@,
            h == absorb(seed1, key@.take(it.index() as int), seed2),
    {
        proof {
            assert(key@.take(it.index() + 1).drop_last() =~= key@.take(it.index() as int));
        }
        h = sip_round(h, c as u64, seed2);
    }
    assert(key@.take(key@.len() as int) =~= key@);
    (h % capacity as u64) as usize
}

/// `count` empty chains.
fn empty_buckets(count: usize) -> (buckets: Vec<Vec<(String, String)>>)
    ensures
        buckets@.len() == count,
        forall|a: int| 0 <= a < count ==> (#[trigger] buckets@[a])@.len() == 0,
{
    let mut buckets: Vec<Vec<(String, String)>> = Vec::new();
    let mut a: usize = 0;
    while a < count
        invariant
            a <= count,
            buckets@.len() == a,
            forall|x: int| 0 <= x < a ==> (#[trigger] buckets@[x])@.len() == 0,
        decreases count - a,
    {
        buckets.push(Vec::new());
        a += 1;
    }
    buckets
}

/// A hash map from strings to strings with seeded hashing.
pub struct SecureHashMap {
    capacity: usize,
    seed1: u64,
    seed2: u64,
    buckets: Vec<Vec<(String, String)>>,
    max_chain_length: usize,
    collision_threshold: u32,
    collision_count: u32,
    rehash_count: u32,
}

impl View for SecureHashMap {
    type V = Map<Seq<char>, Seq<char>>;

    closed spec fn view(&self) -> Map<Seq<char>, Seq<char>> {
        contents(table_of(self.buckets@))
    }
}

impl SecureHashMap {
    /// The seeds in use.
    pub closed spec fn seeds(&self) -> (u64, u64) {
        (self.seed1, self.seed2)
    }

    /// The number of slots.
    pub closed spec fn slots(&self) -> nat {
        self.capacity as nat
    }

    /// The number of pairs in the chain of `slot`.
    pub closed spec fn chain_len(&self, slot: int) -> nat {
        self.buckets@[slot]@.len()
    }

    /// The long chains met by writes since the seeds were drawn.
    pub closed spec fn long_chains(&self) -> nat {
        self.collision_count as nat
    }

    /// How often new seeds were drawn; the count stops at the largest `u32`.
    pub closed spec fn rehashes(&self) -> nat {
        self.rehash_count as nat
    }

    /// What a write of `key` into `before` does to the seeds and the
    /// counters. The write meets a long chain when the chain of the key's
    /// slot holds `MAX_CHAIN_LENGTH` pairs or more. The long chain that
    /// brings the count to `COLLISION_THRESHOLD` has new seeds drawn and the
    /// count start again; otherwise the seeds stay.
    pub open spec fn kept_books(&self, before: &Self, key: Seq<char>) -> bool {
        let slot = slot_of(before.seeds().0, before.seeds().1, key, before.slots());
        let crowded = before.chain_len(slot) >= MAX_CHAIN_LENGTH;
        let redraw = crowded && before.long_chains() + 1 >= COLLISION_THRESHOLD;
        &&& !redraw ==> self.seeds() == before.seeds()
        &&& self.long_chains() == if redraw {
            0
        } else if crowded {
            before.long_chains() + 1
        } else {
            before.long_chains()
        }
        &&& self.rehashes() == if redraw && before.rehashes() < u32::MAX {
            before.rehashes() + 1
        } else {
            before.rehashes()
        }
    }

    /// Every pair stands once, in the chain of its key's slot.
    pub closed spec fn table_wf(&self) -> bool {
        &&& self.capacity > 0
        &&& self.buckets@.len() == self.capacity
        &&& placed(table_of(self.buckets@), self.seed1, self.seed2)
        &&& unique(table_of(self.buckets@))
        &&& self.max_chain_length == MAX_CHAIN_LENGTH
        &&& self.collision_threshold == COLLISION_THRESHOLD
    }

    /// The table is sound and fewer long chains were met than it takes to
    /// draw new seeds.
    pub closed spec fn wf(&self) -> bool {
        &&& self.table_wf()
        &&& self.collision_count < self.collision_threshold
    }

    /// An empty map with sixteen slots and fresh seeds.
    pub fn new() -> (map: Self)
        ensures
            map.wf(),
            map.slots() == 16,
            map.long_chains() == 0,
            map.rehashes() == 0,
            map@ == Map::<Seq<char>, Seq<char>>::empty(),
    {
        let seed1 = random_seed();
        let seed2 = random_seed();
        Self::with_seeds(seed1, seed2)
    }

    /// An empty map with sixteen slots and the given seeds, for callers who
    /// need to know in which slot a key will stand.
    pub fn with_seeds(seed1: u64, seed2: u64) -> (map: Self)
        ensures
            map.wf(),
            map.slots() == 16,
            map.seeds() == (seed1, seed2),
            map.long_chains() == 0,
            map.rehashes() == 0,
            map@ == Map::<Seq<char>, Seq<char>>::empty(),
    {
        let map = SecureHashMap {
            capacity: 16,
            seed1,
            seed2,
            buckets: empty_buckets(16),
            max_chain_length: MAX_CHAIN_LENGTH,
            collision_threshold: COLLISION_THRESHOLD,
            collision_count: 0,
            rehash_count: 0,
        };
        proof {
            lemma_contents_are(table_of(map.buckets@), Map::<Seq<char>, Seq<char>>::empty());
        }
        map
    }

    /// The slot of `key` under the seeds in use.
    pub fn hash(&self, key: &str) -> (idx: usize)
        requires
            self.wf(),
        ensures
            idx == slot_of(self.seeds().0, self.seeds().1, key@, self.slots()),
            idx < self.slots(),
    {
        slot(self.seed1, self.seed2, key, self.capacity)
    }

    /// The value under `key`, if there is one.
    pub fn get(&self, key: &str) -> (found: Option<&String>)
        requires
            self.wf(),
        ensures
            match found {
                Some(value) => self@.contains_key(key@) && self@[key@] == value@,
                None => !self@.contains_key(key@),
            },
    {
        let idx = self.hash(key);
        let wanted = key.to_string();
        let ghost t = table_of(self.buckets@);
        proof {
            lemma_one_value(t, self.seed1, self.seed2);
        }
        let mut j: usize = 0;
        while j < self.buckets[idx].len()
            invariant
                self.wf(),
                idx < self.buckets@.len(),
                t == table_of(self.buckets@),
                wanted@ == key@,
                j <= t[idx as int].len(),
                forall|b: int| 0 <= b < j ==> (#[trigger] t[idx as int][b]).0 != key@,
            decreases t[idx as int].len() - j,
        {
            if self.buckets[idx][j].0 == wanted {
                proof {
                    lemma_one_value(t, self.seed1, self.seed2);
                    assert(t[idx as int][j as int] == (key@, self.buckets@[idx as int]@[j as int].1@));
                    assert(stored(t, key@, self.buckets@[idx as int]@[j as int].1@));
                }
                return Some(&self.buckets[idx][j].1);
            }
            j += 1;
        }
        proof {
            lemma_one_value(t, self.seed1, self.seed2);
            if self@.contains_key(key@) {
                let v = self@[key@];
                assert(stored(t, key@, v));
                let (a, b) = choose|a: int, b: int|
                    0 <= a < t.len() && 0 <= b < t[a].len() && #[trigger] t[a][b] == (key@, v);
                assert(slot_of(self.seed1, self.seed2, t[a][b].0, t.len()) == a);
                assert(t[idx as int][b].0 != key@);
            }
        }
        None
    }

    /// Stores `value` under `key`. A write that meets a chain of eight or
    /// more pairs is counted; at the third, new seeds are drawn and every
    /// pair moves to the chain of its new slot.
    pub fn set(&mut self, key: &str, value: &str)
        requires
            old(self).wf(),
        ensures
            final(self).wf(),
            final(self).slots() == old(self).slots(),
            final(self)@ == old(self)@.insert(key@, value@),
            final(self).kept_books(old(self), key@),
    {
        let mut idx = self.hash(key);
        if self.buckets[idx].len() >= self.max_chain_length {
            self.collision_count += 1;
            if self.collision_count >= self.collision_threshold {
                self.rehash_with_new_seed();
                idx = self.hash(key);
            }
        }
        let wanted = key.to_string();
        let ghost t = table_of(self.buckets@);
        proof {
            lemma_one_value(t, self.seed1, self.seed2);
        }
        let mut j: usize = 0;
        while j < self.buckets[idx].len()
            invariant
                idx < self.buckets@.len(),
                self.wf(),
                self@ == old(self)@,
                self.slots() == old(self).slots(),
                self.kept_books(old(self), key@),
                idx == slot_of(self.seed1, self.seed2, key@, self.capacity as nat),
                t == table_of(self.buckets@),
                placed(t, self.seed1, self.seed2),
                unique(t),
                wanted@ == key@,
                j <= t[idx as int].len(),
                forall|b: int| 0 <= b < j ==> (#[trigger] t[idx as int][b]).0 != key@,
            decreases t[idx as int].len() - j,
        {
            if self.buckets[idx][j].0 == wanted {
                self.buckets[idx][j].1 = value.to_string();
                proof {
                    let u = table_of(self.buckets@);
                    let at = idx as int;
                    let jj = j as int;
                    lemma_one_value(t, self.seed1, self.seed2);
                    assert(u =~~= t.update(at, t[at].update(jj, (key@, value@))));
                    assert forall|a: int, b: int| 0 <= a < u.len() && 0 <= b < u[a].len() implies (
                    #[trigger] u[a][b]).0 == t[a][b].0 by {}
                    assert(placed(u, self.seed1, self.seed2)) by {
                        assert forall|a: int, b: int|
                            0 <= a < u.len() && 0 <= b < u[a].len() implies slot_of(
                            self.seed1,
                            self.seed2,
                            (#[trigger] u[a][b]).0,
                            u.len(),
                        ) == a by {
                            assert(t[a][b].0 == u[a][b].0);
                        }
                    }
                    assert(unique(u)) by {
                        assert forall|a: int, b: int, c: int|
                            0 <= a < u.len() && 0 <= b < c < u[a].len() implies (
                        #[trigger] u[a][b]).0 != (#[trigger] u[a][c]).0 by {
                            assert(t[a][b].0 != t[a][c].0);
                        }
                    }
                    let m = contents(t).insert(key@, value@);
                    assert forall|q: Seq<char>, w: Seq<char>|
                        stored(u, q, w) <==> (m.contains_key(q) && m[q] == w) by {
                        if stored(u, q, w) {
                            let (a, b) = choose|a: int, b: int|
                                0 <= a < u.len() && 0 <= b < u[a].len() && #[trigger] u[a][b] == (
                                    q,
                                    w,
                                );
                            if a == at && b == jj {
                            } else {
                                assert(t[a][b] == (q, w));
                                assert(stored(t, q, w));
                                if q == key@ {
                                    assert(stored(t, key@, t[at][jj].1));
                                    assert(slot_of(self.seed1, self.seed2, t[a][b].0, t.len()) == a);
                                    if b < jj {
                                        assert(t[at][b].0 != t[at][jj].0);
                                    } else {
                                        assert(t[at][jj].0 != t[at][b].0);
                                    }
                                }
                            }
                        }
                        if m.contains_key(q) && m[q] == w {
                            if q == key@ {
                                assert(u[at][jj] == (q, w));
                            } else {
                                assert(stored(t, q, w));
                                let (a, b) = choose|a: int, b: int|
                                    0 <= a < t.len() && 0 <= b < t[a].len() && #[trigger] t[a][b]
                                        == (q, w);
                                assert(u[a][b] == (q, w));
                            }
                        }
                    }
                    lemma_contents_are(u, m);
                }
                return ;
            }
            j += 1;
        }
        self.buckets[idx].push((key.to_string(), value.to_string()));
        proof {
            let u = table_of(self.buckets@);
            let at = idx as int;
            lemma_one_value(t, self.seed1, self.seed2);
            assert(u =~~= t.update(at, t[at].push((key@, value@))));
            lemma_append(t, at, key@, value@);
            assert(placed(u, self.seed1, self.seed2)) by {
                assert forall|a: int, b: int|
                    0 <= a < u.len() && 0 <= b < u[a].len() implies slot_of(
                    self.seed1,
                    self.seed2,
                    (#[trigger] u[a][b]).0,
                    u.len(),
                ) == a by {
                    if a == at && b == t[at].len() {
                    } else {
                        assert(t[a][b] == u[a][b]);
                    }
                }
            }
            assert(unique(u)) by {
                assert forall|a: int, b: int, c: int|
                    0 <= a < u.len() && 0 <= b < c < u[a].len() implies (#[trigger] u[a][b]).0 != (
                #[trigger] u[a][c]).0 by {
                    if a == at && c == t[at].len() {
                        assert(t[at][b].0 != key@);
                    } else {
                        assert(t[a][b].0 != t[a][c].0);
                    }
                }
            }
            let m = contents(t).insert(key@, value@);
            assert forall|q: Seq<char>, w: Seq<char>|
                stored(u, q, w) <==> (m.contains_key(q) && m[q] == w) by {
                if q == key@ && stored(t, q, w) {
                    let (a, b) = choose|a: int, b: int|
                        0 <= a < t.len() && 0 <= b < t[a].len() && #[trigger] t[a][b] == (q, w);
                    assert(slot_of(self.seed1, self.seed2, t[a][b].0, t.len()) == a);
                    assert(t[at][b].0 != key@);
                }
                assert(!contents(t).contains_key(key@)) by {
                    if contents(t).contains_key(key@) {
                        let x = contents(t)[key@];
                        assert(stored(t, key@, x));
                        let (a, b) = choose|a: int, b: int|
                            0 <= a < t.len() && 0 <= b < t[a].len() && #[trigger] t[a][b] == (
                                key@,
                                x,
                            );
                        assert(slot_of(self.seed1, self.seed2, t[a][b].0, t.len()) == a);
                        assert(t[at][b].0 != key@);
                    }
                }
                assert(stored(u, q, w) <==> (stored(t, q, w) || (q == key@ && w == value@)));
                assert(stored(t, q, w) <==> (contents(t).contains_key(q) && contents(t)[q] == w));
            }
            lemma_contents_are(u, m);
        }
    }

    /// Draws new seeds and moves every pair to the chain of its new slot.
    fn rehash_with_new_seed(&mut self)
        requires
            old(self).table_wf(),
        ensures
            final(self).wf(),
            final(self).slots() == old(self).slots(),
            final(self)@ == old(self)@,
            final(self).long_chains() == 0,
            final(self).rehashes() == if old(self).rehashes() < u32::MAX {
                old(self).rehashes() + 1
            } else {
                old(self).rehashes()
            },
    {
        if self.rehash_count < u32::MAX {
            self.rehash_count += 1;
        }
        let ghost t = table_of(self.buckets@);
        let seed1 = random_seed();
        let seed2 = random_seed();
        let mut fresh = empty_buckets(self.capacity);
        let mut a: usize = 0;
        while a < self.buckets.len()
            invariant
                a <= self.buckets@.len(),
                self.capacity > 0,
                self.buckets@.len() == self.capacity,
                t == table_of(self.buckets@),
                fresh@.len() == self.capacity,
                placed(t, self.seed1, self.seed2),
                unique(t),
                placed(table_of(fresh@), seed1, seed2),
                unique(table_of(fresh@)),
                forall|k: Seq<char>, v: Seq<char>|
                    stored(table_of(fresh@), k, v) <==> stored_before(t, a as int, 0, k, v),
            decreases self.buckets@.len() - a,
        {
            let mut b: usize = 0;
            while b < self.buckets[a].len()
                invariant
                    a < self.buckets@.len(),
                    b <= t[a as int].len(),
                    self.capacity > 0,
                    self.buckets@.len() == self.capacity,
                    t == table_of(self.buckets@),
                    fresh@.len() == self.capacity,
                    placed(t, self.seed1, self.seed2),
                    unique(t),
                    placed(table_of(fresh@), seed1, seed2),
                    unique(table_of(fresh@)),
                    forall|k: Seq<char>, v: Seq<char>|
                        stored(table_of(fresh@), k, v) <==> stored_before(t, a as int, b as int, k, v),
                decreases t[a as int].len() - b,
            {
                let key = self.buckets[a][b].0.clone();
                let value = self.buckets[a][b].1.clone();
                let new_idx = slot(seed1, seed2, key.as_str(), self.capacity);
                let ghost f = table_of(fresh@);
                fresh[new_idx].push((key, value));
                proof {
                    let g = table_of(fresh@);
                    let at = new_idx as int;
                    let k = t[a as int][b as int].0;
                    let v = t[a as int][b as int].1;
                    assert(g =~~= f.update(at, f[at].push((k, v))));
                    lemma_append(f, at, k, v);
                    assert(stored(t, k, v));
                    assert forall|c: int| 0 <= c < f[at].len() implies (#[trigger] f[at][c]).0 != k by {
                        if f[at][c].0 == k {
                            let w = f[at][c].1;
                            assert(f[at][c] == (k, w));
                            assert(stored(f, k, w));
                            assert(stored_before(t, a as int, b as int, k, w));
                            let (x, y) = choose|x: int, y: int|
                                0 <= x < t.len() && 0 <= y < t[x].len() && (x < a || (x == a && y
                                    < b)) && #[trigger] t[x][y] == (k, w);
                            lemma_two_places(t, self.seed1, self.seed2, x, y, a as int, b as int);
                        }
                    }
                    assert(placed(g, seed1, seed2)) by {
                        assert forall|x: int, y: int|
                            0 <= x < g.len() && 0 <= y < g[x].len() implies slot_of(
                            seed1,
                            seed2,
                            (#[trigger] g[x][y]).0,
                            g.len(),
                        ) == x by {
                            if x == at && y == f[at].len() {
                            } else {
                                assert(f[x][y] == g[x][y]);
                            }
                        }
                    }
                    assert(unique(g)) by {
                        assert forall|x: int, y: int, z: int|
                            0 <= x < g.len() && 0 <= y < z < g[x].len() implies (
                        #[trigger] g[x][y]).0 != (#[trigger] g[x][z]).0 by {
                            if x == at && z == f[at].len() {
                                assert(f[at][y].0 != k);
                            } else {
                                assert(f[x][y].0 != f[x][z].0);
                            }
                        }
                    }
                    assert forall|q: Seq<char>, w: Seq<char>|
                        stored(g, q, w) <==> stored_before(t, a as int, b + 1, q, w) by {
                        if stored_before(t, a as int, b + 1, q, w) {
                            let (x, y) = choose|x: int, y: int|
                                0 <= x < t.len() && 0 <= y < t[x].len() && (x < a || (x == a && y
                                    < b + 1)) && #[trigger] t[x][y] == (q, w);
                            if x == a && y == b {
                            } else {
                                assert(stored_before(t, a as int, b as int, q, w));
                            }
                        }
                        if stored_before(t, a as int, b as int, q, w) {
                            let (x, y) = choose|x: int, y: int|
                                0 <= x < t.len() && 0 <= y < t[x].len() && (x < a || (x == a && y
                                    < b)) && #[trigger] t[x][y] == (q, w);
                            assert(t[x][y] == (q, w));
                        }
                        if q == k && w == v {
                            assert(t[a as int][b as int] == (q, w));
                        }
                    }
                }
                b += 1;
            }
            proof {
                let f = table_of(fresh@);
                assert forall|q: Seq<char>, w: Seq<char>|
                    stored(f, q, w) <==> stored_before(t, a + 1, 0, q, w) by {
                    if stored_before(t, a + 1, 0, q, w) {
                        let (x, y) = choose|x: int, y: int|
                            0 <= x < t.len() && 0 <= y < t[x].len() && (x < a + 1 || (x == a + 1
                                && y < 0)) && #[trigger] t[x][y] == (q, w);
                        assert(t[x][y] == (q, w));
                    }
                    if stored_before(t, a as int, b as int, q, w) {
                        let (x, y) = choose|x: int, y: int|
                            0 <= x < t.len() && 0 <= y < t[x].len() && (x < a || (x == a && y < b))
                                && #[trigger] t[x][y] == (q, w);
                        assert(t[x][y] == (q, w));
                    }
                }
            }
            a += 1;
        }
        proof {
            let f = table_of(fresh@);
            let m = contents(t);
            lemma_one_value(t, self.seed1, self.seed2);
            assert forall|q: Seq<char>, w: Seq<char>|
                stored(f, q, w) <==> (m.contains_key(q) && m[q] == w) by {
                if stored_before(t, a as int, 0, q, w) {
                    let (x, y) = choose|x: int, y: int|
                        0 <= x < t.len() && 0 <= y < t[x].len() && (x < a || (x == a && y < 0))
                            && #[trigger] t[x][y] == (q, w);
                    assert(t[x][y] == (q, w));
                }
                if stored(t, q, w) {
                    let (x, y) = choose|x: int, y: int|
                        0 <= x < t.len() && 0 <= y < t[x].len() && #[trigger] t[x][y] == (q, w);
                    assert(t[x][y] == (q, w));
                    assert(stored_before(t, a as int, 0, q, w));
                }
            }
            lemma_contents_are(f, m);
        }
        self.seed1 = seed1;
        self.seed2 = seed2;
        self.buckets = fresh;
        self.collision_count = 0;
    }
}

impl Default for SecureHashMap {
    fn default() -> (map: Self)
        ensures
            map.wf(),
            map.slots() == 16,
            map.long_chains() == 0,
            map.rehashes() == 0,
            map@ == Map::<Seq<char>, Seq<char>>::empty(),
    {
        Self::new()
    }
}

/// In a table that is placed and without repeated keys, two different
/// positions hold different keys.
pub proof fn lemma_two_places(t: Table, seed1: u64, seed2: u64, x: int, y: int, a: int, b: int)
    requires
        placed(t, seed1, seed2),
        unique(t),
        0 <= x < t.len(),
        0 <= y < t[x].len(),
        0 <= a < t.len(),
        0 <= b < t[a].len(),
        x != a || y != b,
    ensures
        t[x][y].0 != t[a][b].0,
{
    assert(slot_of(seed1, seed2, t[x][y].0, t.len()) == x);
    assert(slot_of(seed1, seed2, t[a][b].0, t.len()) == a);
    if x == a {
        if y < b {
            assert(t[a][y].0 != t[a][b].0);
        } else {
            assert(t[a][b].0 != t[a][y].0);
        }
    }
}

} // verus!
