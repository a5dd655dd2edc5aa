//! Quicksort under a deadline: the sort looks at the clock as it goes and
//! stops where it stands once the deadline has passed, leaving the slice a
//! rearrangement of what it was given.

use std::time::{Duration, Instant};
use vstd::prelude::*;

verus! {

/// `std::time::Instant`, taken as it is: the proofs see nothing inside a
/// reading of the clock.
#[verifier::external_type_specification]
#[verifier::external_body]
pub struct ExInstant(Instant);

/// `Instant::now`: the current reading of the monotonic clock.
#[verifier::external_body]
fn clock_now() -> Instant {
    Instant::now()
}

/// `Instant::elapsed`: the time since `start`. Nothing is promised of it.
#[verifier::external_body]
fn clock_elapsed(start: &Instant) -> Duration {
    start.elapsed()
}

/// `Duration::as_millis`: the whole milliseconds of a span of time.
#[verifier::external_body]
fn whole_millis(span: &Duration) -> u128 {
    span.as_millis()
}

/// `s` is in ascending order.
pub open spec fn sorted(s: Seq<i32>) -> bool {
    forall|i: int, j: int| 0 <= i <= j < s.len() ==> s[i] <= s[j]
}

/// `s` is in ascending order from `lo` up to, not including, `hi`.
pub open spec fn sorted_between(s: Seq<i32>, lo: int, hi: int) -> bool {
    forall|i: int, j: int| lo <= i <= j < hi ==> s[i] <= s[j]
}

/// `a` and `b` differ at most from `lo` up to, not including, `hi`.
pub open spec fn same_outside(a: Seq<i32>, b: Seq<i32>, lo: int, hi: int) -> bool {
    &&& a.len() == b.len()
    &&& forall|i: int| 0 <= i < a.len() && !(lo <= i < hi) ==> a[i] == b[i]
}

/// `x` occurs in `a` between `lo` and `hi`.
pub open spec fn occurs(a: Seq<i32>, lo: int, hi: int, x: i32) -> bool {
    exists|j: int| lo <= j < hi && #[trigger] a[j] == x
}

/// Every element of `b` between `lo` and `hi` occurs in `a` between them.
pub open spec fn drawn_from(b: Seq<i32>, a: Seq<i32>, lo: int, hi: int) -> bool {
    forall|i: int| lo <= i < hi ==> occurs(a, lo, hi, #[trigger] b[i])
}

/// Between `lo` and `hi`, what stands before `p` is smaller than the
/// element at `p`, and what stands behind it is not.
pub open spec fn split_at(s: Seq<i32>, lo: int, p: int, hi: int) -> bool {
    &&& forall|k: int| lo <= k < p ==> #[trigger] s[k] < s[p]
    &&& forall|k: int| p < k < hi ==> #[trigger] s[k] >= s[p]
}

proof fn lemma_drawn_widen(b: Seq<i32>, a: Seq<i32>, lo: int, hi: int, lo2: int, hi2: int)
    requires
        same_outside(a, b, lo, hi),
        drawn_from(b, a, lo, hi),
        0 <= lo2 <= lo,
        hi <= hi2 <= a.len(),
    ensures
        drawn_from(b, a, lo2, hi2),
{
    assert forall|i: int| lo2 <= i < hi2 implies occurs(a, lo2, hi2, #[trigger] b[i]) by {
        if lo <= i < hi {
            assert(occurs(a, lo, hi, b[i]));
            let j = choose|j: int| lo <= j < hi && #[trigger] a[j] == b[i];
            assert(lo2 <= j < hi2 && a[j] == b[i]);
        } else {
            assert(a[i] == b[i]);
        }
    }
}

proof fn lemma_drawn_chain(c: Seq<i32>, b: Seq<i32>, a: Seq<i32>, lo: int, hi: int)
    requires
        drawn_from(c, b, lo, hi),
        drawn_from(b, a, lo, hi),
    ensures
        drawn_from(c, a, lo, hi),
{
    assert forall|i: int| lo <= i < hi implies occurs(a, lo, hi, #[trigger] c[i]) by {
        assert(occurs(b, lo, hi, c[i]));
        let j = choose|j: int| lo <= j < hi && #[trigger] b[j] == c[i];
        assert(occurs(a, lo, hi, b[j]));
    }
}

proof fn lemma_drawn_same(a: Seq<i32>, lo: int, hi: int)
    ensures
        drawn_from(a, a, lo, hi),
{
    assert forall|i: int| lo <= i < hi implies occurs(a, lo, hi, #[trigger] a[i]) by {
        assert(a[i] == a[i]);
    }
}

/// After an exchange inside the range, every element still occurs in it.
proof fn lemma_drawn_exchange(a: Seq<i32>, lo: int, hi: int, i: int, j: int)
    requires
        0 <= lo <= i < hi <= a.len(),
        lo <= j < hi,
    ensures
        drawn_from(a.update(i, a[j]).update(j, a[i]), a, lo, hi),
{
    let b = a.update(i, a[j]).update(j, a[i]);
    assert forall|k: int| lo <= k < hi implies occurs(a, lo, hi, #[trigger] b[k]) by {
        if k == j {
            assert(a[i] == b[k]);
        } else if k == i {
            assert(a[j] == b[k]);
        } else {
            assert(a[k] == b[k]);
        }
    }
}

/// Exchanges the elements at `i` and `j`.
fn exchange(arr: &mut [i32], i: usize, j: usize)
    requires
        i < old(arr)@.len(),
        j < old(arr)@.len(),
    ensures
        final(arr)@ == old(arr)@.update(i as int, old(arr)@[j as int]).update(
            j as int,
            old(arr)@[i as int],
        ),
        final(arr)@.to_multiset() == old(arr)@.to_multiset(),
{
    let a: i32 = arr[i];
    let b: i32 = arr[j];
    arr[i] = b;
    arr[j] = a;
    proof {
        broadcast use vstd::multiset::group_multiset_axioms;

        let s = old(arr)@;
        let s1 = s.update(i as int, b);
        vstd::seq_lib::to_multiset_update(s, i as int, b);
        vstd::seq_lib::to_multiset_update(s1, j as int, a);
        if i == j {
            assert(arr@ =~= s);
        } else {
            assert(s1[j as int] == b);
            assert(s[i as int] == a && s[j as int] == b);
            assert(s.contains(a) && s.contains(b));
            vstd::seq_lib::to_multiset_contains(s, a);
            vstd::seq_lib::to_multiset_contains(s, b);
            let m = s.to_multiset();
            assert(m.count(a) > 0 && m.count(b) > 0);
            assert forall|x: i32| m.insert(b).remove(a).insert(a).remove(b).count(x) == m.count(x) by {}
            assert(s1.update(j as int, a).to_multiset() =~= m);
        }
    }
}

/// A quicksort that gives up when its deadline has passed.
pub struct AnytimeQuicksort {
    deadline_ms: u64,
    start_time: Option<Instant>,
}

impl AnytimeQuicksort {
    /// The deadline, in milliseconds from the start of a sort.
    pub closed spec fn deadline(&self) -> nat {
        self.deadline_ms as nat
    }

    /// A sort has been started.
    pub closed spec fn started(&self) -> bool {
        self.start_time.is_some()
    }

    /// A sorter with a deadline of `deadline_ms` milliseconds.
    pub fn new(deadline_ms: u64) -> (sorter: Self)
        ensures
            sorter.deadline() == deadline_ms,
            !sorter.started(),
    {
        AnytimeQuicksort { deadline_ms, start_time: None }
    }

    /// Sorts `arr` until the deadline passes, and tells whether the sort ran
    /// to its end. Whatever the clock says, `arr` keeps its elements; when
    /// the result is `true` they are in ascending order. A deadline of zero
    /// has passed at once: the slice is not touched.
    pub fn sort(&mut self, arr: &mut [i32]) -> (completed: bool)
        ensures
            final(self).deadline() == old(self).deadline(),
            final(self).started(),
            final(arr)@.len() == old(arr)@.len(),
            final(arr)@.to_multiset() == old(arr)@.to_multiset(),
            completed ==> sorted(final(arr)@),
            old(self).deadline() == 0 ==> !completed && final(arr)@ == old(arr)@,
    {
        self.start_time = Some(clock_now());
        let n = arr.len();
        let completed = self.recursive_sort(arr, 0, n);
        proof {
            if completed {
                assert forall|i: int, j: int| 0 <= i <= j < arr@.len() implies arr@[i] <= arr@[j] by {
                    assert(sorted_between(arr@, 0, n as int));
                }
            }
        }
        completed
    }

    /// Whether the deadline has passed since the sort was started.
    fn time_exceeded(&self) -> (exceeded: bool)
        ensures
            !self.started() ==> !exceeded,
            self.started() && self.deadline() == 0 ==> exceeded,
    {
        match &self.start_time {
            Some(start_time) => whole_millis(&clock_elapsed(start_time)) >= self.deadline_ms as u128,
            None => false,
        }
    }

    /// Sorts `arr` from `lo` up to, not including, `hi`, and tells whether
    /// it ran to its end. The clock is read before anything is moved and
    /// again at every step of a pass, and the first reading past the
    /// deadline ends the work. While no sort has been started there is no
    /// clock to read: the range is then sorted to the end.
    fn recursive_sort(&self, arr: &mut [i32], lo: usize, hi: usize) -> (completed: bool)
        requires
            lo <= hi <= old(arr)@.len(),
        ensures
            same_outside(old(arr)@, final(arr)@, lo as int, hi as int),
            final(arr)@.to_multiset() == old(arr)@.to_multiset(),
            drawn_from(final(arr)@, old(arr)@, lo as int, hi as int),
            completed ==> sorted_between(final(arr)@, lo as int, hi as int),
            !self.started() ==> completed,
            hi - lo < 2 ==> final(arr)@ == old(arr)@,
            self.started() && self.deadline() == 0 ==> !completed && final(arr)@ == old(arr)@,
        decreases hi - lo,
    {
        proof {
            lemma_drawn_same(arr@, lo as int, hi as int);
        }
        if self.time_exceeded() {
            return false;
        }
        if hi - lo < 2 {
            return true;
        }
        let (p, parted) = self.partition(arr, lo, hi);
        let ghost a1 = arr@;
        let left = self.recursive_sort(arr, lo, p);
        let ghost a2 = arr@;
        let right = self.recursive_sort(arr, p + 1, hi);
        proof {
            let a0 = old(arr)@;
            let a3 = arr@;
            let (l, h, q) = (lo as int, hi as int, p as int);
            lemma_drawn_widen(a2, a1, l, q, l, h);
            lemma_drawn_chain(a2, a1, a0, l, h);
            lemma_drawn_widen(a3, a2, q + 1, h, l, h);
            lemma_drawn_chain(a3, a2, a0, l, h);
            if parted && left && right {
                assert forall|i: int| l <= i < q implies #[trigger] a3[i] < a3[q] by {
                    assert(occurs(a1, l, q, a2[i]));
                    let j = choose|j: int| l <= j < q && #[trigger] a1[j] == a2[i];
                    assert(a1[j] < a1[q]);
                    assert(a3[i] == a2[i]);
                }
                assert forall|i: int| q < i < h implies #[trigger] a3[i] >= a3[q] by {
                    assert(occurs(a2, q + 1, h, a3[i]));
                    let j = choose|j: int| q + 1 <= j < h && #[trigger] a2[j] == a3[i];
                    assert(a2[j] == a1[j]);
                    assert(a1[j] >= a1[q]);
                }
                assert forall|i: int, j: int| l <= i <= j < h implies a3[i] <= a3[j] by {
                    if j < q {
                        assert(a3[i] == a2[i] && a3[j] == a2[j]);
                    }
                }
            }
        }
        parted && left && right
    }

    /// Moves the elements smaller than the last one to the front of the
    /// range and the last one behind them; returns its new place, and
    /// whether the pass ran to its end. A pass without a started clock
    /// always does.
    fn partition(&self, arr: &mut [i32], lo: usize, hi: usize) -> (r: (usize, bool))
        requires
            lo < hi <= old(arr)@.len(),
        ensures
            lo <= r.0 < hi,
            same_outside(old(arr)@, final(arr)@, lo as int, hi as int),
            final(arr)@.to_multiset() == old(arr)@.to_multiset(),
            drawn_from(final(arr)@, old(arr)@, lo as int, hi as int),
            r.1 ==> split_at(final(arr)@, lo as int, r.0 as int, hi as int),
            !self.started() ==> r.1,
            self.started() && self.deadline() == 0 && hi - lo >= 2 ==> !r.1 && final(arr)@ == old(
                arr,
            )@,
    {
        let pivot: i32 = arr[hi - 1];
        let mut i: usize = lo;
        let mut j: usize = lo;
        proof {
            lemma_drawn_same(arr@, lo as int, hi as int);
        }
        while j < hi - 1
            invariant
                lo <= i <= j <= hi - 1,
                hi <= arr@.len(),
                arr@[hi - 1] == pivot,
                same_outside(old(arr)@, arr@, lo as int, hi as int),
                arr@.to_multiset() == old(arr)@.to_multiset(),
                drawn_from(arr@, old(arr)@, lo as int, hi as int),
                forall|k: int| lo <= k < i ==> #[trigger] arr@[k] < pivot,
                forall|k: int| i <= k < j ==> #[trigger] arr@[k] >= pivot,
                self.started() && self.deadline() == 0 ==> j == lo && arr@ == old(arr)@,
            decreases hi - 1 - j,
        {
            if self.time_exceeded() {
                return (i, false);
            }
            if arr[j] < pivot {
                let ghost before = arr@;
                exchange(arr, i, j);
                proof {
                    lemma_drawn_exchange(before, lo as int, hi as int, i as int, j as int);
                    lemma_drawn_chain(arr@, before, old(arr)@, lo as int, hi as int);
                }
                i += 1;
            }
            j += 1;
        }
        let ghost before = arr@;
        exchange(arr, i, hi - 1);
        proof {
            lemma_drawn_exchange(before, lo as int, hi as int, i as int, hi - 1);
            lemma_drawn_chain(arr@, before, old(arr)@, lo as int, hi as int);
        }
        (i, true)
    }
}

} // verus!
