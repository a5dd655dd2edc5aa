//! Monoids given by an identity element and a binary operation, with checks
//! of the two monoid laws on sample values.

use vstd::pervasive::cloned;
use vstd::prelude::*;
use vstd::std_specs::cmp::PartialEqSpec;

verus! {

/// An identity element together with a binary operation.
#[verifier::reject_recursive_types(T)]
pub struct Monoid<T, F> where F: Fn(T, T) -> T {
    identity: T,
    /// The binary operation of the monoid.
    pub operation: F,
}

/// Applied to copies of the identity and of `v`, on either side, the
/// operation gave `l` and `r`.
pub open spec fn identity_run<T: Clone, F: Fn(T, T) -> T>(op: F, e: T, v: T, l: T, r: T) -> bool {
    exists|e1: T, v1: T, v2: T, e2: T|
        cloned(e, e1) && cloned(v, v1) && cloned(v, v2) && cloned(e, e2) && #[trigger] call_ensures(
            op,
            (e1, v1),
            l,
        ) && #[trigger] call_ensures(op, (v2, e2), r)
}

/// Applied to copies of `a`, `b` and `c`, the operation gave `l` when
/// grouped to the left and `r` when grouped to the right.
pub open spec fn grouping_run<T: Clone, F: Fn(T, T) -> T>(op: F, a: T, b: T, c: T, l: T, r: T) -> bool {
    exists|a1: T, b1: T, c1: T, a2: T, b2: T, c2: T, ab: T, bc: T|
        cloned(a, a1) && cloned(b, b1) && cloned(c, c1) && cloned(a, a2) && cloned(b, b2) && cloned(
            c,
            c2,
        ) && #[trigger] call_ensures(op, (a1, b1), ab) && #[trigger] call_ensures(op, (ab, c1), l)
            && #[trigger] call_ensures(op, (b2, c2), bc) && #[trigger] call_ensures(op, (a2, bc), r)
}

/// Some run of the operation on `v` and the identity gave `v` on both sides.
pub open spec fn identity_holds<T: Clone + PartialEq, F: Fn(T, T) -> T>(op: F, e: T, v: T) -> bool {
    exists|l: T, r: T| #[trigger] identity_run(op, e, v, l, r) && l.eq_spec(&v) && r.eq_spec(&v)
}

/// Some run of the operation on `v` and the identity gave another value on
/// one side.
pub open spec fn identity_fails<T: Clone + PartialEq, F: Fn(T, T) -> T>(op: F, e: T, v: T) -> bool {
    exists|l: T, r: T| #[trigger] identity_run(op, e, v, l, r) && !(l.eq_spec(&v) && r.eq_spec(&v))
}

/// Some run of the operation on `a`, `b`, `c` gave equal results for both
/// groupings.
pub open spec fn grouping_holds<T: Clone + PartialEq, F: Fn(T, T) -> T>(
    op: F,
    a: T,
    b: T,
    c: T,
) -> bool {
    exists|l: T, r: T| #[trigger] grouping_run(op, a, b, c, l, r) && l.eq_spec(&r)
}

/// Some run of the operation on `a`, `b`, `c` gave different results for
/// the two groupings.
pub open spec fn grouping_fails<T: Clone + PartialEq, F: Fn(T, T) -> T>(
    op: F,
    a: T,
    b: T,
    c: T,
) -> bool {
    exists|l: T, r: T| #[trigger] grouping_run(op, a, b, c, l, r) && !l.eq_spec(&r)
}

impl<T, F> Monoid<T, F> where T: Clone + PartialEq, F: Fn(T, T) -> T {
    /// The identity element.
    pub closed spec fn unit(&self) -> T {
        self.identity
    }

    /// The binary operation.
    pub closed spec fn op(&self) -> F {
        self.operation
    }

    /// The operation accepts every pair of arguments.
    pub open spec fn total(&self) -> bool {
        forall|a: T, b: T| call_requires(self.op(), (a, b))
    }

    /// Creates a new `Monoid`.
    pub fn new(identity: T, operation: F) -> (m: Self)
        ensures
            m.unit() == identity,
            m.op() == operation,
    {
        Monoid { identity, operation }
    }

    /// Returns a copy of the identity element.
    pub fn identity(&self) -> (e: T)
        ensures
            cloned(self.unit(), e),
    {
        self.identity.clone()
    }

    /// Checks the identity law on each of `values`: combined with the
    /// identity on the left and on the right, a value must come back equal
    /// to itself. The check stops at the first value that fails.
    pub fn check_identity_law(&self, values: &[T]) -> (holds: bool)
        requires
            self.total(),
        ensures
            T::obeys_eq_spec() && holds ==> forall|i: int|
                0 <= i < values@.len() ==> identity_holds(
                    self.op(),
                    self.unit(),
                    #[trigger] values@[i],
                ),
            T::obeys_eq_spec() && !holds ==> exists|i: int|
                0 <= i < values@.len() && identity_fails(
                    self.op(),
                    self.unit(),
                    #[trigger] values@[i],
                ),
    {
        assert forall|a: T, b: T| call_requires(self.operation, (a, b)) by {
            assert(call_requires(self.op(), (a, b)));
        }
        let mut i: usize = 0;
        while i < values.len()
            invariant
                forall|a: T, b: T| call_requires(self.operation, (a, b)),
                i <= values@.len(),
                T::obeys_eq_spec() ==> forall|j: int|
                    0 <= j < i ==> identity_holds(
                        self.op(),
                        self.unit(),
                        #[trigger] values@[j],
                    ),
            decreases values@.len() - i,
        {
            let e1 = self.identity.clone();
            let v1 = values[i].clone();
            let left_identity = (self.operation)(e1, v1);
            let v2 = values[i].clone();
            let e2 = self.identity.clone();
            let right_identity = (self.operation)(v2, e2);
            let left_ok = left_identity.eq(&values[i]);
            let right_ok = right_identity.eq(&values[i]);
            proof {
                assert(call_ensures(self.operation, (e1, v1), left_identity));
                assert(call_ensures(self.operation, (v2, e2), right_identity));
                assert(identity_run(
                    self.op(),
                    self.unit(),
                    values@[i as int],
                    left_identity,
                    right_identity,
                ));
            }
            if !(left_ok && right_ok) {
                return false;
            }
            i += 1;
        }
        true
    }

    /// Checks the associativity law on every three neighbours of `values`:
    /// grouping them to the left or to the right must give equal results.
    /// Fewer than three values pass; the check stops at the first failure.
    pub fn check_associativity_law(&self, values: &[T]) -> (holds: bool)
        requires
            self.total(),
        ensures
            values@.len() < 3 ==> holds,
            T::obeys_eq_spec() && holds ==> forall|i: int|
                0 <= i && i + 2 < values@.len() ==> grouping_holds(
                    self.op(),
                    #[trigger] values@[i],
                    values@[i + 1],
                    values@[i + 2],
                ),
            T::obeys_eq_spec() && !holds ==> exists|i: int|
                0 <= i && i + 2 < values@.len() && grouping_fails(
                    self.op(),
                    #[trigger] values@[i],
                    values@[i + 1],
                    values@[i + 2],
                ),
    {
        if values.len() < 3 {
            return true;
        }
        assert forall|a: T, b: T| call_requires(self.operation, (a, b)) by {
            assert(call_requires(self.op(), (a, b)));
        }
        let mut i: usize = 0;
        while i + 2 < values.len()
            invariant
                forall|a: T, b: T| call_requires(self.operation, (a, b)),
                i + 2 <= values@.len(),
                T::obeys_eq_spec() ==> forall|j: int|
                    0 <= j < i ==> grouping_holds(
                        self.op(),
                        #[trigger] values@[j],
                        values@[j + 1],
                        values@[j + 2],
                    ),
            decreases values@.len() - i,
        {
            let a1 = values[i].clone();
            let b1 = values[i + 1].clone();
            let c1 = values[i + 2].clone();
            let a2 = values[i].clone();
            let b2 = values[i + 1].clone();
            let c2 = values[i + 2].clone();
            let ab = (self.operation)(a1, b1);
            let left_assoc = (self.operation)(ab, c1);
            let bc = (self.operation)(b2, c2);
            let right_assoc = (self.operation)(a2, bc);
            let equal = left_assoc.eq(&right_assoc);
            proof {
                assert(call_ensures(self.operation, (a1, b1), ab));
                assert(call_ensures(self.operation, (ab, c1), left_assoc));
                assert(call_ensures(self.operation, (b2, c2), bc));
                assert(call_ensures(self.operation, (a2, bc), right_assoc));
                assert(grouping_run(
                    self.op(),
                    values@[i as int],
                    values@[i + 1],
                    values@[i + 2],
                    left_assoc,
                    right_assoc,
                ));
            }
            if !equal {
                return false;
            }
            i += 1;
        }
        true
    }
}

} // verus!
