//! The ordering capability that the interval algebra is generic over: a total
//! order with an executable comparison, proved lawful by every implementor.

use vstd::prelude::*;

verus! {

/// A totally ordered, copyable value. `leq` is the mathematical order; `le`
/// is its executable form. Implementors must prove the order laws, so code
/// generic over `LinearOrder` may rely on them.
pub trait LinearOrder: Sized + Copy {
    /// The order itself, as a mathematical relation.
    spec fn leq(self, other: Self) -> bool;

    /// The order laws: reflexivity, antisymmetry, transitivity and totality.
    proof fn order_laws()
        ensures
            forall|a: Self| #[trigger] a.leq(a),
            forall|a: Self, b: Self| #[trigger] a.leq(b) && b.leq(a) ==> a == b,
            forall|a: Self, b: Self, c: Self|
                #[trigger] a.leq(b) && #[trigger] b.leq(c) ==> a.leq(c),
            forall|a: Self, b: Self| #[trigger] a.leq(b) || #[trigger] b.leq(a),
    ;

    /// Executable comparison, agreeing exactly with `leq`.
    fn le(&self, other: &Self) -> (r: bool)
        ensures
            r == self.leq(*other),
    ;
}

impl LinearOrder for u16 {
    open spec fn leq(self, other: Self) -> bool {
        self <= other
    }

    proof fn order_laws() {
    }

    fn le(&self, other: &Self) -> (r: bool) {
        *self <= *other
    }
}

impl LinearOrder for u32 {
    open spec fn leq(self, other: Self) -> bool {
        self <= other
    }

    proof fn order_laws() {
    }

    fn le(&self, other: &Self) -> (r: bool) {
        *self <= *other
    }
}

impl LinearOrder for u64 {
    open spec fn leq(self, other: Self) -> bool {
        self <= other
    }

    proof fn order_laws() {
    }

    fn le(&self, other: &Self) -> (r: bool) {
        *self <= *other
    }
}

impl LinearOrder for u128 {
    open spec fn leq(self, other: Self) -> bool {
        self <= other
    }

    proof fn order_laws() {
    }

    fn le(&self, other: &Self) -> (r: bool) {
        *self <= *other
    }
}

/// The smaller of two values.
pub open spec fn min_of<T: LinearOrder>(a: T, b: T) -> T {
    if a.leq(b) {
        a
    } else {
        b
    }
}

/// The larger of two values.
pub open spec fn max_of<T: LinearOrder>(a: T, b: T) -> T {
    if b.leq(a) {
        a
    } else {
        b
    }
}

/// Strict order: `a` comes before `b` and differs from it.
pub open spec fn lt<T: LinearOrder>(a: T, b: T) -> bool {
    !b.leq(a)
}

} // verus!
