//! What links cost, on whatever scale the caller measures them.
//!
//! The share of packets that a node drops is a fraction of two counters. How
//! such fractions become costs is up to the caller: costs need only be added
//! and put in order.
use std::cmp::Ordering;
use std::fmt::Debug;
use std::ops::Add;
use vstd::prelude::*;
use vstd::std_specs::cmp::{PartialEqSpec, PartialOrdSpec};
use vstd::std_specs::ops::AddSpec;

verus! {

/// A share of dropped packets, as numerator and denominator.
pub type DropRate = (u64, u64);

/// Whether `rate` is a share between nothing and everything.
pub open spec fn is_rate(rate: DropRate) -> bool {
    rate.0 <= rate.1 && 0 < rate.1
}

/// Whether `x` is no more than `y`.
pub open spec fn at_most<K: PartialOrd>(x: K, y: K) -> bool {
    x.partial_cmp_spec(&y) matches Some(Ordering::Less | Ordering::Equal)
}

/// Whether `x` is less than `y`.
pub open spec fn less<K: PartialOrd>(x: K, y: K) -> bool {
    x.partial_cmp_spec(&y) == Some(Ordering::Less)
}

/// Whether `x` is more than `y`.
pub open spec fn more<K: PartialOrd>(x: K, y: K) -> bool {
    x.partial_cmp_spec(&y) == Some(Ordering::Greater)
}

/// The sum of two costs.
pub open spec fn plus<K: Add<Output = K>>(x: K, y: K) -> K {
    x.add_spec(y)
}

/// Whether the values of `scale` are in one order, by all comparisons alike.
pub open spec fn is_ordered<K: PartialOrd>(scale: Set<K>) -> bool {
    &&& K::obeys_eq_spec()
    &&& K::obeys_partial_cmp_spec()
    &&& forall|x: K, y: K|
        scale.contains(x) && scale.contains(y) ==> {
            &&& #[trigger] at_most(x, y) || at_most(y, x)
            &&& less(x, y) <==> !at_most(y, x)
            &&& more(x, y) <==> !at_most(x, y)
            &&& x.eq_spec(&y) <==> at_most(x, y) && at_most(y, x)
        }
    &&& forall|x: K, y: K, z: K|
        scale.contains(x) && scale.contains(y) && scale.contains(z) && #[trigger] at_most(x, y)
            && #[trigger] at_most(y, z) ==> at_most(x, z)
}

/// A way to measure links: the values that costs take, the cost of going
/// nowhere, and the cost of a link by the drop rates of its two ends.
#[verifier::reject_recursive_types(K)]
pub struct Measure<K> {
    pub scale: Set<K>,
    pub nothing: K,
    pub weight: spec_fn(DropRate, DropRate) -> K,
}

impl<K: Copy + Debug + PartialOrd + Add<Output = K> + Default> Measure<K> {
    /// Whether `x` is what the cost of a link can be.
    pub open spec fn is_weight(self, x: K) -> bool {
        exists|a: DropRate, b: DropRate|
            is_rate(a) && is_rate(b) && x == #[trigger] (self.weight)(a, b)
    }

    /// Whether costs can be added up on the scale: adding the cost of a link
    /// stays on it, makes nothing cheaper and keeps the order, and adding
    /// nothing changes nothing.
    pub open spec fn is_additive(self) -> bool {
        &&& K::obeys_add_spec()
        &&& self.scale.contains(self.nothing)
        &&& forall|x: K| #[trigger]
            self.scale.contains(x) ==> x.add_req(self.nothing) && plus(x, self.nothing) == x
        &&& forall|x: K, w: K| #[trigger]
            self.scale.contains(x) && #[trigger] self.is_weight(w) ==> x.add_req(w)
                && self.scale.contains(plus(x, w)) && at_most(x, plus(x, w))
        &&& forall|x: K, y: K, w: K| #[trigger]
            at_most(x, y) && self.scale.contains(x) && self.scale.contains(y)
                && #[trigger] self.is_weight(w) ==> at_most(plus(x, w), plus(y, w))
    }

    /// Whether `cost` measures links in this way.
    pub open spec fn measures<F: Fn(DropRate, DropRate) -> K>(self, cost: F) -> bool {
        &&& is_ordered(self.scale)
        &&& self.is_additive()
        &&& forall|z: K| #[trigger] call_ensures(K::default, (), z) ==> z == self.nothing
        &&& forall|a: DropRate, b: DropRate|
            is_rate(a) && is_rate(b) ==> #[trigger] call_requires(cost, (a, b))
        &&& forall|a: DropRate, b: DropRate, c: K|
            is_rate(a) && is_rate(b) && #[trigger] call_ensures(cost, (a, b), c) ==> c == (
            self.weight)(a, b)
    }
}

/// Whether `cost` measures links, in some way.
pub open spec fn is_measure<K, F>(cost: F) -> bool where
    K: Copy + Debug + PartialOrd + Add<Output = K> + Default,
    F: Fn(DropRate, DropRate) -> K,
 {
    exists|measure: Measure<K>| measure.measures(cost)
}

} // verus!
