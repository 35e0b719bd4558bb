//! The ordering of keys: what the containers ask of `K: Ord`, the
//! comparisons they make, and the probes by which keys are looked up.

use vstd::prelude::*;
use vstd::std_specs::cmp::{OrdSpec, PartialOrdSpec};
use core::cmp::Ordering;

verus! {

/// `a` sorts strictly before `b` in the order that `Ord` gives `K`.
pub open spec fn lt<K: Ord>(a: K, b: K) -> bool {
    a.cmp_spec(&b) == Ordering::Less
}

/// The comparisons of `K` behave as their specifications say, they form a
/// total order, and two keys compare equal exactly when they are the same
/// value.
pub open spec fn total_order<K: Ord>() -> bool {
    &&& vstd::laws_cmp::obeys_cmp::<K>()
    &&& vstd::laws_eq::obeys_concrete_eq::<K>()
}

/// Under a total order, `lt` is irreflexive, transitive and trichotomous.
pub proof fn lemma_strict_order<K: Ord>()
    requires
        total_order::<K>(),
    ensures
        forall|a: K| !#[trigger] lt(a, a),
        forall|a: K, b: K| #[trigger] lt(a, b) ==> !lt(b, a) && a != b,
        forall|a: K, b: K| !#[trigger] lt(a, b) && a != b ==> lt(b, a),
        forall|a: K, b: K, c: K| #[trigger] lt(a, b) && #[trigger] lt(b, c) ==> lt(a, c),
{
    reveal(vstd::laws_cmp::obeys_cmp_partial_ord);
    reveal(vstd::laws_cmp::obeys_cmp_ord);
    reveal(vstd::laws_cmp::obeys_partial_cmp_spec_properties);
    reveal(vstd::laws_eq::obeys_concrete_eq);
    assert forall|a: K, b: K| !#[trigger] lt(a, b) && a != b implies lt(b, a) by {
        assert(a.partial_cmp_spec(&b) == Some(a.cmp_spec(&b)));
        assert(b.partial_cmp_spec(&a) == Some(b.cmp_spec(&a)));
        assert(a.partial_cmp_spec(&b) == Some(Ordering::Greater));
    }
    assert forall|a: K, b: K| #[trigger] lt(a, b) implies !lt(b, a) && a != b by {
        assert(a.partial_cmp_spec(&b) == Some(a.cmp_spec(&b)));
        assert(b.partial_cmp_spec(&a) == Some(b.cmp_spec(&a)));
    }
    assert forall|a: K, b: K, c: K| #[trigger] lt(a, b) && #[trigger] lt(b, c) implies lt(a, c) by {
        assert(a.partial_cmp_spec(&b) == Some(a.cmp_spec(&b)));
        assert(b.partial_cmp_spec(&c) == Some(b.cmp_spec(&c)));
        assert(a.partial_cmp_spec(&c) == Some(a.cmp_spec(&c)));
    }
    assert forall|a: K| !#[trigger] lt(a, a) by {
        assert(a.partial_cmp_spec(&a) == Some(a.cmp_spec(&a)));
    }
}

/// `a < b`, as `PartialOrd` computes it.
pub fn less<K: Ord>(a: &K, b: &K) -> (r: bool)
    requires
        total_order::<K>(),
    ensures
        r == lt(*a, *b),
{
    proof {
        reveal(vstd::laws_cmp::obeys_cmp_partial_ord);
        reveal(vstd::laws_cmp::obeys_cmp_ord);
        assert(a.partial_cmp_spec(b) == Some(a.cmp_spec(b)));
    }
    *a < *b
}

/// `a > b`, as `PartialOrd` computes it.
pub fn greater<K: Ord>(a: &K, b: &K) -> (r: bool)
    requires
        total_order::<K>(),
    ensures
        r == lt(*b, *a),
{
    proof {
        reveal(vstd::laws_cmp::obeys_cmp_partial_ord);
        reveal(vstd::laws_cmp::obeys_cmp_ord);
        reveal(vstd::laws_cmp::obeys_partial_cmp_spec_properties);
        assert(a.partial_cmp_spec(b) == Some(a.cmp_spec(b)));
        assert(b.partial_cmp_spec(a) == Some(b.cmp_spec(a)));
    }
    *a > *b
}

/// `a >= b`, as `PartialOrd` computes it.
pub fn at_least<K: Ord>(a: &K, b: &K) -> (r: bool)
    requires
        total_order::<K>(),
    ensures
        r == !lt(*a, *b),
{
    proof {
        reveal(vstd::laws_cmp::obeys_cmp_partial_ord);
        reveal(vstd::laws_cmp::obeys_cmp_ord);
        reveal(vstd::laws_cmp::obeys_partial_cmp_spec_properties);
        assert(a.partial_cmp_spec(b) == Some(a.cmp_spec(b)));
        assert(b.partial_cmp_spec(a) == Some(b.cmp_spec(a)));
    }
    *a >= *b
}

/// The lesser of `a` and `b`, as `Ord::min` picks it: `a` where neither is
/// less than the other.
pub fn lesser<'a, K: Ord>(a: &'a K, b: &'a K) -> (r: &'a K)
    requires
        total_order::<K>(),
    ensures
        *r == if lt(*b, *a) {
            *b
        } else {
            *a
        },
{
    proof {
        reveal(vstd::laws_cmp::obeys_cmp_partial_ord);
        reveal(vstd::laws_cmp::obeys_cmp_ord);
        reveal(vstd::laws_cmp::obeys_partial_cmp_spec_properties);
        assert(a.partial_cmp_spec(b) == Some(a.cmp_spec(b)));
        assert(b.partial_cmp_spec(a) == Some(b.cmp_spec(a)));
    }
    a.min(b)
}

/// A value by which a key is looked up: it stands for a key of type `K`,
/// and compares with keys as that key does. Every key is a probe for itself;
/// a lighter form of a key can be one too.
pub trait Probe<K: Ord> {
    /// The key that this probe stands for.
    spec fn stands_for(&self) -> K;

    /// Whether the probe sorts before `k`.
    fn before(&self, k: &K) -> (r: bool)
        requires
            total_order::<K>(),
        ensures
            r == lt(self.stands_for(), *k),
    ;

    /// Whether the probe sorts after `k`.
    fn after(&self, k: &K) -> (r: bool)
        requires
            total_order::<K>(),
        ensures
            r == lt(*k, self.stands_for()),
    ;
}

impl<K: Ord> Probe<K> for K {
    open spec fn stands_for(&self) -> K {
        *self
    }

    fn before(&self, k: &K) -> (r: bool) {
        less(self, k)
    }

    fn after(&self, k: &K) -> (r: bool) {
        greater(self, k)
    }
}

} // verus!
