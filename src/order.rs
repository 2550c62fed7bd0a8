use vstd::prelude::*;
use vstd::laws_cmp::obeys_cmp;
use vstd::laws_eq::obeys_concrete_eq;
use vstd::std_specs::cmp::{OrdSpec, PartialOrdSpec};
use core::cmp::Ordering;

verus! {

/// The ordering strategy of a heap: decides whether one value should sit above another.
pub trait HeapOrder<T>: Sized {
    /// `a` should sit above `b`.
    spec fn prefers(&self, a: T, b: T) -> bool;

    /// The conditions under which `less` computes `prefers` and `prefers` is a strict weak order.
    spec fn lawful(&self) -> bool;

    /// A lawful `prefers` is a strict weak order: asymmetric, transitive, and with transitive
    /// incomparability (if `a` does not belong above `b`, nor `b` above `c`, then `a` does not
    /// belong above `c`).
    proof fn lemma_strict_weak_order(&self)
        requires
            self.lawful(),
        ensures
            forall|a: T, b: T| #[trigger] self.prefers(a, b) ==> !self.prefers(b, a),
            forall|a: T, b: T, c: T|
                #[trigger] self.prefers(a, b) && #[trigger] self.prefers(b, c) ==> self.prefers(a, c),
            forall|a: T, b: T, c: T|
                !#[trigger] self.prefers(a, b) && !#[trigger] self.prefers(b, c) ==> !self.prefers(
                    a,
                    c,
                ),
    ;

    /// Computes `prefers`.
    fn less(&self, a: &T, b: &T) -> (r: bool)
        requires
            self.lawful(),
        ensures
            r == self.prefers(*a, *b),
    ;
}

/// Smallest value on top.
pub struct MinOrder;

/// Largest value on top.
pub struct MaxOrder;

/// `T`'s comparison is a total order whose equality is equality of values.
pub open spec fn total_order<T: Ord>() -> bool {
    obeys_cmp::<T>() && obeys_concrete_eq::<T>()
}

/// `a` compares as less than `b`.
pub open spec fn lt_spec<T: Ord>(a: T, b: T) -> bool {
    a.partial_cmp_spec(&b) == Some(Ordering::Less)
}

proof fn lemma_lt_strict_weak<T: Ord>()
    requires
        total_order::<T>(),
    ensures
        forall|a: T, b: T| #[trigger] lt_spec(a, b) ==> !lt_spec(b, a),
        forall|a: T, b: T, c: T| #[trigger] lt_spec(a, b) && #[trigger] lt_spec(b, c) ==> lt_spec(a, c),
        forall|a: T, b: T, c: T|
            !#[trigger] lt_spec(a, b) && !#[trigger] lt_spec(b, c) ==> !lt_spec(a, c),
{
    reveal(vstd::laws_cmp::obeys_partial_cmp_spec_properties);
    reveal(vstd::laws_cmp::obeys_cmp_partial_ord);
    reveal(vstd::laws_cmp::obeys_cmp_ord);
    reveal(vstd::laws_eq::obeys_concrete_eq);
    reveal(vstd::laws_eq::obeys_eq_spec_properties);
    assert forall|a: T, b: T, c: T| !lt_spec(a, b) && !lt_spec(b, c) implies !lt_spec(a, c) by {
        assert(a.partial_cmp_spec(&b) == Some(a.cmp_spec(&b)));
        assert(b.partial_cmp_spec(&c) == Some(b.cmp_spec(&c)));
        assert(a.partial_cmp_spec(&c) == Some(a.cmp_spec(&c)));
    }
    assert forall|a: T, b: T, c: T| !lt_spec(b, a) && !lt_spec(c, b) implies !lt_spec(c, a) by {
        assert(a.partial_cmp_spec(&b) == Some(a.cmp_spec(&b)));
        assert(b.partial_cmp_spec(&c) == Some(b.cmp_spec(&c)));
        assert(a.partial_cmp_spec(&c) == Some(a.cmp_spec(&c)));
    }
}

impl<T: Ord> HeapOrder<T> for MinOrder {
    open spec fn prefers(&self, a: T, b: T) -> bool {
        lt_spec(a, b)
    }

    open spec fn lawful(&self) -> bool {
        total_order::<T>()
    }

    proof fn lemma_strict_weak_order(&self) {
        lemma_lt_strict_weak::<T>();
    }

    fn less(&self, a: &T, b: &T) -> (r: bool) {
        proof {
            reveal(vstd::laws_cmp::obeys_cmp_partial_ord);
        }
        a.lt(b)
    }
}

impl<T: Ord> HeapOrder<T> for MaxOrder {
    open spec fn prefers(&self, a: T, b: T) -> bool {
        lt_spec(b, a)
    }

    open spec fn lawful(&self) -> bool {
        total_order::<T>()
    }

    proof fn lemma_strict_weak_order(&self) {
        lemma_lt_strict_weak::<T>();
    }

    fn less(&self, a: &T, b: &T) -> (r: bool) {
        proof {
            reveal(vstd::laws_cmp::obeys_cmp_partial_ord);
        }
        b.lt(a)
    }
}

} // verus!
