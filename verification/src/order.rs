//! The strict total order on keys that the tree is sorted by.

use vstd::prelude::*;
use vstd::std_specs::cmp::PartialOrdSpec;

verus! {

/// `a` sorts strictly before `b`.
pub open spec fn less<K: Ord>(a: K, b: K) -> bool {
    a.partial_cmp_spec(&b) == Some(core::cmp::Ordering::Less)
}

/// The comparison operators of `K` compute a total order in which two keys
/// compare equal exactly when they are the same value.
pub open spec fn obeys_total_order<K: Ord>() -> bool {
    vstd::laws_cmp::obeys_cmp::<K>() && vstd::laws_eq::obeys_concrete_eq::<K>()
}

/// `less` is a strict total order: any two keys are comparable, no key is
/// on both sides of another, and the relation is transitive.
pub proof fn lemma_order<K: Ord>()
    requires
        obeys_total_order::<K>(),
    ensures
        forall|a: K, b: K| #![trigger less(a, b)] less(a, b) || a == b || less(b, a),
        forall|a: K, b: K| #![trigger less(a, b)] less(a, b) ==> !less(b, a) && a != b,
        forall|a: K, b: K, c: K|
            #![trigger less(a, b), less(b, c)]
            less(a, b) && less(b, c) ==> less(a, c),
{
    reveal(vstd::laws_cmp::obeys_partial_cmp_spec_properties);
    reveal(vstd::laws_cmp::obeys_cmp_partial_ord);
    reveal(vstd::laws_cmp::obeys_cmp_ord);
    reveal(vstd::laws_eq::obeys_concrete_eq);
    reveal(vstd::laws_eq::obeys_eq_spec_properties);
}

/// The unsigned 64-bit integers obey the order laws, with `less` being `<`.
pub proof fn lemma_u64_obeys_total_order()
    ensures
        obeys_total_order::<u64>(),
        forall|a: u64, b: u64| less(a, b) == (a < b),
{
    broadcast use vstd::laws_cmp::group_laws_cmp;
    broadcast use vstd::laws_eq::group_laws_eq;

}

/// Whether `a` sorts strictly before `b`.
pub fn key_lt<K: Ord>(a: &K, b: &K) -> (r: bool)
    requires
        obeys_total_order::<K>(),
    ensures
        r == less(*a, *b),
{
    proof {
        reveal(vstd::laws_cmp::obeys_cmp_partial_ord);
    }
    *a < *b
}

} // verus!
