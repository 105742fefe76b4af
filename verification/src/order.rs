use std::cmp::Ordering;
use vstd::laws_cmp::obeys_cmp;
use vstd::prelude::*;
use vstd::std_specs::cmp::OrdSpec;

verus! {

/// `a` sorts strictly before `b`.
pub open spec fn key_lt<K: Ord>(a: K, b: K) -> bool {
    a.cmp_spec(&b) == Ordering::Less
}

/// `a` sorts strictly after `b`.
pub open spec fn key_gt<K: Ord>(a: K, b: K) -> bool {
    a.cmp_spec(&b) == Ordering::Greater
}

/// `a` and `b` occupy the same place in the order.
pub open spec fn key_eq<K: Ord>(a: K, b: K) -> bool {
    a.cmp_spec(&b) == Ordering::Equal
}

/// The comparison of `K` is a total order, and the three-way comparison
/// agrees with it.
pub open spec fn total_order<K: Ord>() -> bool {
    obeys_cmp::<K>()
}

/// Under a total order the executable comparison returns what `cmp_spec`
/// says.
pub proof fn lemma_comparison_is_specified<K: Ord>()
    requires
        total_order::<K>(),
    ensures
        K::obeys_cmp_spec(),
{
    reveal(vstd::laws_cmp::obeys_cmp_ord);
}

/// Every key compares equal to itself.
pub proof fn lemma_key_eq_reflexive<K: Ord>(a: K)
    requires
        total_order::<K>(),
    ensures
        key_eq(a, a),
{
    reveal(vstd::laws_cmp::obeys_cmp_ord);
    reveal(vstd::laws_cmp::obeys_partial_cmp_spec_properties);
}

/// Comparing equal does not depend on the side.
pub proof fn lemma_key_eq_symmetric<K: Ord>(a: K, b: K)
    requires
        total_order::<K>(),
        key_eq(a, b),
    ensures
        key_eq(b, a),
{
    reveal(vstd::laws_cmp::obeys_cmp_ord);
    reveal(vstd::laws_cmp::obeys_cmp_partial_ord);
    reveal(vstd::laws_cmp::obeys_partial_cmp_spec_properties);
    reveal(vstd::laws_eq::obeys_eq_spec_properties);
}

/// What sorts before a key sorts before all that the key sorts before.
pub proof fn lemma_key_lt_transitive<K: Ord>(a: K, b: K, c: K)
    requires
        total_order::<K>(),
        key_lt(a, b),
        key_lt(b, c),
    ensures
        key_lt(a, c),
{
    reveal(vstd::laws_cmp::obeys_cmp_ord);
    reveal(vstd::laws_cmp::obeys_partial_cmp_spec_properties);
}

/// A key that compares equal to `b` sorts before what `b` sorts before.
pub proof fn lemma_key_eq_lt<K: Ord>(a: K, b: K, c: K)
    requires
        total_order::<K>(),
        key_eq(a, b),
        key_lt(b, c),
    ensures
        key_lt(a, c),
{
    reveal(vstd::laws_cmp::obeys_cmp_ord);
    reveal(vstd::laws_cmp::obeys_cmp_partial_ord);
    reveal(vstd::laws_cmp::obeys_partial_cmp_spec_properties);
    reveal(vstd::laws_eq::obeys_eq_spec_properties);
    lemma_key_eq_symmetric(a, b);
}

/// What sorts before `b` sorts before the keys that compare equal to `b`.
pub proof fn lemma_key_lt_eq<K: Ord>(a: K, b: K, c: K)
    requires
        total_order::<K>(),
        key_lt(a, b),
        key_eq(b, c),
    ensures
        key_lt(a, c),
{
    reveal(vstd::laws_cmp::obeys_cmp_ord);
    reveal(vstd::laws_cmp::obeys_cmp_partial_ord);
    reveal(vstd::laws_cmp::obeys_partial_cmp_spec_properties);
    reveal(vstd::laws_eq::obeys_eq_spec_properties);
    lemma_key_eq_symmetric(b, c);
}

/// `a` sorts before `b` exactly where `b` sorts after `a`.
pub proof fn lemma_key_lt_flip<K: Ord>(a: K, b: K)
    requires
        total_order::<K>(),
    ensures
        key_lt(a, b) <==> key_gt(b, a),
{
    reveal(vstd::laws_cmp::obeys_cmp_ord);
    reveal(vstd::laws_cmp::obeys_partial_cmp_spec_properties);
}

} // verus!
