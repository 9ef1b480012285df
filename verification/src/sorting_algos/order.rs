//! The ordering vocabulary shared by the sorters.

use vstd::prelude::*;
use vstd::laws_cmp::obeys_cmp;
use vstd::laws_cmp::obeys_cmp_ord;
use vstd::laws_cmp::obeys_cmp_partial_ord;
use vstd::laws_cmp::obeys_partial_cmp_spec_properties;
use vstd::laws_eq::obeys_concrete_eq;
use vstd::laws_eq::obeys_eq_spec_properties;
use vstd::std_specs::cmp::PartialOrdIs;
use vstd::std_specs::cmp::PartialOrdSpec;

verus! {

/// `T`'s comparison operators implement a total order that agrees with their
/// specification.
pub open spec fn total_order<T: Ord>() -> bool {
    obeys_cmp::<T>()
}

/// Elements of `T` that compare equal are the same value.
pub open spec fn equal_means_identical<T: Ord>() -> bool {
    obeys_concrete_eq::<T>()
}

/// `a` does not come after `b`.
pub open spec fn le<T: Ord>(a: T, b: T) -> bool {
    a.is_le(&b)
}

/// `a` comes strictly after `b`; this is what the operator `>` computes.
pub open spec fn gt<T: Ord>(a: T, b: T) -> bool {
    a.is_gt(&b)
}

/// Under a total order the comparison operators compute what `le` and `gt`
/// say, `<=` is reflexive, and exactly one of `a <= b` and `a > b` holds.
pub proof fn lemma_le_total<T: Ord>(a: T, b: T)
    requires
        total_order::<T>(),
    ensures
        T::obeys_partial_cmp_spec(),
        le(a, a),
        le(a, b) <==> !gt(a, b),
        gt(a, b) ==> le(b, a),
        le(a, b) || le(b, a),
{
    reveal(obeys_cmp_ord);
    reveal(obeys_cmp_partial_ord);
    reveal(obeys_partial_cmp_spec_properties);
    reveal(obeys_eq_spec_properties);
}

/// Under a total order `<=` is transitive.
pub proof fn lemma_le_transitive<T: Ord>(a: T, b: T, c: T)
    requires
        total_order::<T>(),
        le(a, b),
        le(b, c),
    ensures
        le(a, c),
{
    reveal(obeys_cmp_ord);
    reveal(obeys_cmp_partial_ord);
    reveal(obeys_partial_cmp_spec_properties);
    reveal(obeys_eq_spec_properties);
}

/// Where equal elements are identical, `<=` is antisymmetric.
pub proof fn lemma_le_antisymmetric<T: Ord>(a: T, b: T)
    requires
        total_order::<T>(),
        equal_means_identical::<T>(),
        le(a, b),
        le(b, a),
    ensures
        a == b,
{
    reveal(obeys_cmp_ord);
    reveal(obeys_cmp_partial_ord);
    reveal(obeys_partial_cmp_spec_properties);
    reveal(obeys_eq_spec_properties);
    reveal(obeys_concrete_eq);
}

} // verus!
