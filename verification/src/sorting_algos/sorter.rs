//! The sorting interface, what every sorter promises, and what follows from
//! that promise.

use vstd::prelude::*;
use crate::sorting_algos::order::equal_means_identical;
use crate::sorting_algos::order::le;
use crate::sorting_algos::order::lemma_le_antisymmetric;
use crate::sorting_algos::order::total_order;

verus! {

/// No element of `s` comes after a later one.
pub open spec fn ascending<T: Ord>(s: Seq<T>) -> bool {
    forall|i: int, j: int| 0 <= i <= j < s.len() ==> le(s[i], s[j])
}

/// `a` and `b` hold the same elements, each the same number of times.
pub open spec fn permutation<T>(a: Seq<T>, b: Seq<T>) -> bool {
    a.to_multiset() == b.to_multiset()
}

/// `output` is `input` rearranged into non-descending order.
pub open spec fn sorts<T: Ord>(output: Seq<T>, input: Seq<T>) -> bool {
    &&& ascending(output)
    &&& permutation(output, input)
}

/// An in-place sort over any totally ordered element type.
pub trait Sorter {
    /// Rearranges `slice` into non-descending order.
    fn sort<T: Ord>(&self, slice: &mut [T])
        requires
            total_order::<T>(),
        ensures
            sorts(final(slice)@, old(slice)@),
    ;
}

/// Calls `<[T]>::sort` of the standard library, which rearranges the slice
/// into non-descending order and keeps every element. It may panic where
/// `T`'s comparison is no total order, so a total order is required.
#[verifier::external_body]
fn slice_sort<T: Ord>(slice: &mut [T])
    requires
        total_order::<T>(),
    ensures
        sorts(final(slice)@, old(slice)@),
{
    slice.sort();
}

/// The sorter that hands the work to the standard library.
pub struct StdSorter;

impl Sorter for StdSorter {
    fn sort<T: Ord>(&self, slice: &mut [T]) {
        slice_sort(slice);
    }
}

/// Two permutations of each other have the same length, and each element of
/// one occurs in the other.
pub proof fn lemma_permutation_members<T>(a: Seq<T>, b: Seq<T>)
    requires
        permutation(a, b),
    ensures
        a.len() == b.len(),
        forall|i: int| 0 <= i < a.len() ==> b.contains(#[trigger] a[i]),
{
    broadcast use vstd::seq_lib::group_to_multiset_ensures;

    assert(b.len() == b.to_multiset().len());
    assert forall|i: int| 0 <= i < a.len() implies b.contains(#[trigger] a[i]) by {
        assert(b.to_multiset().count(a[i]) > 0);
    }
}

/// Where equal elements are identical, a multiset of elements has only one
/// non-descending arrangement.
pub proof fn lemma_ascending_permutation_unique<T: Ord>(a: Seq<T>, b: Seq<T>)
    requires
        total_order::<T>(),
        equal_means_identical::<T>(),
        ascending(a),
        ascending(b),
        permutation(a, b),
    ensures
        a == b,
    decreases a.len(),
{
    lemma_permutation_members(a, b);
    lemma_permutation_members(b, a);
    if a.len() > 0 {
        // The last elements are the greatest of the same multiset, so they
        // are the same, and what is before them is again a pair of
        // non-descending arrangements of one multiset.
        let last = a.len() - 1;
        let x = a[last];
        let y = b[last];
        let i = choose|i: int| 0 <= i < b.len() && b[i] == x;
        let j = choose|j: int| 0 <= j < a.len() && a[j] == y;
        assert(le(b[i], b[last]) && le(a[j], a[last]));
        lemma_le_antisymmetric(x, y);
        let a_rest = a.drop_last();
        let b_rest = b.drop_last();
        vstd::seq_lib::to_multiset_remove(a, last);
        vstd::seq_lib::to_multiset_remove(b, last);
        assert(ascending(a_rest)) by {
            assert forall|p: int, q: int| 0 <= p <= q < a_rest.len() implies le(
                a_rest[p],
                a_rest[q],
            ) by {
                assert(le(a[p], a[q]));
            }
        }
        assert(ascending(b_rest)) by {
            assert forall|p: int, q: int| 0 <= p <= q < b_rest.len() implies le(
                b_rest[p],
                b_rest[q],
            ) by {
                assert(le(b[p], b[q]));
            }
        }
        lemma_ascending_permutation_unique(a_rest, b_rest);
        assert(a =~= a_rest.push(x));
        assert(b =~= b_rest.push(y));
    }
}

/// Sorting the empty sequence gives the empty sequence.
pub proof fn lemma_sort_of_empty<T: Ord>(input: Seq<T>, output: Seq<T>)
    requires
        input.len() == 0,
        sorts(output, input),
    ensures
        output == input,
{
    lemma_permutation_members(output, input);
}

/// Where equal elements are identical, sorting a sequence that is already in
/// non-descending order changes nothing, whichever sorter does it.
pub proof fn lemma_sort_of_ascending<T: Ord>(input: Seq<T>, output: Seq<T>)
    requires
        total_order::<T>(),
        equal_means_identical::<T>(),
        ascending(input),
        sorts(output, input),
    ensures
        output == input,
{
    lemma_ascending_permutation_unique(output, input);
}

/// Where equal elements are identical, sorting is idempotent: sorting what a
/// sort returned gives it back unchanged, whichever sorters are used.
pub proof fn lemma_sort_idempotent<T: Ord>(input: Seq<T>, once: Seq<T>, twice: Seq<T>)
    requires
        total_order::<T>(),
        equal_means_identical::<T>(),
        sorts(once, input),
        sorts(twice, once),
    ensures
        twice == once,
{
    lemma_ascending_permutation_unique(twice, once);
}

/// Where equal elements are identical, any two sorters agree on every input.
pub proof fn lemma_sorters_agree<T: Ord>(input: Seq<T>, first: Seq<T>, second: Seq<T>)
    requires
        total_order::<T>(),
        equal_means_identical::<T>(),
        sorts(first, input),
        sorts(second, input),
    ensures
        first == second,
{
    lemma_ascending_permutation_unique(first, second);
}

} // verus!
