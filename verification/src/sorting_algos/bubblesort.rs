//! Bubble sort.

use vstd::prelude::*;
use crate::sorting_algos::order::le;
use crate::sorting_algos::order::lemma_le_total;
use crate::sorting_algos::order::lemma_le_transitive;
use crate::sorting_algos::order::total_order;
use crate::sorting_algos::sorter::ascending;
use crate::sorting_algos::sorter::permutation;
use crate::sorting_algos::sorter::sorts;
use crate::sorting_algos::sorter::Sorter;

verus! {

/// `<[T]>::swap`: exchanges the elements at the two positions, which must
/// both be in bounds, and leaves every other element where it was.
pub assume_specification<E>[ <[E]>::swap ](slice: &mut [E], a: usize, b: usize)
    requires
        a < old(slice)@.len(),
        b < old(slice)@.len(),
    ensures
        final(slice)@ == swapped(old(slice)@, a as int, b as int),
;

/// `s` with the elements at `a` and `b` exchanged.
pub open spec fn swapped<T>(s: Seq<T>, a: int, b: int) -> Seq<T> {
    s.update(a, s[b]).update(b, s[a])
}

/// The last `k` elements of `s` are in non-descending order and none of them
/// comes before an element of the rest: they are where a sort leaves them.
pub open spec fn settled<T: Ord>(s: Seq<T>, k: int) -> bool {
    forall|p: int, q: int|
        0 <= p <= q < s.len() && s.len() - k <= q ==> le(#[trigger] s[p], #[trigger] s[q])
}

/// No element of `s` before position `j` comes after the one at `j`.
pub open spec fn tops<T: Ord>(s: Seq<T>, j: int) -> bool {
    forall|p: int| 0 <= p <= j ==> le(#[trigger] s[p], s[j])
}

/// Replacing the element at `i` takes one copy of it out of the multiset of
/// elements and puts one copy of `v` in.
pub proof fn lemma_update_multiset<T>(s: Seq<T>, i: int, v: T)
    requires
        0 <= i < s.len(),
    ensures
        s.update(i, v).to_multiset() == s.to_multiset().remove(s[i]).insert(v),
{
    broadcast use vstd::seq_lib::group_to_multiset_ensures;

    let u = s.update(i, v);
    vstd::seq_lib::to_multiset_remove(s, i);
    vstd::seq_lib::to_multiset_remove(u, i);
    assert(u.remove(i) =~= s.remove(i));
    assert(u.contains(v));
}

/// Exchanging two elements keeps the multiset of elements.
pub proof fn lemma_swapped_permutation<T>(s: Seq<T>, a: int, b: int)
    requires
        0 <= a < s.len(),
        0 <= b < s.len(),
    ensures
        permutation(swapped(s, a, b), s),
{
    broadcast use vstd::seq_lib::group_to_multiset_ensures;

    if a == b {
        assert(swapped(s, a, b) =~= s);
    } else {
        lemma_update_multiset(s, a, s[b]);
        lemma_update_multiset(s.update(a, s[b]), b, s[a]);
        assert(s.contains(s[a]));
        assert(s.contains(s[b]));
        assert(swapped(s, a, b).to_multiset() =~= s.to_multiset());
    }
}

/// What bubble sort makes of `input`: it sorts it, and leaves it as it is
/// where it is in order already.
pub open spec fn bubble_sorts<T: Ord>(output: Seq<T>, input: Seq<T>) -> bool {
    &&& sorts(output, input)
    &&& ascending(input) ==> output == input
}

/// Bubble sort is idempotent for every element type: what it makes of its
/// own result is that result. `once` and `twice` stand for what two
/// successive calls of `BubbleSort::sort` leave in the slice.
pub proof fn lemma_bubble_sort_idempotent<T: Ord>(input: Seq<T>, once: Seq<T>, twice: Seq<T>)
    requires
        bubble_sorts(once, input),
        bubble_sorts(twice, once),
    ensures
        twice == once,
{
}

/// The sorter that bubbles the largest remaining element to the end, pass by
/// pass.
pub struct BubbleSort;

impl Sorter for BubbleSort {
    /// Sorts by repeated passes over adjacent pairs; a slice that is already
    /// in order is left exactly as it was.
    fn sort<T: Ord>(&self, slice: &mut [T])
        ensures
            bubble_sorts(final(slice)@, old(slice)@),
    {
        let n = slice.len();
        for i in 0..n
            invariant
                total_order::<T>(),
                n == slice@.len(),
                settled(slice@, i as int),
                permutation(slice@, old(slice)@),
                ascending(old(slice)@) ==> slice@ == old(slice)@,
        {
            proof {
                lemma_le_total(slice@[0], slice@[0]);
            }
            for j in 0..(n - i - 1)
                invariant
                    total_order::<T>(),
                    n == slice@.len(),
                    i < n,
                    settled(slice@, i as int),
                    tops(slice@, j as int),
                    permutation(slice@, old(slice)@),
                    ascending(old(slice)@) ==> slice@ == old(slice)@,
            {
                let ghost before = slice@;
                proof {
                    lemma_le_total(before[j as int], before[j + 1]);
                    lemma_le_total(before[j + 1], before[j + 1]);
                    lemma_le_total(before[j as int], before[j as int]);
                }
                if slice[j] > slice[j + 1] {
                    slice.swap(j, j + 1);
                    proof {
                        lemma_swapped_permutation(before, j as int, j + 1);
                    }
                } else {
                    proof {
                        assert forall|p: int| 0 <= p <= j + 1 implies le(
                            #[trigger] before[p],
                            before[j + 1],
                        ) by {
                            if p <= j {
                                lemma_le_transitive(before[p], before[j as int], before[j + 1]);
                            }
                        }
                    }
                }
            }
        }
    }
}

} // verus!
