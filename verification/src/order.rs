//! Numbers in ascending order.

use vstd::prelude::*;

verus! {

/// No element is above a later one.
pub open spec fn ascending(numbers: Seq<u64>) -> bool {
    forall|i: int, j: int| 0 <= i < j < numbers.len() ==> numbers[i] <= numbers[j]
}

/// Every element is below each later one.
pub open spec fn strictly_ascending(numbers: Seq<u64>) -> bool {
    forall|i: int, j: int| 0 <= i < j < numbers.len() ==> numbers[i] < numbers[j]
}

/// `slice::sort_unstable` sorts a slice in ascending order: afterwards it
/// holds what it held before, each number as often as before, and no element
/// is above a later one.
#[verifier::external_body]
pub(crate) fn sort_ascending(numbers: &mut Vec<u64>)
    ensures
        final(numbers)@.to_multiset() == old(numbers)@.to_multiset(),
        ascending(final(numbers)@),
{
    numbers.sort_unstable();
}

/// Sorting a list without repetition gives a strictly ascending list of the
/// same numbers.
pub proof fn lemma_sorted_distinct(before: Seq<u64>, after: Seq<u64>)
    requires
        before.no_duplicates(),
        after.to_multiset() == before.to_multiset(),
        ascending(after),
    ensures
        strictly_ascending(after),
        forall|k: u64| after.contains(k) <==> before.contains(k),
{
    broadcast use vstd::seq_lib::to_multiset_contains;

    before.lemma_multiset_has_no_duplicates();
    after.lemma_multiset_has_no_duplicates_conv();
    assert forall|k: u64| after.contains(k) <==> before.contains(k) by {
        assert(after.contains(k) <==> after.to_multiset().count(k) > 0);
    }
}

} // verus!
