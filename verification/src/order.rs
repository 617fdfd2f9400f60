//! Sorting a list of numbers and dropping its repetitions, by the
//! standard library. Both contracts are taken on trust from its
//! documentation.

use vstd::prelude::*;

verus! {

/// Every value is at most the values after it.
pub open spec fn ascending(s: Seq<u32>) -> bool {
    forall|i: int, j: int| 0 <= i <= j < s.len() ==> s[i] <= s[j]
}

/// Every value is less than the values after it.
pub open spec fn strictly_ascending(s: Seq<u32>) -> bool {
    forall|i: int, j: int| 0 <= i < j < s.len() ==> s[i] < s[j]
}

/// Calls `sort_unstable` of slices, which puts the values in ascending
/// order and neither adds nor drops one.
#[verifier::external_body]
pub(crate) fn sort_numbers(v: &mut Vec<u32>)
    ensures
        final(v)@.to_multiset() == old(v)@.to_multiset(),
        ascending(final(v)@),
{
    v.sort_unstable();
}

/// Calls `Vec::dedup`, which drops every value that equals the one before
/// it and keeps the order of the others. Of a list in ascending order
/// this leaves each value once.
#[verifier::external_body]
pub(crate) fn dedup_numbers(v: &mut Vec<u32>)
    requires
        ascending(old(v)@),
    ensures
        strictly_ascending(final(v)@),
        forall|x: u32| final(v)@.contains(x) <==> old(v)@.contains(x),
{
    v.dedup();
}

} // verus!
