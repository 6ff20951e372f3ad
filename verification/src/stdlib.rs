//! Standard-library operations that the library relies on and that vstd does not specify.

use vstd::prelude::*;

verus! {

/// The elements of `s` are in ascending order.
pub open spec fn ascending(s: Seq<i64>) -> bool {
    forall|i: int, j: int| 0 <= i <= j < s.len() ==> s[i] <= s[j]
}

/// std's `slice::sort_unstable` on a vector of integers. Its documentation says
/// that it sorts the slice in ascending order; the result is a permutation of the
/// input.
#[verifier::external_body]
pub(crate) fn sort_ascending(v: &mut Vec<i64>)
    ensures
        ascending(final(v)@),
        final(v)@.to_multiset() == old(v)@.to_multiset(),
{
    v.sort_unstable()
}

/// std's `String::push`: appends `c` to the end of the string.
#[verifier::external_body]
pub(crate) fn push_char(s: &mut String, c: char)
    ensures
        final(s)@ == old(s)@.push(c),
{
    s.push(c)
}

} // verus!
