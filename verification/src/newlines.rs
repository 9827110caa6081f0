//! Finding bytes.

use vstd::prelude::*;

verus! {

/// Finds every position at which `haystack` holds `needle`, in ascending order.
///
/// Calls `memchr::memchr_iter`. What is taken on trust is what it documents: its
/// iterator yields all occurrences of the needle, first to last, and nothing else.
#[verifier::external_body]
pub(crate) fn find_all(needle: u8, haystack: &[u8]) -> (positions: Vec<usize>)
    ensures
        forall|i: int, j: int|
            0 <= i < j < positions@.len() ==> #[trigger] positions@[i] < #[trigger] positions@[j],
        forall|i: int|
            0 <= i < positions@.len() ==> (#[trigger] positions@[i]) < haystack@.len()
                && haystack@[positions@[i] as int] == needle,
        forall|p: usize|
            p < haystack@.len() && #[trigger] haystack@[p as int] == needle
                ==> positions@.contains(p),
{
    memchr::memchr_iter(needle, haystack).collect()
}

} // verus!
