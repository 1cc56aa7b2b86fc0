//! The one place where the library leans on unverified text plumbing.

use vstd::prelude::*;

verus! {

/// Relies on alloc's `FromIterator<char>` for `String`: collecting characters
/// yields the string made of exactly those characters, in order.
#[verifier::external_body]
pub fn chars_to_string(cs: &[char]) -> (r: String)
    ensures
        r@ == cs@,
{
    cs.iter().collect()
}

} // verus!
