//! Unicode character classes used by the navigator: delegated to the
//! standard library, whose classification depends on the character alone.

use vstd::prelude::*;

verus! {

/// Whether the standard library classifies `c` as alphanumeric.
pub uninterp spec fn is_alnum(c: char) -> bool;

/// Relies on `char::is_alphanumeric`: a function of the character alone.
#[verifier::external_body]
pub(crate) fn char_is_alphanumeric(c: char) -> (res: bool)
    ensures
        res == is_alnum(c),
{
    c.is_alphanumeric()
}

/// Whether the standard library classifies `c` as whitespace.
pub uninterp spec fn is_space(c: char) -> bool;

/// Relies on `char::is_whitespace`: a function of the character alone.
#[verifier::external_body]
pub(crate) fn char_is_whitespace(c: char) -> (res: bool)
    ensures
        res == is_space(c),
{
    c.is_whitespace()
}

/// Length of `s` once trailing whitespace is removed.
pub open spec fn trim_end_len(s: Seq<char>, n: int) -> int
    decreases n,
{
    if n <= 0 {
        0
    } else if is_space(s[n - 1]) {
        trim_end_len(s, n - 1)
    } else {
        n
    }
}

} // verus!
