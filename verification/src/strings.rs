//! Small operations on `String` that the rest of the crate builds on.

use vstd::prelude::*;
use vstd::string::StringExecFns;

verus! {

/// Appends one character: `std::string::String::push`, whose documentation says
/// that it appends the given char to the end of the string.
#[verifier::external_body]
pub fn push_char(s: &mut String, c: char)
    ensures
        final(s)@ == old(s)@.push(c),
{
    s.push(c);
}

/// Appends a string slice to `s`.
pub fn push_str(s: &mut String, t: &str)
    ensures
        final(s)@ == old(s)@ + t@,
{
    s.append(t);
}

} // verus!
