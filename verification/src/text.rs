//! Building the text of a production.

use vstd::prelude::*;

verus! {

/// Appends one character to `text`.
///
/// Trusted: this is `String::push`, which puts the given character at the end
/// of the string and leaves what was there untouched.
#[verifier::external_body]
pub(crate) fn push_char(text: &mut String, c: char)
    ensures
        final(text)@ == old(text)@.push(c),
{
    text.push(c)
}

} // verus!
