//! Character classes and case mapping taken from the standard library.
//!
//! The analysis logic is stated over the spec-level names below; the
//! executable wrappers hand the standard library's answers to verified code.

use vstd::prelude::*;

verus! {

/// Whether `char::is_whitespace` holds of `c` (the Unicode `White_Space`
/// property): a fixed property of the character alone.
pub uninterp spec fn is_ws(c: char) -> bool;

/// Whether `char::is_alphabetic` holds of `c` (the Unicode `Alphabetic`
/// property): a fixed property of the character alone.
pub uninterp spec fn is_alpha(c: char) -> bool;

/// The character sequence `str::to_uppercase` maps `s` to.
pub uninterp spec fn upper_of(s: Seq<char>) -> Seq<char>;

/// The character sequence `str::to_lowercase` maps `s` to.
pub uninterp spec fn lower_of(s: Seq<char>) -> Seq<char>;

/// Relies on `char::is_whitespace`: a pure function of the character.
#[verifier::external_body]
pub(crate) fn char_is_ws(c: char) -> (r: bool)
    ensures
        r == is_ws(c),
{
    c.is_whitespace()
}

/// Relies on `char::is_alphabetic`: a pure function of the character.
#[verifier::external_body]
pub(crate) fn char_is_alpha(c: char) -> (r: bool)
    ensures
        r == is_alpha(c),
{
    c.is_alphabetic()
}

/// Relies on `str::chars`: yields exactly the characters of the string,
/// which are the string's view.
#[verifier::external_body]
pub(crate) fn chars_of(s: &str) -> (r: Vec<char>)
    ensures
        r@ == s@,
{
    s.chars().collect()
}

/// Relies on `String`'s `FromIterator<char>` impl: the collected string
/// holds exactly the characters handed to it, in order.
#[verifier::external_body]
pub(crate) fn string_of(v: &Vec<char>) -> (r: String)
    ensures
        r@ == v@,
{
    v.iter().collect()
}

/// Relies on `str::to_uppercase`: the result depends on the characters alone.
#[verifier::external_body]
pub(crate) fn upper_str(s: &str) -> (r: String)
    ensures
        r@ == upper_of(s@),
{
    s.to_uppercase()
}

/// Relies on `str::to_lowercase`: the result depends on the characters alone.
#[verifier::external_body]
pub(crate) fn lower_str(s: &str) -> (r: String)
    ensures
        r@ == lower_of(s@),
{
    s.to_lowercase()
}

} // verus!
