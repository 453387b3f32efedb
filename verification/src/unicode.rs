//! The Unicode classification and case folding that the tokenizer
//! leans on. The standard library computes them from the Unicode
//! tables, which no short specification can restate, so their results
//! are only named here: each is a pure function of its argument, and
//! the rest of the crate reasons through these names.

use vstd::prelude::*;

verus! {

/// Whether `c` has the Unicode `Alphabetic` property, as
/// `char::is_alphabetic` decides it.
pub uninterp spec fn is_alpha(c: char) -> bool;

/// Relies on `char::is_alphabetic`: whether `c` is alphabetic under
/// the Unicode tables; a pure function of `c` that never panics.
#[verifier::external_body]
pub fn char_is_alphabetic(c: char) -> (r: bool)
    ensures
        r == is_alpha(c),
{
    c.is_alphabetic()
}

/// The first character that `char::to_lowercase` yields for `c`.
pub uninterp spec fn lower_first_of(c: char) -> char;

/// Relies on `char::to_lowercase`: yields the Unicode lowercase
/// mapping of `c`, or `c` itself when there is none, so the iterator
/// holds at least one character and `next` cannot return `None`; a
/// pure function of `c`.
#[verifier::external_body]
pub fn char_lower_first(c: char) -> (r: char)
    ensures
        r == lower_first_of(c),
{
    c.to_lowercase().next().unwrap()
}

/// The character sequence that `str::to_lowercase` produces from `s`.
pub uninterp spec fn lower_of(s: Seq<char>) -> Seq<char>;

/// Relies on `str::to_lowercase`: the Unicode lowercase of the whole
/// string, a pure function of its characters.
#[verifier::external_body]
pub fn str_to_lowercase(s: &str) -> (r: String)
    ensures
        r@ == lower_of(s@),
{
    s.to_lowercase()
}

/// Relies on `String::push`: appends the given character to the end
/// of the string.
#[verifier::external_body]
pub fn push_char(s: &mut String, c: char)
    ensures
        final(s)@ == old(s)@.push(c),
{
    s.push(c);
}

} // verus!
