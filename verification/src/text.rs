//! Conversions between `String`/`&str` and `Vec<char>`.
//!
//! The grammar engine works on vectors of characters; these two functions are
//! the only bridge between that representation and Rust's string types.

use vstd::prelude::*;

verus! {

/// Relies on str::chars: yields exactly the characters of the string, in order.
#[verifier::external_body]
pub fn chars_of(s: &str) -> (r: Vec<char>)
    ensures
        r@ == s@,
{
    s.chars().collect()
}

/// Relies on String's FromIterator over char: collecting characters builds the
/// string holding exactly those characters, in order.
#[verifier::external_body]
pub fn string_from_chars(t: &Vec<char>) -> (r: String)
    ensures
        r@ == t@,
{
    t.iter().collect()
}

} // verus!
