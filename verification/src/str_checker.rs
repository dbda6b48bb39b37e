//! Character classes and the lexical category predicates for a single atom.
//!
//! An atom is classified by precedence: all digits, then all letters, then
//! mixed alphanumeric; anything else counts as punctuation.

use vstd::prelude::*;
use vstd::string::StrSliceExecFns;

verus! {

/// An ASCII decimal digit.
pub open spec fn digit_char(c: char) -> bool {
    '0' <= c && c <= '9'
}

/// An ASCII alphabetic letter.
pub open spec fn alpha_char(c: char) -> bool {
    ('a' <= c && c <= 'z') || ('A' <= c && c <= 'Z')
}

/// An ASCII letter or digit.
pub open spec fn alnum_char(c: char) -> bool {
    alpha_char(c) || digit_char(c)
}

pub open spec fn all_digits(s: Seq<char>) -> bool {
    forall|i: int| 0 <= i < s.len() ==> digit_char(s[i])
}

pub open spec fn all_alpha(s: Seq<char>) -> bool {
    forall|i: int| 0 <= i < s.len() ==> alpha_char(s[i])
}

pub open spec fn all_alnum(s: Seq<char>) -> bool {
    forall|i: int| 0 <= i < s.len() ==> alnum_char(s[i])
}

#[verifier::when_used_as_spec(digit_char)]
pub fn is_digit_char(c: char) -> (r: bool)
    ensures
        r == digit_char(c),
{
    '0' <= c && c <= '9'
}

#[verifier::when_used_as_spec(alpha_char)]
pub fn is_alpha_char(c: char) -> (r: bool)
    ensures
        r == alpha_char(c),
{
    ('a' <= c && c <= 'z') || ('A' <= c && c <= 'Z')
}

#[verifier::when_used_as_spec(alnum_char)]
pub fn is_alnum_char(c: char) -> (r: bool)
    ensures
        r == alnum_char(c),
{
    is_alpha_char(c) || is_digit_char(c)
}

/// True iff the token is non-empty and every character is a decimal digit.
pub fn is_number(token: &str) -> (r: bool)
    ensures
        r == (token@.len() > 0 && all_digits(token@)),
{
    let n = token.unicode_len();
    if n == 0 {
        return false;
    }
    let mut i: usize = 0;
    while i < n
        invariant
            i <= n,
            n == token@.len(),
            forall|j: int| 0 <= j < i ==> digit_char(token@[j]),
        decreases n - i,
    {
        let c = token.get_char(i);
        if !is_digit_char(c) {
            return false;
        }
        i += 1;
    }
    true
}

/// True iff the token is non-empty and every character is an alphabetic letter.
pub fn is_word(token: &str) -> (r: bool)
    ensures
        r == (token@.len() > 0 && all_alpha(token@)),
{
    let n = token.unicode_len();
    if n == 0 {
        return false;
    }
    let mut i: usize = 0;
    while i < n
        invariant
            i <= n,
            n == token@.len(),
            forall|j: int| 0 <= j < i ==> alpha_char(token@[j]),
        decreases n - i,
    {
        let c = token.get_char(i);
        if !is_alpha_char(c) {
            return false;
        }
        i += 1;
    }
    true
}

/// True iff the token is non-empty and every character is a letter or a digit.
pub fn is_alphanumeric(token: &str) -> (r: bool)
    ensures
        r == (token@.len() > 0 && all_alnum(token@)),
{
    let n = token.unicode_len();
    if n == 0 {
        return false;
    }
    let mut i: usize = 0;
    while i < n
        invariant
            i <= n,
            n == token@.len(),
            forall|j: int| 0 <= j < i ==> alnum_char(token@[j]),
        decreases n - i,
    {
        let c = token.get_char(i);
        if !is_alnum_char(c) {
            return false;
        }
        i += 1;
    }
    true
}

} // verus!
