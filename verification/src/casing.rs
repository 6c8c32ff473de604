//! The letter-case policy applied to tokens.

use vstd::prelude::*;

verus! {

/// What is done to the letters of incoming tokens.
#[derive(PartialEq, Eq, Structural, Clone, Copy, Debug)]
pub enum LetterCase {
    /// All letters are made upper case.
    Upper,
    /// All letters are made lower case.
    Lower,
    /// Letters are left as they are.
    Any,
}

/// What `str::to_uppercase` returns.
pub uninterp spec fn uppercase(s: Seq<char>) -> Seq<char>;

/// What `str::to_lowercase` returns.
pub uninterp spec fn lowercase(s: Seq<char>) -> Seq<char>;

/// `str::to_uppercase` of std maps every character by Unicode's upper-case
/// rules; the outcome depends on the characters alone.
pub assume_specification[ str::to_uppercase ](s: &str) -> (r: String)
    ensures
        r@ == uppercase(s@),
;

/// `str::to_lowercase` of std maps every character by Unicode's lower-case
/// rules; the outcome depends on the characters alone.
pub assume_specification[ str::to_lowercase ](s: &str) -> (r: String)
    ensures
        r@ == lowercase(s@),
;

/// `s` under the policy `case`.
pub open spec fn with_case(case: LetterCase, s: Seq<char>) -> Seq<char> {
    match case {
        LetterCase::Upper => uppercase(s),
        LetterCase::Lower => lowercase(s),
        LetterCase::Any => s,
    }
}

/// Applies the policy to one token.
pub fn apply_case(case: LetterCase, token: &str) -> (out: String)
    ensures
        out@ == with_case(case, token@),
{
    match case {
        LetterCase::Upper => token.to_uppercase(),
        LetterCase::Lower => token.to_lowercase(),
        LetterCase::Any => token.to_owned(),
    }
}

} // verus!
