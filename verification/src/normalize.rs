//! What every incoming token goes through: the filters, then the custom
//! transform, then the letter-case policy.

use crate::casing::{apply_case, with_case, LetterCase};
use crate::filter::{apply_filters, filtered};
use crate::text::views;
use regex::Regex;
use vstd::prelude::*;

verus! {

/// A custom step that replaces each token by another one. What it returns
/// depends on the token alone, and holds no whitespace.
pub trait Transform {
    /// The token that `apply` returns for `token`.
    spec fn output(&self, token: Seq<char>) -> Seq<char>;

    /// Replaces one token.
    fn apply(&self, token: &str) -> (out: String)
        ensures
            out@ == self.output(token@),
    ;
}

/// Whether `f` can stand as a custom step: it takes every token, and what it
/// returns depends on the characters of the token alone.
pub open spec fn is_pure<F: Fn(&str) -> String>(f: F) -> bool {
    &&& forall|token: &str| call_requires(f, (token,))
    &&& forall|t1: &str, t2: &str, out1: String, out2: String|
        t1@ == t2@ && #[trigger] call_ensures(f, (t1,), out1) && #[trigger] call_ensures(
            f,
            (t2,),
            out2,
        ) ==> out1@ == out2@
}

/// A custom step given as a function from token to token.
pub struct FnTransform<F: Fn(&str) -> String> {
    f: F,
}

impl<F: Fn(&str) -> String> FnTransform<F> {
    #[verifier::type_invariant]
    spec fn inv(self) -> bool {
        is_pure(self.f)
    }

    /// The function that this step applies.
    pub closed spec fn function(self) -> F {
        self.f
    }

    /// Makes a custom step of a function that takes every token and whose
    /// result depends on the token alone.
    pub fn new(f: F) -> (step: FnTransform<F>)
        requires
            is_pure(f),
        ensures
            step.function() == f,
    {
        FnTransform { f }
    }
}

impl<F: Fn(&str) -> String> Transform for FnTransform<F> {
    /// The characters that the function returns for a token of these
    /// characters.
    open spec fn output(&self, token: Seq<char>) -> Seq<char> {
        let (t, s) = choose|t: &str, s: String|
            t@ == token && #[trigger] call_ensures(self.function(), (t,), s);
        s@
    }

    fn apply(&self, token: &str) -> (out: String) {
        proof {
            use_type_invariant(self);
        }
        let out = (self.f)(token);
        assert(call_ensures(self.function(), (token,), out));
        out
    }
}

/// `token` after the custom step, which may be absent.
pub open spec fn transformed(transform: Option<Box<dyn Transform>>, token: Seq<char>) -> Seq<
    char,
> {
    match transform {
        Some(t) => t.output(token),
        None => token,
    }
}

/// `token` after the filters, then the custom step, then the case policy.
pub open spec fn normalized(
    filters: Seq<Regex>,
    transform: Option<Box<dyn Transform>>,
    case: LetterCase,
    token: Seq<char>,
) -> Seq<char> {
    with_case(case, transformed(transform, filtered(filters, token)))
}

/// Every token of `tokens` normalised, in place and in order.
pub open spec fn normalized_all(
    filters: Seq<Regex>,
    transform: Option<Box<dyn Transform>>,
    case: LetterCase,
    tokens: Seq<Seq<char>>,
) -> Seq<Seq<char>> {
    Seq::new(tokens.len(), |i: int| normalized(filters, transform, case, tokens[i]))
}

/// Normalises one token.
pub fn normalize_token(
    filters: &Vec<Regex>,
    transform: &Option<Box<dyn Transform>>,
    case: LetterCase,
    token: &str,
) -> (out: String)
    ensures
        out@ == normalized(filters@, *transform, case, token@),
{
    let clean = apply_filters(filters, token);
    let shaped = match transform {
        Some(t) => t.apply(clean.as_str()),
        None => clean,
    };
    apply_case(case, shaped.as_str())
}

/// Normalises the words of a sentence. The words given are left as they are;
/// the result holds one token for each of them, in the same order.
pub fn normalize(
    filters: &Vec<Regex>,
    transform: &Option<Box<dyn Transform>>,
    case: LetterCase,
    words: &Vec<String>,
) -> (out: Vec<String>)
    ensures
        views(out@) == normalized_all(filters@, *transform, case, views(words@)),
{
    let mut out: Vec<String> = Vec::new();
    let mut i: usize = 0;
    while i < words.len()
        invariant
            i <= words.len(),
            out.len() == i,
            forall|k: int|
                0 <= k < i ==> (#[trigger] out@[k])@ == normalized(
                    filters@,
                    *transform,
                    case,
                    words@[k]@,
                ),
        decreases words.len() - i,
    {
        out.push(normalize_token(filters, transform, case, words[i].as_str()));
        i += 1;
    }
    assert(views(out@) =~= normalized_all(filters@, *transform, case, views(words@)));
    out
}

} // verus!
