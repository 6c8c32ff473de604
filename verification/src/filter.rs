//! Pattern filters: regular expressions whose matches are removed from tokens.
//!
//! Compiling and matching are the work of the `regex` crate. Its results are
//! given names here, and everything around them is stated over those names.

use regex::Regex;
use vstd::pervasive::unreached;
use vstd::prelude::*;

verus! {

/// `regex::Regex`, a compiled expression. Nothing is known of what is inside
/// it; it is handed on to the calls that use it.
#[verifier::external_type_specification]
#[verifier::external_body]
pub struct ExRegex(regex::Regex);

/// `regex::Error`, the reason why a pattern was refused. Nothing is read from
/// it.
#[verifier::external_type_specification]
#[verifier::external_body]
pub struct ExRegexError(regex::Error);

/// What `Regex::new` makes of a pattern: the compiled expression, or nothing
/// where it refuses the pattern.
pub uninterp spec fn compiled(pattern: Seq<char>) -> Option<Regex>;

/// What `Regex::replace_all` returns for an empty replacement: `text` without
/// the matches of `re`.
pub uninterp spec fn without_matches(re: Regex, text: Seq<char>) -> Seq<char>;

/// The pattern of `url_regex`.
pub open spec fn url_pattern() -> Seq<char> {
    "(https?://www\\.)?[-a-zA-Z0-9@:%._\\+~#=]{2,256}\\.[a-z]{2,6}\\b([-a-zA-Z0-9@:%_\\+.~#?&//=]*)"@
}

/// The pattern of `non_alphanumeric_regex`.
pub open spec fn non_alphanumeric_pattern() -> Seq<char> {
    "[^a-zA-Z\\d\\s:]"@
}

/// The pattern of `newlines_regex`.
pub open spec fn newlines_pattern() -> Seq<char> {
    "[\\r\\n]+"@
}

/// Whether `pattern` is one of the three patterns that this crate ships.
pub open spec fn is_builtin_pattern(pattern: Seq<char>) -> bool {
    pattern == url_pattern() || pattern == non_alphanumeric_pattern() || pattern
        == newlines_pattern()
}

/// Calls `Regex::new`. Trusted: the outcome depends on the pattern alone, so
/// it is `compiled` of the pattern; and the three patterns that this crate
/// ships are well-formed, small expressions, which `Regex::new` accepts.
#[verifier::external_body]
fn compile(pattern: &str) -> (r: Result<Regex, regex::Error>)
    ensures
        r is Ok <==> compiled(pattern@) is Some,
        r is Ok ==> compiled(pattern@) == Some(r->Ok_0),
        is_builtin_pattern(pattern@) ==> r is Ok,
{
    Regex::new(pattern)
}

/// Calls `Regex::replace_all` with the empty string as replacement. Trusted:
/// the outcome depends on the expression and the text alone, so it is
/// `without_matches` of the two.
#[verifier::external_body]
fn remove_matches(re: &Regex, text: &str) -> (out: String)
    ensures
        out@ == without_matches(*re, text@),
{
    re.replace_all(text, "").into_owned()
}

/// Compiles a pattern, so that callers need not name the `regex` crate.
/// Returns `None` exactly where the pattern is refused.
pub fn new_regex(s: &str) -> (r: Option<Regex>)
    ensures
        r == compiled(s@),
{
    match compile(s) {
        Ok(re) => Some(re),
        Err(_) => None,
    }
}

/// An expression that matches URLs.
pub fn url_regex() -> (re: Regex)
    ensures
        compiled(url_pattern()) == Some(re),
{
    match compile(
        "(https?://www\\.)?[-a-zA-Z0-9@:%._\\+~#=]{2,256}\\.[a-z]{2,6}\\b([-a-zA-Z0-9@:%_\\+.~#?&//=]*)",
    ) {
        Ok(re) => re,
        Err(_) => unreached(),
    }
}

/// An expression that matches every character that is neither an ASCII letter,
/// nor a digit, nor whitespace, nor a colon.
pub fn non_alphanumeric_regex() -> (re: Regex)
    ensures
        compiled(non_alphanumeric_pattern()) == Some(re),
{
    match compile("[^a-zA-Z\\d\\s:]") {
        Ok(re) => re,
        Err(_) => unreached(),
    }
}

/// An expression that matches runs of line breaks.
pub fn newlines_regex() -> (re: Regex)
    ensures
        compiled(newlines_pattern()) == Some(re),
{
    match compile("[\\r\\n]+") {
        Ok(re) => re,
        Err(_) => unreached(),
    }
}

/// `token` after each filter in turn has had its matches removed, the first
/// filter first.
pub open spec fn filtered(filters: Seq<Regex>, token: Seq<char>) -> Seq<char>
    decreases filters.len(),
{
    if filters.len() == 0 {
        token
    } else {
        without_matches(filters.last(), filtered(filters.drop_last(), token))
    }
}

/// Removes from `token` the matches of each filter, in the order of the
/// filters; each filter works on what the ones before it left.
pub fn apply_filters(filters: &Vec<Regex>, token: &str) -> (out: String)
    ensures
        out@ == filtered(filters@, token@),
{
    let mut out = token.to_owned();
    let mut i: usize = 0;
    assert(filters@.take(0) == Seq::<Regex>::empty());
    while i < filters.len()
        invariant
            i <= filters.len(),
            out@ == filtered(filters@.take(i as int), token@),
        decreases filters.len() - i,
    {
        assert(filters@.take(i + 1).drop_last() == filters@.take(i as int));
        out = remove_matches(&filters[i], out.as_str());
        i += 1;
    }
    assert(filters@.take(filters.len() as int) == filters@);
    out
}

} // verus!
