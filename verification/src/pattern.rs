//! Regular expressions. Matching is done by an outside crate; this file
//! gives its results names, so that contracts can speak of them.
use regex::Regex;
use vstd::prelude::*;

verus! {

#[verifier::external_type_specification]
#[verifier::external_body]
pub struct ExRegex(Regex);

#[verifier::external_type_specification]
#[verifier::external_body]
pub struct ExRegexError(regex::Error);

/// Whether `Regex::new` accepts the pattern.
pub uninterp spec fn compiles(pattern: Seq<char>) -> bool;

/// The pattern of an expression that `Regex::new` made, as `Regex::as_str`
/// gives it. No expression reaches this crate's functions but through
/// `compile`.
pub uninterp spec fn pattern_of(re: Regex) -> Seq<char>;

/// What `Regex::replace_all` makes of `text`, for the expression compiled
/// from `pattern` and the replacement `rep`.
pub uninterp spec fn replaced(pattern: Seq<char>, text: Seq<char>, rep: Seq<char>) -> Seq<char>;

/// What `Regex::captures_iter` finds in `text`, for the expression compiled
/// from `pattern`: for each match in order its groups, group 0 first, each
/// with the text it matched or `None` where it took no part.
pub uninterp spec fn captured(pattern: Seq<char>, text: Seq<char>) -> Seq<Seq<Option<Seq<char>>>>;

/// `Regex::new`: compiles the pattern, or refuses it. A compiled expression
/// remembers its pattern.
#[verifier::external_body]
pub(crate) fn compile(pattern: &str) -> (r: Result<Regex, regex::Error>)
    ensures
        r is Ok <==> compiles(pattern@),
        r matches Ok(re) ==> pattern_of(re) == pattern@,
{
    Regex::new(pattern)
}

/// `Regex::replace_all` with a string as the replacement.
#[verifier::external_body]
pub(crate) fn replace_matches(re: &Regex, text: &str, rep: &str) -> (r: String)
    ensures
        r@ == replaced(pattern_of(*re), text@, rep@),
{
    re.replace_all(text, rep).into_owned()
}

/// `Regex::captures_iter`, with the groups of each match read out by
/// `Captures::iter`.
#[verifier::external_body]
pub(crate) fn capture_groups(re: &Regex, text: &str) -> (r: Vec<Vec<Option<String>>>)
    ensures
        r.deep_view() == captured(pattern_of(*re), text@),
{
    re.captures_iter(text).map(
        |caps| caps.iter().map(|group| group.map(|m| m.as_str().to_owned())).collect(),
    ).collect()
}

} // verus!
