//! Regular expressions, as the `regex` crate has them.
use regex::Regex;
use vstd::prelude::*;

verus! {

/// A compiled regular expression of the `regex` crate.
#[verifier::external_type_specification]
#[verifier::external_body]
pub struct ExRegex(regex::Regex);

/// The pattern that a regular expression stands for: the one that it was compiled from by
/// `Regex::new`.
pub uninterp spec fn regex_source(regex: Regex) -> Seq<char>;

/// The pattern of a regular expression, if there is one.
pub open spec fn source_of(regex: Option<Regex>) -> Option<Seq<char>> {
    match regex {
        Some(regex) => Some(regex_source(regex)),
        None => None,
    }
}

/// What is wrong with a pattern: the text of the error of `Regex::new`, or none where it compiles.
pub uninterp spec fn regex_fault(pattern: Seq<char>) -> Option<Seq<char>>;

/// Whether there is a match for a pattern anywhere in a text.
pub uninterp spec fn regex_matches(pattern: Seq<char>, text: Seq<char>) -> bool;

/// `Regex::new`: the regular expression with that pattern, or the text of the error. It fails for
/// patterns with a fault in their syntax, and for those that would be larger than ten mebibytes
/// when compiled.
#[verifier::external_body]
pub(crate) fn compile(pattern: &str) -> (result: Result<Regex, String>)
    ensures
        match result {
            Ok(regex) => regex_source(regex) == pattern@ && regex_fault(pattern@) is None,
            Err(text) => regex_fault(pattern@) == Some(text@),
        },
{
    match Regex::new(pattern) {
        Ok(regex) => Ok(regex),
        Err(error) => Err(error.to_string()),
    }
}

/// `Regex::is_match`: whether there is a match for the pattern anywhere in the text.
#[verifier::external_body]
pub(crate) fn is_match(regex: &Regex, text: &str) -> (result: bool)
    ensures
        result == regex_matches(regex_source(*regex), text@),
{
    regex.is_match(text)
}

} // verus!
