//! Regular expressions over messages.

use vstd::prelude::*;
use crate::error::Error;

verus! {

/// Whether `regex::Regex::new` accepts the pattern.
pub uninterp spec fn pattern_compiles(pattern: Seq<char>) -> bool;

/// Whether the expression that `regex::Regex::new` makes of the pattern finds
/// a match anywhere in the text, as `regex::Regex::is_match` tells.
pub uninterp spec fn pattern_matches(pattern: Seq<char>, text: Seq<char>) -> bool;

/// The text with which `regex::Regex::new` refuses the pattern, as the
/// `Display` of its error writes it.
pub uninterp spec fn pattern_refusal(pattern: Seq<char>) -> Seq<char>;

/// A compiled regular expression, with the pattern that it was made of.
pub struct Pattern {
    source: String,
    regex: regex::Regex,
}

/// `regex::Regex::new`: the pattern is compiled with the default options, or
/// refused as malformed or too large. The result holds the pattern, or the
/// text of the refusal as its `Display` writes it.
#[verifier::external_body]
fn regex_new(pattern: &str) -> (r: Result<Pattern, String>)
    ensures
        r is Ok <==> pattern_compiles(pattern@),
        r matches Ok(p) ==> p.source@ == pattern@,
        r matches Err(t) ==> t@ == pattern_refusal(pattern@),
{
    match regex::Regex::new(pattern) {
        Ok(regex) => Ok(Pattern { source: pattern.to_owned(), regex }),
        Err(e) => Err(e.to_string()),
    }
}

/// `regex::Regex::is_match`: whether the expression finds a match anywhere
/// in the text.
#[verifier::external_body]
fn regex_is_match(pattern: &Pattern, text: &str) -> (b: bool)
    ensures
        b == pattern_matches(pattern.source@, text@),
{
    pattern.regex.is_match(text)
}

impl Pattern {
    /// The pattern that the expression was compiled from.
    pub closed spec fn source(&self) -> Seq<char> {
        self.source@
    }

    /// Compiles a pattern. A pattern that the compiler refuses gives
    /// `Error::Regex` with the words of the refusal.
    pub fn compile(pattern: &str) -> (r: Result<Pattern, Error>)
        ensures
            r is Ok <==> pattern_compiles(pattern@),
            r matches Ok(p) ==> p.source() == pattern@,
            r matches Err(e) ==> e matches Error::Regex(t) && t@ == pattern_refusal(pattern@),
    {
        match regex_new(pattern) {
            Ok(p) => Ok(p),
            Err(text) => Err(Error::Regex(text)),
        }
    }

    /// Tells whether the expression finds a match anywhere in the text.
    pub fn is_match(&self, text: &str) -> (b: bool)
        ensures
            b == pattern_matches(self.source(), text@),
    {
        regex_is_match(self, text)
    }
}

/// Compiles a filter where one is set. Without a filter there is nothing to
/// compile and nothing to refuse.
pub fn compile_filter(filter: &Option<String>) -> (r: Result<Option<Pattern>, Error>)
    ensures
        r is Ok <==> (filter matches Some(s) ==> pattern_compiles(s@)),
        r matches Ok(p) ==> (p is Some <==> filter is Some),
        r matches Ok(Some(p)) ==> p.source() == filter->0@,
        r matches Err(e) ==> e matches Error::Regex(t) && t@ == pattern_refusal(filter->0@),
{
    match filter {
        Some(s) => match Pattern::compile(s.as_str()) {
            Ok(p) => Ok(Some(p)),
            Err(e) => Err(e),
        },
        None => Ok(None),
    }
}

} // verus!
