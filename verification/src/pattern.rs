//! A compiled text pattern, and the spec-level names for what the regex
//! engine decides about it.

use vstd::prelude::*;

verus! {

/// What `regex::Regex::is_match` returns for a pattern (identified by the
/// source text it was compiled from) and a line: a pure function of the two
/// strings.
pub uninterp spec fn regex_match(pattern: Seq<char>, line: Seq<char>) -> bool;

/// Whether `regex::Regex::new` accepts a pattern source: a pure function of
/// the source text.
pub uninterp spec fn regex_ok(pattern: Seq<char>) -> bool;

#[verifier::external_type_specification]
#[verifier::external_body]
pub struct ExRegex(regex::Regex);

/// A compiled pattern together with the source text it was compiled from.
/// The only constructor is `Pattern::compile`, so the compiled field always
/// comes from the stored source.
pub struct Pattern {
    regex: regex::Regex,
    source: String,
}

impl View for Pattern {
    type V = Seq<char>;

    closed spec fn view(&self) -> Seq<char> {
        self.source@
    }
}

impl Pattern {
    /// Relies on `regex::Regex::new`: whether a pattern source compiles
    /// depends on the source text alone.
    #[verifier::external_body]
    pub(crate) fn compile(source: &str) -> (r: Option<Pattern>)
        ensures
            r is Some <==> regex_ok(source@),
            r matches Some(p) ==> p@ == source@,
    {
        match regex::Regex::new(source) {
            Ok(regex) => Some(Pattern { regex, source: source.to_string() }),
            Err(_) => None,
        }
    }

    /// Relies on `regex::Regex::is_match`: whether the pattern matches
    /// somewhere in `line` is a function of the pattern source and the line.
    #[verifier::external_body]
    pub(crate) fn is_match(&self, line: &str) -> (r: bool)
        ensures
            r == regex_match(self@, line@),
    {
        self.regex.is_match(line)
    }
}

} // verus!
