//! Regular expressions over one line of text.

use vstd::prelude::*;

verus! {

/// A compiled regular expression of the `regex` crate.
#[verifier::external_type_specification]
#[verifier::external_body]
pub struct ExRegex(regex::Regex);

/// What `regex::Regex::new` reports of a pattern that it does not accept.
pub uninterp spec fn pattern_fault(pattern: Seq<char>) -> Option<Seq<char>>;

/// The capture groups of a pattern in order, group 0 first, each with its name if it has one.
pub uninterp spec fn pattern_groups(pattern: Seq<char>) -> Seq<Option<Seq<char>>>;

/// What each capture group of a pattern holds in its leftmost match in a line.
pub uninterp spec fn line_captures(
    pattern: Seq<char>,
    line: Seq<char>,
) -> Option<Seq<Option<Seq<char>>>>;

/// A pattern together with its compiled form. Both come from `LinePattern::compile`.
pub struct LinePattern {
    source: String,
    regex: regex::Regex,
}

/// The characters of each text that is there.
pub open spec fn maybe_texts(parts: Seq<Option<String>>) -> Seq<Option<Seq<char>>> {
    parts.map_values(
        |part: Option<String>|
            match part {
                Some(text) => Some(text@),
                None => None,
            },
    )
}

impl LinePattern {
    /// The text that the pattern was compiled from.
    pub closed spec fn source(&self) -> Seq<char> {
        self.source@
    }

    /// Calls `regex::Regex::new`. It either compiles the pattern or reports why it cannot,
    /// and which of the two, with what words, follows from the pattern alone.
    #[verifier::external_body]
    pub(crate) fn compile(pattern: &str) -> (r: Result<LinePattern, String>)
        ensures
            match r {
                Ok(compiled) => compiled.source() == pattern@ && pattern_fault(pattern@) is None,
                Err(message) => pattern_fault(pattern@) == Some(message@),
            },
    {
        match regex::Regex::new(pattern) {
            Ok(regex) => Ok(LinePattern { source: pattern.to_owned(), regex }),
            Err(error) => Err(error.to_string()),
        }
    }

    /// Calls `regex::Regex::capture_names`. The list follows from the pattern alone, and its
    /// first entry, for group 0, is there in every pattern and has no name.
    #[verifier::external_body]
    pub(crate) fn groups(&self) -> (r: Vec<Option<String>>)
        ensures
            maybe_texts(r@) == pattern_groups(self.source()),
            r@.len() >= 1,
            r@[0] is None,
    {
        self.regex.capture_names().map(|name| name.map(str::to_owned)).collect()
    }

    /// Calls `regex::Regex::captures`. What the groups hold follows from the pattern and the
    /// line alone. On a match there is one entry per group of the pattern, and group 0, the
    /// match itself, is always among those that hold something.
    #[verifier::external_body]
    pub(crate) fn captures(&self, line: &str) -> (r: Option<Vec<Option<String>>>)
        ensures
            match r {
                Some(groups) => line_captures(self.source(), line@) == Some(maybe_texts(groups@))
                    && groups@.len() == pattern_groups(self.source()).len() && groups@.len() >= 1
                    && groups@[0] is Some,
                None => line_captures(self.source(), line@) is None,
            },
    {
        let found = self.regex.captures(line)?;
        Some(found.iter().map(|part| part.map(|part| part.as_str().to_owned())).collect())
    }
}

} // verus!
