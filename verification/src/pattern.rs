//! Regular-expression name patterns, matched by the `regex` crate.
use vstd::prelude::*;

verus! {

#[verifier::external_type_specification]
#[verifier::external_body]
pub struct ExRegex(regex::Regex);

/// What `regex::Regex::new` gives for a pattern source: `Ok` when the pattern
/// compiles, otherwise the error's message.
pub uninterp spec fn regex_new_result(source: Seq<char>) -> Result<(), Seq<char>>;

/// What `regex::Regex::is_match` answers for the compiled `source` on `haystack`.
pub uninterp spec fn regex_is_match(source: Seq<char>, haystack: Seq<char>) -> bool;

/// A compiled regular expression together with the source it was compiled from.
pub struct NamePattern {
    regex: regex::Regex,
    source: String,
}

impl NamePattern {
    /// The source the pattern was compiled from.
    pub closed spec fn source_view(&self) -> Seq<char> {
        self.source@
    }

    /// Compiles `source` with `regex::Regex::new`. The contract claims only that the
    /// outcome and the error message are those that `Regex::new` gives for `source`; the
    /// regular-expression syntax itself is left unstated.
    #[verifier::external_body]
    pub(crate) fn compile(source: &str) -> (r: Result<NamePattern, String>)
        ensures
            match r {
                Ok(p) => regex_new_result(source@) is Ok && p.source_view() == source@,
                Err(e) => regex_new_result(source@) == Err::<(), Seq<char>>(e@),
            },
    {
        match regex::Regex::new(source) {
            Ok(regex) => Ok(NamePattern { regex, source: source.to_string() }),
            Err(err) => Err(err.to_string()),
        }
    }

    /// `regex::Regex::is_match` on `haystack`: the contract names the answer
    /// `regex_is_match(source, haystack)`; what the pattern matches is left unstated.
    #[verifier::external_body]
    pub(crate) fn is_match(&self, haystack: &str) -> (r: bool)
        ensures
            r == regex_is_match(self.source_view(), haystack@),
    {
        self.regex.is_match(haystack)
    }

    /// A copy (`regex::Regex::clone`), compiled from the same source.
    #[verifier::external_body]
    pub(crate) fn clone_pattern(&self) -> (r: NamePattern)
        ensures
            r.source_view() == self.source_view(),
    {
        NamePattern { regex: self.regex.clone(), source: self.source.clone() }
    }
}

} // verus!
