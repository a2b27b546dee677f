//! Regular expressions, matched by the `regex` crate.
//!
//! What a regular expression matches is the crate's business; this module names
//! each result it relies on (whether a pattern compiles, whether and where it
//! matches, where the first match starts, what the capture groups hold) and the
//! rest of the library is verified against those names.
use vstd::prelude::*;
use regex::Regex;

verus! {

#[verifier::external_type_specification]
#[verifier::external_body]
pub struct ExRegex(Regex);

/// Whether `regex::Regex::new` accepts `pattern` (syntax and size limit).
pub uninterp spec fn regex_compiles(pattern: Seq<char>) -> bool;

/// `regex::Regex::is_match`: whether `pattern` matches anywhere in `haystack`.
pub uninterp spec fn regex_is_match(pattern: Seq<char>, haystack: Seq<char>) -> bool;

/// `regex::Regex::find_iter`: the successive non-overlapping matches of `pattern` in
/// `haystack`, each as the character positions where it starts and ends.
pub uninterp spec fn regex_match_spans(pattern: Seq<char>, haystack: Seq<char>) -> Seq<(usize, usize)>;

/// Spans within a text of `n` characters, each starting no later than it ends, and
/// each ending no later than the next one starts.
pub open spec fn spans_ordered(spans: Seq<(usize, usize)>, n: nat) -> bool {
    &&& forall|i: int| 0 <= i < spans.len() ==> (#[trigger] spans[i]).0 <= spans[i].1 <= n
    &&& forall|i: int, j: int| 0 <= i < j < spans.len() ==> (#[trigger] spans[i]).1 <= (
    #[trigger] spans[j]).0
}

/// `regex::Regex::find`: the character position where the first match of `pattern`
/// in `haystack` starts, if there is one.
pub uninterp spec fn regex_find_start(pattern: Seq<char>, haystack: Seq<char>) -> Option<nat>;

/// `regex::Regex::captures_iter`: for every successive non-overlapping match, the text
/// of each explicit capture group (numbered from 1), `None` for a group that took no
/// part in the match.
pub uninterp spec fn regex_captures(pattern: Seq<char>, haystack: Seq<char>) -> Seq<
    Seq<Option<Seq<char>>>,
>;

/// A compiled regular expression together with the pattern it was compiled from.
/// The only way to build one is `Pattern::new`, so `compiled` is always the
/// compilation of `source`.
pub struct Pattern {
    source: String,
    compiled: Regex,
}

impl View for Pattern {
    type V = Seq<char>;

    closed spec fn view(&self) -> Seq<char> {
        self.source@
    }
}

impl Pattern {
    /// Calls `regex::Regex::new`; the result is `Some` exactly when the crate accepts
    /// the pattern, and then it holds that pattern.
    #[verifier::external_body]
    pub(crate) fn new(pattern: &str) -> (r: Option<Pattern>)
        ensures
            r is Some <==> regex_compiles(pattern@),
            r matches Some(p) ==> p@ == pattern@,
    {
        match Regex::new(pattern) {
            Ok(re) => Some(Pattern { source: pattern.to_string(), compiled: re }),
            Err(_) => None,
        }
    }

    /// Calls `regex::Regex::is_match`; claims the result is the named one for this
    /// pattern and haystack, and that it says whether `find_iter` yields any match.
    #[verifier::external_body]
    pub(crate) fn is_match(&self, haystack: &str) -> (r: bool)
        ensures
            r == regex_is_match(self@, haystack@),
            r == (regex_match_spans(self@, haystack@).len() > 0),
    {
        self.compiled.is_match(haystack)
    }

    /// Calls `regex::Regex::find_iter` and turns the byte offsets of each match into
    /// character positions; claims they are the named spans, and that they lie in the
    /// haystack in order without overlapping.
    #[verifier::external_body]
    pub(crate) fn match_spans(&self, haystack: &str) -> (r: Vec<(usize, usize)>)
        ensures
            r@ == regex_match_spans(self@, haystack@),
            spans_ordered(r@, haystack@.len()),
    {
        let pos = |b: usize| haystack[..b].chars().count();
        self.compiled.find_iter(haystack).map(|m| (pos(m.start()), pos(m.end()))).collect()
    }

    /// Calls `regex::Regex::find` and turns the byte offset of the match start into a
    /// character position; claims it is the named one, that it lies in the haystack,
    /// and that there is a first match exactly when `is_match` says the pattern matches.
    #[verifier::external_body]
    pub(crate) fn find_start(&self, haystack: &str) -> (r: Option<usize>)
        ensures
            (r is Some) == regex_is_match(self@, haystack@),
            match r {
                Some(i) => regex_find_start(self@, haystack@) == Some(i as nat) && i
                    <= haystack@.len(),
                None => regex_find_start(self@, haystack@) is None,
            },
    {
        self.compiled.find(haystack).map(|m| haystack[..m.start()].chars().count())
    }

    /// Calls `regex::Regex::captures_iter` and copies out the text of every explicit
    /// group of every match; claims the copy is the named one.
    #[verifier::external_body]
    pub(crate) fn captures(&self, haystack: &str) -> (r: Vec<Vec<Option<String>>>)
        ensures
            r.deep_view() == regex_captures(self@, haystack@),
    {
        self.compiled.captures_iter(haystack).map(
            |caps| caps.iter().skip(1).map(|g| g.map(|m| m.as_str().to_string())).collect(),
        ).collect()
    }
}

} // verus!
