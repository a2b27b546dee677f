//! Matching an application's output against what a test expects of it.
//!
//! An expected value is a pattern (a repetition pattern, else a multi-line regular
//! expression searched anywhere in the output), a number (matched as the pattern it
//! prints as), nothing (always matched), or a one-entry mapping `and`/`or`/`not` over
//! a list of patterns.
use vstd::prelude::*;
use crate::pattern::{Pattern, regex_compiles, regex_is_match, regex_match_spans};
use crate::text::{chars_of, chars_eq, string_of};
use crate::xregex::{
    all_digits, digits_value, is_group, law_repeat_syntax,
    counting_pattern, repeat_bounds_fit_exec, repeat_parse, xregex,
    xregex_parse, xregex_runnable, xregex_spec,
};
use crate::yaml::{
    YamlMapping, YamlValue, as_str, lookup_sequence, value_as_sequence, value_as_str,
    mapping_get,
};

verus! {

/// `(?m)` followed by `p`.
pub open spec fn multiline(p: Seq<char>) -> Seq<char> {
    seq!['(', '?', 'm', ')'] + p
}

/// Whether the output matches one expected pattern.
pub open spec fn match_spec(output: Seq<char>, expected: Seq<char>) -> bool {
    match xregex_spec(output, expected) {
        Some(v) => v,
        None => regex_is_match(multiline(expected), output),
    }
}

/// The regular expressions that matching `expected` compiles are accepted, and the
/// numbers of a repetition pattern fit in `usize`.
pub open spec fn match_runnable(expected: Seq<char>) -> bool {
    &&& xregex_runnable(expected)
    &&& repeat_parse(expected) is None ==> regex_compiles(multiline(expected))
}

/// Matches the output against one expected pattern.
pub fn try_match_output(output: &str, expected: &str) -> (r: bool)
    requires
        match_runnable(expected@),
    ensures
        r == match_spec(output@, expected@),
{
    match xregex(output, expected) {
        Some(verdict) => verdict,
        None => {
            let ev = chars_of(expected);
            let mut pv: Vec<char> = vec!['(', '?', 'm', ')'];
            crate::text::extend_chars(&mut pv, &ev);
            let ps = string_of(&pv);
            assert(ps@ == multiline(expected@)) by {
                assert(pv@ =~= multiline(expected@));
            }
            let re = Pattern::new(ps.as_str()).unwrap();
            re.find_start(output).is_some()
        },
    }
}

/// Whether `try_match_output` can run on `expected`.
pub fn match_runnable_exec(expected: &str) -> (r: bool)
    ensures
        r == match_runnable(expected@),
{
    let ev = chars_of(expected);
    if !repeat_bounds_fit_exec(&ev) {
        return false;
    }
    match xregex_parse(&ev) {
        Some((group, _, _)) => {
            let mut p: Vec<char> = vec!['(', '?', 'm', ')', '('];
            crate::xregex::extend_range(&mut p, &group, 1, group.len() - 1);
            p.push(')');
            assert(p@ =~= counting_pattern(group@));
            let ps = string_of(&p);
            Pattern::new(ps.as_str()).is_some()
        },
        None => {
            let mut pv: Vec<char> = vec!['(', '?', 'm', ')'];
            crate::text::extend_chars(&mut pv, &ev);
            assert(pv@ =~= multiline(expected@));
            let ps = string_of(&pv);
            Pattern::new(ps.as_str()).is_some()
        },
    }
}

/// Matches the output against one expected pattern; `None` where a regular expression
/// it needs does not compile or a repetition count does not fit in `usize`.
pub fn check_match_output(output: &str, expected: &str) -> (r: Option<bool>)
    ensures
        r is Some <==> match_runnable(expected@),
        r matches Some(b) ==> b == match_spec(output@, expected@),
{
    if match_runnable_exec(expected) {
        Some(try_match_output(output, expected))
    } else {
        None
    }
}

/// The outcome of checking an output against an expected result.
#[derive(Debug)]
pub enum ResultCheck {
    Matched,
    Mismatched,
    /// The result description is not a string, number, null or operator mapping.
    UnsupportedType,
    /// An operator mapping is empty, its last key is not a string, or its entry is
    /// not a list of strings.
    Malformed,
    /// An operator other than `and`, `or` and `not`.
    UnsupportedOperator(String),
    /// A pattern whose regular expression does not compile (or whose counts do not fit).
    InvalidPattern(String),
}

/// `ResultCheck` with its strings as character sequences.
pub enum CheckOutcome {
    Matched,
    Mismatched,
    UnsupportedType,
    Malformed,
    UnsupportedOperator(Seq<char>),
    InvalidPattern(Seq<char>),
}

impl View for ResultCheck {
    type V = CheckOutcome;

    open spec fn view(&self) -> CheckOutcome {
        match self {
            ResultCheck::Matched => CheckOutcome::Matched,
            ResultCheck::Mismatched => CheckOutcome::Mismatched,
            ResultCheck::UnsupportedType => CheckOutcome::UnsupportedType,
            ResultCheck::Malformed => CheckOutcome::Malformed,
            ResultCheck::UnsupportedOperator(s) => CheckOutcome::UnsupportedOperator(s@),
            ResultCheck::InvalidPattern(s) => CheckOutcome::InvalidPattern(s@),
        }
    }
}

/// One pattern against the output.
pub open spec fn check_single(output: Seq<char>, e: Seq<char>) -> CheckOutcome {
    if !match_runnable(e) {
        CheckOutcome::InvalidPattern(e)
    } else if match_spec(output, e) {
        CheckOutcome::Matched
    } else {
        CheckOutcome::Mismatched
    }
}

/// `and`: every pattern matches; patterns are tried in order up to the first that fails.
pub open spec fn check_and(output: Seq<char>, ms: Seq<Seq<char>>) -> CheckOutcome
    decreases ms.len(),
{
    if ms.len() == 0 {
        CheckOutcome::Matched
    } else if !match_runnable(ms[0]) {
        CheckOutcome::InvalidPattern(ms[0])
    } else if !match_spec(output, ms[0]) {
        CheckOutcome::Mismatched
    } else {
        check_and(output, ms.skip(1))
    }
}

/// `or`: some pattern matches; patterns are tried in order up to the first that matches.
pub open spec fn check_or(output: Seq<char>, ms: Seq<Seq<char>>) -> CheckOutcome
    decreases ms.len(),
{
    if ms.len() == 0 {
        CheckOutcome::Mismatched
    } else if !match_runnable(ms[0]) {
        CheckOutcome::InvalidPattern(ms[0])
    } else if match_spec(output, ms[0]) {
        CheckOutcome::Matched
    } else {
        check_or(output, ms.skip(1))
    }
}

/// `not`: no pattern matches; patterns are tried in order up to the first that matches.
pub open spec fn check_not(output: Seq<char>, ms: Seq<Seq<char>>) -> CheckOutcome
    decreases ms.len(),
{
    if ms.len() == 0 {
        CheckOutcome::Matched
    } else if !match_runnable(ms[0]) {
        CheckOutcome::InvalidPattern(ms[0])
    } else if match_spec(output, ms[0]) {
        CheckOutcome::Mismatched
    } else {
        check_not(output, ms.skip(1))
    }
}

/// Every item is a string.
pub open spec fn all_strings(items: Seq<YamlValue>) -> bool {
    forall|i: int| 0 <= i < items.len() ==> (#[trigger] as_str(items[i])) is Some
}

/// The operator of an operator mapping (its last key) and its list of patterns.
pub open spec fn result_map_parse(m: Seq<(YamlValue, YamlValue)>) -> Option<
    (Seq<char>, Seq<Seq<char>>),
> {
    if m.len() == 0 {
        None
    } else {
        match as_str(m.last().0) {
            None => None,
            Some(op) => match lookup_sequence(m, op) {
                None => None,
                Some(items) => if all_strings(items) {
                    Some((op, items.map_values(|v: YamlValue| as_str(v).unwrap())))
                } else {
                    None
                },
            },
        }
    }
}

pub open spec fn op_and() -> Seq<char> {
    seq!['a', 'n', 'd']
}

pub open spec fn op_or() -> Seq<char> {
    seq!['o', 'r']
}

pub open spec fn op_not() -> Seq<char> {
    seq!['n', 'o', 't']
}

/// The outcome of checking `output` against the expected result `expected`.
pub open spec fn check_result(output: Seq<char>, expected: YamlValue) -> CheckOutcome {
    match expected {
        YamlValue::Str(s) => check_single(output, s@),
        YamlValue::Num(n) => check_single(output, n.text@),
        YamlValue::Dict(m) => match result_map_parse(m@) {
            None => CheckOutcome::Malformed,
            Some((op, ms)) => if op == op_and() {
                check_and(output, ms)
            } else if op == op_or() {
                check_or(output, ms)
            } else if op == op_not() {
                check_not(output, ms)
            } else {
                CheckOutcome::UnsupportedOperator(op)
            },
        },
        YamlValue::Null => CheckOutcome::Matched,
        _ => CheckOutcome::UnsupportedType,
    }
}

/// One pattern against the output.
pub fn match_single(output: &str, expected: &String) -> (r: ResultCheck)
    ensures
        r@ == check_single(output@, expected@),
{
    match check_match_output(output, expected.as_str()) {
        None => ResultCheck::InvalidPattern(expected.clone()),
        Some(true) => ResultCheck::Matched,
        Some(false) => ResultCheck::Mismatched,
    }
}

/// Which operator a list check applies.
pub enum MatchOp {
    And,
    Or,
    Not,
}

pub open spec fn check_op(op: MatchOp, output: Seq<char>, ms: Seq<Seq<char>>) -> CheckOutcome {
    match op {
        MatchOp::And => check_and(output, ms),
        MatchOp::Or => check_or(output, ms),
        MatchOp::Not => check_not(output, ms),
    }
}

/// Applies `and`, `or` or `not` to a list of patterns.
pub fn match_list(op: MatchOp, output: &str, matches: &Vec<String>) -> (r: ResultCheck)
    ensures
        r@ == check_op(op, output@, matches@.map_values(|s: String| s@)),
{
    let ghost ms = matches@.map_values(|s: String| s@);
    let mut i: usize = 0;
    assert(ms.skip(0) =~= ms);
    while i < matches.len()
        invariant
            i <= matches.len(),
            ms == matches@.map_values(|s: String| s@),
            check_op(op, output@, ms) == check_op(op, output@, ms.skip(i as int)),
        decreases matches.len() - i,
    {
        let ghost rest = ms.skip(i as int);
        assert(rest[0] == matches@[i as int]@);
        assert(rest.skip(1) =~= ms.skip(i + 1));
        match check_match_output(output, matches[i].as_str()) {
            None => {
                return ResultCheck::InvalidPattern(matches[i].clone());
            },
            Some(m) => {
                match op {
                    MatchOp::And => {
                        if !m {
                            return ResultCheck::Mismatched;
                        }
                    },
                    MatchOp::Or => {
                        if m {
                            return ResultCheck::Matched;
                        }
                    },
                    MatchOp::Not => {
                        if m {
                            return ResultCheck::Mismatched;
                        }
                    },
                }
            },
        }
        i += 1;
    }
    assert(ms.skip(matches.len() as int).len() == 0);
    match op {
        MatchOp::Or => ResultCheck::Mismatched,
        _ => ResultCheck::Matched,
    }
}

/// The operator and pattern list of an operator mapping: its last key and the strings
/// listed under it (`None` where the mapping cannot be read as one).
pub fn parse_result_map(map: &YamlMapping) -> (r: Option<(String, Vec<String>)>)
    ensures
        match r {
            None => result_map_parse(map@) is None,
            Some((op, ms)) => result_map_parse(map@) == Some(
                (op@, ms@.map_values(|s: String| s@)),
            ),
        },
{
    if map.len() == 0 {
        return None;
    }
    let last = &map[map.len() - 1].0;
    let op = match value_as_str(last) {
        None => {
            return None;
        },
        Some(op) => op,
    };
    let seq = match mapping_get(map, op.as_str()) {
        None => {
            return None;
        },
        Some(v) => match value_as_sequence(v) {
            None => {
                return None;
            },
            Some(s) => s,
        },
    };
    assert(lookup_sequence(map@, op@) == Some(seq@));
    assert(map@.last().0 == *last);
    let mut out: Vec<String> = Vec::new();
    let mut i: usize = 0;
    while i < seq.len()
        invariant
            i <= seq.len(),
            map@.len() > 0,
            as_str(map@.last().0) == Some(op@),
            lookup_sequence(map@, op@) == Some(seq@),
            out@.len() == i,
            forall|j: int| 0 <= j < i ==> (#[trigger] as_str(seq@[j])) == Some(out@[j]@),
        decreases seq.len() - i,
    {
        match value_as_str(&seq[i]) {
            None => {
                assert(!all_strings(seq@));
                return None;
            },
            Some(s) => {
                out.push(s.clone());
            },
        }
        i += 1;
    }
    assert(out@.map_values(|s: String| s@) =~= seq@.map_values(
        |v: YamlValue| as_str(v).unwrap(),
    ));
    Some((op.clone(), out))
}

/// Checks `output` against the expected result `expected`.
pub fn evaluate_result(output: &str, expected: &YamlValue) -> (r: ResultCheck)
    ensures
        r@ == check_result(output@, *expected),
{
    match expected {
        YamlValue::Str(s) => match_single(output, s),
        YamlValue::Num(n) => match_single(output, &n.text),
        YamlValue::Dict(m) => match parse_result_map(m) {
            None => ResultCheck::Malformed,
            Some((op, matches)) => {
                let ov = chars_of(op.as_str());
                let and_v = vec!['a', 'n', 'd'];
                let or_v = vec!['o', 'r'];
                let not_v = vec!['n', 'o', 't'];
                assert(and_v@ =~= op_and());
                assert(or_v@ =~= op_or());
                assert(not_v@ =~= op_not());
                if chars_eq(&ov, &and_v) {
                    match_list(MatchOp::And, output, &matches)
                } else if chars_eq(&ov, &or_v) {
                    match_list(MatchOp::Or, output, &matches)
                } else if chars_eq(&ov, &not_v) {
                    match_list(MatchOp::Not, output, &matches)
                } else {
                    ResultCheck::UnsupportedOperator(op)
                }
            },
        },
        YamlValue::Null => ResultCheck::Matched,
        _ => ResultCheck::UnsupportedType,
    }
}

/// The outcome with a match and a mismatch exchanged; the other outcomes stay.
pub open spec fn negated(c: CheckOutcome) -> CheckOutcome {
    match c {
        CheckOutcome::Matched => CheckOutcome::Mismatched,
        CheckOutcome::Mismatched => CheckOutcome::Matched,
        other => other,
    }
}

/// `not` over a list of patterns is the negation of `or` over the same list: it fails
/// exactly when some pattern matches, and stops at the same invalid pattern.
pub proof fn law_not_is_negated_or(output: Seq<char>, ms: Seq<Seq<char>>)
    ensures
        check_not(output, ms) == negated(check_or(output, ms)),
    decreases ms.len(),
{
    if ms.len() > 0 {
        law_not_is_negated_or(output, ms.skip(1));
    }
}

/// `and` over a list of patterns succeeds exactly when every pattern is valid and
/// matches the output.
pub proof fn law_and_all_match(output: Seq<char>, ms: Seq<Seq<char>>)
    ensures
        (check_and(output, ms) == CheckOutcome::Matched) <==> forall|i: int|
            0 <= i < ms.len() ==> match_runnable(#[trigger] ms[i]) && match_spec(output, ms[i]),
    decreases ms.len(),
{
    if ms.len() > 0 {
        law_and_all_match(output, ms.skip(1));
        if check_and(output, ms) == CheckOutcome::Matched {
            assert forall|i: int| 0 <= i < ms.len() implies match_runnable(#[trigger] ms[i])
                && match_spec(output, ms[i]) by {
                if i > 0 {
                    assert(ms.skip(1)[i - 1] == ms[i]);
                }
            }
        }
        if forall|i: int|
            0 <= i < ms.len() ==> match_runnable(#[trigger] ms[i]) && match_spec(output, ms[i]) {
            assert(match_runnable(ms[0]) && match_spec(output, ms[0]));
            assert forall|i: int| 0 <= i < ms.skip(1).len() implies match_runnable(
                #[trigger] ms.skip(1)[i],
            ) && match_spec(output, ms.skip(1)[i]) by {
                assert(ms.skip(1)[i] == ms[i + 1]);
            }
        }
    }
}

/// A repetition pattern `(B){N}` counts its group exactly as a plain expected pattern
/// `(B)` is searched, in multi-line mode (so `^` and `$` match at every line): it holds
/// exactly when `(?m)(B)` has `N` non-overlapping matches, and at least one.
pub proof fn law_repetition_counts_multiline(group: Seq<char>, a: Seq<char>, haystack: Seq<char>)
    requires
        is_group(group),
        all_digits(a),
    ensures
        counting_pattern(group) == multiline(group),
        xregex_spec(haystack, group + seq!['{'] + a + seq!['}']) == Some(
            regex_match_spans(multiline(group), haystack).len() > 0 && regex_match_spans(
                multiline(group),
                haystack,
            ).len() == digits_value(a),
        ),
{
    assert(group =~= seq!['('] + group.subrange(1, group.len() - 1) + seq![')']);
    assert(counting_pattern(group) =~= multiline(group));
    law_repeat_syntax(group, a, a);
}

} // verus!
