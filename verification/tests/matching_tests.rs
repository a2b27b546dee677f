use dpdk_utest::matching::{
    check_match_output, evaluate_result, match_list, parse_result_map, try_match_output,
    MatchOp, ResultCheck,
};
use dpdk_utest::xregex::xregex;
use dpdk_utest::yaml::{YamlNumber, YamlValue};

fn s(x: &str) -> YamlValue {
    YamlValue::Str(x.to_string())
}

fn list(items: &[&str]) -> YamlValue {
    YamlValue::List(items.iter().map(|i| s(i)).collect())
}

fn op_map(op: &str, items: &[&str]) -> YamlValue {
    YamlValue::Dict(vec![(s(op), list(items))])
}

fn strings(items: &[&str]) -> Vec<String> {
    items.iter().map(|i| i.to_string()).collect()
}

#[test]
fn xregex_exact_count() {
    assert_eq!(xregex("aaa", "(a){3}"), Some(true));
    assert_eq!(xregex("aaa", "(a){2}"), Some(false));
    assert_eq!(xregex("rule 1\nrule 2\n", "(rule \\d){2}"), Some(true));
}

#[test]
fn xregex_lower_bound() {
    assert_eq!(xregex("a b a", "(a){2,}"), Some(true));
    assert_eq!(xregex("a b", "(a){2,}"), Some(false));
}

#[test]
fn xregex_upper_bound_starts_at_one() {
    assert_eq!(xregex("aa", "(a){,2}"), Some(true));
    assert_eq!(xregex("aaa", "(a){,2}"), Some(false));
    assert_eq!(xregex("bbb", "(a){,2}"), Some(false));
    assert_eq!(xregex("a", "(a){,0}"), Some(false));
}

#[test]
fn xregex_range() {
    assert_eq!(xregex("aaa", "(a){1,3}"), Some(true));
    assert_eq!(xregex("aaaa", "(a){1,3}"), Some(false));
    assert_eq!(xregex("aaa", "(a){3,1}"), None);
}

#[test]
fn xregex_not_a_repetition() {
    assert_eq!(xregex("abc", "abc"), None);
    assert_eq!(xregex("abc", "(a)"), None);
    assert_eq!(xregex("abc", "(a){x}"), None);
    assert_eq!(xregex("é", "(é){1}"), None);
    assert_eq!(xregex("abc", "(){1}"), None);
}

#[test]
fn xregex_exact_is_closed_range() {
    for h in ["", "ab", "abab", "ab ab ab", "ba"] {
        assert_eq!(xregex(h, "(ab){2}"), xregex(h, "(ab){2,2}"));
        assert_eq!(xregex(h, "(ab){,3}"), xregex(h, "(ab){1,3}"));
    }
}

#[test]
fn try_match_output_searches_lines() {
    assert!(try_match_output("Flow rule #0 created\n", "Flow rule #\\d created"));
    assert!(try_match_output("line1\nport 0 up\n", "^port 0"));
    assert!(!try_match_output("line1\nport 1 up\n", "^port 0"));
    assert!(try_match_output("x1x1\n", "(x1){2}"));
}

#[test]
fn check_match_output_invalid_pattern() {
    assert_eq!(check_match_output("x", "("), None);
    assert_eq!(check_match_output("x", "x"), Some(true));
    assert_eq!(check_match_output("x", "y"), Some(false));
}

#[test]
fn evaluate_string_and_number() {
    assert!(matches!(evaluate_result("rule created", &s("created")), ResultCheck::Matched));
    assert!(matches!(evaluate_result("rule created", &s("deleted")), ResultCheck::Mismatched));
    let n = YamlValue::Num(YamlNumber { text: "1234".to_string(), unsigned: Some(1234) });
    assert!(matches!(evaluate_result("sport = 1234", &n), ResultCheck::Matched));
    assert!(matches!(evaluate_result("sport = 99", &n), ResultCheck::Mismatched));
}

#[test]
fn evaluate_null_and_unsupported() {
    assert!(matches!(evaluate_result("anything", &YamlValue::Null), ResultCheck::Matched));
    assert!(matches!(evaluate_result("anything", &YamlValue::Bool(true)), ResultCheck::UnsupportedType));
    assert!(matches!(evaluate_result("anything", &list(&["a"])), ResultCheck::UnsupportedType));
}

#[test]
fn evaluate_operators() {
    let out = "Flow rule #0 created\nFlow rule #1 created\n";
    assert!(matches!(evaluate_result(out, &op_map("and", &["#0", "#1"])), ResultCheck::Matched));
    assert!(matches!(evaluate_result(out, &op_map("and", &["#0", "#2"])), ResultCheck::Mismatched));
    assert!(matches!(evaluate_result(out, &op_map("or", &["#5", "#1"])), ResultCheck::Matched));
    assert!(matches!(evaluate_result(out, &op_map("or", &["#5", "#6"])), ResultCheck::Mismatched));
    assert!(matches!(evaluate_result(out, &op_map("not", &["#5", "#6"])), ResultCheck::Matched));
    assert!(matches!(evaluate_result(out, &op_map("not", &["#5", "#0"])), ResultCheck::Mismatched));
}

#[test]
fn evaluate_operator_errors() {
    match evaluate_result("x", &op_map("xor", &["x"])) {
        ResultCheck::UnsupportedOperator(op) => assert_eq!(op, "xor"),
        other => panic!("unexpected {:?}", other),
    }
    assert!(matches!(evaluate_result("x", &YamlValue::Dict(vec![])), ResultCheck::Malformed));
    assert!(matches!(
        evaluate_result("x", &YamlValue::Dict(vec![(s("and"), s("x"))])),
        ResultCheck::Malformed
    ));
    assert!(matches!(
        evaluate_result("x", &YamlValue::Dict(vec![(s("and"), YamlValue::List(vec![YamlValue::Null]))])),
        ResultCheck::Malformed
    ));
    match evaluate_result("x", &op_map("and", &["x", "("])) {
        ResultCheck::InvalidPattern(p) => assert_eq!(p, "("),
        other => panic!("unexpected {:?}", other),
    }
    match evaluate_result("x", &s("(")) {
        ResultCheck::InvalidPattern(p) => assert_eq!(p, "("),
        other => panic!("unexpected {:?}", other),
    }
}

#[test]
fn and_stops_at_first_mismatch() {
    // the invalid pattern after the mismatch is never tried
    assert!(matches!(
        match_list(MatchOp::And, "abc", &strings(&["zzz", "("])),
        ResultCheck::Mismatched
    ));
}

#[test]
fn not_is_negated_or_on_values() {
    for ms in [vec!["a"], vec!["q", "b"], vec!["q", "r"], vec![]] {
        let ms = strings(&ms);
        let or = match_list(MatchOp::Or, "abc", &ms);
        let not = match_list(MatchOp::Not, "abc", &ms);
        match or {
            ResultCheck::Matched => assert!(matches!(not, ResultCheck::Mismatched)),
            ResultCheck::Mismatched => assert!(matches!(not, ResultCheck::Matched)),
            other => panic!("unexpected {:?}", other),
        }
    }
}

#[test]
fn parse_result_map_takes_last_key() {
    let m = vec![(s("and"), list(&["a", "b"]))];
    let (op, ms) = parse_result_map(&m).unwrap();
    assert_eq!(op, "and");
    assert_eq!(ms, vec!["a".to_string(), "b".to_string()]);
    let m2 = vec![(s("or"), list(&["a"])), (s("not"), list(&["c"]))];
    let (op2, ms2) = parse_result_map(&m2).unwrap();
    assert_eq!(op2, "not");
    assert_eq!(ms2, vec!["c".to_string()]);
    assert!(parse_result_map(&vec![]).is_none());
}
