use logselect::render::logselect;
use logselect::rule::{with_fallback, Rule};

fn corpus(v: &[&str]) -> Vec<String> {
    v.iter().map(|s| s.to_string()).collect()
}

fn start_rule(pattern: &str) -> Rule {
    let mut r = Rule::new();
    assert!(r.set_start(pattern));
    r
}

#[test]
fn default_rule_selects_error_line() {
    let lines = corpus(&["a1", "error", "b2", "stop-here", "c3"]);
    let rules = with_fallback(Vec::new());
    assert_eq!(rules.len(), 1);
    let out = logselect(&rules, &lines);
    assert_eq!(out, "error\n");
}

#[test]
fn default_rule_matches_whole_word_only() {
    let lines = corpus(&["errors", "preerror", "an error here"]);
    let rules = with_fallback(Vec::new());
    let out = logselect(&rules, &lines);
    assert_eq!(out, "an error here\n");
}

#[test]
fn forward_stop_selects_through_stop_line() {
    let mut r = start_rule("begin");
    assert!(r.set_stop("end"));
    r.set_limit(10);
    let lines = corpus(&["x", "begin", "mid", "end", "y"]);
    let out = logselect(&vec![r], &lines);
    assert_eq!(out, "begin\nmid\nend\n");
}

#[test]
fn disjoint_selections_render_gap_marker() {
    let lines = corpus(&["line0", "line1", "line2", "line3", "line4"]);
    let rules = vec![start_rule("line1"), start_rule("line3")];
    let out = logselect(&rules, &lines);
    assert_eq!(out, "line1\n\n... ... ...\n\nline3\n");
}

#[test]
fn stop_beyond_limit_yields_no_range() {
    let mut r = start_rule("a");
    assert!(r.set_stop("z"));
    r.set_limit(1);
    let lines = corpus(&["a", "b", "c", "z"]);
    let out = logselect(&vec![r], &lines);
    assert_eq!(out, "");
}

#[test]
fn plain_rule_selects_each_anchor_alone() {
    let lines = corpus(&["hit", "miss", "hit", "miss", "hit"]);
    let out = logselect(&vec![start_rule("hit")], &lines);
    assert_eq!(out, "hit\n\n... ... ...\n\nhit\n\n... ... ...\n\nhit\n");
}

#[test]
fn adjacent_selections_render_without_marker() {
    let lines = corpus(&["hit one", "hit two", "other"]);
    let out = logselect(&vec![start_rule("hit")], &lines);
    assert_eq!(out, "hit one\nhit two\n");
}

#[test]
fn backward_stop_selects_toward_start() {
    let mut r = start_rule("trigger");
    assert!(r.set_stop("opening"));
    r.set_backward(true);
    let lines = corpus(&["noise", "opening", "detail", "trigger", "tail"]);
    let out = logselect(&vec![r], &lines);
    assert_eq!(out, "opening\ndetail\ntrigger\n");
}

#[test]
fn backward_stop_misses_when_absent() {
    let mut r = start_rule("trigger");
    assert!(r.set_stop("absent"));
    r.set_backward(true);
    let lines = corpus(&["noise", "detail", "trigger"]);
    let out = logselect(&vec![r], &lines);
    assert_eq!(out, "");
}

#[test]
fn while_rule_extends_through_consecutive_matches() {
    let mut r = start_rule("head");
    assert!(r.set_while("cont"));
    let lines = corpus(&["head", "cont a", "cont b", "plain", "cont c"]);
    let out = logselect(&vec![r], &lines);
    assert_eq!(out, "head\ncont a\ncont b\n");
}

#[test]
fn while_rule_with_no_matching_step_keeps_anchor() {
    let mut r = start_rule("head");
    assert!(r.set_while("cont"));
    let lines = corpus(&["head", "plain", "x"]);
    let out = logselect(&vec![r], &lines);
    assert_eq!(out, "head\n");
}

#[test]
fn while_rule_stops_at_corpus_boundary() {
    let mut r = start_rule("head");
    assert!(r.set_while("cont"));
    let lines = corpus(&["head", "cont a", "cont b"]);
    let out = logselect(&vec![r], &lines);
    assert_eq!(out, "head\ncont a\ncont b\n");
}

#[test]
fn backward_while_at_index_zero_keeps_anchor() {
    let mut r = start_rule("head");
    assert!(r.set_while("cont"));
    r.set_backward(true);
    let lines = corpus(&["head", "x"]);
    let out = logselect(&vec![r], &lines);
    assert_eq!(out, "head\n");
}

#[test]
fn stop_and_while_together_stop_wins_first() {
    let mut r = start_rule("head");
    assert!(r.set_stop("fin"));
    assert!(r.set_while("cont"));
    let lines = corpus(&["head", "cont", "fin", "cont"]);
    let out = logselect(&vec![r], &lines);
    assert_eq!(out, "head\ncont\nfin\n");
}

#[test]
fn offsets_widen_the_range() {
    let mut r = start_rule("begin");
    assert!(r.set_stop("end"));
    r.set_start_offset(-1);
    r.set_stop_offset(1);
    let lines = corpus(&["before", "begin", "mid", "end", "after"]);
    let out = logselect(&vec![r], &lines);
    assert_eq!(out, "before\nbegin\nmid\nend\nafter\n");
}

#[test]
fn offsets_are_clamped_to_corpus_bounds() {
    let mut r = start_rule("only");
    r.set_start_offset(-100);
    r.set_stop_offset(100);
    let lines = corpus(&["a", "only", "b"]);
    let out = logselect(&vec![r], &lines);
    assert_eq!(out, "a\nonly\nb\n");
}

#[test]
fn resolution_is_idempotent() {
    let lines = corpus(&["a", "error", "b", "error c", "d"]);
    let rules = with_fallback(Vec::new());
    let first = logselect(&rules, &lines);
    let second = logselect(&rules, &lines);
    assert_eq!(first, second);
    assert_eq!(first, "error\n\n... ... ...\n\nerror c\n");
}

#[test]
fn union_of_two_rules_equals_combined_run() {
    let lines = corpus(&["line0", "line1", "line2", "line3", "line4"]);
    let a = start_rule("line1");
    let b = start_rule("line3");
    let alone_a = logselect(&vec![start_rule("line1")], &lines);
    let alone_b = logselect(&vec![start_rule("line3")], &lines);
    assert_eq!(alone_a, "line1\n");
    assert_eq!(alone_b, "line3\n");
    let together = logselect(&vec![a, b], &lines);
    assert_eq!(together, "line1\n\n... ... ...\n\nline3\n");
    let lines2 = corpus(&["x", "both y", "both z", "w"]);
    let overlapping = logselect(&vec![start_rule("both"), start_rule("y")], &lines2);
    assert_eq!(overlapping, "both y\nboth z\n");
}

#[test]
fn rule_order_does_not_change_output() {
    let lines = corpus(&["line0", "line1", "line2", "line3", "line4"]);
    let forward = logselect(&vec![start_rule("line3"), start_rule("line1")], &lines);
    let reversed = logselect(&vec![start_rule("line1"), start_rule("line3")], &lines);
    assert_eq!(forward, reversed);
}

#[test]
fn empty_corpus_renders_nothing() {
    let rules = with_fallback(Vec::new());
    let out = logselect(&rules, &Vec::new());
    assert_eq!(out, "");
}

#[test]
fn no_match_renders_nothing() {
    let lines = corpus(&["a", "b"]);
    let rules = with_fallback(Vec::new());
    assert_eq!(logselect(&rules, &lines), "");
}

#[test]
fn default_limit_reaches_exactly_one_thousand_lines() {
    let mut lines = vec!["anchor".to_string()];
    for i in 0..1000 {
        lines.push(format!("filler {}", i));
    }
    lines.push("fin".to_string());
    let mut near = Rule::new();
    assert!(near.set_start("anchor"));
    assert!(near.set_stop("fin"));
    // the stop line sits at distance 1001: out of reach of the default limit
    assert_eq!(logselect(&vec![near], &lines), "");
    let mut lines2 = vec!["anchor".to_string()];
    for i in 0..999 {
        lines2.push(format!("filler {}", i));
    }
    lines2.push("fin".to_string());
    let mut far = Rule::new();
    assert!(far.set_start("anchor"));
    assert!(far.set_stop("fin"));
    // at distance 1000 the stop line is still within the default limit
    let out = logselect(&vec![far], &lines2);
    assert!(out.starts_with("anchor\nfiller 0\n"));
    assert!(out.ends_with("filler 998\nfin\n"));
    assert_eq!(out.lines().count(), 1001);
}

#[test]
fn try_select_reports_the_raw_inclusive_pair() {
    let mut r = start_rule("begin");
    assert!(r.set_stop("end"));
    let lines = corpus(&["x", "begin", "mid", "end", "y"]);
    assert_eq!(logselect::resolve::try_select(&r, &lines, 1), Some((1, 3)));
    let mut back = start_rule("begin");
    assert!(back.set_stop("x"));
    back.set_backward(true);
    assert_eq!(logselect::resolve::try_select(&back, &lines, 1), Some((1, 0)));
    let mut miss = start_rule("begin");
    assert!(miss.set_stop("absent"));
    assert_eq!(logselect::resolve::try_select(&miss, &lines, 1), None);
}

#[test]
fn resolve_rule_emits_one_range_per_anchor() {
    let lines = corpus(&["hit", "miss", "hit"]);
    let ranges = logselect::resolve::resolve_rule(&start_rule("hit"), &lines);
    assert_eq!(ranges, vec![(0, 1), (2, 3)]);
    let none = logselect::resolve::resolve_rule(&start_rule("absent"), &lines);
    assert_eq!(none, vec![]);
}

#[test]
fn bad_pattern_is_rejected_by_setters() {
    let mut r = Rule::new();
    assert!(!r.set_start("("));
    assert!(!r.set_stop("["));
    assert!(!r.set_while("(unclosed"));
}
