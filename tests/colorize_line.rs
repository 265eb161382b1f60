use colored::Color;
use colorwrap::colorize::{apply_color_rules, find_matches};
use colorwrap::config::{load_color_rules, Rule};
use colorwrap::overlap::{resolve_overlaps, select_disjoint, sort_matches, Match};

fn rules_of(text: &str) -> Vec<Rule> {
    let (rules, diagnostics) = load_color_rules(text);
    assert!(diagnostics.is_empty());
    rules
}

fn m(start: usize, end: usize, rule: usize) -> Match {
    Match { start, end, rule }
}

/// Removes every `ESC [ ... m` sequence from a rendered line.
fn strip_styles(s: &str) -> String {
    let mut out = String::new();
    let mut in_code = false;
    for c in s.chars() {
        if in_code {
            if c == 'm' {
                in_code = false;
            }
        } else if c == '\x1b' {
            in_code = true;
        } else {
            out.push(c);
        }
    }
    out
}

#[test]
fn passthrough_when_coloring_is_off() {
    colored::control::set_override(true);
    let rules = rules_of("[fg:red]\nERR");
    assert_eq!(apply_color_rules("ERR: disk full", &rules, false), "ERR: disk full");
}

#[test]
fn passthrough_without_rules() {
    colored::control::set_override(true);
    let rules: Vec<Rule> = Vec::new();
    assert_eq!(apply_color_rules("ERR: disk full", &rules, true), "ERR: disk full");
    assert_eq!(apply_color_rules("", &rules, true), "");
}

#[test]
fn line_without_matches_is_unchanged() {
    colored::control::set_override(true);
    let rules = rules_of("[fg:red]\nERR");
    assert_eq!(apply_color_rules("all good", &rules, true), "all good");
}

#[test]
fn error_prefix_is_red() {
    colored::control::set_override(true);
    let rules = rules_of("[fg:red]\nERR");
    let out = apply_color_rules("ERR: disk full", &rules, true);
    assert_eq!(out, "\x1b[31mERR\x1b[0m: disk full");
    assert_eq!(strip_styles(&out), "ERR: disk full");
}

#[test]
fn background_color_is_applied() {
    colored::control::set_override(true);
    let rules = rules_of("[fg:red, bg:black]\nERROR.*");
    let out = apply_color_rules("an ERROR here", &rules, true);
    assert_eq!(out, "an \x1b[40;31mERROR here\x1b[0m");
}

#[test]
fn coverage_of_many_matches() {
    colored::control::set_override(true);
    let rules = rules_of("[fg:green]\nOK\n[fg:yellow]\n[0-9]+\n[fg:cyan]\nK 1");
    let line = "OK 12, OK 3, done";
    let out = apply_color_rules(line, &rules, true);
    assert!(out.len() > line.len());
    assert_eq!(strip_styles(&out), line);
}

#[test]
fn multibyte_text_is_kept_whole() {
    colored::control::set_override(true);
    let rules = rules_of("[fg:blue]\né+");
    let out = apply_color_rules("caféé ok é", &rules, true);
    assert_eq!(out, "caf\x1b[34méé\x1b[0m ok \x1b[34mé\x1b[0m");
}

#[test]
fn earlier_rule_wins_a_tie() {
    colored::control::set_override(true);
    let rules = rules_of("[fg:red]\nabc\n[fg:blue]\nabc");
    let out = apply_color_rules("xxabcxx", &rules, true);
    assert_eq!(out, "xx\x1b[31mabc\x1b[0mxx");
}

#[test]
fn longer_match_wins_at_same_start() {
    colored::control::set_override(true);
    let rules = rules_of("[fg:red]\nabc\n[fg:blue]\nabcde");
    let out = apply_color_rules("abcdefg", &rules, true);
    assert_eq!(out, "\x1b[34mabcde\x1b[0mfg");
}

#[test]
fn overlapping_later_match_is_dropped() {
    colored::control::set_override(true);
    let rules = rules_of("[fg:red]\nabc\n[fg:blue]\ncde");
    let out = apply_color_rules("abcdef", &rules, true);
    assert_eq!(out, "\x1b[31mabc\x1b[0mdef");
}

#[test]
fn find_matches_lists_rule_by_rule() {
    let rules = rules_of("[fg:red]\na\n[fg:blue]\nb+");
    let found = find_matches("abba a", &rules);
    assert_eq!(found, vec![m(0, 1, 0), m(3, 4, 0), m(5, 6, 0), m(1, 3, 1)]);
}

#[test]
fn tie_resolution_keeps_first_rule() {
    let acc = resolve_overlaps(&vec![m(2, 5, 1), m(2, 5, 0)]);
    assert_eq!(acc, vec![m(2, 5, 0)]);
}

#[test]
fn longer_span_is_preferred() {
    let acc = resolve_overlaps(&vec![m(0, 3, 0), m(0, 5, 1)]);
    assert_eq!(acc, vec![m(0, 5, 1)]);
}

#[test]
fn resolved_matches_do_not_overlap() {
    let acc = resolve_overlaps(&vec![m(4, 9, 0), m(0, 3, 1), m(2, 6, 0), m(9, 10, 2), m(3, 4, 1)]);
    assert_eq!(acc, vec![m(0, 3, 1), m(3, 4, 1), m(4, 9, 0), m(9, 10, 2)]);
    for w in acc.windows(2) {
        assert!(w[0].end <= w[1].start);
    }
}

#[test]
fn sort_orders_by_start_length_rule() {
    let sorted = sort_matches(&vec![m(3, 4, 0), m(0, 2, 1), m(0, 5, 2), m(0, 2, 0)]);
    assert_eq!(sorted, vec![m(0, 5, 2), m(0, 2, 0), m(0, 2, 1), m(3, 4, 0)]);
}

#[test]
fn select_keeps_greedy_chain() {
    let acc = select_disjoint(&vec![m(0, 4, 0), m(1, 2, 0), m(4, 4, 1), m(4, 6, 0), m(5, 7, 0)]);
    assert_eq!(acc, vec![m(0, 4, 0), m(4, 4, 1), m(4, 6, 0)]);
}

#[test]
fn rule_new_reports_invalid_pattern() {
    assert!(Rule::new("(unclosed", Color::Red, None).is_err());
    let rule = Rule::new("ok", Color::Green, Some(Color::Black)).unwrap();
    assert_eq!(rule.pattern(), "ok");
    assert_eq!(rule.fg_color(), Color::Green);
    assert_eq!(rule.bg_color(), Some(Color::Black));
}

#[test]
fn rendering_is_never_shorter() {
    colored::control::set_override(true);
    let rules = rules_of("[fg:brightred, bg:white]\n[a-z]+\n[fg:green]\n[0-9]");
    for line in ["", "abc 123", "   ", "x1y2z3", "ÀÉ é 9"] {
        let out = apply_color_rules(line, &rules, true);
        assert!(out.len() >= line.len());
        assert_eq!(strip_styles(&out), line);
    }
}

#[test]
fn empty_match_under_longer_one_is_dropped() {
    let acc = resolve_overlaps(&vec![m(0, 0, 0), m(0, 5, 1), m(5, 5, 0)]);
    assert_eq!(acc, vec![m(0, 5, 1), m(5, 5, 0)]);
}
