use colored::Color;
use colorwrap::color::{color_from_lowercase, parse_color};
use colorwrap::config::{load_color_rules, parse_colors, DiagnosticKind};
use colorwrap::text::{has_prefix, same_text, split_text};

#[test]
fn parse_color_ignores_case() {
    assert_eq!(parse_color("RED"), Color::Red);
    assert_eq!(parse_color("BrightBlue"), Color::BrightBlue);
    assert_eq!(parse_color("brightwhite"), Color::BrightWhite);
    assert_eq!(parse_color("black"), Color::Black);
}

#[test]
fn unknown_color_is_white() {
    assert_eq!(parse_color("purple"), Color::White);
    assert_eq!(parse_color(""), Color::White);
    assert_eq!(parse_color(" red"), Color::White);
}

#[test]
fn lowercase_lookup_is_exact() {
    assert_eq!(color_from_lowercase("cyan"), Color::Cyan);
    assert_eq!(color_from_lowercase("brightmagenta"), Color::BrightMagenta);
    assert_eq!(color_from_lowercase("CYAN"), Color::White);
}

#[test]
fn parse_colors_reads_both_keys() {
    assert_eq!(parse_colors("fg:red, bg:black"), (Some(Color::Red), Some(Color::Black)));
    assert_eq!(parse_colors(" bg:Yellow "), (None, Some(Color::Yellow)));
    assert_eq!(parse_colors("fg:red,fg:green"), (Some(Color::Green), None));
    assert_eq!(parse_colors("color:red"), (None, None));
    assert_eq!(parse_colors("fg: red"), (Some(Color::White), None));
}

#[test]
fn rules_keep_file_order() {
    let (rules, diagnostics) =
        load_color_rules("# colors\n\n[fg:red, bg:black]\nERROR.*\n  [fg:green]  \n  OK$  \n");
    assert!(diagnostics.is_empty());
    assert_eq!(rules.len(), 2);
    assert_eq!(rules[0].pattern(), "ERROR.*");
    assert_eq!(rules[0].fg_color(), Color::Red);
    assert_eq!(rules[0].bg_color(), Some(Color::Black));
    assert_eq!(rules[1].pattern(), "OK$");
    assert_eq!(rules[1].fg_color(), Color::Green);
    assert_eq!(rules[1].bg_color(), None);
}

#[test]
fn pattern_before_declaration_is_ignored() {
    let (rules, diagnostics) = load_color_rules("ERR\n");
    assert!(rules.is_empty());
    assert_eq!(diagnostics.len(), 1);
    assert_eq!(diagnostics[0].line, 1);
    assert_eq!(diagnostics[0].kind, DiagnosticKind::PatternWithoutColor);
    assert_eq!(diagnostics[0].text, "ERR");
}

#[test]
fn invalid_pattern_is_skipped() {
    let (rules, diagnostics) = load_color_rules("[fg:red]\n(unclosed\n[fg:green]\nOK$");
    assert_eq!(rules.len(), 1);
    assert_eq!(rules[0].pattern(), "OK$");
    assert_eq!(rules[0].fg_color(), Color::Green);
    assert_eq!(diagnostics.len(), 1);
    assert_eq!(diagnostics[0].line, 2);
    assert_eq!(diagnostics[0].kind, DiagnosticKind::InvalidPattern);
    assert!(diagnostics[0].error.is_some());
}

#[test]
fn declaration_without_fg_is_reported() {
    let (rules, diagnostics) = load_color_rules("[bg:red]\nfoo\n");
    assert!(rules.is_empty());
    assert_eq!(diagnostics.len(), 2);
    assert_eq!(diagnostics[0].line, 1);
    assert_eq!(diagnostics[0].kind, DiagnosticKind::MissingFg);
    assert_eq!(diagnostics[1].line, 2);
    assert_eq!(diagnostics[1].kind, DiagnosticKind::PatternWithoutColor);
}

#[test]
fn pattern_line_may_look_like_a_declaration() {
    let (rules, diagnostics) = load_color_rules("[fg:cyan]\n# comment\n[fg:red]\n");
    assert!(diagnostics.is_empty());
    assert_eq!(rules.len(), 1);
    assert_eq!(rules[0].pattern(), "[fg:red]");
    assert_eq!(rules[0].fg_color(), Color::Cyan);
}

#[test]
fn empty_file_gives_no_rules() {
    let (rules, diagnostics) = load_color_rules("");
    assert!(rules.is_empty());
    assert!(diagnostics.is_empty());
}

#[test]
fn windows_line_ends_are_trimmed() {
    let (rules, diagnostics) = load_color_rules("[fg:magenta]\r\nwarn\r\n");
    assert!(diagnostics.is_empty());
    assert_eq!(rules.len(), 1);
    assert_eq!(rules[0].pattern(), "warn");
    assert_eq!(rules[0].fg_color(), Color::Magenta);
}

#[test]
fn split_text_keeps_empty_pieces() {
    assert_eq!(split_text("a,b,,c", ','), vec!["a", "b", "", "c"]);
    assert_eq!(split_text("", ','), vec![""]);
    assert_eq!(split_text("x\n", '\n'), vec!["x", ""]);
}

#[test]
fn prefix_and_equality() {
    assert!(has_prefix("fg:red", "fg:"));
    assert!(!has_prefix("fg", "fg:"));
    assert!(!has_prefix("bg:red", "fg:"));
    assert!(same_text("red", "red"));
    assert!(!same_text("red", "rad"));
    assert!(!same_text("red", "redd"));
}
