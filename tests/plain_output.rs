use colorwrap::colorize::apply_color_rules;
use colorwrap::config::load_color_rules;

// Kept alone in this file: it turns colored's process-wide switch off, which
// would race with the tests that turn it on.
#[test]
fn environment_without_color_leaves_text_bare() {
    colored::control::set_override(false);
    let (rules, diagnostics) = load_color_rules("[fg:red]\nERR");
    assert!(diagnostics.is_empty());
    let out = apply_color_rules("ERR: disk full", &rules, true);
    assert_eq!(out, "ERR: disk full");
}
