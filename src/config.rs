use crate::color::{color_of, is_named, parse_color, style_is_named};
use crate::text::{has_prefix, split_on, split_text, starts_with, text_views, trim_text, trimmed};
use vstd::prelude::*;
use vstd::string::StringSliceAdditionalSpecFns;
use vstd::utf8::is_char_boundary;

verus! {

#[verifier::external_type_specification]
#[verifier::external_body]
pub struct ExRegex(regex::Regex);

#[verifier::external_type_specification]
#[verifier::external_body]
pub struct ExRegexError(regex::Error);

/// Whether `regex::Regex::new` accepts a pattern source.
pub uninterp spec fn regex_compiles(src: Seq<char>) -> bool;

/// Relies on `regex::Regex::new`: it accepts or refuses a pattern by its text alone.
#[verifier::external_body]
fn compile(src: &str) -> (r: Result<regex::Regex, regex::Error>)
    ensures
        r.is_ok() == regex_compiles(src@),
{
    regex::Regex::new(src)
}

/// The byte ranges of the matches that `regex::Regex::find_iter` reports for
/// a regex compiled from `pattern`, searching `hay`.
pub uninterp spec fn spans_of(pattern: Seq<char>, hay: Seq<char>) -> Seq<(usize, usize)>;

/// A pattern bound to a foreground color and an optional background color.
pub struct Rule {
    regex: regex::Regex,
    pattern: String,
    fg_color: colored::Color,
    bg_color: Option<colored::Color>,
}

/// What a rule states: its pattern source and its two colors.
pub struct RuleView {
    pub pattern: Seq<char>,
    pub fg: colored::Color,
    pub bg: Option<colored::Color>,
}

impl View for Rule {
    type V = RuleView;

    closed spec fn view(&self) -> RuleView {
        RuleView { pattern: self.pattern@, fg: self.fg_color, bg: self.bg_color }
    }
}

impl Rule {
    /// A rule's colors are given by name.
    #[verifier::type_invariant]
    spec fn colors_named(&self) -> bool {
        style_is_named(self.fg_color, self.bg_color)
    }

    /// Compiles `pattern` into a rule; fails with the compiler's error when the
    /// pattern is not a valid regular expression.
    pub fn new(pattern: &str, fg: colored::Color, bg: Option<colored::Color>) -> (r: Result<
        Rule,
        regex::Error,
    >)
        requires
            style_is_named(fg, bg),
        ensures
            r.is_ok() == regex_compiles(pattern@),
            r matches Ok(rule) ==> (rule@ == RuleView { pattern: pattern@, fg, bg }),
    {
        match compile(pattern) {
            Ok(re) => Ok(Rule { regex: re, pattern: pattern.to_owned(), fg_color: fg, bg_color: bg }),
            Err(e) => Err(e),
        }
    }

    /// Relies on `regex::Regex::find_iter` on the pattern this rule was
    /// compiled from: its matches are a function of the pattern and the
    /// haystack, come left to right, do not overlap, and start and end on
    /// character boundaries of the haystack.
    #[verifier::external_body]
    pub(crate) fn find_spans(&self, hay: &str) -> (r: Vec<(usize, usize)>)
        ensures
            r@ == spans_of(self@.pattern, hay@),
            forall|i: int|
                0 <= i < r@.len() ==> {
                    let (s, e) = #[trigger] r@[i];
                    &&& s <= e <= hay.spec_bytes().len()
                    &&& is_char_boundary(hay.spec_bytes(), s as int)
                    &&& is_char_boundary(hay.spec_bytes(), e as int)
                },
            forall|i: int| 0 < i < r@.len() ==> r@[i - 1].1 <= (#[trigger] r@[i]).0,
    {
        self.regex.find_iter(hay).map(|m| (m.start(), m.end())).collect()
    }

    pub fn fg_color(&self) -> (r: colored::Color)
        ensures
            r == self@.fg,
            is_named(r),
    {
        proof {
            use_type_invariant(self);
        }
        self.fg_color
    }

    pub fn bg_color(&self) -> (r: Option<colored::Color>)
        ensures
            r == self@.bg,
            r matches Some(b) ==> is_named(b),
    {
        proof {
            use_type_invariant(self);
        }
        self.bg_color
    }

    pub fn pattern(&self) -> (r: &str)
        ensures
            r@ == self@.pattern,
    {
        self.pattern.as_str()
    }
}

pub open spec fn rule_views(v: Seq<Rule>) -> Seq<RuleView> {
    v.map_values(|r: Rule| r@)
}

/// What the parser waits for.
#[derive(Clone, Copy)]
pub enum ParseState {
    /// A style declaration.
    Idle,
    /// The pattern that completes the style declared just before.
    AwaitingPattern(colored::Color, Option<colored::Color>),
}

/// The kind of problem found on a line of a rule file.
#[derive(Clone, Copy, Debug, PartialEq, Eq, Structural)]
pub enum DiagnosticKind {
    /// A style declaration without an `fg` key.
    MissingFg,
    /// A pattern line with no style declared before it.
    PatternWithoutColor,
    /// A pattern that does not compile.
    InvalidPattern,
}

/// A problem found on a line of a rule file; the line is skipped.
#[derive(Debug)]
pub struct Diagnostic {
    /// The line's number, counting from 1.
    pub line: usize,
    /// The line, trimmed.
    pub text: String,
    pub kind: DiagnosticKind,
    /// The compiler's error, for an invalid pattern.
    pub error: Option<regex::Error>,
}

pub struct DiagnosticView {
    pub line: int,
    pub text: Seq<char>,
    pub kind: DiagnosticKind,
}

impl View for Diagnostic {
    type V = DiagnosticView;

    open spec fn view(&self) -> DiagnosticView {
        DiagnosticView { line: self.line as int, text: self.text@, kind: self.kind }
    }
}

pub open spec fn diagnostic_views(v: Seq<Diagnostic>) -> Seq<DiagnosticView> {
    v.map_values(|d: Diagnostic| d@)
}

/// The colors a declaration body names: it is split at commas, each part
/// trimmed, and a part that starts with `fg:` or `bg:` sets that color; a later
/// part overrides an earlier one.
pub open spec fn colors_in(parts: Seq<Seq<char>>) -> (Option<colored::Color>, Option<colored::Color>)
    decreases parts.len(),
{
    if parts.len() == 0 {
        (None, None)
    } else {
        let (fg, bg) = colors_in(parts.drop_last());
        let t = trimmed(parts.last());
        if starts_with(t, "fg:"@) {
            (Some(color_of(t.subrange(3, t.len() as int))), bg)
        } else if starts_with(t, "bg:"@) {
            (fg, Some(color_of(t.subrange(3, t.len() as int))))
        } else {
            (fg, bg)
        }
    }
}

pub open spec fn colors_spec(def: Seq<char>) -> (Option<colored::Color>, Option<colored::Color>) {
    colors_in(split_on(def, ','))
}

/// Reads the foreground and background colors of a declaration body such as
/// `fg:red, bg:black`.
pub fn parse_colors(color_def: &str) -> (r: (Option<colored::Color>, Option<colored::Color>))
    ensures
        r == colors_spec(color_def@),
        r.0 matches Some(c) ==> is_named(c),
        r.1 matches Some(c) ==> is_named(c),
{
    let parts = split_text(color_def, ',');
    let mut fg: Option<colored::Color> = None;
    let mut bg: Option<colored::Color> = None;
    let n = parts.len();
    let mut i: usize = 0;
    proof {
        reveal_strlit("fg:");
        reveal_strlit("bg:");
        assert(text_views(parts@).subrange(0, 0) =~= Seq::<Seq<char>>::empty());
    }
    while i < n
        invariant
            n == parts@.len(),
            i <= n,
            "fg:"@.len() == 3,
            "bg:"@.len() == 3,
            (fg, bg) == colors_in(text_views(parts@).subrange(0, i as int)),
            fg matches Some(c) ==> is_named(c),
            bg matches Some(c) ==> is_named(c),
        decreases n - i,
    {
        let part = trim_text(parts[i].as_str());
        proof {
            let q = text_views(parts@).subrange(0, i as int + 1);
            assert(q.drop_last() =~= text_views(parts@).subrange(0, i as int));
            assert(q.last() == parts@[i as int]@);
        }
        if has_prefix(part, "fg:") {
            let len = part.unicode_len();
            fg = Some(parse_color(part.substring_char(3, len)));
        } else if has_prefix(part, "bg:") {
            let len = part.unicode_len();
            bg = Some(parse_color(part.substring_char(3, len)));
        }
        i = i + 1;
    }
    proof {
        assert(text_views(parts@).subrange(0, n as int) =~= text_views(parts@));
    }
    (fg, bg)
}

/// What a rule file's lines have produced so far.
pub struct ParseView {
    pub state: ParseState,
    pub rules: Seq<RuleView>,
    pub diagnostics: Seq<DiagnosticView>,
}

/// A line the parser passes over: blank, or a comment.
pub open spec fn is_skipped(t: Seq<char>) -> bool {
    t.len() == 0 || t[0] == '#'
}

/// The text between the brackets of a line of the form `[...]`.
pub open spec fn declaration_body(t: Seq<char>) -> Option<Seq<char>> {
    if t.len() >= 2 && t[0] == '[' && t[t.len() - 1] == ']' {
        Some(t.subrange(1, t.len() - 1))
    } else {
        None
    }
}

pub open spec fn with_diagnostic(v: ParseView, n: int, t: Seq<char>, kind: DiagnosticKind) -> ParseView {
    ParseView {
        state: ParseState::Idle,
        rules: v.rules,
        diagnostics: v.diagnostics.push(DiagnosticView { line: n, text: t, kind }),
    }
}

/// One step of the parser on the trimmed line `t`, numbered `n`.
pub open spec fn parse_step(v: ParseView, t: Seq<char>, n: int) -> ParseView {
    if is_skipped(t) {
        v
    } else {
        match v.state {
            ParseState::AwaitingPattern(fg, bg) => if regex_compiles(t) {
                ParseView {
                    state: ParseState::Idle,
                    rules: v.rules.push(RuleView { pattern: t, fg, bg }),
                    diagnostics: v.diagnostics,
                }
            } else {
                with_diagnostic(v, n, t, DiagnosticKind::InvalidPattern)
            },
            ParseState::Idle => match declaration_body(t) {
                Some(body) => match colors_spec(body).0 {
                    Some(fg) => ParseView {
                        state: ParseState::AwaitingPattern(fg, colors_spec(body).1),
                        rules: v.rules,
                        diagnostics: v.diagnostics,
                    },
                    None => with_diagnostic(v, n, t, DiagnosticKind::MissingFg),
                },
                None => with_diagnostic(v, n, t, DiagnosticKind::PatternWithoutColor),
            },
        }
    }
}

/// The parser run over a sequence of lines, each trimmed first.
pub open spec fn parse_lines(lines: Seq<Seq<char>>) -> ParseView
    decreases lines.len(),
{
    if lines.len() == 0 {
        ParseView { state: ParseState::Idle, rules: seq![], diagnostics: seq![] }
    } else {
        parse_step(parse_lines(lines.drop_last()), trimmed(lines.last()), lines.len() as int)
    }
}

/// What a rule file's text yields.
pub open spec fn parse_config(content: Seq<char>) -> ParseView {
    parse_lines(split_on(content, '\n'))
}

/// Parses the text of a rule file into its rules, in the order they appear,
/// and the problems found on the lines it skipped.
pub fn load_color_rules(content: &str) -> (r: (Vec<Rule>, Vec<Diagnostic>))
    ensures
        rule_views(r.0@) == parse_config(content@).rules,
        diagnostic_views(r.1@) == parse_config(content@).diagnostics,
        forall|i: int|
            0 <= i < r.1@.len() ==> ((#[trigger] r.1@[i]).kind == DiagnosticKind::InvalidPattern)
                == r.1@[i].error.is_some(),
{
    let lines = split_text(content, '\n');
    let mut rules: Vec<Rule> = Vec::new();
    let mut diagnostics: Vec<Diagnostic> = Vec::new();
    let mut state = ParseState::Idle;
    let n = lines.len();
    let mut i: usize = 0;
    proof {
        assert(text_views(lines@).subrange(0, 0) =~= Seq::<Seq<char>>::empty());
        assert(rule_views(rules@) =~= Seq::<RuleView>::empty());
        assert(diagnostic_views(diagnostics@) =~= Seq::<DiagnosticView>::empty());
    }
    while i < n
        invariant
            n == lines@.len(),
            i <= n,
            state == parse_lines(text_views(lines@).subrange(0, i as int)).state,
            state matches ParseState::AwaitingPattern(f, b) ==> style_is_named(f, b),
            rule_views(rules@) == parse_lines(text_views(lines@).subrange(0, i as int)).rules,
            diagnostic_views(diagnostics@) == parse_lines(
                text_views(lines@).subrange(0, i as int),
            ).diagnostics,
            forall|k: int|
                0 <= k < diagnostics@.len() ==> ((#[trigger] diagnostics@[k]).kind
                    == DiagnosticKind::InvalidPattern) == diagnostics@[k].error.is_some(),
        decreases n - i,
    {
        let t = trim_text(lines[i].as_str());
        let num = i + 1;
        let ghost v = parse_lines(text_views(lines@).subrange(0, i as int));
        proof {
            let q = text_views(lines@).subrange(0, i as int + 1);
            assert(q.drop_last() =~= text_views(lines@).subrange(0, i as int));
            assert(q.last() == lines@[i as int]@);
            assert(parse_lines(q) == parse_step(v, t@, num as int));
        }
        let skipped = t.is_empty() || t.get_char(0) == '#';
        if !skipped {
            let ghost old_rules = rules@;
            let ghost old_diags = diagnostics@;
            match state {
                ParseState::AwaitingPattern(fg, bg) => {
                    match Rule::new(t, fg, bg) {
                        Ok(rule) => {
                            rules.push(rule);
                            proof {
                                assert(rule_views(rules@) =~= rule_views(old_rules).push(rule@));
                            }
                        },
                        Err(e) => {
                            diagnostics.push(
                                Diagnostic {
                                    line: num,
                                    text: t.to_owned(),
                                    kind: DiagnosticKind::InvalidPattern,
                                    error: Some(e),
                                },
                            );
                            proof {
                                assert(diagnostic_views(diagnostics@) =~= diagnostic_views(
                                    old_diags,
                                ).push(diagnostics@.last()@));
                            }
                        },
                    }
                    state = ParseState::Idle;
                },
                ParseState::Idle => {
                    let len = t.unicode_len();
                    let mut kind = DiagnosticKind::PatternWithoutColor;
                    let mut declared = false;
                    if len >= 2 && t.get_char(0) == '[' && t.get_char(len - 1) == ']' {
                        let (fg, bg) = parse_colors(t.substring_char(1, len - 1));
                        match fg {
                            Some(f) => {
                                state = ParseState::AwaitingPattern(f, bg);
                                declared = true;
                            },
                            None => {
                                kind = DiagnosticKind::MissingFg;
                            },
                        }
                    }
                    if !declared {
                        diagnostics.push(
                            Diagnostic { line: num, text: t.to_owned(), kind, error: None },
                        );
                        proof {
                            assert(diagnostic_views(diagnostics@) =~= diagnostic_views(
                                old_diags,
                            ).push(diagnostics@.last()@));
                        }
                    }
                },
            }
        }
        i = i + 1;
    }
    proof {
        assert(text_views(lines@).subrange(0, n as int) =~= text_views(lines@));
    }
    (rules, diagnostics)
}

/// A line that is neither blank, a comment nor a style declaration, met while
/// no style is pending (as at the start of a file), adds no rule: it is
/// reported with its line number, and the parser stays waiting for a
/// declaration.
pub proof fn lemma_pattern_without_color_ignored(lines: Seq<Seq<char>>, l: Seq<char>)
    requires
        parse_lines(lines).state is Idle,
        !is_skipped(trimmed(l)),
        declaration_body(trimmed(l)) is None,
    ensures
        parse_lines(lines.push(l)).state is Idle,
        parse_lines(lines.push(l)).rules == parse_lines(lines).rules,
        parse_lines(lines.push(l)).diagnostics == parse_lines(lines).diagnostics.push(
            DiagnosticView {
                line: lines.len() as int + 1,
                text: trimmed(l),
                kind: DiagnosticKind::PatternWithoutColor,
            },
        ),
{
    assert(lines.push(l).drop_last() =~= lines);
}

/// A pattern that does not compile under a pending style adds no rule: it is
/// reported with its line number, and a declaration with `fg` followed by a
/// pattern that compiles still adds its rule.
pub proof fn lemma_invalid_pattern_skipped(
    lines: Seq<Seq<char>>,
    bad: Seq<char>,
    decl: Seq<char>,
    pattern: Seq<char>,
)
    requires
        parse_lines(lines).state is AwaitingPattern,
        !is_skipped(trimmed(bad)),
        !regex_compiles(trimmed(bad)),
        !is_skipped(trimmed(decl)),
        declaration_body(trimmed(decl)) matches Some(body) && colors_spec(body).0 is Some,
        !is_skipped(trimmed(pattern)),
        regex_compiles(trimmed(pattern)),
    ensures
        parse_lines(lines.push(bad)).rules == parse_lines(lines).rules,
        parse_lines(lines.push(bad)).diagnostics == parse_lines(lines).diagnostics.push(
            DiagnosticView {
                line: lines.len() as int + 1,
                text: trimmed(bad),
                kind: DiagnosticKind::InvalidPattern,
            },
        ),
        parse_lines(lines.push(bad).push(decl).push(pattern)).rules == parse_lines(
            lines,
        ).rules.push(
            RuleView {
                pattern: trimmed(pattern),
                fg: colors_spec(declaration_body(trimmed(decl))->0).0->0,
                bg: colors_spec(declaration_body(trimmed(decl))->0).1,
            },
        ),
{
    assert(lines.push(bad).drop_last() =~= lines);
    assert(lines.push(bad).push(decl).drop_last() =~= lines.push(bad));
    let l3 = lines.push(bad).push(decl).push(pattern);
    assert(l3.drop_last() =~= lines.push(bad).push(decl));
    let v1 = parse_lines(lines.push(bad));
    assert(v1.state is Idle);
    let v2 = parse_lines(lines.push(bad).push(decl));
    assert(v2 == parse_step(v1, trimmed(decl), lines.len() as int + 2));
    assert(v2.rules == v1.rules);
    assert(v2.state == ParseState::AwaitingPattern(
        colors_spec(declaration_body(trimmed(decl))->0).0->0,
        colors_spec(declaration_body(trimmed(decl))->0).1,
    ));
    assert(parse_lines(l3) == parse_step(v2, trimmed(pattern), lines.len() as int + 3));
}

} // verus!
