use crate::text::same_text;
use vstd::prelude::*;

verus! {

#[verifier::external_type_specification]
pub struct ExColor(colored::Color);

/// A color given by name: any but a `TrueColor`, whose codes depend on the
/// terminal's declared support.
pub open spec fn is_named(c: colored::Color) -> bool {
    !(c is TrueColor)
}

/// A foreground and an optional background color, all given by name.
pub open spec fn style_is_named(fg: colored::Color, bg: Option<colored::Color>) -> bool {
    &&& is_named(fg)
    &&& bg matches Some(b) ==> is_named(b)
}

/// What `str::to_lowercase` makes of a sequence of characters.
pub uninterp spec fn lower_of(s: Seq<char>) -> Seq<char>;

/// Relies on `str::to_lowercase`: its result depends on the characters alone.
#[verifier::external_body]
fn lowercase(s: &str) -> (r: String)
    ensures
        r@ == lower_of(s@),
{
    s.to_lowercase()
}

/// The color that a lower-case name stands for; every other name means white.
pub open spec fn color_named(s: Seq<char>) -> colored::Color {
    if s == "red"@ {
        colored::Color::Red
    } else if s == "blue"@ {
        colored::Color::Blue
    } else if s == "green"@ {
        colored::Color::Green
    } else if s == "yellow"@ {
        colored::Color::Yellow
    } else if s == "magenta"@ {
        colored::Color::Magenta
    } else if s == "cyan"@ {
        colored::Color::Cyan
    } else if s == "white"@ {
        colored::Color::White
    } else if s == "black"@ {
        colored::Color::Black
    } else if s == "brightred"@ {
        colored::Color::BrightRed
    } else if s == "brightblue"@ {
        colored::Color::BrightBlue
    } else if s == "brightgreen"@ {
        colored::Color::BrightGreen
    } else if s == "brightyellow"@ {
        colored::Color::BrightYellow
    } else if s == "brightmagenta"@ {
        colored::Color::BrightMagenta
    } else if s == "brightcyan"@ {
        colored::Color::BrightCyan
    } else if s == "brightwhite"@ {
        colored::Color::BrightWhite
    } else {
        colored::Color::White
    }
}

/// The color a name stands for, ignoring case.
pub open spec fn color_of(s: Seq<char>) -> colored::Color {
    color_named(lower_of(s))
}

/// Maps a name already in lower case to its color (white when unknown).
pub fn color_from_lowercase(name: &str) -> (r: colored::Color)
    ensures
        r == color_named(name@),
        is_named(r),
{
    if same_text(name, "red") {
        colored::Color::Red
    } else if same_text(name, "blue") {
        colored::Color::Blue
    } else if same_text(name, "green") {
        colored::Color::Green
    } else if same_text(name, "yellow") {
        colored::Color::Yellow
    } else if same_text(name, "magenta") {
        colored::Color::Magenta
    } else if same_text(name, "cyan") {
        colored::Color::Cyan
    } else if same_text(name, "white") {
        colored::Color::White
    } else if same_text(name, "black") {
        colored::Color::Black
    } else if same_text(name, "brightred") {
        colored::Color::BrightRed
    } else if same_text(name, "brightblue") {
        colored::Color::BrightBlue
    } else if same_text(name, "brightgreen") {
        colored::Color::BrightGreen
    } else if same_text(name, "brightyellow") {
        colored::Color::BrightYellow
    } else if same_text(name, "brightmagenta") {
        colored::Color::BrightMagenta
    } else if same_text(name, "brightcyan") {
        colored::Color::BrightCyan
    } else if same_text(name, "brightwhite") {
        colored::Color::BrightWhite
    } else {
        colored::Color::White
    }
}

/// Maps a color name, in any case, to its color (white when unknown).
pub fn parse_color(color: &str) -> (r: colored::Color)
    ensures
        r == color_of(color@),
        is_named(r),
{
    let lower = lowercase(color);
    color_from_lowercase(lower.as_str())
}

} // verus!
