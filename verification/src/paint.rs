//! Terminal styling through `colored`.
//!
//! Whether `colored` emits escape codes is decided by the process environment
//! (`CLICOLOR`, `NO_COLOR`, `CLICOLOR_FORCE`, whether stdout is a terminal) and
//! by its global override. So every styling call here is specified by the two
//! outcomes it can have: the text unchanged, or the text wrapped in the style's
//! escape codes. `colored` reads that decision more than once while writing a
//! string out; the contracts take it to stay the same during one call, which
//! holds unless another thread changes the override meanwhile (nothing here
//! changes it). Which of the two outcomes a call has is left unstated.
use colored::Colorize;
use vstd::prelude::*;

verus! {

/// The styles the library applies.
pub enum Paint {
    Bold,
    Dimmed,
    Underline,
    BoldCyan,
    BoldBlue,
}

/// The escape sequence that switches a style on.
pub open spec fn style_code(p: Paint) -> Seq<char> {
    match p {
        Paint::Bold => seq!['\x1b', '[', '1', 'm'],
        Paint::Dimmed => seq!['\x1b', '[', '2', 'm'],
        Paint::Underline => seq!['\x1b', '[', '4', 'm'],
        Paint::BoldCyan => seq!['\x1b', '[', '1', ';', '3', '6', 'm'],
        Paint::BoldBlue => seq!['\x1b', '[', '1', ';', '3', '4', 'm'],
    }
}

/// The escape sequence that switches every style off.
pub open spec fn reset_code() -> Seq<char> {
    seq!['\x1b', '[', '0', 'm']
}

/// `s` with `code` inserted after every reset sequence in it (searched from the
/// left, without overlaps), so that styling resumes after a nested styled part.
pub open spec fn escape_resets(code: Seq<char>, s: Seq<char>) -> Seq<char>
    decreases s.len(),
{
    if s.len() == 0 {
        s
    } else if s.len() >= 4 && s.take(4) == reset_code() {
        reset_code() + code + escape_resets(code, s.skip(4))
    } else {
        seq![s[0]] + escape_resets(code, s.drop_first())
    }
}

/// `s` as it is written out styled with `p` when colouring is on.
pub open spec fn painted(p: Paint, s: Seq<char>) -> Seq<char> {
    style_code(p) + escape_resets(style_code(p), s) + reset_code()
}

/// `r` is what styling `s` with `p` may give: `s` itself when colouring is
/// off, `painted(p, s)` when it is on.
pub open spec fn paints(p: Paint, s: Seq<char>, r: Seq<char>) -> bool {
    r == s || r == painted(p, s)
}

/// `colored`'s `bold()` written out with `to_string()`: the text itself, or
/// the text in the bold escape codes, as the environment decides.
#[verifier::external_body]
pub fn bold(s: &str) -> (r: String)
    ensures
        paints(Paint::Bold, s@, r@),
{
    s.bold().to_string()
}

/// `colored`'s `dimmed()` written out with `to_string()`: the text itself, or
/// the text in the dim escape codes, as the environment decides.
#[verifier::external_body]
pub fn dimmed(s: &str) -> (r: String)
    ensures
        paints(Paint::Dimmed, s@, r@),
{
    s.dimmed().to_string()
}

/// `colored`'s `underline()` written out with `to_string()`: the text itself,
/// or the text in the underline escape codes, as the environment decides.
#[verifier::external_body]
pub fn underline(s: &str) -> (r: String)
    ensures
        paints(Paint::Underline, s@, r@),
{
    s.underline().to_string()
}

/// `colored`'s `bold().cyan()` written out with `to_string()`: the text
/// itself, or the text in the bold cyan escape codes, as the environment decides.
#[verifier::external_body]
pub fn bold_cyan(s: &str) -> (r: String)
    ensures
        paints(Paint::BoldCyan, s@, r@),
{
    s.bold().cyan().to_string()
}

/// `colored`'s `bold().blue()` written out with `to_string()`: the text
/// itself, or the text in the bold blue escape codes, as the environment decides.
#[verifier::external_body]
pub fn bold_blue(s: &str) -> (r: String)
    ensures
        paints(Paint::BoldBlue, s@, r@),
{
    s.bold().blue().to_string()
}

} // verus!
