//! Terminal colours and bold text, as ANSI SGR escape sequences written by
//! `owo_colors`.

use owo_colors::OwoColorize;
use vstd::prelude::*;

verus! {

/// The escape sequence `ESC [ code m`.
pub open spec fn sgr(code: Seq<char>) -> Seq<char> {
    seq!['\x1b', '['] + code + seq!['m']
}

/// `s` in the foreground colour with SGR code `code`, then back to the
/// default foreground colour.
pub open spec fn fg(code: Seq<char>, s: Seq<char>) -> Seq<char> {
    sgr(code) + s + sgr(seq!['3', '9'])
}

pub open spec fn red_spec(s: Seq<char>) -> Seq<char> {
    fg(seq!['3', '1'], s)
}

pub open spec fn green_spec(s: Seq<char>) -> Seq<char> {
    fg(seq!['3', '2'], s)
}

pub open spec fn yellow_spec(s: Seq<char>) -> Seq<char> {
    fg(seq!['3', '3'], s)
}

pub open spec fn cyan_spec(s: Seq<char>) -> Seq<char> {
    fg(seq!['3', '6'], s)
}

pub open spec fn bright_black_spec(s: Seq<char>) -> Seq<char> {
    fg(seq!['9', '0'], s)
}

/// `s` in bold, then all attributes reset.
pub open spec fn bold_spec(s: Seq<char>) -> Seq<char> {
    sgr(seq!['1']) + s + sgr(seq!['0'])
}

/// `s` in red: `OwoColorize::red` displays as `ESC[31m`, the text, then
/// `ESC[39m`.
#[verifier::external_body]
pub(crate) fn red(s: &str) -> (r: String)
    ensures
        r@ == red_spec(s@),
{
    format!("{}", s.red())
}

/// `s` in green: `OwoColorize::green` displays as `ESC[32m`,
/// the text, then `ESC[39m`.
#[verifier::external_body]
pub(crate) fn green(s: &str) -> (r: String)
    ensures
        r@ == green_spec(s@),
{
    format!("{}", s.green())
}

/// `s` in yellow: `OwoColorize::yellow` displays as `ESC[33m`,
/// the text, then `ESC[39m`.
#[verifier::external_body]
pub(crate) fn yellow(s: &str) -> (r: String)
    ensures
        r@ == yellow_spec(s@),
{
    format!("{}", s.yellow())
}

/// `s` in cyan: `OwoColorize::cyan` displays as `ESC[36m`,
/// the text, then `ESC[39m`.
#[verifier::external_body]
pub(crate) fn cyan(s: &str) -> (r: String)
    ensures
        r@ == cyan_spec(s@),
{
    format!("{}", s.cyan())
}

/// `s` in bright black: `OwoColorize::bright_black` displays as `ESC[90m`,
/// the text, then `ESC[39m`.
#[verifier::external_body]
pub(crate) fn bright_black(s: &str) -> (r: String)
    ensures
        r@ == bright_black_spec(s@),
{
    format!("{}", s.bright_black())
}

/// `s` in bold: `OwoColorize::bold` displays as `ESC[1m`, the text, then
/// `ESC[0m`.
#[verifier::external_body]
pub(crate) fn bold(s: &str) -> (r: String)
    ensures
        r@ == bold_spec(s@),
{
    format!("{}", s.bold())
}

} // verus!
