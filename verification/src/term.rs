//! Terminal control sequences, as termion writes them.
use vstd::prelude::*;

verus! {

/// A control sequence: escape, `[`, then `body`.
pub open spec fn csi(body: Seq<char>) -> Seq<char> {
    seq!['\u{1b}', '['] + body
}

/// The decimal digit for `d` (below ten).
pub open spec fn digit(d: nat) -> char {
    (('0' as u32) + d) as char
}

/// The decimal notation of `n`, without leading zeros.
pub open spec fn decimal(n: nat) -> Seq<char>
    decreases n,
{
    if n < 10 {
        seq![digit(n)]
    } else {
        decimal(n / 10).push(digit(n % 10))
    }
}

/// The sequence that sets the foreground to the true colour (r, g, b).
pub open spec fn fg_rgb_code(r: u8, g: u8, b: u8) -> Seq<char> {
    csi(seq!['3', '8', ';', '2', ';'] + decimal(r as nat) + seq![';'] + decimal(g as nat) + seq![';']
        + decimal(b as nat) + seq!['m'])
}

/// The sequence that sets the foreground to high-intensity black.
pub open spec fn fg_light_black_code() -> Seq<char> {
    csi(seq!['3', '8', ';', '5', ';', '8', 'm'])
}

/// The sequence that sets the foreground to high-intensity white.
pub open spec fn fg_light_white_code() -> Seq<char> {
    csi(seq!['3', '8', ';', '5', ';', '1', '5', 'm'])
}

/// The sequence that starts underlining.
pub open spec fn underline_code() -> Seq<char> {
    csi(seq!['4', 'm'])
}

/// The sequence that ends underlining.
pub open spec fn no_underline_code() -> Seq<char> {
    csi(seq!['2', '4', 'm'])
}

/// `termion::color::Rgb::fg_string`: `ESC [38;2;` then the three components
/// in decimal, separated by `;`, then `m`.
#[verifier::external_body]
pub(crate) fn fg_rgb(r: u8, g: u8, b: u8) -> (s: String)
    ensures
        s@ == fg_rgb_code(r, g, b),
{
    termion::color::Rgb(r, g, b).fg_string()
}

/// `termion::color::LightBlack::fg_str`: `ESC [38;5;8m`.
#[verifier::external_body]
pub(crate) fn fg_light_black() -> (s: String)
    ensures
        s@ == fg_light_black_code(),
{
    termion::color::LightBlack.fg_str().to_string()
}

/// `termion::color::LightWhite::fg_str`: `ESC [38;5;15m`.
#[verifier::external_body]
pub(crate) fn fg_light_white() -> (s: String)
    ensures
        s@ == fg_light_white_code(),
{
    termion::color::LightWhite.fg_str().to_string()
}

/// The text of `termion::style::Underline`: `ESC [4m`.
#[verifier::external_body]
pub(crate) fn underline() -> (s: String)
    ensures
        s@ == underline_code(),
{
    let code: &str = termion::style::Underline.as_ref();
    code.to_string()
}

/// The text of `termion::style::NoUnderline`: `ESC [24m`.
#[verifier::external_body]
pub(crate) fn no_underline() -> (s: String)
    ensures
        s@ == no_underline_code(),
{
    let code: &str = termion::style::NoUnderline.as_ref();
    code.to_string()
}

} // verus!
