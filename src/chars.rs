//! Character classes used by the scanner.
use vstd::prelude::*;

verus! {

/// Stands in for "no more input" in the lookahead window.
pub const EOF_CHAR: char = '\0';

/// The character at index `i` of `s`, or the end-of-input sentinel where `i`
/// lies outside the text.
pub open spec fn char_at(s: Seq<char>, i: int) -> char {
    if 0 <= i < s.len() {
        s[i]
    } else {
        EOF_CHAR
    }
}

/// Whether std classifies `c` as alphanumeric (Unicode Alphabetic or Numeric).
pub uninterp spec fn unicode_alphanumeric(c: char) -> bool;

/// Whether `c` has the Unicode White_Space property, which is what
/// `char::is_whitespace` tests.
pub open spec fn unicode_whitespace(c: char) -> bool {
    ('\u{9}' <= c && c <= '\u{d}') || c == ' ' || c == '\u{85}' || c == '\u{a0}' || c
        == '\u{1680}' || ('\u{2000}' <= c && c <= '\u{200a}') || c == '\u{2028}' || c
        == '\u{2029}' || c == '\u{202f}' || c == '\u{205f}' || c == '\u{3000}'
}

pub open spec fn is_ascii_letter(c: char) -> bool {
    ('a' <= c && c <= 'z') || ('A' <= c && c <= 'Z')
}

/// Alphanumeric characters: among ASCII exactly the letters and digits,
/// beyond it what std's Unicode tables say.
pub open spec fn spec_is_alphanumeric(c: char) -> bool {
    if c <= '\u{7f}' {
        is_ascii_letter(c) || spec_is_ascii_digit(c)
    } else {
        unicode_alphanumeric(c)
    }
}

/// Relies on `char::is_alphanumeric`: the answer depends on the character
/// alone, and among ASCII characters exactly the letters and digits are
/// alphanumeric.
#[verifier::external_body]
pub(crate) fn is_alphanumeric(c: char) -> (r: bool)
    ensures
        r == unicode_alphanumeric(c),
        r == spec_is_alphanumeric(c),
{
    c.is_alphanumeric()
}

/// Is this a whitespace character, by the Unicode White_Space property.
pub fn is_whitespace(c: char) -> (r: bool)
    ensures
        r == unicode_whitespace(c),
{
    match c {
        '\u{9}'..='\u{d}' | ' ' | '\u{85}' | '\u{a0}' | '\u{1680}' | '\u{2000}'..='\u{200a}'
        | '\u{2028}' | '\u{2029}' | '\u{202f}' | '\u{205f}' | '\u{3000}' => true,
        _ => false,
    }
}

pub open spec fn spec_is_ascii_digit(c: char) -> bool {
    '0' <= c && c <= '9'
}

/// Characters of a digit run: decimal digits, and `_` for grouping.
pub open spec fn spec_is_digit(c: char) -> bool {
    spec_is_ascii_digit(c) || c == '_'
}

/// Characters that may continue an identifier.
pub open spec fn spec_is_continuing_alpha(c: char) -> bool {
    spec_is_alphanumeric(c) || c == '_'
}

pub open spec fn spec_is_not_newline(c: char) -> bool {
    c != '\n'
}

/// Is this character a decimal digit.
pub fn is_ascii_digit(ch: char) -> (r: bool)
    ensures
        r == spec_is_ascii_digit(ch),
{
    '0' <= ch && ch <= '9'
}

/// Is this character a decimal digit, or a `_` used for grouping.
pub fn is_digit(ch: char) -> (r: bool)
    ensures
        r == spec_is_digit(ch),
{
    match ch {
        '0'..='9' | '_' => true,
        _ => false,
    }
}

/// Is this an alphanumeric character, or a `_`.
pub fn is_continuing_alpha(ch: char) -> (r: bool)
    ensures
        r == spec_is_continuing_alpha(ch),
{
    is_alphanumeric(ch) || ch == '_'
}

/// Is this anything but a line feed.
pub fn is_not_newline(ch: char) -> (r: bool)
    ensures
        r == spec_is_not_newline(ch),
{
    ch != '\n'
}

} // verus!
