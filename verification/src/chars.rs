//! Terminal character classes of the address grammar: `atext`, `qtext`,
//! `ctext`, whitespace, and the printable-ASCII range used by `quoted-pair`.
//! Each class has a spec predicate and an executable classifier proved
//! equivalent to it.

use vstd::prelude::*;

verus! {

/// Space or horizontal tab (`WSP`).
pub open spec fn is_wsp_char(c: char) -> bool {
    c == ' ' || c == '\t'
}

/// Visible (printing) ASCII: `!` through `~`.
pub open spec fn is_vchar(c: char) -> bool {
    0x21 <= c as u32 && c as u32 <= 0x7e
}

/// Printable ASCII, space included: the base class that `qtext` and
/// `ctext` carve their exceptions out of.
pub open spec fn is_printable(c: char) -> bool {
    0x20 <= c as u32 && c as u32 <= 0x7e
}

/// ASCII letter or digit.
pub open spec fn is_alnum(c: char) -> bool {
    ('a' <= c && c <= 'z') || ('A' <= c && c <= 'Z') || ('0' <= c && c <= '9')
}

/// `atext`: a character allowed in an unquoted atom.
pub open spec fn is_atext_char(c: char) -> bool {
    is_alnum(c) || c == '!' || c == '#' || c == '$' || c == '%' || c == '&' || c == '\''
        || c == '*' || c == '+' || c == '-' || c == '/' || c == '=' || c == '?' || c == '^'
        || c == '_' || c == '`' || c == '{' || c == '|' || c == '}' || c == '~'
}

/// `qtext`: printable ASCII except the double quote and the backslash.
pub open spec fn is_qtext_char(c: char) -> bool {
    is_printable(c) && c != '"' && c != '\\'
}

/// `ctext`: printable ASCII except parentheses and the backslash.
pub open spec fn is_ctext_char(c: char) -> bool {
    is_printable(c) && c != '(' && c != ')' && c != '\\'
}

/// A character that may follow a backslash in a `quoted-pair`.
pub open spec fn is_quotable(c: char) -> bool {
    is_vchar(c) || is_wsp_char(c)
}

pub fn wsp_char(c: char) -> (r: bool)
    ensures
        r == is_wsp_char(c),
{
    c == ' ' || c == '\t'
}

pub fn atext_char(c: char) -> (r: bool)
    ensures
        r == is_atext_char(c),
{
    (c >= 'a' && c <= 'z') || (c >= 'A' && c <= 'Z') || (c >= '0' && c <= '9') || c == '!'
        || c == '#' || c == '$' || c == '%' || c == '&' || c == '\'' || c == '*' || c == '+'
        || c == '-' || c == '/' || c == '=' || c == '?' || c == '^' || c == '_' || c == '`'
        || c == '{' || c == '|' || c == '}' || c == '~'
}

pub fn qtext_char(c: char) -> (r: bool)
    ensures
        r == is_qtext_char(c),
{
    let u = c as u32;
    0x20 <= u && u <= 0x7e && c != '"' && c != '\\'
}

pub fn ctext_char(c: char) -> (r: bool)
    ensures
        r == is_ctext_char(c),
{
    let u = c as u32;
    0x20 <= u && u <= 0x7e && c != '(' && c != ')' && c != '\\'
}

pub fn quotable_char(c: char) -> (r: bool)
    ensures
        r == is_quotable(c),
{
    let u = c as u32;
    (0x21 <= u && u <= 0x7e) || c == ' ' || c == '\t'
}

} // verus!
