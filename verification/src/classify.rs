//! Lexical classification of a single whitespace-delimited token.
//!
//! A token is recognized, in this precedence order, as a hex literal
//! (`0x` followed by hex digits), a bracketed hex literal (`[0x…]`), an
//! `HH:MM:SS` timestamp, or a pure decimal number of at least five digits;
//! each recognized shape is displayed as a fixed placeholder string and is
//! inherently variable.  Every other token is opaque: displayed verbatim,
//! not inherently variable.

use vstd::prelude::*;

verus! {

/// Characters treated as whitespace when splitting lines into tokens.
pub open spec fn is_space(c: char) -> bool {
    c == ' ' || c == '\t' || c == '\n' || c == '\r' || c == '\u{b}' || c == '\u{c}'
}

pub open spec fn is_digit(c: char) -> bool {
    '0' <= c && c <= '9'
}

pub open spec fn is_hex_digit(c: char) -> bool {
    is_digit(c) || ('a' <= c && c <= 'f') || ('A' <= c && c <= 'F')
}

/// `0x` followed by one or more hex digits.
pub open spec fn is_hex_shape(s: Seq<char>) -> bool {
    s.len() >= 3 && s[0] == '0' && s[1] == 'x' && forall|i: int| 2 <= i < s.len() ==> is_hex_digit(#[trigger] s[i])
}

/// `[0x` followed by one or more hex digits, then `]`.
pub open spec fn is_bracketed_hex_shape(s: Seq<char>) -> bool {
    s.len() >= 5 && s[0] == '[' && s[1] == '0' && s[2] == 'x' && s[s.len() - 1] == ']'
        && forall|i: int| 3 <= i < s.len() - 1 ==> is_hex_digit(#[trigger] s[i])
}

/// Exactly two digits, a colon, two digits, a colon, two digits.
pub open spec fn is_time_shape(s: Seq<char>) -> bool {
    s.len() == 8 && is_digit(s[0]) && is_digit(s[1]) && s[2] == ':' && is_digit(s[3])
        && is_digit(s[4]) && s[5] == ':' && is_digit(s[6]) && is_digit(s[7])
}

/// A pure decimal number of at least five digits.
pub open spec fn is_num_shape(s: Seq<char>) -> bool {
    s.len() >= 5 && forall|i: int| 0 <= i < s.len() ==> is_digit(#[trigger] s[i])
}

/// The display form of a token: a fixed placeholder string for each
/// recognized shape (first match wins), the token itself otherwise.
pub open spec fn spec_display(s: Seq<char>) -> Seq<char> {
    if is_hex_shape(s) {
        "<hex>"@
    } else if is_bracketed_hex_shape(s) {
        "[<hex>]"@
    } else if is_time_shape(s) {
        "<time>"@
    } else if is_num_shape(s) {
        "<num>"@
    } else {
        s
    }
}

/// Whether a token is inherently variable, i.e. matches a recognized shape.
pub open spec fn spec_inherent(s: Seq<char>) -> bool {
    is_hex_shape(s) || is_bracketed_hex_shape(s) || is_time_shape(s) || is_num_shape(s)
}

/// A token together with its classification.
pub struct NormalizedToken {
    /// The display form: the original token, or a placeholder string.
    pub pattern: String,
    /// Whether the token is inherently variable.
    pub is_variable: bool,
}

fn exec_is_digit(c: char) -> (b: bool)
    ensures
        b == is_digit(c),
{
    '0' <= c && c <= '9'
}

fn exec_is_hex_digit(c: char) -> (b: bool)
    ensures
        b == is_hex_digit(c),
{
    ('0' <= c && c <= '9') || ('a' <= c && c <= 'f') || ('A' <= c && c <= 'F')
}

/// Whether a character is treated as whitespace.
pub fn exec_is_space(c: char) -> (b: bool)
    ensures
        b == is_space(c),
{
    c == ' ' || c == '\t' || c == '\n' || c == '\r' || c == '\u{b}' || c == '\u{c}'
}

fn check_hex(s: &str) -> (b: bool)
    ensures
        b == is_hex_shape(s@),
{
    let n = s.unicode_len();
    if n < 3 {
        return false;
    }
    if s.get_char(0) != '0' || s.get_char(1) != 'x' {
        return false;
    }
    let mut i: usize = 2;
    while i < n
        invariant
            2 <= i <= n,
            n == s@.len(),
            forall|k: int| 2 <= k < i ==> is_hex_digit(#[trigger] s@[k]),
        decreases n - i,
    {
        if !exec_is_hex_digit(s.get_char(i)) {
            return false;
        }
        i += 1;
    }
    true
}

fn check_bracketed_hex(s: &str) -> (b: bool)
    ensures
        b == is_bracketed_hex_shape(s@),
{
    let n = s.unicode_len();
    if n < 5 {
        return false;
    }
    if s.get_char(0) != '[' || s.get_char(1) != '0' || s.get_char(2) != 'x'
        || s.get_char(n - 1) != ']' {
        return false;
    }
    let mut i: usize = 3;
    while i < n - 1
        invariant
            3 <= i <= n - 1,
            5 <= n == s@.len(),
            forall|k: int| 3 <= k < i ==> is_hex_digit(#[trigger] s@[k]),
        decreases n - i,
    {
        if !exec_is_hex_digit(s.get_char(i)) {
            return false;
        }
        i += 1;
    }
    true
}

fn check_time(s: &str) -> (b: bool)
    ensures
        b == is_time_shape(s@),
{
    let n = s.unicode_len();
    if n != 8 {
        return false;
    }
    exec_is_digit(s.get_char(0)) && exec_is_digit(s.get_char(1)) && s.get_char(2) == ':'
        && exec_is_digit(s.get_char(3)) && exec_is_digit(s.get_char(4)) && s.get_char(5) == ':'
        && exec_is_digit(s.get_char(6)) && exec_is_digit(s.get_char(7))
}

fn check_num(s: &str) -> (b: bool)
    ensures
        b == is_num_shape(s@),
{
    let n = s.unicode_len();
    if n < 5 {
        return false;
    }
    let mut i: usize = 0;
    while i < n
        invariant
            0 <= i <= n,
            5 <= n == s@.len(),
            forall|k: int| 0 <= k < i ==> is_digit(#[trigger] s@[k]),
        decreases n - i,
    {
        if !exec_is_digit(s.get_char(i)) {
            return false;
        }
        i += 1;
    }
    true
}

/// Classify one token: its display form and whether it is inherently
/// variable, per the precedence order of the recognized shapes.
pub fn normalize_token(token: &str) -> (r: NormalizedToken)
    ensures
        r.pattern@ == spec_display(token@),
        r.is_variable == spec_inherent(token@),
{
    if check_hex(token) {
        NormalizedToken { pattern: String::from_str("<hex>"), is_variable: true }
    } else if check_bracketed_hex(token) {
        NormalizedToken { pattern: String::from_str("[<hex>]"), is_variable: true }
    } else if check_time(token) {
        NormalizedToken { pattern: String::from_str("<time>"), is_variable: true }
    } else if check_num(token) {
        NormalizedToken { pattern: String::from_str("<num>"), is_variable: true }
    } else {
        NormalizedToken { pattern: token.to_owned(), is_variable: false }
    }
}

/// Classification never reclassifies placeholder output: any string that
/// begins with `<` — every placeholder the engine ever emits into a display
/// form or a template begins with `<` or is `[<hex>]` — is opaque, so
/// classifying it returns it unchanged and not inherently variable.
pub proof fn lemma_placeholder_opaque(s: Seq<char>)
    requires
        s.len() > 0,
        s[0] == '<',
    ensures
        spec_display(s) == s,
        !spec_inherent(s),
{
}

/// The bracketed placeholder `[<hex>]` is likewise opaque: its second
/// character is not `0`, so it matches no recognized shape.
pub proof fn lemma_bracketed_placeholder_opaque()
    ensures
        spec_display("[<hex>]"@) == "[<hex>]"@,
        !spec_inherent("[<hex>]"@),
{
    reveal_strlit("[<hex>]");
}

} // verus!
