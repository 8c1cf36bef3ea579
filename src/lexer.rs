use crate::error::{Diagnostic, DiagnosticKind, Error};
use crate::kind::SyntaxKind;
use crate::node::{Span, Token};
use vstd::prelude::*;
use vstd::std_specs::iter::IteratorSpec;
use vstd::utf8::{encode_scalar, encode_utf8};

verus! {

// ---------------------------------------------------------------------------
// Character classes
// ---------------------------------------------------------------------------

/// Unicode `White_Space`, as `char::is_whitespace` documents it.
pub open spec fn is_white(c: char) -> bool {
    let n = c as u32;
    (0x09 <= n && n <= 0x0d) || n == 0x20 || n == 0x85 || n == 0xa0 || n == 0x1680 || (0x2000
        <= n && n <= 0x200a) || n == 0x2028 || n == 0x2029 || n == 0x202f || n == 0x205f || n
        == 0x3000
}

/// Unicode general category `Cc`, as `char::is_control` documents it.
pub open spec fn is_control(c: char) -> bool {
    let n = c as u32;
    n <= 0x1f || (0x7f <= n && n <= 0x9f)
}

pub open spec fn is_newline(c: char) -> bool {
    c == '\n' || c == '\r'
}

pub open spec fn is_open_delim(c: char) -> bool {
    c == '(' || c == '[' || c == '{'
}

pub open spec fn is_close_delim(c: char) -> bool {
    c == ')' || c == ']' || c == '}'
}

/// Characters that may stand inside a symbol or a keyword.
pub open spec fn is_constituent(c: char) -> bool {
    !is_white(c) && !is_control(c) && !is_open_delim(c) && !is_close_delim(c) && c != '"' && c
        != '`' && c != '\'' && c != ',' && c != '~' && c != ';' && c != '@'
}

pub open spec fn is_prefix_char(c: char) -> bool {
    c == '#' || c == '@' || c == '?' || c == '~' || c == '^' || c == '\'' || c == '`' || c == ','
}

pub open spec fn is_digit(c: char, hex: bool) -> bool {
    ('0' <= c && c <= '9') || (hex && (('a' <= c && c <= 'f') || ('A' <= c && c <= 'F')))
}

pub(crate) fn white_exec(c: char) -> (r: bool)
    ensures
        r == is_white(c),
{
    let n = c as u32;
    (0x09 <= n && n <= 0x0d) || n == 0x20 || n == 0x85 || n == 0xa0 || n == 0x1680 || (0x2000
        <= n && n <= 0x200a) || n == 0x2028 || n == 0x2029 || n == 0x202f || n == 0x205f || n
        == 0x3000
}

fn newline(c: char) -> (r: bool)
    ensures
        r == is_newline(c),
{
    c == '\n' || c == '\r'
}

fn constituent(c: char) -> (r: bool)
    ensures
        r == is_constituent(c),
{
    let n = c as u32;
    !white_exec(c) && !(n <= 0x1f || (0x7f <= n && n <= 0x9f)) && c != '(' && c != '[' && c != '{'
        && c != ')' && c != ']' && c != '}' && c != '"' && c != '`' && c != '\'' && c != ','
        && c != '~' && c != ';' && c != '@'
}

fn digit(c: char, hex: bool) -> (r: bool)
    ensures
        r == is_digit(c, hex),
{
    ('0' <= c && c <= '9') || (hex && (('a' <= c && c <= 'f') || ('A' <= c && c <= 'F')))
}

// ---------------------------------------------------------------------------
// Scanning rules over a character sequence, each giving where a match ends
// ---------------------------------------------------------------------------

pub open spec fn at(s: Seq<char>, p: int, c: char) -> bool {
    0 <= p < s.len() && s[p] == c
}

/// The end of the run of digits and `_` separators that starts at `p`.
pub open spec fn digit_run_end(s: Seq<char>, p: int, hex: bool) -> int
    decreases s.len() - p,
{
    if 0 <= p < s.len() && (is_digit(s[p], hex) || s[p] == '_') {
        digit_run_end(s, p + 1, hex)
    } else {
        p
    }
}

/// A digit literal: a digit, then digits and separators.
pub open spec fn literal_end(s: Seq<char>, p: int, hex: bool) -> Option<int> {
    if 0 <= p < s.len() && is_digit(s[p], hex) {
        Some(digit_run_end(s, p + 1, hex))
    } else {
        None
    }
}

/// A literal with an optional fraction, or a fraction alone.
pub open spec fn mantissa_end(s: Seq<char>, p: int, hex: bool) -> Option<int> {
    match literal_end(s, p, hex) {
        Some(a) => if at(s, a, '.') {
            match literal_end(s, a + 1, hex) {
                Some(b) => Some(b),
                None => Some(a + 1),
            }
        } else {
            Some(a)
        },
        None => if at(s, p, '.') {
            literal_end(s, p + 1, hex)
        } else {
            None
        },
    }
}

pub open spec fn is_exponent_char(c: char, hex: bool) -> bool {
    if hex {
        c == 'p' || c == 'P'
    } else {
        c == 'e' || c == 'E'
    }
}

pub open spec fn is_sign(c: char) -> bool {
    c == '+' || c == '-'
}

/// An optional exponent after position `p`: where it ends, or `p` without one.
pub open spec fn exponent_end(s: Seq<char>, p: int, hex: bool) -> int {
    if 0 <= p < s.len() && is_exponent_char(s[p], hex) {
        let q = if 0 <= p + 1 < s.len() && is_sign(s[p + 1]) {
            p + 2
        } else {
            p + 1
        };
        match literal_end(s, q, hex) {
            Some(e) => e,
            None => p,
        }
    } else {
        p
    }
}

pub open spec fn body_end(s: Seq<char>, p: int, hex: bool) -> Option<int> {
    match mantissa_end(s, p, hex) {
        Some(m) => Some(exponent_end(s, m, hex)),
        None => None,
    }
}

pub open spec fn at4(s: Seq<char>, p: int, a: char, b: char, c: char, d: char) -> bool {
    at(s, p, a) && at(s, p + 1, b) && at(s, p + 2, c) && at(s, p + 3, d)
}

/// A number: an optional sign, then a hexadecimal body, a decimal body, `.inf` or `.nan`.
pub open spec fn number_end(s: Seq<char>, p: int) -> Option<int> {
    let q = if 0 <= p < s.len() && is_sign(s[p]) {
        p + 1
    } else {
        p
    };
    if at(s, q, '0') && (at(s, q + 1, 'x') || at(s, q + 1, 'X')) && body_end(
        s,
        q + 2,
        true,
    ) is Some {
        body_end(s, q + 2, true)
    } else if body_end(s, q, false) is Some {
        body_end(s, q, false)
    } else if at4(s, q, '.', 'i', 'n', 'f') || at4(s, q, '.', 'n', 'a', 'n') {
        Some(q + 4)
    } else {
        None
    }
}

fn at_exec(s: &Vec<char>, p: usize, c: char) -> (r: bool)
    ensures
        r == at(s@, p as int, c),
        s@.len() <= usize::MAX,
{
    p < s.len() && s[p] == c
}

fn digit_run_end_exec(s: &Vec<char>, p: usize, hex: bool) -> (r: usize)
    requires
        p <= s@.len(),
    ensures
        r as int == digit_run_end(s@, p as int, hex),
        p <= r <= s@.len(),
{
    let mut i: usize = p;
    while i < s.len() && (digit(s[i], hex) || s[i] == '_')
        invariant
            p <= i <= s@.len(),
            digit_run_end(s@, p as int, hex) == digit_run_end(s@, i as int, hex),
        decreases s@.len() - i,
    {
        i = i + 1;
    }
    i
}

fn literal_end_exec(s: &Vec<char>, p: usize, hex: bool) -> (r: Option<usize>)
    requires
        p <= s@.len(),
    ensures
        r matches Some(e) ==> literal_end(s@, p as int, hex) == Some(e as int) && p < e <= s@.len(),
        r is None ==> literal_end(s@, p as int, hex) is None,
{
    if p < s.len() && digit(s[p], hex) {
        Some(digit_run_end_exec(s, p + 1, hex))
    } else {
        None
    }
}

fn mantissa_end_exec(s: &Vec<char>, p: usize, hex: bool) -> (r: Option<usize>)
    requires
        p <= s@.len(),
    ensures
        r matches Some(e) ==> mantissa_end(s@, p as int, hex) == Some(e as int) && p < e
            <= s@.len(),
        r is None ==> mantissa_end(s@, p as int, hex) is None,
{
    match literal_end_exec(s, p, hex) {
        Some(a) => {
            if at_exec(s, a, '.') {
                match literal_end_exec(s, a + 1, hex) {
                    Some(b) => Some(b),
                    None => Some(a + 1),
                }
            } else {
                Some(a)
            }
        },
        None => {
            if at_exec(s, p, '.') {
                literal_end_exec(s, p + 1, hex)
            } else {
                None
            }
        },
    }
}

fn exponent_end_exec(s: &Vec<char>, p: usize, hex: bool) -> (r: usize)
    requires
        p <= s@.len(),
    ensures
        r as int == exponent_end(s@, p as int, hex),
        p <= r <= s@.len(),
{
    if p < s.len() && (if hex {
        s[p] == 'p' || s[p] == 'P'
    } else {
        s[p] == 'e' || s[p] == 'E'
    }) {
        let q = if p + 1 < s.len() && (s[p + 1] == '+' || s[p + 1] == '-') {
            p + 2
        } else {
            p + 1
        };
        match literal_end_exec(s, q, hex) {
            Some(e) => e,
            None => p,
        }
    } else {
        p
    }
}

fn body_end_exec(s: &Vec<char>, p: usize, hex: bool) -> (r: Option<usize>)
    requires
        p <= s@.len(),
    ensures
        r matches Some(e) ==> body_end(s@, p as int, hex) == Some(e as int) && p < e <= s@.len(),
        r is None ==> body_end(s@, p as int, hex) is None,
{
    match mantissa_end_exec(s, p, hex) {
        Some(m) => Some(exponent_end_exec(s, m, hex)),
        None => None,
    }
}

fn at4_exec(s: &Vec<char>, p: usize, a: char, b: char, c: char, d: char) -> (r: bool)
    requires
        p <= s@.len(),
    ensures
        r == at4(s@, p as int, a, b, c, d),
        s@.len() <= usize::MAX,
{
    p < s.len() && s.len() - p > 3 && s[p] == a && s[p + 1] == b && s[p + 2] == c && s[p + 3] == d
}

/// Where the number that starts at `p` ends, if one starts there.
pub fn number_end_exec(s: &Vec<char>, p: usize) -> (r: Option<usize>)
    requires
        p <= s@.len(),
    ensures
        r matches Some(e) ==> number_end(s@, p as int) == Some(e as int) && p < e <= s@.len(),
        r is None ==> number_end(s@, p as int) is None,
{
    let q = if p < s.len() && (s[p] == '+' || s[p] == '-') {
        p + 1
    } else {
        p
    };
    if at_exec(s, q, '0') && (at_exec(s, q + 1, 'x') || at_exec(s, q + 1, 'X')) {
        let h = body_end_exec(s, q + 2, true);
        if h.is_some() {
            return h;
        }
    }
    let d = body_end_exec(s, q, false);
    if d.is_some() {
        d
    } else if at4_exec(s, q, '.', 'i', 'n', 'f') || at4_exec(s, q, '.', 'n', 'a', 'n') {
        Some(q + 4)
    } else {
        None
    }
}


// ---------------------------------------------------------------------------
// Symbols, strings, keywords, booleans and prefixes
// ---------------------------------------------------------------------------

/// The end of the maximal run of symbol characters that starts at `p`.
pub open spec fn symbol_run_end(s: Seq<char>, p: int) -> int
    decreases s.len() - p,
{
    if 0 <= p < s.len() && is_constituent(s[p]) {
        symbol_run_end(s, p + 1)
    } else {
        p
    }
}

/// `~=`, or a maximal run of symbol characters that is not, as a whole, a number.
pub open spec fn symbol_end(s: Seq<char>, p: int) -> Option<int> {
    if at(s, p, '~') && at(s, p + 1, '=') {
        Some(p + 2)
    } else {
        let r = symbol_run_end(s, p);
        if r > p && number_end(s, p) != Some(r) {
            Some(r)
        } else {
            None
        }
    }
}

/// The rest of a string from `q`, after its opening quote: escapes take any
/// character, the first unescaped quote closes it.
pub open spec fn string_rest(s: Seq<char>, q: int) -> Option<int>
    decreases s.len() - q,
{
    if q < 0 || q >= s.len() {
        None
    } else if s[q] == '"' {
        Some(q + 1)
    } else if s[q] == '\\' {
        if q + 1 < s.len() {
            string_rest(s, q + 2)
        } else {
            None
        }
    } else {
        string_rest(s, q + 1)
    }
}

pub open spec fn string_end(s: Seq<char>, p: int) -> Option<int> {
    if at(s, p, '"') {
        string_rest(s, p + 1)
    } else {
        None
    }
}

/// `:` followed at once by one or more symbol characters.
pub open spec fn keyword_end(s: Seq<char>, p: int) -> Option<int> {
    if at(s, p, ':') && symbol_run_end(s, p + 1) > p + 1 {
        Some(symbol_run_end(s, p + 1))
    } else {
        None
    }
}

/// `true` or `false`, not followed by a symbol character.
pub open spec fn boolean_end(s: Seq<char>, p: int) -> Option<int> {
    let e = if at4(s, p, 't', 'r', 'u', 'e') {
        p + 4
    } else if at4(s, p, 'f', 'a', 'l', 's') && at(s, p + 4, 'e') {
        p + 5
    } else {
        -1
    };
    if e >= 0 && !(0 <= e < s.len() && is_constituent(s[e])) {
        Some(e)
    } else {
        None
    }
}

/// An expression other than a prefixed one can start at `q`.
pub open spec fn plain_expr_start(s: Seq<char>, q: int) -> bool {
    (0 <= q < s.len() && is_open_delim(s[q])) || string_end(s, q) is Some || keyword_end(s, q) is Some
        || boolean_end(s, q) is Some || symbol_end(s, q) is Some || number_end(s, q) is Some
}

/// A prefix character at `p` counts as a prefix when another expression or
/// another prefix follows it at once.
pub open spec fn prefix_ok(s: Seq<char>, p: int) -> bool
    decreases s.len() - p,
{
    if 0 <= p < s.len() && is_prefix_char(s[p]) && !(at(s, p, '~') && at(s, p + 1, '=')) {
        plain_expr_start(s, p + 1) || prefix_ok(s, p + 1)
    } else {
        false
    }
}

pub open spec fn delim_kind(c: char) -> SyntaxKind {
    if c == '(' {
        SyntaxKind::LParen
    } else if c == ')' {
        SyntaxKind::RParen
    } else if c == '[' {
        SyntaxKind::LBracket
    } else if c == ']' {
        SyntaxKind::RBracket
    } else if c == '{' {
        SyntaxKind::LBrace
    } else {
        SyntaxKind::RBrace
    }
}

/// The token that starts at `p`, tried in this order: delimiter, string,
/// keyword, boolean, prefix, symbol, number.
pub open spec fn token_end(s: Seq<char>, p: int) -> Option<(SyntaxKind, int)> {
    if 0 <= p < s.len() && (is_open_delim(s[p]) || is_close_delim(s[p])) {
        Some((delim_kind(s[p]), p + 1))
    } else if string_end(s, p) is Some {
        Some((SyntaxKind::String, string_end(s, p)->0))
    } else if keyword_end(s, p) is Some {
        Some((SyntaxKind::Keyword, keyword_end(s, p)->0))
    } else if boolean_end(s, p) is Some {
        Some((SyntaxKind::Boolean, boolean_end(s, p)->0))
    } else if prefix_ok(s, p) {
        Some((SyntaxKind::Prefix, p + 1))
    } else if symbol_end(s, p) is Some {
        Some((SyntaxKind::Symbol, symbol_end(s, p)->0))
    } else if number_end(s, p) is Some {
        Some((SyntaxKind::Number, number_end(s, p)->0))
    } else {
        None
    }
}

// ---------------------------------------------------------------------------
// Trivia and the whole token stream
// ---------------------------------------------------------------------------

pub open spec fn space_run_end(s: Seq<char>, p: int) -> int
    decreases s.len() - p,
{
    if 0 <= p < s.len() && is_white(s[p]) && !is_newline(s[p]) {
        space_run_end(s, p + 1)
    } else {
        p
    }
}

/// The position of the first `\n` at or after `p`, or the end of the input.
pub open spec fn line_end(s: Seq<char>, p: int) -> int
    decreases s.len() - p,
{
    if 0 <= p < s.len() && s[p] != '\n' {
        line_end(s, p + 1)
    } else {
        p
    }
}

/// The position of the first newline character (`\n` or `\r`) at or after
/// `p`, or the end of the input.
pub open spec fn text_end(s: Seq<char>, p: int) -> int
    decreases s.len() - p,
{
    if 0 <= p < s.len() && !is_newline(s[p]) {
        text_end(s, p + 1)
    } else {
        p
    }
}

pub open spec fn trivia_end(s: Seq<char>, p: int) -> Option<(SyntaxKind, int)> {
    if space_run_end(s, p) > p {
        Some((SyntaxKind::Space, space_run_end(s, p)))
    } else if 0 <= p < s.len() && is_newline(s[p]) {
        Some((SyntaxKind::Newline, p + 1))
    } else if at(s, p, ';') {
        Some((SyntaxKind::Comment, text_end(s, p + 1)))
    } else {
        None
    }
}

/// What starts at `p`; `first` holds while no token but trivia came before.
pub open spec fn scan(s: Seq<char>, p: int, first: bool) -> Option<(SyntaxKind, int)> {
    if trivia_end(s, p) is Some {
        trivia_end(s, p)
    } else if first && at(s, p, '#') {
        Some((SyntaxKind::HashDirective, text_end(s, p + 1)))
    } else {
        token_end(s, p)
    }
}

/// The tokens and trivia pieces from `p` to the end, as (kind, start, end),
/// or `None` where some position starts nothing.
pub open spec fn tokenize(s: Seq<char>, p: int, first: bool) -> Option<Seq<(SyntaxKind, int, int)>>
    decreases s.len() - p,
{
    if p < 0 || p >= s.len() {
        Some(Seq::empty())
    } else {
        match scan(s, p, first) {
            Some((k, e)) => if p < e <= s.len() {
                match tokenize(s, e, first && k.spec_is_trivia()) {
                    Some(rest) => Some(seq![(k, p, e)] + rest),
                    None => None,
                }
            } else {
                None
            },
            None => None,
        }
    }
}


// ---------------------------------------------------------------------------
// Executable scanners, each proved to agree with its rule above
// ---------------------------------------------------------------------------

fn symbol_run_end_exec(s: &Vec<char>, p: usize) -> (r: usize)
    requires
        p <= s@.len(),
    ensures
        r as int == symbol_run_end(s@, p as int),
        p <= r <= s@.len(),
{
    let mut i: usize = p;
    while i < s.len() && constituent(s[i])
        invariant
            p <= i <= s@.len(),
            symbol_run_end(s@, p as int) == symbol_run_end(s@, i as int),
        decreases s@.len() - i,
    {
        i = i + 1;
    }
    i
}

fn symbol_end_exec(s: &Vec<char>, p: usize) -> (r: Option<usize>)
    requires
        p <= s@.len(),
    ensures
        r matches Some(e) ==> symbol_end(s@, p as int) == Some(e as int) && p < e <= s@.len(),
        r is None ==> symbol_end(s@, p as int) is None,
{
    if at_exec(s, p, '~') && at_exec(s, p + 1, '=') {
        Some(p + 2)
    } else {
        let r = symbol_run_end_exec(s, p);
        if r > p && number_end_exec(s, p) != Some(r) {
            Some(r)
        } else {
            None
        }
    }
}

fn string_end_exec(s: &Vec<char>, p: usize) -> (r: Option<usize>)
    requires
        p <= s@.len(),
    ensures
        r matches Some(e) ==> string_end(s@, p as int) == Some(e as int) && p < e <= s@.len(),
        r is None ==> string_end(s@, p as int) is None,
{
    if !at_exec(s, p, '"') {
        return None;
    }
    let mut q: usize = p + 1;
    loop
        invariant
            p < q <= s@.len(),
            string_end(s@, p as int) == string_rest(s@, q as int),
        decreases s@.len() - q,
    {
        if q >= s.len() {
            return None;
        }
        if s[q] == '"' {
            return Some(q + 1);
        }
        if s[q] == '\\' {
            if q + 1 < s.len() {
                q = q + 2;
            } else {
                return None;
            }
        } else {
            q = q + 1;
        }
    }
}

fn keyword_end_exec(s: &Vec<char>, p: usize) -> (r: Option<usize>)
    requires
        p <= s@.len(),
    ensures
        r matches Some(e) ==> keyword_end(s@, p as int) == Some(e as int) && p < e <= s@.len(),
        r is None ==> keyword_end(s@, p as int) is None,
{
    if at_exec(s, p, ':') {
        let r = symbol_run_end_exec(s, p + 1);
        if r > p + 1 {
            return Some(r);
        }
    }
    None
}

fn boolean_end_exec(s: &Vec<char>, p: usize) -> (r: Option<usize>)
    requires
        p <= s@.len(),
    ensures
        r matches Some(e) ==> boolean_end(s@, p as int) == Some(e as int) && p < e <= s@.len(),
        r is None ==> boolean_end(s@, p as int) is None,
{
    let e = if at4_exec(s, p, 't', 'r', 'u', 'e') {
        p + 4
    } else if at4_exec(s, p, 'f', 'a', 'l', 's') && at_exec(s, p + 4, 'e') {
        p + 5
    } else {
        return None;
    };
    if e < s.len() && constituent(s[e]) {
        None
    } else {
        Some(e)
    }
}

fn plain_expr_start_exec(s: &Vec<char>, q: usize) -> (r: bool)
    requires
        q <= s@.len(),
    ensures
        r == plain_expr_start(s@, q as int),
{
    (q < s.len() && (s[q] == '(' || s[q] == '[' || s[q] == '{')) || string_end_exec(s, q).is_some()
        || keyword_end_exec(s, q).is_some() || boolean_end_exec(s, q).is_some()
        || symbol_end_exec(s, q).is_some() || number_end_exec(s, q).is_some()
}

fn prefix_ok_exec(s: &Vec<char>, p: usize) -> (r: bool)
    requires
        p <= s@.len(),
    ensures
        r == prefix_ok(s@, p as int),
    decreases s@.len() - p,
{
    if p >= s.len() {
        return false;
    }
    let c = s[p];
    if !(c == '#' || c == '@' || c == '?' || c == '~' || c == '^' || c == '\'' || c == '`' || c
        == ',') {
        return false;
    }
    if c == '~' && at_exec(s, p + 1, '=') {
        return false;
    }
    plain_expr_start_exec(s, p + 1) || prefix_ok_exec(s, p + 1)
}

fn delim_kind_exec(c: char) -> (r: SyntaxKind)
    ensures
        r == delim_kind(c),
{
    if c == '(' {
        SyntaxKind::LParen
    } else if c == ')' {
        SyntaxKind::RParen
    } else if c == '[' {
        SyntaxKind::LBracket
    } else if c == ']' {
        SyntaxKind::RBracket
    } else if c == '{' {
        SyntaxKind::LBrace
    } else {
        SyntaxKind::RBrace
    }
}

fn token_end_exec(s: &Vec<char>, p: usize) -> (r: Option<(SyntaxKind, usize)>)
    requires
        p <= s@.len(),
    ensures
        r matches Some((k, e)) ==> token_end(s@, p as int) == Some((k, e as int)) && p < e
            <= s@.len(),
        r is None ==> token_end(s@, p as int) is None,
{
    if p < s.len() {
        let c = s[p];
        if c == '(' || c == '[' || c == '{' || c == ')' || c == ']' || c == '}' {
            return Some((delim_kind_exec(c), p + 1));
        }
    }
    if let Some(e) = string_end_exec(s, p) {
        return Some((SyntaxKind::String, e));
    }
    if let Some(e) = keyword_end_exec(s, p) {
        return Some((SyntaxKind::Keyword, e));
    }
    if let Some(e) = boolean_end_exec(s, p) {
        return Some((SyntaxKind::Boolean, e));
    }
    if prefix_ok_exec(s, p) {
        return Some((SyntaxKind::Prefix, p + 1));
    }
    if let Some(e) = symbol_end_exec(s, p) {
        return Some((SyntaxKind::Symbol, e));
    }
    if let Some(e) = number_end_exec(s, p) {
        return Some((SyntaxKind::Number, e));
    }
    None
}

fn space_run_end_exec(s: &Vec<char>, p: usize) -> (r: usize)
    requires
        p <= s@.len(),
    ensures
        r as int == space_run_end(s@, p as int),
        p <= r <= s@.len(),
{
    let mut i: usize = p;
    while i < s.len() && white_exec(s[i]) && !newline(s[i])
        invariant
            p <= i <= s@.len(),
            space_run_end(s@, p as int) == space_run_end(s@, i as int),
        decreases s@.len() - i,
    {
        i = i + 1;
    }
    i
}

pub(crate) fn line_end_exec(s: &Vec<char>, p: usize) -> (r: usize)
    requires
        p <= s@.len(),
    ensures
        r as int == line_end(s@, p as int),
        p <= r <= s@.len(),
{
    let mut i: usize = p;
    while i < s.len() && s[i] != '\n'
        invariant
            p <= i <= s@.len(),
            line_end(s@, p as int) == line_end(s@, i as int),
        decreases s@.len() - i,
    {
        i = i + 1;
    }
    i
}

fn text_end_exec(s: &Vec<char>, p: usize) -> (r: usize)
    requires
        p <= s@.len(),
    ensures
        r as int == text_end(s@, p as int),
        p <= r <= s@.len(),
{
    let mut i: usize = p;
    while i < s.len() && !newline(s[i])
        invariant
            p <= i <= s@.len(),
            text_end(s@, p as int) == text_end(s@, i as int),
        decreases s@.len() - i,
    {
        i = i + 1;
    }
    i
}

fn scan_exec(s: &Vec<char>, p: usize, first: bool) -> (r: Option<(SyntaxKind, usize)>)
    requires
        p < s@.len(),
    ensures
        r matches Some((k, e)) ==> scan(s@, p as int, first) == Some((k, e as int)) && p < e
            <= s@.len(),
        r is None ==> scan(s@, p as int, first) is None,
{
    let n = s.len();
    let sp = space_run_end_exec(s, p);
    if sp > p {
        return Some((SyntaxKind::Space, sp));
    }
    if newline(s[p]) {
        return Some((SyntaxKind::Newline, p + 1));
    }
    if s[p] == ';' {
        return Some((SyntaxKind::Comment, text_end_exec(s, p + 1)));
    }
    if first && s[p] == '#' {
        return Some((SyntaxKind::HashDirective, text_end_exec(s, p + 1)));
    }
    token_end_exec(s, p)
}


// ---------------------------------------------------------------------------
// Byte offsets
// ---------------------------------------------------------------------------

/// The byte offset, in UTF-8, of character position `i` of `s`.
pub open spec fn byte_offset(s: Seq<char>, i: int) -> int {
    encode_utf8(s.subrange(0, i)).len() as int
}

proof fn lemma_encode_concat(a: Seq<char>, b: Seq<char>)
    ensures
        encode_utf8(a + b) == encode_utf8(a) + encode_utf8(b),
    decreases a.len(),
{
    if a.len() == 0 {
        assert(a + b =~= b);
        assert(encode_utf8(a) =~= Seq::<u8>::empty());
        assert(encode_utf8(a) + encode_utf8(b) =~= encode_utf8(b));
    } else {
        lemma_encode_concat(a.drop_first(), b);
        assert((a + b).drop_first() =~= a.drop_first() + b);
        assert((a + b)[0] == a[0]);
        assert(encode_utf8(a + b) =~= encode_utf8(a) + encode_utf8(b));
    }
}

/// Offsets grow by each character's width, and never pass the end.
proof fn lemma_byte_offset_step(s: Seq<char>, i: int)
    requires
        0 <= i < s.len(),
    ensures
        byte_offset(s, i + 1) == byte_offset(s, i) + encode_scalar(s[i] as u32).len(),
        byte_offset(s, i + 1) <= byte_offset(s, s.len() as int),
{
    let a = s.subrange(0, i);
    let c = seq![s[i]];
    lemma_encode_concat(a, c);
    assert(s.subrange(0, i + 1) =~= a + c);
    assert(c.drop_first() =~= Seq::<char>::empty());
    assert(encode_utf8(c.drop_first()) =~= Seq::<u8>::empty());
    assert(encode_utf8(c) =~= encode_scalar(s[i] as u32));
    lemma_encode_concat(s.subrange(0, i + 1), s.subrange(i + 1, s.len() as int));
    assert(s.subrange(0, i + 1) + s.subrange(i + 1, s.len() as int) =~= s.subrange(0, s.len() as int));
}

/// The number of bytes that `c` takes in UTF-8.
fn utf8_width(c: char) -> (r: usize)
    ensures
        r == encode_scalar(c as u32).len(),
{
    proof {
        vstd::utf8::char_is_scalar(c);
    }
    let n = c as u32;
    if n <= 0x7f {
        1
    } else if n <= 0x7ff {
        2
    } else if n <= 0xffff {
        3
    } else {
        4
    }
}

/// The byte offset of position `e`, from the byte offset `b` of position `p`.
fn byte_end(s: &Vec<char>, p: usize, e: usize, b: usize, total: usize) -> (r: usize)
    requires
        p <= e <= s@.len(),
        b == byte_offset(s@, p as int),
        total == byte_offset(s@, s@.len() as int),
    ensures
        r == byte_offset(s@, e as int),
{
    let mut i: usize = p;
    let mut acc: usize = b;
    while i < e
        invariant
            p <= i <= e <= s@.len(),
            acc == byte_offset(s@, i as int),
            total == byte_offset(s@, s@.len() as int),
        decreases e - i,
    {
        proof {
            lemma_byte_offset_step(s@, i as int);
        }
        acc = acc + utf8_width(s[i]);
        i = i + 1;
    }
    acc
}

// ---------------------------------------------------------------------------
// From source text to tokens
// ---------------------------------------------------------------------------

/// Relies on `FromIterator<char>` for `String`: the string holds the characters in order.
#[verifier::external_body]
pub(crate) fn string_of(v: Vec<char>) -> (r: String)
    ensures
        r@ == v@,
{
    v.into_iter().collect()
}

/// The characters of `src`, in order.
pub fn chars_of(src: &str) -> (r: Vec<char>)
    ensures
        r@ == src@,
{
    broadcast use vstd::string::axiom_spec_iter, vstd::string::next_postcondition;

    let mut it = src.chars();
    let mut v: Vec<char> = Vec::new();
    loop
        invariant
            v@ + it.remaining() == src@,
            it.obeys_prophetic_iter_laws(),
            it.decrease() is Some,
        decreases it.decrease()->0,
    {
        match it.next() {
            Some(c) => {
                v.push(c);
            },
            None => {
                assert(v@ =~= src@);
                return v;
            },
        }
    }
}

/// The characters of `s` in `[a, b)` as a string.
pub fn text_of(s: &Vec<char>, a: usize, b: usize) -> (r: String)
    requires
        a <= b <= s@.len(),
    ensures
        r@ == s@.subrange(a as int, b as int),
{
    let mut v: Vec<char> = Vec::new();
    let mut i: usize = a;
    while i < b
        invariant
            a <= i <= b <= s@.len(),
            v@ == s@.subrange(a as int, i as int),
        decreases b - i,
    {
        v.push(s[i]);
        i = i + 1;
        assert(v@ =~= s@.subrange(a as int, i as int));
    }
    string_of(v)
}

/// The texts of `ts`, joined in order.
pub open spec fn concat_text(ts: Seq<Token>) -> Seq<char>
    decreases ts.len(),
{
    if ts.len() == 0 {
        Seq::empty()
    } else {
        concat_text(ts.drop_last()) + ts.last().text@
    }
}

/// `t` is the lexeme `l` of `s`: same kind, the byte range of its character
/// range, and the text of that range.
pub open spec fn token_is(t: Token, l: (SyntaxKind, int, int), s: Seq<char>) -> bool {
    &&& t.kind == l.0
    &&& t.span.start == byte_offset(s, l.1)
    &&& t.span.end == byte_offset(s, l.2)
    &&& t.text@ == s.subrange(l.1, l.2)
}

pub open spec fn tokens_are(ts: Seq<Token>, ls: Seq<(SyntaxKind, int, int)>, s: Seq<char>) -> bool {
    ts.len() == ls.len() && forall|i: int| 0 <= i < ts.len() ==> token_is(#[trigger] ts[i], ls[i], s)
}

/// The positions at which nothing can be read, on a walk that reads what it
/// can and steps over one character where it cannot.
pub open spec fn lex_failures(s: Seq<char>, p: int, first: bool) -> Seq<int>
    decreases s.len() - p,
{
    if p < 0 || p >= s.len() {
        Seq::empty()
    } else {
        match scan(s, p, first) {
            Some((k, e)) => if p < e <= s.len() {
                lex_failures(s, e, first && k.spec_is_trivia())
            } else {
                Seq::empty()
            },
            None => seq![p] + lex_failures(s, p + 1, first),
        }
    }
}

pub open spec fn lex_message(c: char) -> Seq<char> {
    if c == '"' {
        "unterminated string"@
    } else {
        "unexpected character"@
    }
}

/// `d` reports that nothing can be read at character position `q` of `s`:
/// its span is the bytes of that character.
pub open spec fn lex_diagnostic_is(d: Diagnostic, s: Seq<char>, q: int) -> bool {
    &&& 0 <= q < s.len()
    &&& d.kind == DiagnosticKind::Lex
    &&& d.span.start == byte_offset(s, q)
    &&& d.span.end == byte_offset(s, q + 1)
    &&& d.message@ == lex_message(s[q])
}

/// `ds` report, in order, every position of `s` at which nothing can be read.
pub open spec fn lex_diagnostics_are(ds: Seq<Diagnostic>, s: Seq<char>) -> bool {
    let f = lex_failures(s, 0, true);
    ds.len() == f.len() && forall|i: int| 0 <= i < ds.len() ==> #[trigger] lex_diagnostic_is(ds[i], s, f[i])
}

/// Splits `src` into tokens and trivia pieces. Every position that starts
/// nothing is reported, and lexing goes on after it.
pub fn lex(src: &str) -> (r: Result<Vec<Token>, Error>)
    ensures
        r is Ok <==> tokenize(src@, 0, true) is Some,
        r matches Ok(ts) ==> tokens_are(ts@, tokenize(src@, 0, true)->0, src@),
        r matches Ok(ts) ==> concat_text(ts@) == src@,
        r matches Err(e) ==> e is Lex && e.spec_diagnostics().len() > 0,
        r matches Err(e) ==> lex_diagnostics_are(e.spec_diagnostics(), src@),
{
    let s = chars_of(src);
    let n = s.len();
    let total = src.as_bytes().len();
    proof {
        assert(s@.subrange(0, n as int) =~= s@);
        assert(byte_offset(s@, 0) == 0) by {
            assert(s@.subrange(0, 0) =~= Seq::<char>::empty());
        }
    }
    let mut b: usize = 0;
    let mut toks: Vec<Token> = Vec::new();
    let mut diags: Vec<Diagnostic> = Vec::new();
    let mut p: usize = 0;
    let mut first = true;
    let mut failed = false;
    let ghost mut done: Seq<(SyntaxKind, int, int)> = Seq::empty();
    let ghost mut fails: Seq<int> = Seq::empty();
    while p < n
        invariant
            n == s@.len(),
            s@ == src@,
            p <= n,
            b == byte_offset(s@, p as int),
            total == byte_offset(s@, n as int),
            failed == (diags@.len() > 0),
            failed ==> tokenize(s@, 0, true) is None,
            !failed ==> (tokenize(s@, 0, true) is Some <==> tokenize(s@, p as int, first) is Some),
            !failed && tokenize(s@, p as int, first) is Some ==> tokenize(s@, 0, true)->0 == done
                + tokenize(s@, p as int, first)->0,
            !failed ==> tokens_are(toks@, done, s@),
            !failed ==> concat_text(toks@) == s@.subrange(0, p as int),
            lex_failures(s@, 0, true) == fails + lex_failures(s@, p as int, first),
            diags@.len() == fails.len(),
            forall|i: int| 0 <= i < diags@.len() ==> #[trigger] lex_diagnostic_is(diags@[i], s@, fails[i]),
        decreases n - p,
    {
        match scan_exec(&s, p, first) {
            Some((k, e)) => {
                let be = byte_end(&s, p, e, b, total);
                if !failed {
                    let t = Token::new(k, text_of(&s, p, e), Span::new(b, be));
                    let ghost old_toks = toks@;
                    toks.push(t);
                    proof {
                        let old_done = done;
                        done = done.push((k, p as int, e as int));
                        assert(toks@.drop_last() =~= old_toks);
                        assert(s@.subrange(0, p as int) + s@.subrange(p as int, e as int) =~= s@.subrange(0, e as int));
                        if tokenize(s@, e as int, first && k.spec_is_trivia()) is Some {
                            assert(done + tokenize(s@, e as int, first && k.spec_is_trivia())->0 =~= old_done
                                + tokenize(s@, p as int, first)->0);
                        }
                        assert forall|i: int| 0 <= i < toks@.len() implies token_is(#[trigger] toks@[i], done[i], s@) by {
                            if i < toks@.len() - 1 {
                                assert(toks@[i] == old_toks[i]);
                            }
                        }
                    }
                }
                first = first && k.is_trivia();
                p = e;
                b = be;
            },
            None => {
                let message = if s[p] == '"' {
                    "unterminated string".to_owned()
                } else {
                    "unexpected character".to_owned()
                };
                let be = byte_end(&s, p, p + 1, b, total);
                let ghost old_diags = diags@;
                diags.push(Diagnostic { kind: DiagnosticKind::Lex, message, span: Span::new(b, be) });
                proof {
                    assert(fails.push(p as int) + lex_failures(s@, p + 1, first) =~= fails + lex_failures(
                        s@,
                        p as int,
                        first,
                    ));
                    fails = fails.push(p as int);
                    assert forall|i: int| 0 <= i < diags@.len() implies #[trigger] lex_diagnostic_is(
                        diags@[i],
                        s@,
                        fails[i],
                    ) by {
                        if i < diags@.len() - 1 {
                            assert(diags@[i] == old_diags[i]);
                        }
                    }
                }
                failed = true;
                p = p + 1;
                b = be;
            },
        }
    }
    proof {
        assert(fails + lex_failures(s@, p as int, first) =~= fails);
    }
    if failed {
        Err(Error::Lex(diags))
    } else {
        Ok(toks)
    }
}

// ---------------------------------------------------------------------------
// A prefix is followed at once by an expression
// ---------------------------------------------------------------------------

/// After every prefix comes a token that is not trivia.
pub open spec fn prefix_followed(ks: Seq<SyntaxKind>) -> bool {
    forall|i: int|
        0 <= i < ks.len() && #[trigger] ks[i] == SyntaxKind::Prefix ==> i + 1 < ks.len()
            && !ks[i + 1].spec_is_trivia()
}

proof fn lemma_expr_start_not_trivia(s: Seq<char>, q: int, first: bool)
    requires
        plain_expr_start(s, q) || prefix_ok(s, q),
    ensures
        0 <= q < s.len(),
        trivia_end(s, q) is None,
        scan(s, q, first) matches Some((k, _)) ==> !k.spec_is_trivia(),
{
    if prefix_ok(s, q) {
    } else if symbol_end(s, q) is Some && !(at(s, q, '~') && at(s, q + 1, '=')) {
        assert(symbol_run_end(s, q) > q);
    } else if number_end(s, q) is Some {
        let q1 = if 0 <= q < s.len() && is_sign(s[q]) {
            q + 1
        } else {
            q
        };
        if q1 == q {
            if !(at(s, q, '0') && (at(s, q + 1, 'x') || at(s, q + 1, 'X')) && body_end(s, q + 2, true) is Some) {
                if body_end(s, q, false) is Some {
                    assert(literal_end(s, q, false) is Some || at(s, q, '.'));
                }
            }
        }
    }
    assert(space_run_end(s, q) == q);
}

/// In every token sequence that lexing gives, a prefix is followed at once
/// by a token that is not trivia.
pub proof fn lemma_prefix_followed(s: Seq<char>, p: int, first: bool)
    requires
        tokenize(s, p, first) is Some,
    ensures
        prefix_followed(Seq::new(
            tokenize(s, p, first)->0.len(),
            |i: int| tokenize(s, p, first)->0[i].0,
        )),
    decreases s.len() - p,
{
    let ls = tokenize(s, p, first)->0;
    let ks = Seq::new(ls.len(), |i: int| ls[i].0);
    if 0 <= p < s.len() {
        let (k, e) = scan(s, p, first)->0;
        let f2 = first && k.spec_is_trivia();
        lemma_prefix_followed(s, e, f2);
        let rest = tokenize(s, e, f2)->0;
        assert(ls == seq![(k, p, e)] + rest);
        assert forall|i: int| 0 <= i < ks.len() && #[trigger] ks[i] == SyntaxKind::Prefix implies i + 1
            < ks.len() && !ks[i + 1].spec_is_trivia() by {
            if i == 0 {
                assert(k == SyntaxKind::Prefix);
                assert(trivia_end(s, p) is None);
                assert(prefix_ok(s, p));
                lemma_expr_start_not_trivia(s, p + 1, f2);
                assert(e == p + 1);
                assert(rest.len() > 0);
                let first_rest = rest[0];
                let next = scan(s, e, f2)->0;
                assert(first_rest.0 == next.0);
            } else {
                let rks = Seq::new(rest.len(), |j: int| rest[j].0);
                assert(ks[i] == rks[i - 1]);
                assert(rks[i - 1] == SyntaxKind::Prefix);
                assert(i < rks.len() && !rks[i].spec_is_trivia());
                assert(ks[i + 1] == rks[i]);
            }
        }
    }
}

} // verus!
