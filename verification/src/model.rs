//! The mathematical model of the lexer: spec functions over `Seq<char>`
//! that say what the preprocessor and the tokenizer produce at every
//! position, together with the lemmas that bound and chain the steps.

use vstd::prelude::*;

verus! {

/// A numeric payload as the lexer reports it: the exact source text
/// consumed and, for representations with no fraction and no exponent,
/// the saturating signed decimal value of that text.
pub ghost struct NumericModel {
    pub repr: Seq<char>,
    pub int_value: Option<i64>,
}

/// The shape of one token, with every name or value as a character sequence.
pub ghost enum TokenModel {
    Ident(Seq<char>),
    Function(Seq<char>),
    AtKeyword(Seq<char>),
    Hash(Seq<char>),
    IDHash(Seq<char>),
    QuotedString(Seq<char>),
    BadString,
    URL(Seq<char>),
    BadURL,
    Delim(char),
    Number(NumericModel),
    Percentage(NumericModel),
    Dimension(NumericModel, Seq<char>),
    UnicodeRange(u32, u32),
    IncludeMatch,
    DashMatch,
    PrefixMatch,
    SuffixMatch,
    SubstringMatch,
    Column,
    WhiteSpace,
    CDO,
    CDC,
    Colon,
    Semicolon,
    Comma,
    LeftBracket,
    RightBracket,
    LeftParen,
    RightParen,
    LeftCurlyBracket,
    RightCurlyBracket,
}

// ------------------------------------------------------------------
// Character classes
// ------------------------------------------------------------------

pub open spec fn is_digit(c: char) -> bool {
    '0' <= c && c <= '9'
}

pub open spec fn is_hex_digit(c: char) -> bool {
    is_digit(c) || ('a' <= c && c <= 'f') || ('A' <= c && c <= 'F')
}

pub open spec fn is_letter(c: char) -> bool {
    ('a' <= c && c <= 'z') || ('A' <= c && c <= 'Z')
}

/// A character that may continue a name.
pub open spec fn is_name_char(c: char) -> bool {
    is_letter(c) || is_digit(c) || c == '_' || c == '-'
}

/// Code points above the ASCII range always count as name-start characters.
pub open spec fn is_nonascii(c: char) -> bool {
    c > '\u{7F}'
}

pub open spec fn is_ws(c: char) -> bool {
    c == ' ' || c == '\t' || c == '\n'
}

// ------------------------------------------------------------------
// Preprocessing
// ------------------------------------------------------------------

/// Line endings and form feeds become `\n` (a `\r\n` pair collapses to a
/// single `\n`), and every NUL becomes U+FFFD.
pub open spec fn preprocess_spec(s: Seq<char>) -> Seq<char>
    decreases s.len(),
{
    if s.len() == 0 {
        Seq::empty()
    } else if s[0] == '\r' && s.len() >= 2 && s[1] == '\n' {
        seq!['\n'] + preprocess_spec(s.skip(2))
    } else if s[0] == '\r' || s[0] == '\u{C}' {
        seq!['\n'] + preprocess_spec(s.skip(1))
    } else if s[0] == '\0' {
        seq!['\u{FFFD}'] + preprocess_spec(s.skip(1))
    } else {
        seq![s[0]] + preprocess_spec(s.skip(1))
    }
}

// ------------------------------------------------------------------
// Hex digits and escapes
// ------------------------------------------------------------------

pub open spec fn hex_digit_val(c: char) -> int {
    if is_digit(c) {
        c as int - '0' as int
    } else if 'a' <= c && c <= 'f' {
        c as int - 'a' as int + 10
    } else {
        c as int - 'A' as int + 10
    }
}

/// Position after consuming at most `k` further hex digits.
pub open spec fn scan_hex_limit(s: Seq<char>, p: int, k: nat) -> int
    decreases k,
{
    if k == 0 || p < 0 || p >= s.len() || !is_hex_digit(s[p]) {
        p
    } else {
        scan_hex_limit(s, p + 1, (k - 1) as nat)
    }
}

/// Value of the hex digits in `[p, q)`.
pub open spec fn hex_val(s: Seq<char>, p: int, q: int) -> int
    decreases q - p,
{
    if p >= q {
        0
    } else {
        hex_val(s, p, q - 1) * 16 + hex_digit_val(s[q - 1])
    }
}

/// The code point of a character.
pub open spec fn code_point(c: char) -> int {
    c as int
}

/// The character whose code point is `v`, or U+FFFD where `v` is no code point.
pub open spec fn code_point_char(v: int) -> char {
    if (0 <= v && v < 0xD800) || (0xE000 <= v && v <= 0x10FFFF) {
        choose|c: char| #[trigger] code_point(c) == v
    } else {
        '\u{FFFD}'
    }
}

pub ghost struct EscapeRes {
    pub ch: char,
    pub end: int,
}

/// An escape sequence read at `p`, the position right after the backslash:
/// up to six hex digits with one optional trailing whitespace character,
/// or a single literal character, or U+FFFD at the end of the input.
/// A zero or out-of-range code point also gives U+FFFD.
pub open spec fn escape_at(s: Seq<char>, p: int) -> EscapeRes {
    if p < 0 || p >= s.len() {
        EscapeRes { ch: '\u{FFFD}', end: p }
    } else {
        let c = s[p];
        if is_hex_digit(c) {
            let dend = scan_hex_limit(s, p + 1, 5);
            let wend = if dend < s.len() && (s[dend] == ' ' || s[dend] == '\t' || s[dend] == '\n') {
                dend + 1
            } else {
                dend
            };
            let v = hex_val(s, p, dend);
            let ch = if v == 0 {
                '\u{FFFD}'
            } else {
                code_point_char(v)
            };
            EscapeRes { ch, end: wend }
        } else {
            EscapeRes { ch: c, end: p + 1 }
        }
    }
}

// ------------------------------------------------------------------
// Names
// ------------------------------------------------------------------

/// Whether the ident-start rule holds at `p`: a letter, `_`, a non-ASCII
/// character, a valid escape, or `-` followed by one of those.
pub open spec fn is_ident_start_at(s: Seq<char>, p: int) -> bool {
    0 <= p && p < s.len() && {
        let c = s[p];
        if is_letter(c) || c == '_' {
            true
        } else if c == '-' {
            p + 1 < s.len() && {
                let d = s[p + 1];
                if is_letter(d) || d == '_' {
                    true
                } else if d == '\\' {
                    !(p + 2 < s.len() && s[p + 2] == '\n')
                } else {
                    is_nonascii(d)
                }
            }
        } else if c == '\\' {
            !(p + 1 < s.len() && s[p + 1] == '\n')
        } else {
            is_nonascii(c)
        }
    }
}

pub ghost struct ScanRes {
    pub text: Seq<char>,
    pub end: int,
}

/// A name read at `p`: name characters, escapes and non-ASCII characters,
/// stopping at anything else or at a backslash-newline pair.
pub open spec fn scan_name(s: Seq<char>, p: int) -> ScanRes
    decreases s.len() - p,
    when 0 <= p <= s.len()
    via scan_name_dec
{
    if p >= s.len() {
        ScanRes { text: Seq::empty(), end: p }
    } else {
        let c = s[p];
        if is_name_char(c) {
            let r = scan_name(s, p + 1);
            ScanRes { text: seq![c] + r.text, end: r.end }
        } else if c == '\\' {
            if p + 1 < s.len() && s[p + 1] == '\n' {
                ScanRes { text: Seq::empty(), end: p }
            } else {
                let e = escape_at(s, p + 1);
                let r = scan_name(s, e.end);
                ScanRes { text: seq![e.ch] + r.text, end: r.end }
            }
        } else if is_nonascii(c) {
            let r = scan_name(s, p + 1);
            ScanRes { text: seq![c] + r.text, end: r.end }
        } else {
            ScanRes { text: Seq::empty(), end: p }
        }
    }
}

#[via_fn]
proof fn scan_name_dec(s: Seq<char>, p: int) {
    if 0 <= p && p < s.len() && s[p] == '\\' && !(p + 1 < s.len() && s[p + 1] == '\n') {
        lemma_escape_at_bounds(s, p + 1);
    }
}

// ------------------------------------------------------------------
// Strings
// ------------------------------------------------------------------

pub ghost struct StrScan {
    pub text: Option<Seq<char>>,
    pub end: int,
}

/// The body of a quoted string, read at `p` (the position right after the
/// opening quote). `None` stands for a bad string: an unescaped newline,
/// which is not consumed, or an unterminated string at the end of the
/// input.
pub open spec fn scan_string_body(s: Seq<char>, p: int, single: bool) -> StrScan
    decreases s.len() - p,
    when 0 <= p <= s.len()
    via scan_string_body_dec
{
    if p >= s.len() {
        StrScan { text: None, end: p }
    } else {
        let c = s[p];
        if (c == '"' && !single) || (c == '\'' && single) {
            StrScan { text: Some(Seq::empty()), end: p + 1 }
        } else if c == '\n' {
            StrScan { text: None, end: p }
        } else if c == '\\' {
            if p + 1 >= s.len() {
                StrScan { text: None, end: p + 1 }
            } else if s[p + 1] == '\n' {
                scan_string_body(s, p + 2, single)
            } else {
                let e = escape_at(s, p + 1);
                let r = scan_string_body(s, e.end, single);
                StrScan {
                    text: match r.text {
                        Some(t) => Some(seq![e.ch] + t),
                        None => None,
                    },
                    end: r.end,
                }
            }
        } else {
            let r = scan_string_body(s, p + 1, single);
            StrScan {
                text: match r.text {
                    Some(t) => Some(seq![c] + t),
                    None => None,
                },
                end: r.end,
            }
        }
    }
}

#[via_fn]
proof fn scan_string_body_dec(s: Seq<char>, p: int, single: bool) {
    if 0 <= p && p < s.len() && s[p] == '\\' && p + 1 < s.len() && s[p + 1] != '\n' {
        lemma_escape_at_bounds(s, p + 1);
    }
}

/// A quoted string token read at `p`, the position of the opening quote.
pub open spec fn scan_quoted_string(s: Seq<char>, p: int, single: bool) -> StrScan {
    scan_string_body(s, p + 1, single)
}

// ------------------------------------------------------------------
// Numbers
// ------------------------------------------------------------------

/// Position after the run of decimal digits at `p`.
pub open spec fn scan_digits(s: Seq<char>, p: int) -> int
    decreases s.len() - p,
    when 0 <= p <= s.len()
{
    if p < s.len() && is_digit(s[p]) {
        scan_digits(s, p + 1)
    } else {
        p
    }
}

pub open spec fn i64_clip(v: int) -> i64 {
    if v < i64::MIN {
        i64::MIN
    } else if v > i64::MAX {
        i64::MAX
    } else {
        v as i64
    }
}

/// One saturating decimal accumulation step over `acc`.
pub open spec fn sat_step(acc: i64, d: int, neg: bool) -> i64 {
    let m = i64_clip(acc * 10);
    if neg {
        i64_clip(m - d)
    } else {
        i64_clip(m + d)
    }
}

/// Saturating left fold of decimal digits.
pub open spec fn sat_dec_fold(digits: Seq<char>, neg: bool, acc: i64) -> i64
    decreases digits.len(),
{
    if digits.len() == 0 {
        acc
    } else {
        sat_dec_fold(digits.skip(1), neg, sat_step(acc, digits[0] as int - '0' as int, neg))
    }
}

/// The saturating signed decimal value of a representation: an optional
/// sign followed by digits.
pub open spec fn sat_signed_dec(repr: Seq<char>) -> i64 {
    if repr.len() > 0 && (repr[0] == '+' || repr[0] == '-') {
        sat_dec_fold(repr.skip(1), repr[0] == '-', 0)
    } else {
        sat_dec_fold(repr, false, 0)
    }
}

/// Exact left fold of decimal digits, over the unbounded integers.
pub open spec fn dec_fold(digits: Seq<char>, v: int) -> int
    decreases digits.len(),
{
    if digits.len() == 0 {
        v
    } else {
        dec_fold(digits.skip(1), v * 10 + (digits[0] as int - '0' as int))
    }
}

/// The exact signed decimal value of a representation.
pub open spec fn signed_dec_val(repr: Seq<char>) -> int {
    if repr.len() > 0 && repr[0] == '-' {
        -dec_fold(repr.skip(1), 0)
    } else if repr.len() > 0 && repr[0] == '+' {
        dec_fold(repr.skip(1), 0)
    } else {
        dec_fold(repr, 0)
    }
}

pub ghost struct NumScan {
    pub repr: Seq<char>,
    pub is_integer: bool,
    pub end: int,
}

/// The numeric pattern `[+-]?\d*(\.\d+)?([eE][+-]?\d+)?` at `p`; entered
/// only where at least one digit is present.
pub open spec fn scan_numeric(s: Seq<char>, p: int) -> NumScan {
    let p1 = if p < s.len() && (s[p] == '+' || s[p] == '-') {
        p + 1
    } else {
        p
    };
    let d1 = scan_digits(s, p1);
    let frac = d1 + 1 < s.len() && s[d1] == '.' && is_digit(s[d1 + 1]);
    let p2 = if frac {
        scan_digits(s, d1 + 2)
    } else {
        d1
    };
    let expo = (p2 + 1 < s.len() && (s[p2] == 'e' || s[p2] == 'E') && is_digit(s[p2 + 1])) || (p2
        + 2 < s.len() && (s[p2] == 'e' || s[p2] == 'E') && (s[p2 + 1] == '+' || s[p2 + 1] == '-')
        && is_digit(s[p2 + 2]));
    let p3 = if expo {
        scan_digits(s, p2 + 2)
    } else {
        p2
    };
    NumScan { repr: s.subrange(p, p3), is_integer: !frac && !expo, end: p3 }
}

pub ghost struct TokRes {
    pub tok: TokenModel,
    pub end: int,
}

/// The numeric token at `p`: a Percentage, Dimension or Number.
pub open spec fn numeric_token(s: Seq<char>, p: int) -> TokRes {
    let n = scan_numeric(s, p);
    let value = NumericModel {
        repr: n.repr,
        int_value: if n.is_integer {
            Some(sat_signed_dec(n.repr))
        } else {
            None
        },
    };
    if n.end < s.len() && s[n.end] == '%' {
        TokRes { tok: TokenModel::Percentage(value), end: n.end + 1 }
    } else if is_ident_start_at(s, n.end) {
        let r = scan_name(s, n.end);
        TokRes { tok: TokenModel::Dimension(value, r.text), end: r.end }
    } else {
        TokRes { tok: TokenModel::Number(value), end: n.end }
    }
}

// ------------------------------------------------------------------
// URLs
// ------------------------------------------------------------------

/// The remainder of an invalid URL: everything up to and including the
/// closing parenthesis, a backslash skipping the character after it.
pub open spec fn scan_bad_url(s: Seq<char>, p: int) -> int
    decreases s.len() - p,
    when 0 <= p <= s.len()
{
    if p >= s.len() {
        p
    } else if s[p] == ')' {
        p + 1
    } else if s[p] == '\\' {
        if p + 2 <= s.len() {
            scan_bad_url(s, p + 2)
        } else {
            scan_bad_url(s, s.len() as int)
        }
    } else {
        scan_bad_url(s, p + 1)
    }
}

/// After a quoted URL value: whitespace then the closing parenthesis,
/// anything else turning the token into a BadURL.
pub open spec fn scan_url_end(s: Seq<char>, p: int, v: Seq<char>) -> TokRes
    decreases s.len() - p,
    when 0 <= p <= s.len()
{
    if p >= s.len() {
        TokRes { tok: TokenModel::URL(v), end: p }
    } else if s[p] == ' ' || s[p] == '\t' {
        scan_url_end(s, p + 1, v)
    } else if s[p] == '\n' {
        scan_url_end(s, p + 1, v)
    } else if s[p] == ')' {
        TokRes { tok: TokenModel::URL(v), end: p + 1 }
    } else {
        TokRes { tok: TokenModel::BadURL, end: scan_bad_url(s, p + 1) }
    }
}

/// Whether `c` may not stand in an unquoted URL.
pub open spec fn is_url_reject(c: char) -> bool {
    ('\0' <= c && c <= '\u{8}') || c == '\u{B}' || ('\u{E}' <= c && c <= '\u{1F}') || c == '\u{7F}'
        || c == '"' || c == '\'' || c == '('
}

/// An unquoted URL value at `p`.
pub open spec fn scan_unquoted_url(s: Seq<char>, p: int) -> TokRes
    decreases s.len() - p,
    when 0 <= p <= s.len()
    via scan_unquoted_url_dec
{
    if p >= s.len() {
        TokRes { tok: TokenModel::URL(Seq::empty()), end: p }
    } else {
        let c = s[p];
        if c == ' ' || c == '\t' || c == '\n' {
            scan_url_end(s, p + 1, Seq::empty())
        } else if c == ')' {
            TokRes { tok: TokenModel::URL(Seq::empty()), end: p + 1 }
        } else if is_url_reject(c) {
            TokRes { tok: TokenModel::BadURL, end: scan_bad_url(s, p + 1) }
        } else if c == '\\' {
            if p + 1 < s.len() && s[p + 1] == '\n' {
                TokRes { tok: TokenModel::BadURL, end: scan_bad_url(s, p + 1) }
            } else {
                let e = escape_at(s, p + 1);
                let r = scan_unquoted_url(s, e.end);
                TokRes {
                    tok: match r.tok {
                        TokenModel::URL(t) => TokenModel::URL(seq![e.ch] + t),
                        other => other,
                    },
                    end: r.end,
                }
            }
        } else {
            let r = scan_unquoted_url(s, p + 1);
            TokRes {
                tok: match r.tok {
                    TokenModel::URL(t) => TokenModel::URL(seq![c] + t),
                    other => other,
                },
                end: r.end,
            }
        }
    }
}

#[via_fn]
proof fn scan_unquoted_url_dec(s: Seq<char>, p: int) {
    if 0 <= p && p < s.len() && s[p] == '\\' && !(p + 1 < s.len() && s[p + 1] == '\n') {
        lemma_escape_at_bounds(s, p + 1);
    }
}

/// Whether the token at the URL value's position is quoted; the result of
/// reading such a value.
pub open spec fn scan_quoted_url(s: Seq<char>, p: int, single: bool) -> TokRes {
    let q = scan_quoted_string(s, p, single);
    match q.text {
        Some(v) => scan_url_end(s, q.end, v),
        None => TokRes { tok: TokenModel::BadURL, end: scan_bad_url(s, q.end) },
    }
}

/// A URL token read at `p`, the position right after `url(`: leading
/// whitespace, then a quoted or unquoted value.
pub open spec fn scan_url(s: Seq<char>, p: int) -> TokRes
    decreases s.len() - p,
    when 0 <= p <= s.len()
{
    if p >= s.len() {
        TokRes { tok: TokenModel::URL(Seq::empty()), end: p }
    } else {
        let c = s[p];
        if c == ' ' || c == '\t' || c == '\n' {
            scan_url(s, p + 1)
        } else if c == '"' {
            scan_quoted_url(s, p, false)
        } else if c == '\'' {
            scan_quoted_url(s, p, true)
        } else if c == ')' {
            TokRes { tok: TokenModel::URL(Seq::empty()), end: p + 1 }
        } else {
            scan_unquoted_url(s, p)
        }
    }
}

// ------------------------------------------------------------------
// Ident-like tokens
// ------------------------------------------------------------------

/// ASCII-case-insensitive match against `url`.
pub open spec fn is_url_keyword(t: Seq<char>) -> bool {
    t.len() == 3 && (t[0] == 'u' || t[0] == 'U') && (t[1] == 'r' || t[1] == 'R') && (t[2] == 'l'
        || t[2] == 'L')
}

/// An ident-like token at `p`: an Ident, or with a directly following
/// parenthesis a Function, or for the name `url` a URL token.
pub open spec fn scan_ident_like(s: Seq<char>, p: int) -> TokRes {
    let r = scan_name(s, p);
    if r.end < s.len() && s[r.end] == '(' {
        if is_url_keyword(r.text) {
            scan_url(s, r.end + 1)
        } else {
            TokRes { tok: TokenModel::Function(r.text), end: r.end + 1 }
        }
    } else {
        TokRes { tok: TokenModel::Ident(r.text), end: r.end }
    }
}

// ------------------------------------------------------------------
// Unicode ranges
// ------------------------------------------------------------------

/// Position after consuming at most `k` further question marks.
pub open spec fn scan_qmarks(s: Seq<char>, p: int, k: nat) -> int
    decreases k,
{
    if k == 0 || p < 0 || p >= s.len() || s[p] != '?' {
        p
    } else {
        scan_qmarks(s, p + 1, (k - 1) as nat)
    }
}

pub open spec fn pow16(m: nat) -> int
    decreases m,
{
    if m == 0 {
        1
    } else {
        16 * pow16((m - 1) as nat)
    }
}

/// A unicode-range token read at `p`, the position right after `u+`:
/// up to six hex digits, question marks filling the range, or a `-`
/// followed by the end of the range.
pub open spec fn scan_unicode_range(s: Seq<char>, p: int) -> TokRes {
    let dend = scan_hex_limit(s, p, 6);
    let h = hex_val(s, p, dend);
    let qend = scan_qmarks(s, dend, (6 - (dend - p)) as nat);
    let m = (qend - dend) as nat;
    if m > 0 {
        TokRes {
            tok: TokenModel::UnicodeRange(
                (h * pow16(m)) as u32,
                (h * pow16(m) + pow16(m) - 1) as u32,
            ),
            end: qend,
        }
    } else {
        if qend < s.len() && s[qend] == '-' {
            let dend2 = scan_hex_limit(s, qend + 1, 6);
            if dend2 > qend + 1 {
                TokRes {
                    tok: TokenModel::UnicodeRange(h as u32, hex_val(s, qend + 1, dend2) as u32),
                    end: dend2,
                }
            } else {
                TokRes { tok: TokenModel::UnicodeRange(h as u32, h as u32), end: qend + 1 }
            }
        } else {
            TokRes { tok: TokenModel::UnicodeRange(h as u32, h as u32), end: qend }
        }
    }
}

pub proof fn lemma_pow16_pos(k: nat)
    ensures
        pow16(k) >= 1,
    decreases k,
{
    if k > 0 {
        lemma_pow16_pos((k - 1) as nat);
    }
}

pub proof fn lemma_pow16_mono(a: nat, b: nat)
    requires
        a <= b,
    ensures
        pow16(a) <= pow16(b),
    decreases b,
{
    lemma_pow16_pos(a);
    if a < b {
        lemma_pow16_mono(a, (b - 1) as nat);
        lemma_pow16_pos((b - 1) as nat);
    }
}

pub proof fn lemma_pow16_mul(a: nat, b: nat)
    ensures
        pow16(a + b) == pow16(a) * pow16(b),
    decreases a,
{
    if a > 0 {
        lemma_pow16_mul((a - 1) as nat, b);
        assert(16 * (pow16((a - 1) as nat) * pow16(b)) == (16 * pow16((a - 1) as nat)) * pow16(
            b,
        )) by (nonlinear_arith);
        assert((a + b - 1) as nat == ((a - 1) as nat + b) as nat);
    }
}

/// The value argument of `scan_url_end` rides along unchanged: the result
/// for any value is the result for the empty value with it put back in.
pub proof fn lemma_scan_url_end_param(s: Seq<char>, q: int, v: Seq<char>)
    requires
        0 <= q <= s.len(),
    ensures
        scan_url_end(s, q, v).end == scan_url_end(s, q, Seq::empty()).end,
        scan_url_end(s, q, v).tok == (match scan_url_end(s, q, Seq::empty()).tok {
            TokenModel::URL(t) => TokenModel::URL(v + t),
            o => o,
        }),
    decreases s.len() - q,
{
    if q >= s.len() {
        assert(v + Seq::<char>::empty() =~= v);
    } else if s[q] == ' ' || s[q] == '\t' || s[q] == '\n' {
        lemma_scan_url_end_param(s, q + 1, v);
    } else if s[q] == ')' {
        assert(v + Seq::<char>::empty() =~= v);
    } else {
    }
}

pub proof fn lemma_pow16_six()
    ensures
        pow16(5) == 0x100000,
        pow16(6) == 0x1000000,
{
    assert(pow16(0) == 1);
    assert(pow16(1) == 16);
    assert(pow16(2) == 256);
    assert(pow16(3) == 4096);
    assert(pow16(4) == 0x10000);
    assert(pow16(5) == 0x100000);
}

// ------------------------------------------------------------------
// Comments and whitespace
// ------------------------------------------------------------------

/// Position after the body of a comment opened before `p`: right after
/// the closing `*/`, or the end of the input.
pub open spec fn comment_body_end(s: Seq<char>, p: int) -> int
    decreases s.len() - p,
    when 0 <= p
{
    if p >= s.len() {
        s.len() as int
    } else if s[p] == '*' && p + 1 < s.len() && s[p + 1] == '/' {
        p + 2
    } else {
        comment_body_end(s, p + 1)
    }
}

/// Position after every comment starting at `p`.
pub open spec fn skip_comments_at(s: Seq<char>, p: int) -> int
    decreases s.len() - p,
    when 0 <= p <= s.len()
    via skip_comments_at_dec
{
    if p + 1 < s.len() && s[p] == '/' && s[p + 1] == '*' {
        skip_comments_at(s, comment_body_end(s, p + 2))
    } else {
        p
    }
}

#[via_fn]
proof fn skip_comments_at_dec(s: Seq<char>, p: int) {
    if p + 1 < s.len() && s[p] == '/' && s[p + 1] == '*' {
        lemma_comment_body_end_bounds(s, p + 2);
    }
}

/// Position after the whitespace run at `p`.
pub open spec fn ws_end(s: Seq<char>, p: int) -> int
    decreases s.len() - p,
    when 0 <= p <= s.len()
{
    if p < s.len() && is_ws(s[p]) {
        ws_end(s, p + 1)
    } else {
        p
    }
}

// ------------------------------------------------------------------
// One lexing step
// ------------------------------------------------------------------

pub ghost struct LexStep {
    /// Position of the token's first character, after any comments.
    pub start: int,
    /// The token, or `None` at the end of the input.
    pub token: Option<TokenModel>,
    /// Position after the token.
    pub end: int,
}

/// Whether a numeric token begins with the sign or dot at `p`.
pub open spec fn sign_starts_number(s: Seq<char>, p: int) -> bool {
    (p + 1 < s.len() && is_digit(s[p + 1])) || (p + 2 < s.len() && s[p + 1] == '.' && is_digit(
        s[p + 2],
    ))
}

/// The token beginning at `q`, which must hold a character.
pub open spec fn dispatch(s: Seq<char>, q: int) -> TokRes {
    let c = s[q];
    if is_ws(c) {
        TokRes { tok: TokenModel::WhiteSpace, end: ws_end(s, q) }
    } else if c == '"' || c == '\'' {
        let r = scan_quoted_string(s, q, c == '\'');
        TokRes {
            tok: match r.text {
                Some(t) => TokenModel::QuotedString(t),
                None => TokenModel::BadString,
            },
            end: r.end,
        }
    } else if c == '#' {
        if is_ident_start_at(s, q + 1) {
            let r = scan_name(s, q + 1);
            TokRes { tok: TokenModel::IDHash(r.text), end: r.end }
        } else if q + 1 < s.len() && (is_name_char(s[q + 1]) || (s[q + 1] == '\\' && !(q + 2
        < s.len() && s[q + 2] == '\n'))) {
            let r = scan_name(s, q + 1);
            TokRes { tok: TokenModel::Hash(r.text), end: r.end }
        } else {
            TokRes { tok: TokenModel::Delim('#'), end: q + 1 }
        }
    } else if c == '$' {
        if q + 1 < s.len() && s[q + 1] == '=' {
            TokRes { tok: TokenModel::SuffixMatch, end: q + 2 }
        } else {
            TokRes { tok: TokenModel::Delim('$'), end: q + 1 }
        }
    } else if c == '(' {
        TokRes { tok: TokenModel::LeftParen, end: q + 1 }
    } else if c == ')' {
        TokRes { tok: TokenModel::RightParen, end: q + 1 }
    } else if c == '*' {
        if q + 1 < s.len() && s[q + 1] == '=' {
            TokRes { tok: TokenModel::SubstringMatch, end: q + 2 }
        } else {
            TokRes { tok: TokenModel::Delim('*'), end: q + 1 }
        }
    } else if c == '+' {
        if sign_starts_number(s, q) {
            numeric_token(s, q)
        } else {
            TokRes { tok: TokenModel::Delim('+'), end: q + 1 }
        }
    } else if c == ',' {
        TokRes { tok: TokenModel::Comma, end: q + 1 }
    } else if c == '-' {
        if sign_starts_number(s, q) {
            numeric_token(s, q)
        } else if is_ident_start_at(s, q) {
            scan_ident_like(s, q)
        } else if q + 2 < s.len() && s[q + 1] == '-' && s[q + 2] == '>' {
            TokRes { tok: TokenModel::CDC, end: q + 3 }
        } else {
            TokRes { tok: TokenModel::Delim('-'), end: q + 1 }
        }
    } else if c == '.' {
        if q + 1 < s.len() && is_digit(s[q + 1]) {
            numeric_token(s, q)
        } else {
            TokRes { tok: TokenModel::Delim('.'), end: q + 1 }
        }
    } else if c == ':' {
        TokRes { tok: TokenModel::Colon, end: q + 1 }
    } else if c == ';' {
        TokRes { tok: TokenModel::Semicolon, end: q + 1 }
    } else if c == '<' {
        if q + 3 < s.len() && s[q + 1] == '!' && s[q + 2] == '-' && s[q + 3] == '-' {
            TokRes { tok: TokenModel::CDO, end: q + 4 }
        } else {
            TokRes { tok: TokenModel::Delim('<'), end: q + 1 }
        }
    } else if c == '@' {
        if is_ident_start_at(s, q + 1) {
            let r = scan_name(s, q + 1);
            TokRes { tok: TokenModel::AtKeyword(r.text), end: r.end }
        } else {
            TokRes { tok: TokenModel::Delim('@'), end: q + 1 }
        }
    } else if c == '[' {
        TokRes { tok: TokenModel::LeftBracket, end: q + 1 }
    } else if c == '\\' {
        if !(q + 1 < s.len() && s[q + 1] == '\n') {
            scan_ident_like(s, q)
        } else {
            TokRes { tok: TokenModel::Delim('\\'), end: q + 1 }
        }
    } else if c == ']' {
        TokRes { tok: TokenModel::RightBracket, end: q + 1 }
    } else if c == '^' {
        if q + 1 < s.len() && s[q + 1] == '=' {
            TokRes { tok: TokenModel::PrefixMatch, end: q + 2 }
        } else {
            TokRes { tok: TokenModel::Delim('^'), end: q + 1 }
        }
    } else if c == '{' {
        TokRes { tok: TokenModel::LeftCurlyBracket, end: q + 1 }
    } else if c == '}' {
        TokRes { tok: TokenModel::RightCurlyBracket, end: q + 1 }
    } else if is_digit(c) {
        numeric_token(s, q)
    } else if c == 'u' || c == 'U' {
        if q + 2 < s.len() && s[q + 1] == '+' && (is_hex_digit(s[q + 2]) || s[q + 2] == '?') {
            scan_unicode_range(s, q + 2)
        } else {
            scan_ident_like(s, q)
        }
    } else if is_letter(c) || c == '_' {
        scan_ident_like(s, q)
    } else if c == '|' {
        if q + 1 < s.len() && s[q + 1] == '=' {
            TokRes { tok: TokenModel::DashMatch, end: q + 2 }
        } else if q + 1 < s.len() && s[q + 1] == '|' {
            TokRes { tok: TokenModel::Column, end: q + 2 }
        } else {
            TokRes { tok: TokenModel::Delim('|'), end: q + 1 }
        }
    } else if c == '~' {
        if q + 1 < s.len() && s[q + 1] == '=' {
            TokRes { tok: TokenModel::IncludeMatch, end: q + 2 }
        } else {
            TokRes { tok: TokenModel::Delim('~'), end: q + 1 }
        }
    } else if is_nonascii(c) {
        scan_ident_like(s, q)
    } else {
        TokRes { tok: TokenModel::Delim(c), end: q + 1 }
    }
}

/// One full lexing step at `p`: skip comments, then read one token,
/// or report the end of the input.
pub open spec fn lex_step(s: Seq<char>, p: int) -> LexStep {
    let q = skip_comments_at(s, p);
    if q >= s.len() {
        LexStep { start: q, token: None, end: q }
    } else {
        let r = dispatch(s, q);
        LexStep { start: q, token: Some(r.tok), end: r.end }
    }
}

// ------------------------------------------------------------------
// Bounds
// ------------------------------------------------------------------

pub proof fn lemma_scan_hex_limit_bounds(s: Seq<char>, p: int, k: nat)
    requires
        0 <= p <= s.len(),
    ensures
        p <= scan_hex_limit(s, p, k) <= s.len(),
        scan_hex_limit(s, p, k) <= p + k,
    decreases k,
{
    if !(k == 0 || p >= s.len() || !is_hex_digit(s[p])) {
        lemma_scan_hex_limit_bounds(s, p + 1, (k - 1) as nat);
    }
}

pub proof fn lemma_scan_qmarks_bounds(s: Seq<char>, p: int, k: nat)
    requires
        0 <= p <= s.len(),
    ensures
        p <= scan_qmarks(s, p, k) <= s.len(),
        scan_qmarks(s, p, k) <= p + k,
    decreases k,
{
    if !(k == 0 || p >= s.len() || s[p] != '?') {
        lemma_scan_qmarks_bounds(s, p + 1, (k - 1) as nat);
    }
}

pub proof fn lemma_escape_at_bounds(s: Seq<char>, p: int)
    requires
        0 <= p,
    ensures
        p <= escape_at(s, p).end,
        p <= s.len() ==> escape_at(s, p).end <= s.len(),
{
    if p < s.len() && is_hex_digit(s[p]) {
        lemma_scan_hex_limit_bounds(s, p + 1, 5);
    }
}

pub proof fn lemma_scan_name_bounds(s: Seq<char>, p: int)
    requires
        0 <= p <= s.len(),
    ensures
        p <= scan_name(s, p).end <= s.len(),
    decreases s.len() - p,
{
    if p < s.len() {
        let c = s[p];
        if is_name_char(c) || (!(c == '\\') && is_nonascii(c)) {
            lemma_scan_name_bounds(s, p + 1);
        } else if c == '\\' && !(p + 1 < s.len() && s[p + 1] == '\n') {
            lemma_escape_at_bounds(s, p + 1);
            lemma_scan_name_bounds(s, escape_at(s, p + 1).end);
        }
    }
}

/// A name whose first character continues it is not empty.
pub proof fn lemma_scan_name_progress(s: Seq<char>, p: int)
    requires
        0 <= p < s.len(),
        is_name_char(s[p]) || is_nonascii(s[p]) || (s[p] == '\\' && !(p + 1 < s.len() && s[p + 1]
            == '\n')),
    ensures
        p + 1 <= scan_name(s, p).end <= s.len(),
{
    lemma_scan_name_bounds(s, p);
    if is_name_char(s[p]) || (!(s[p] == '\\') && is_nonascii(s[p])) {
        lemma_scan_name_bounds(s, p + 1);
    } else {
        lemma_escape_at_bounds(s, p + 1);
        lemma_scan_name_bounds(s, escape_at(s, p + 1).end);
    }
}

pub proof fn lemma_scan_string_body_bounds(s: Seq<char>, p: int, single: bool)
    requires
        0 <= p <= s.len(),
    ensures
        p <= scan_string_body(s, p, single).end <= s.len(),
    decreases s.len() - p,
{
    if p < s.len() {
        let c = s[p];
        if (c == '"' && !single) || (c == '\'' && single) || c == '\n' {
        } else if c == '\\' {
            if p + 1 >= s.len() {
            } else if s[p + 1] == '\n' {
                lemma_scan_string_body_bounds(s, p + 2, single);
            } else {
                lemma_escape_at_bounds(s, p + 1);
                lemma_scan_string_body_bounds(s, escape_at(s, p + 1).end, single);
            }
        } else {
            lemma_scan_string_body_bounds(s, p + 1, single);
        }
    }
}

pub proof fn lemma_scan_digits_bounds(s: Seq<char>, p: int)
    requires
        0 <= p <= s.len(),
    ensures
        p <= scan_digits(s, p) <= s.len(),
    decreases s.len() - p,
{
    if p < s.len() && is_digit(s[p]) {
        lemma_scan_digits_bounds(s, p + 1);
    }
}

pub proof fn lemma_scan_numeric_bounds(s: Seq<char>, p: int)
    requires
        0 <= p <= s.len(),
    ensures
        p <= scan_numeric(s, p).end <= s.len(),
{
    let p1 = if p < s.len() && (s[p] == '+' || s[p] == '-') {
        p + 1
    } else {
        p
    };
    lemma_scan_digits_bounds(s, p1);
    let d1 = scan_digits(s, p1);
    let frac = d1 + 1 < s.len() && s[d1] == '.' && is_digit(s[d1 + 1]);
    if frac {
        lemma_scan_digits_bounds(s, d1 + 2);
    }
    let p2 = if frac {
        scan_digits(s, d1 + 2)
    } else {
        d1
    };
    let expo = (p2 + 1 < s.len() && (s[p2] == 'e' || s[p2] == 'E') && is_digit(s[p2 + 1])) || (p2
        + 2 < s.len() && (s[p2] == 'e' || s[p2] == 'E') && (s[p2 + 1] == '+' || s[p2 + 1] == '-')
        && is_digit(s[p2 + 2]));
    if expo {
        lemma_scan_digits_bounds(s, p2 + 2);
    }
}

pub proof fn lemma_numeric_token_bounds(s: Seq<char>, p: int)
    requires
        0 <= p <= s.len(),
    ensures
        p <= numeric_token(s, p).end <= s.len(),
        numeric_token(s, p).end >= scan_numeric(s, p).end,
{
    lemma_scan_numeric_bounds(s, p);
    let n = scan_numeric(s, p);
    if n.end < s.len() && s[n.end] == '%' {
    } else if is_ident_start_at(s, n.end) {
        lemma_scan_name_bounds(s, n.end);
    }
}

pub proof fn lemma_scan_bad_url_bounds(s: Seq<char>, p: int)
    requires
        0 <= p <= s.len(),
    ensures
        p <= scan_bad_url(s, p) <= s.len(),
    decreases s.len() - p,
{
    if p >= s.len() {
    } else if s[p] == ')' {
    } else if s[p] == '\\' {
        if p + 2 <= s.len() {
            lemma_scan_bad_url_bounds(s, p + 2);
        } else {
            lemma_scan_bad_url_bounds(s, s.len() as int);
        }
    } else {
        lemma_scan_bad_url_bounds(s, p + 1);
    }
}

pub proof fn lemma_scan_url_end_bounds(s: Seq<char>, p: int, v: Seq<char>)
    requires
        0 <= p <= s.len(),
    ensures
        p <= scan_url_end(s, p, v).end <= s.len(),
    decreases s.len() - p,
{
    if p >= s.len() {
    } else if s[p] == ' ' || s[p] == '\t' || s[p] == '\n' {
        lemma_scan_url_end_bounds(s, p + 1, v);
    } else if s[p] == ')' {
    } else {
        lemma_scan_bad_url_bounds(s, p + 1);
    }
}

pub proof fn lemma_scan_unquoted_url_bounds(s: Seq<char>, p: int)
    requires
        0 <= p <= s.len(),
    ensures
        p <= scan_unquoted_url(s, p).end <= s.len(),
    decreases s.len() - p,
{
    if p < s.len() {
        let c = s[p];
        if c == ' ' || c == '\t' || c == '\n' {
            lemma_scan_url_end_bounds(s, p + 1, Seq::empty());
        } else if c == ')' {
        } else if is_url_reject(c) {
            lemma_scan_bad_url_bounds(s, p + 1);
        } else if c == '\\' {
            if p + 1 < s.len() && s[p + 1] == '\n' {
                lemma_scan_bad_url_bounds(s, p + 1);
            } else {
                lemma_escape_at_bounds(s, p + 1);
                lemma_scan_unquoted_url_bounds(s, escape_at(s, p + 1).end);
            }
        } else {
            lemma_scan_unquoted_url_bounds(s, p + 1);
        }
    }
}

pub proof fn lemma_scan_url_bounds(s: Seq<char>, p: int)
    requires
        0 <= p <= s.len(),
    ensures
        p <= scan_url(s, p).end <= s.len(),
    decreases s.len() - p,
{
    if p < s.len() {
        let c = s[p];
        if c == ' ' || c == '\t' || c == '\n' {
            lemma_scan_url_bounds(s, p + 1);
        } else if c == '"' || c == '\'' {
            lemma_scan_string_body_bounds(s, p + 1, c == '\'');
            let q = scan_quoted_string(s, p, c == '\'');
            match q.text {
                Some(v) => lemma_scan_url_end_bounds(s, q.end, v),
                None => lemma_scan_bad_url_bounds(s, q.end),
            }
        } else if c == ')' {
        } else {
            lemma_scan_unquoted_url_bounds(s, p);
        }
    }
}

pub proof fn lemma_scan_ident_like_bounds(s: Seq<char>, p: int)
    requires
        0 <= p <= s.len(),
    ensures
        p <= scan_ident_like(s, p).end <= s.len(),
{
    lemma_scan_name_bounds(s, p);
    let r = scan_name(s, p);
    if r.end < s.len() && s[r.end] == '(' && is_url_keyword(r.text) {
        lemma_scan_url_bounds(s, r.end + 1);
    }
}

pub proof fn lemma_scan_unicode_range_bounds(s: Seq<char>, p: int)
    requires
        0 <= p <= s.len(),
    ensures
        p <= scan_unicode_range(s, p).end <= s.len(),
{
    lemma_scan_hex_limit_bounds(s, p, 6);
    let dend = scan_hex_limit(s, p, 6);
    lemma_scan_qmarks_bounds(s, dend, (6 - (dend - p)) as nat);
    let qend = scan_qmarks(s, dend, (6 - (dend - p)) as nat);
    if qend == dend && qend < s.len() && s[qend] == '-' {
        lemma_scan_hex_limit_bounds(s, qend + 1, 6);
    }
}

pub proof fn lemma_comment_body_end_bounds(s: Seq<char>, p: int)
    requires
        0 <= p <= s.len(),
    ensures
        p <= comment_body_end(s, p) <= s.len(),
    decreases s.len() - p,
{
    if p < s.len() && !(s[p] == '*' && p + 1 < s.len() && s[p + 1] == '/') {
        lemma_comment_body_end_bounds(s, p + 1);
    }
}

pub proof fn lemma_skip_comments_at_bounds(s: Seq<char>, p: int)
    requires
        0 <= p <= s.len(),
    ensures
        p <= skip_comments_at(s, p) <= s.len(),
    decreases s.len() - p,
{
    if p + 1 < s.len() && s[p] == '/' && s[p + 1] == '*' {
        lemma_comment_body_end_bounds(s, p + 2);
        lemma_skip_comments_at_bounds(s, comment_body_end(s, p + 2));
    }
}

pub proof fn lemma_ws_end_bounds(s: Seq<char>, p: int)
    requires
        0 <= p <= s.len(),
    ensures
        p <= ws_end(s, p) <= s.len(),
    decreases s.len() - p,
{
    if p < s.len() && is_ws(s[p]) {
        lemma_ws_end_bounds(s, p + 1);
    }
}

/// Every lexing step stays inside the input, and a step that yields a
/// token consumes at least one character.
pub proof fn lemma_lex_step(s: Seq<char>, p: int)
    requires
        0 <= p <= s.len(),
    ensures
        p <= lex_step(s, p).start <= s.len(),
        lex_step(s, p).token is Some ==> lex_step(s, p).start < lex_step(s, p).end <= s.len(),
        lex_step(s, p).token is None ==> lex_step(s, p).start == s.len() && lex_step(s, p).end
            == s.len(),
{
    lemma_skip_comments_at_bounds(s, p);
    let q = skip_comments_at(s, p);
    if q < s.len() {
        let c = s[q];
        if is_ws(c) {
            lemma_ws_end_bounds(s, q + 1);
        } else if c == '"' || c == '\'' {
            lemma_scan_string_body_bounds(s, q + 1, c == '\'');
        } else if c == '#' {
            if is_ident_start_at(s, q + 1) || (q + 1 < s.len() && (is_name_char(s[q + 1]) || (s[q
                + 1] == '\\' && !(q + 2 < s.len() && s[q + 2] == '\n')))) {
                lemma_scan_name_bounds(s, q + 1);
            }
        } else if c == '+' || c == '-' {
            if sign_starts_number(s, q) {
                lemma_numeric_token_bounds(s, q);
                lemma_numeric_progress_signed(s, q);
            } else if c == '-' && is_ident_start_at(s, q) {
                lemma_ident_like_progress(s, q);
            }
        } else if c == '.' {
            if q + 1 < s.len() && is_digit(s[q + 1]) {
                lemma_numeric_token_bounds(s, q);
                lemma_numeric_progress_signed(s, q);
            }
        } else if c == '@' {
            if is_ident_start_at(s, q + 1) {
                lemma_scan_name_bounds(s, q + 1);
            }
        } else if c == '\\' {
            if !(q + 1 < s.len() && s[q + 1] == '\n') {
                lemma_ident_like_progress(s, q);
            }
        } else if is_digit(c) {
            lemma_numeric_token_bounds(s, q);
            lemma_numeric_progress_digit(s, q);
        } else if c == 'u' || c == 'U' {
            if q + 2 < s.len() && s[q + 1] == '+' && (is_hex_digit(s[q + 2]) || s[q + 2] == '?') {
                lemma_scan_unicode_range_bounds(s, q + 2);
            } else {
                lemma_ident_like_progress(s, q);
            }
        } else if is_letter(c) || c == '_' || is_nonascii(c) {
            lemma_ident_like_progress(s, q);
        }
    }
}

/// An ident-like token whose first character starts a name consumes it.
proof fn lemma_ident_like_progress(s: Seq<char>, p: int)
    requires
        0 <= p < s.len(),
        is_name_char(s[p]) || is_nonascii(s[p]) || (s[p] == '\\' && !(p + 1 < s.len() && s[p + 1]
            == '\n')),
    ensures
        p < scan_ident_like(s, p).end <= s.len(),
{
    lemma_scan_name_progress(s, p);
    let r = scan_name(s, p);
    if r.end < s.len() && s[r.end] == '(' && is_url_keyword(r.text) {
        lemma_scan_url_bounds(s, r.end + 1);
    }
}

/// A numeric token at a digit consumes it.
proof fn lemma_numeric_progress_digit(s: Seq<char>, p: int)
    requires
        0 <= p < s.len(),
        is_digit(s[p]),
    ensures
        p < numeric_token(s, p).end <= s.len(),
{
    lemma_numeric_token_bounds(s, p);
    lemma_scan_digits_bounds(s, p + 1);
    assert(scan_digits(s, p) == scan_digits(s, p + 1));
    lemma_scan_numeric_after(s, p);
}

/// A numeric token at a sign or dot that starts a number consumes it.
proof fn lemma_numeric_progress_signed(s: Seq<char>, p: int)
    requires
        0 <= p < s.len(),
        s[p] == '+' || s[p] == '-' || s[p] == '.',
        s[p] == '.' ==> p + 1 < s.len() && is_digit(s[p + 1]),
        s[p] != '.' ==> sign_starts_number(s, p),
    ensures
        p < numeric_token(s, p).end <= s.len(),
{
    lemma_numeric_token_bounds(s, p);
    lemma_scan_numeric_after(s, p);
    if s[p] == '.' {
        let d1 = scan_digits(s, p);
        assert(d1 == p);
        lemma_scan_digits_bounds(s, p + 2);
    } else {
        lemma_scan_digits_bounds(s, p + 1);
    }
}

/// The numeric scanner never stops before the digits after the sign, nor
/// before the digits after a leading dot.
proof fn lemma_scan_numeric_after(s: Seq<char>, p: int)
    requires
        0 <= p <= s.len(),
    ensures
        ({
            let p1 = if p < s.len() && (s[p] == '+' || s[p] == '-') {
                p + 1
            } else {
                p
            };
            scan_numeric(s, p).end >= scan_digits(s, p1) >= p1
        }),
        ({
            let p1 = if p < s.len() && (s[p] == '+' || s[p] == '-') {
                p + 1
            } else {
                p
            };
            let d1 = scan_digits(s, p1);
            (d1 + 1 < s.len() && s[d1] == '.' && is_digit(s[d1 + 1])) ==> scan_numeric(s, p).end
                >= scan_digits(s, d1 + 2) >= d1 + 2
        }),
{
    let p1 = if p < s.len() && (s[p] == '+' || s[p] == '-') {
        p + 1
    } else {
        p
    };
    lemma_scan_digits_bounds(s, p1);
    let d1 = scan_digits(s, p1);
    let frac = d1 + 1 < s.len() && s[d1] == '.' && is_digit(s[d1 + 1]);
    if frac {
        lemma_scan_digits_bounds(s, d1 + 2);
    }
    let p2 = if frac {
        scan_digits(s, d1 + 2)
    } else {
        d1
    };
    let expo = (p2 + 1 < s.len() && (s[p2] == 'e' || s[p2] == 'E') && is_digit(s[p2 + 1])) || (p2
        + 2 < s.len() && (s[p2] == 'e' || s[p2] == 'E') && (s[p2 + 1] == '+' || s[p2 + 1] == '-')
        && is_digit(s[p2 + 2]));
    if expo {
        lemma_scan_digits_bounds(s, p2 + 2);
    }
}

// ------------------------------------------------------------------
// The token stream
// ------------------------------------------------------------------

/// Every token from position `p` to the end of the input.
pub open spec fn token_stream(s: Seq<char>, p: int) -> Seq<TokenModel>
    decreases s.len() - p,
    when 0 <= p <= s.len()
    via token_stream_dec
{
    let st = lex_step(s, p);
    match st.token {
        None => Seq::empty(),
        Some(t) => seq![t] + token_stream(s, st.end),
    }
}

#[via_fn]
proof fn token_stream_dec(s: Seq<char>, p: int) {
    lemma_lex_step(s, p);
}

// ------------------------------------------------------------------
// Lines and columns
// ------------------------------------------------------------------

/// Number of newline characters before `p`.
pub open spec fn nl_count(s: Seq<char>, p: int) -> int
    decreases p,
{
    if p <= 0 {
        0
    } else {
        nl_count(s, p - 1) + if s[p - 1] == '\n' {
            1int
        } else {
            0int
        }
    }
}

/// Position of the first character of the line holding position `p`.
pub open spec fn line_start_of(s: Seq<char>, p: int) -> int
    decreases p,
{
    if p <= 0 {
        0
    } else if s[p - 1] == '\n' {
        p
    } else {
        line_start_of(s, p - 1)
    }
}

/// The 1-based line of position `p`.
pub open spec fn line_of(s: Seq<char>, p: int) -> int {
    1 + nl_count(s, p)
}

/// The 1-based column of position `p`.
pub open spec fn col_of(s: Seq<char>, p: int) -> int {
    p - line_start_of(s, p) + 1
}

// ------------------------------------------------------------------
// Laws
// ------------------------------------------------------------------

/// Preprocessing output never holds a carriage return, a form feed or
/// a NUL.
pub proof fn lemma_preprocess_no_specials(s: Seq<char>)
    ensures
        forall|i: int|
            0 <= i < preprocess_spec(s).len() ==> #[trigger] preprocess_spec(s)[i] != '\r'
                && preprocess_spec(s)[i] != '\u{C}' && preprocess_spec(s)[i] != '\0',
    decreases s.len(),
{
    if s.len() > 0 {
        let t = preprocess_spec(s);
        let k: int = if s[0] == '\r' && s.len() >= 2 && s[1] == '\n' {
            2
        } else {
            1
        };
        lemma_preprocess_no_specials(s.skip(k));
        let rest = preprocess_spec(s.skip(k));
        assert forall|i: int| 0 <= i < t.len() implies #[trigger] t[i] != '\r' && t[i] != '\u{C}'
            && t[i] != '\0' by {
            if i > 0 {
                assert(t[i] == rest[i - 1]);
            }
        }
    }
}

/// A text holding none of the rewritten characters is left unchanged.
pub proof fn lemma_preprocess_identity(s: Seq<char>)
    requires
        forall|i: int|
            0 <= i < s.len() ==> #[trigger] s[i] != '\r' && s[i] != '\u{C}' && s[i] != '\0',
    ensures
        preprocess_spec(s) == s,
    decreases s.len(),
{
    if s.len() == 0 {
        assert(preprocess_spec(s) =~= s);
    } else {
        assert(forall|i: int| 0 <= i < s.skip(1).len() ==> #[trigger] s.skip(1)[i] == s[i + 1]);
        lemma_preprocess_identity(s.skip(1));
        assert(seq![s[0]] + s.skip(1) =~= s);
    }
}

/// Preprocessing is idempotent: a second pass changes nothing.
pub proof fn lemma_preprocess_idempotent(s: Seq<char>)
    ensures
        preprocess_spec(preprocess_spec(s)) == preprocess_spec(s),
{
    lemma_preprocess_no_specials(s);
    lemma_preprocess_identity(preprocess_spec(s));
}

/// The exact negative left fold of decimal digits.
pub open spec fn dec_fold_neg(digits: Seq<char>, v: int) -> int
    decreases digits.len(),
{
    if digits.len() == 0 {
        v
    } else {
        dec_fold_neg(digits.skip(1), v * 10 - (digits[0] as int - '0' as int))
    }
}

proof fn lemma_dec_fold_neg(digits: Seq<char>, v: int)
    ensures
        dec_fold_neg(digits, v) == -dec_fold(digits, -v),
    decreases digits.len(),
{
    if digits.len() > 0 {
        lemma_dec_fold_neg(digits.skip(1), v * 10 - (digits[0] as int - '0' as int));
    }
}

proof fn lemma_sat_fold_exact(ds: Seq<char>, neg: bool, v: int)
    requires
        forall|i: int| 0 <= i < ds.len() ==> is_digit(#[trigger] ds[i]),
        !neg ==> v >= 0,
        neg ==> v <= 0,
    ensures
        !neg ==> sat_dec_fold(ds, false, i64_clip(v)) == i64_clip(dec_fold(ds, v)),
        neg ==> sat_dec_fold(ds, true, i64_clip(v)) == i64_clip(dec_fold_neg(ds, v)),
    decreases ds.len(),
{
    if ds.len() > 0 {
        let d = ds[0] as int - '0' as int;
        assert(is_digit(ds[0]));
        assert(0 <= d <= 9);
        if !neg {
            assert(sat_step(i64_clip(v), d, false) == i64_clip(v * 10 + d));
            assert(forall|i: int|
                0 <= i < ds.skip(1).len() ==> is_digit(#[trigger] ds.skip(1)[i]));
            lemma_sat_fold_exact(ds.skip(1), false, v * 10 + d);
        } else {
            assert(sat_step(i64_clip(v), d, true) == i64_clip(v * 10 - d));
            assert(forall|i: int|
                0 <= i < ds.skip(1).len() ==> is_digit(#[trigger] ds.skip(1)[i]));
            lemma_sat_fold_exact(ds.skip(1), true, v * 10 - d);
        }
    }
}

/// Round trip of integer representations: wherever the exact signed
/// decimal value of a representation (an optional sign before digits)
/// fits the reported integer type, the saturating value the lexer
/// stores for it is that exact value.
pub proof fn lemma_int_value_round_trip(repr: Seq<char>)
    requires
        ({
            let start: int = if repr.len() > 0 && (repr[0] == '+' || repr[0] == '-') {
                1
            } else {
                0
            };
            forall|i: int| start <= i < repr.len() ==> is_digit(#[trigger] repr[i])
        }),
        i64::MIN <= signed_dec_val(repr) <= i64::MAX,
    ensures
        sat_signed_dec(repr) == signed_dec_val(repr),
{
    if repr.len() > 0 && (repr[0] == '+' || repr[0] == '-') {
        let ds = repr.skip(1);
        assert(forall|i: int| 0 <= i < ds.len() ==> is_digit(#[trigger] ds[i]));
        if repr[0] == '-' {
            lemma_sat_fold_exact(ds, true, 0);
            lemma_dec_fold_neg(ds, 0);
        } else {
            lemma_sat_fold_exact(ds, false, 0);
        }
    } else {
        lemma_sat_fold_exact(repr, false, 0);
    }
}

/// The number of characters one lexing step consumes, comments counted
/// with the token they precede, summed over the whole rest of the input.
pub open spec fn consumed_total(s: Seq<char>, p: int) -> int
    decreases s.len() - p,
    when 0 <= p <= s.len()
    via consumed_total_dec
{
    let st = lex_step(s, p);
    match st.token {
        None => st.end - p,
        Some(t) => (st.end - p) + consumed_total(s, st.end),
    }
}

#[via_fn]
proof fn consumed_total_dec(s: Seq<char>, p: int) {
    lemma_lex_step(s, p);
}

/// Coverage: over a whole tokenization the consumed spans add up to
/// exactly the remaining length of the (preprocessed) input — nothing
/// is skipped and nothing is read twice.
pub proof fn lemma_coverage(s: Seq<char>, p: int)
    requires
        0 <= p <= s.len(),
    ensures
        consumed_total(s, p) == s.len() - p,
    decreases s.len() - p,
{
    lemma_lex_step(s, p);
    let st = lex_step(s, p);
    if st.token is Some {
        lemma_coverage(s, st.end);
    }
}

/// Every character a digit run consumed is a digit.
pub proof fn lemma_scan_digits_chars(s: Seq<char>, p: int)
    requires
        0 <= p <= s.len(),
    ensures
        forall|i: int| p <= i < scan_digits(s, p) ==> is_digit(#[trigger] s[i]),
    decreases s.len() - p,
{
    if p < s.len() && is_digit(s[p]) {
        lemma_scan_digits_chars(s, p + 1);
        lemma_scan_digits_bounds(s, p + 1);
    }
}

/// Round trip on the lexer's own tokens: for a numeric representation
/// scanned with no fraction and no exponent, whose exact signed decimal
/// value fits the reported type, the saturating value the token stores
/// is that exact value.
pub proof fn lemma_scanned_int_value_exact(s: Seq<char>, p: int)
    requires
        0 <= p <= s.len(),
        scan_numeric(s, p).is_integer,
        i64::MIN <= signed_dec_val(scan_numeric(s, p).repr) <= i64::MAX,
    ensures
        sat_signed_dec(scan_numeric(s, p).repr) == signed_dec_val(scan_numeric(s, p).repr),
{
    let n = scan_numeric(s, p);
    let p1 = if p < s.len() && (s[p] == '+' || s[p] == '-') {
        p + 1
    } else {
        p
    };
    lemma_scan_digits_bounds(s, p1);
    lemma_scan_digits_chars(s, p1);
    let d1 = scan_digits(s, p1);
    assert(n.end == d1);
    assert(n.repr =~= s.subrange(p, d1));
    let start: int = if n.repr.len() > 0 && (n.repr[0] == '+' || n.repr[0] == '-') {
        1
    } else {
        0
    };
    assert forall|i: int| start <= i < n.repr.len() implies is_digit(#[trigger] n.repr[i]) by {
        assert(n.repr[i] == s[p + i]);
        assert(p1 <= p + i < d1);
    }
    lemma_int_value_round_trip(n.repr);
}

/// The source text one lexing step consumes, followed by the texts of
/// all later steps.
pub open spec fn consumed_text(s: Seq<char>, p: int) -> Seq<char>
    decreases s.len() - p,
    when 0 <= p <= s.len()
    via consumed_text_dec
{
    let st = lex_step(s, p);
    match st.token {
        None => s.subrange(p, st.end),
        Some(t) => s.subrange(p, st.end) + consumed_text(s, st.end),
    }
}

#[via_fn]
proof fn consumed_text_dec(s: Seq<char>, p: int) {
    lemma_lex_step(s, p);
}

/// Concatenating the source text consumed by every token (with the
/// comments it skipped) rebuilds the remaining input exactly.
pub proof fn lemma_consumed_text_rebuilds(s: Seq<char>, p: int)
    requires
        0 <= p <= s.len(),
    ensures
        consumed_text(s, p) == s.skip(p),
    decreases s.len() - p,
{
    lemma_lex_step(s, p);
    let st = lex_step(s, p);
    match st.token {
        None => {
            assert(s.subrange(p, st.end) =~= s.skip(p));
        },
        Some(t) => {
            lemma_consumed_text_rebuilds(s, st.end);
            assert(s.subrange(p, st.end) + s.skip(st.end) =~= s.skip(p));
        },
    }
}

} // verus!
