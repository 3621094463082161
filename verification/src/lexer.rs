//! The streaming CSS tokenizer: a restartable lexer over a shared,
//! preprocessed character buffer, verified against the model.

use crate::model::{
    code_point, code_point_char, col_of, comment_body_end, escape_at, hex_digit_val, hex_val,
    i64_clip, is_digit, is_hex_digit, is_ident_start_at, is_letter, is_name_char, is_nonascii,
    is_url_keyword, is_ws, lemma_escape_at_bounds, lemma_pow16_mono, lemma_pow16_mul,
    lemma_pow16_pos, lemma_pow16_six, lemma_scan_url_end_param, lex_step, line_of, line_start_of,
    nl_count, numeric_token, pow16, preprocess_spec, sat_dec_fold, sat_signed_dec, sat_step,
    scan_bad_url, scan_digits, scan_hex_limit, scan_ident_like, scan_name, scan_numeric,
    scan_qmarks, scan_quoted_string, scan_quoted_url, scan_string_body, scan_unicode_range,
    scan_unquoted_url, scan_url, scan_url_end, skip_comments_at, ws_end, NumericModel, TokRes,
    TokenModel,
};
use std::sync::Arc;
use vstd::prelude::*;
use vstd::string::StrSliceExecFns;

verus! {

/// A numeric payload: the exact source text consumed and, where the text
/// has no fraction and no exponent, its saturating signed decimal value.
#[derive(Debug, Clone)]
pub struct NumericValue {
    pub representation: String,
    pub int_value: Option<i64>,
}

impl View for NumericValue {
    type V = NumericModel;

    open spec fn view(&self) -> NumericModel {
        NumericModel { repr: self.representation@, int_value: self.int_value }
    }
}

impl PartialEq for NumericValue {
    fn eq(&self, other: &NumericValue) -> (r: bool) {
        self.representation == other.representation && (match (self.int_value, other.int_value) {
            (Some(a), Some(b)) => a == b,
            (None, None) => true,
            _ => false,
        })
    }
}

impl vstd::std_specs::cmp::PartialEqSpecImpl for NumericValue {
    open spec fn obeys_eq_spec() -> bool {
        true
    }

    open spec fn eq_spec(&self, other: &NumericValue) -> bool {
        self@ == other@
    }
}

/// A position in the source: 1-based line, 1-based column.
#[derive(Debug, Clone, Copy, PartialEq, Eq, Structural)]
pub struct SourceLocation {
    pub line: usize,
    pub column: usize,
}

/// One CSS token.
#[derive(Debug, Clone)]
pub enum Token {
    Ident(String),
    Function(String),
    AtKeyword(String),
    Hash(String),
    IDHash(String),
    QuotedString(String),
    BadString,
    URL(String),
    BadURL,
    Delim(char),
    Number(NumericValue),
    Percentage(NumericValue),
    Dimension(NumericValue, String),
    UnicodeRange(u32, u32),
    IncludeMatch,
    DashMatch,
    PrefixMatch,
    SuffixMatch,
    SubstringMatch,
    Column,
    WhiteSpace,
    CDO,
    CDC,
    Colon,
    Semicolon,
    Comma,
    LeftBracket,
    RightBracket,
    LeftParen,
    RightParen,
    LeftCurlyBracket,
    RightCurlyBracket,
}

impl View for Token {
    type V = TokenModel;

    open spec fn view(&self) -> TokenModel {
        match self {
            Token::Ident(v) => TokenModel::Ident(v@),
            Token::Function(v) => TokenModel::Function(v@),
            Token::AtKeyword(v) => TokenModel::AtKeyword(v@),
            Token::Hash(v) => TokenModel::Hash(v@),
            Token::IDHash(v) => TokenModel::IDHash(v@),
            Token::QuotedString(v) => TokenModel::QuotedString(v@),
            Token::BadString => TokenModel::BadString,
            Token::URL(v) => TokenModel::URL(v@),
            Token::BadURL => TokenModel::BadURL,
            Token::Delim(c) => TokenModel::Delim(*c),
            Token::Number(v) => TokenModel::Number(v@),
            Token::Percentage(v) => TokenModel::Percentage(v@),
            Token::Dimension(v, u) => TokenModel::Dimension(v@, u@),
            Token::UnicodeRange(a, b) => TokenModel::UnicodeRange(*a, *b),
            Token::IncludeMatch => TokenModel::IncludeMatch,
            Token::DashMatch => TokenModel::DashMatch,
            Token::PrefixMatch => TokenModel::PrefixMatch,
            Token::SuffixMatch => TokenModel::SuffixMatch,
            Token::SubstringMatch => TokenModel::SubstringMatch,
            Token::Column => TokenModel::Column,
            Token::WhiteSpace => TokenModel::WhiteSpace,
            Token::CDO => TokenModel::CDO,
            Token::CDC => TokenModel::CDC,
            Token::Colon => TokenModel::Colon,
            Token::Semicolon => TokenModel::Semicolon,
            Token::Comma => TokenModel::Comma,
            Token::LeftBracket => TokenModel::LeftBracket,
            Token::RightBracket => TokenModel::RightBracket,
            Token::LeftParen => TokenModel::LeftParen,
            Token::RightParen => TokenModel::RightParen,
            Token::LeftCurlyBracket => TokenModel::LeftCurlyBracket,
            Token::RightCurlyBracket => TokenModel::RightCurlyBracket,
        }
    }
}

impl PartialEq for Token {
    fn eq(&self, other: &Token) -> (r: bool) {
        match (self, other) {
            (Token::Ident(a), Token::Ident(b)) => *a == *b,
            (Token::Function(a), Token::Function(b)) => *a == *b,
            (Token::AtKeyword(a), Token::AtKeyword(b)) => *a == *b,
            (Token::Hash(a), Token::Hash(b)) => *a == *b,
            (Token::IDHash(a), Token::IDHash(b)) => *a == *b,
            (Token::QuotedString(a), Token::QuotedString(b)) => *a == *b,
            (Token::BadString, Token::BadString) => true,
            (Token::URL(a), Token::URL(b)) => *a == *b,
            (Token::BadURL, Token::BadURL) => true,
            (Token::Delim(a), Token::Delim(b)) => *a == *b,
            (Token::Number(a), Token::Number(b)) => *a == *b,
            (Token::Percentage(a), Token::Percentage(b)) => *a == *b,
            (Token::Dimension(a, u), Token::Dimension(b, w)) => *a == *b && *u == *w,
            (Token::UnicodeRange(a, x), Token::UnicodeRange(b, y)) => *a == *b && *x == *y,
            (Token::IncludeMatch, Token::IncludeMatch) => true,
            (Token::DashMatch, Token::DashMatch) => true,
            (Token::PrefixMatch, Token::PrefixMatch) => true,
            (Token::SuffixMatch, Token::SuffixMatch) => true,
            (Token::SubstringMatch, Token::SubstringMatch) => true,
            (Token::Column, Token::Column) => true,
            (Token::WhiteSpace, Token::WhiteSpace) => true,
            (Token::CDO, Token::CDO) => true,
            (Token::CDC, Token::CDC) => true,
            (Token::Colon, Token::Colon) => true,
            (Token::Semicolon, Token::Semicolon) => true,
            (Token::Comma, Token::Comma) => true,
            (Token::LeftBracket, Token::LeftBracket) => true,
            (Token::RightBracket, Token::RightBracket) => true,
            (Token::LeftParen, Token::LeftParen) => true,
            (Token::RightParen, Token::RightParen) => true,
            (Token::LeftCurlyBracket, Token::LeftCurlyBracket) => true,
            (Token::RightCurlyBracket, Token::RightCurlyBracket) => true,
            _ => false,
        }
    }
}

impl vstd::std_specs::cmp::PartialEqSpecImpl for Token {
    open spec fn obeys_eq_spec() -> bool {
        true
    }

    open spec fn eq_spec(&self, other: &Token) -> bool {
        self@ == other@
    }
}

/// A token together with the location of its first character.
pub type Node = (Token, SourceLocation);

// ------------------------------------------------------------------
// Character helpers
// ------------------------------------------------------------------

fn digit_char(c: char) -> (r: bool)
    ensures
        r == is_digit(c),
{
    '0' <= c && c <= '9'
}

fn hex_digit_char(c: char) -> (r: bool)
    ensures
        r == is_hex_digit(c),
{
    ('0' <= c && c <= '9') || ('a' <= c && c <= 'f') || ('A' <= c && c <= 'F')
}

fn letter_char(c: char) -> (r: bool)
    ensures
        r == is_letter(c),
{
    ('a' <= c && c <= 'z') || ('A' <= c && c <= 'Z')
}

fn name_char(c: char) -> (r: bool)
    ensures
        r == is_name_char(c),
{
    letter_char(c) || digit_char(c) || c == '_' || c == '-'
}

fn nonascii_char(c: char) -> (r: bool)
    ensures
        r == is_nonascii(c),
{
    c > '\u{7F}'
}

fn ws_char(c: char) -> (r: bool)
    ensures
        r == is_ws(c),
{
    c == ' ' || c == '\t' || c == '\n'
}

fn hex_digit_value(c: char) -> (v: u32)
    requires
        is_hex_digit(c),
    ensures
        v == hex_digit_val(c),
        v < 16,
{
    if '0' <= c && c <= '9' {
        c as u32 - '0' as u32
    } else if 'a' <= c && c <= 'f' {
        c as u32 - 'a' as u32 + 10
    } else {
        c as u32 - 'A' as u32 + 10
    }
}

// ------------------------------------------------------------------
// Trusted wrappers
// ------------------------------------------------------------------

/// Relies on String::push: appends exactly one character at the end.
#[verifier::external_body]
fn push_char(s: &mut String, c: char)
    ensures
        final(s)@ == old(s)@.push(c),
{
    s.push(c);
}

/// Relies on char::from_u32: `Some` exactly for the values outside the
/// surrogate range and at most 0x10FFFF, and the character returned has
/// the given code point.
#[verifier::external_body]
fn char_from_u32(v: u32) -> (r: Option<char>)
    ensures
        r is Some <==> (v < 0xD800 || (0xE000 <= v && v <= 0x10FFFF)),
        r matches Some(c) ==> c as int == v as int,
{
    char::from_u32(v)
}

// ------------------------------------------------------------------
// Preprocessing
// ------------------------------------------------------------------

/// Map `\r\n`, isolated `\r` and form feeds to `\n`, and NUL to U+FFFD.
pub fn preprocess(input: &str) -> (out: String)
    ensures
        out@ == preprocess_spec(input@),
        out@.len() <= input@.len(),
{
    let n = input.unicode_len();
    let mut out = String::new();
    let mut i: usize = 0;
    proof {
        assert(input@.skip(0) =~= input@);
        assert(Seq::<char>::empty() + preprocess_spec(input@) =~= preprocess_spec(input@));
    }
    while i < n
        invariant
            n == input@.len(),
            i <= n,
            out@.len() <= i,
            preprocess_spec(input@) == out@ + preprocess_spec(input@.skip(i as int)),
        decreases n - i,
    {
        let ghost pre = out@;
        let ghost suf = input@.skip(i as int);
        proof {
            assert(suf.len() == n - i);
            assert(suf[0] == input@[i as int]);
            if i + 1 < n {
                assert(suf[1] == input@[i + 1]);
            }
            assert(suf.skip(1) =~= input@.skip(i + 1));
            if i + 2 <= n {
                assert(suf.skip(2) =~= input@.skip(i + 2));
            }
        }
        let c = input.get_char(i);
        if c == '\r' {
            if i + 1 < n && input.get_char(i + 1) == '\n' {
                push_char(&mut out, '\n');
                i = i + 2;
            } else {
                push_char(&mut out, '\n');
                i = i + 1;
            }
        } else if c == '\u{C}' {
            push_char(&mut out, '\n');
            i = i + 1;
        } else if c == '\0' {
            push_char(&mut out, '\u{FFFD}');
            i = i + 1;
        } else {
            push_char(&mut out, c);
            i = i + 1;
        }
        proof {
            let ch = out@[out@.len() - 1];
            assert(out@ =~= pre.push(ch));
            assert(pre + (seq![ch] + preprocess_spec(input@.skip(i as int))) =~= out@
                + preprocess_spec(input@.skip(i as int)));
        }
    }
    proof {
        assert(input@.skip(n as int) =~= Seq::<char>::empty());
        assert(out@ + preprocess_spec(input@.skip(n as int)) =~= out@);
    }
    out
}

// ------------------------------------------------------------------
// The tokenizer
// ------------------------------------------------------------------

/// The tokenizer state: a shared read-only buffer, the current character
/// position, and line bookkeeping for source locations.
pub struct Tokenizer {
    pub input: Arc<String>,
    pub length: usize,
    pub position: usize,
    pub line: usize,
    pub last_line_start: usize,
}

impl Tokenizer {
    /// The buffer as a character sequence.
    pub open spec fn buf(&self) -> Seq<char> {
        self.input@
    }

    /// The fields agree with the buffer; every verified caller keeps this.
    pub open spec fn wf(&self) -> bool {
        &&& self.length == self.buf().len()
        &&& self.position <= self.length
        &&& self.last_line_start <= self.position
        &&& self.length < usize::MAX
    }

    /// The line bookkeeping is exact for the current position; it holds
    /// after construction and is kept by lexing, but not by a jump of
    /// `position`.
    pub open spec fn loc_ok(&self) -> bool {
        &&& self.line == line_of(self.buf(), self.position as int)
        &&& self.last_line_start == line_start_of(self.buf(), self.position as int)
    }

    /// The buffer is the same in both states.
    pub open spec fn same_buf(&self, other: &Tokenizer) -> bool {
        &&& self.buf() == other.buf()
        &&& self.length == other.length
    }

    /// Construct a tokenizer at position 0. Assumes `input` has already
    /// been preprocessed.
    pub fn new(input: Arc<String>) -> (t: Tokenizer)
        requires
            input@.len() < usize::MAX,
        ensures
            t.wf(),
            t.loc_ok(),
            t.buf() == input@,
            t.position == 0,
            t.line == 1,
            t.last_line_start == 0,
    {
        let length = input.as_str().unicode_len();
        let t = Tokenizer { length, input, position: 0, line: 1, last_line_start: 0 };
        proof {
            assert(nl_count(t.buf(), 0) == 0);
            assert(line_start_of(t.buf(), 0) == 0);
        }
        t
    }

    #[inline]
    fn is_eof(&self) -> (r: bool)
        requires
            self.wf(),
        ensures
            r == (self.position >= self.length),
    {
        self.position >= self.length
    }

    // Assumes non-EOF
    #[inline]
    fn current_char(&self) -> (c: char)
        requires
            self.wf(),
            self.position < self.length,
        ensures
            c == self.buf()[self.position as int],
    {
        self.char_at(0)
    }

    #[inline]
    fn char_at(&self, offset: usize) -> (c: char)
        requires
            self.wf(),
            self.position + offset < self.length,
        ensures
            c == self.buf()[self.position + offset],
    {
        self.input.as_str().get_char(self.position + offset)
    }

    #[inline]
    fn consume_char(&mut self) -> (c: char)
        requires
            old(self).wf(),
            old(self).position < old(self).length,
        ensures
            final(self).wf(),
            old(self).same_buf(final(self)),
            final(self).line == old(self).line,
            final(self).last_line_start == old(self).last_line_start,
            final(self).position == old(self).position + 1,
            c == old(self).buf()[old(self).position as int],
    {
        let c = self.current_char();
        self.position = self.position + 1;
        c
    }

    #[inline]
    fn new_line(&mut self)
        requires
            old(self).wf(),
        ensures
            final(self).wf(),
            old(self).same_buf(final(self)),
            final(self).position == old(self).position,
            final(self).last_line_start == final(self).position,
            old(self).line < usize::MAX ==> final(self).line == old(self).line + 1,
    {
        self.line = if self.line < usize::MAX {
            self.line + 1
        } else {
            self.line
        };
        self.last_line_start = self.position;
    }

    // Checks whether the tokenizer has at least `num` characters remaining
    #[inline]
    fn has_more(&self, num: usize) -> (r: bool)
        requires
            self.wf(),
        ensures
            r == (self.position + num < self.length),
    {
        num < self.length - self.position
    }
}

/// Stepping over one character updates the line data by whether it is a
/// newline.
proof fn lemma_loc_step(s: Seq<char>, p: int)
    requires
        0 <= p < s.len(),
    ensures
        s[p] != '\n' ==> line_of(s, p + 1) == line_of(s, p) && line_start_of(s, p + 1)
            == line_start_of(s, p),
        s[p] == '\n' ==> line_of(s, p + 1) == line_of(s, p) + 1 && line_start_of(s, p + 1) == p + 1,
        line_of(s, p) <= p + 1,
{
    lemma_line_of_bound(s, p);
}

proof fn lemma_line_of_bound(s: Seq<char>, p: int)
    requires
        p >= 0,
    ensures
        1 <= line_of(s, p) <= p + 1,
        0 <= line_start_of(s, p) <= p,
    decreases p,
{
    if p > 0 {
        lemma_line_of_bound(s, p - 1);
    }
}

// ------------------------------------------------------------------
// Comments
// ------------------------------------------------------------------

/// Skip every comment at the current position; an unterminated comment
/// is consumed to the end of the input.
fn consume_comments(tokenizer: &mut Tokenizer)
    requires
        old(tokenizer).wf(),
    ensures
        final(tokenizer).wf(),
        old(tokenizer).same_buf(final(tokenizer)),
        old(tokenizer).position <= final(tokenizer).position,
        final(tokenizer).position == skip_comments_at(
            old(tokenizer).buf(),
            old(tokenizer).position as int,
        ),
        old(tokenizer).loc_ok() ==> final(tokenizer).loc_ok(),
{
    let ghost s = old(tokenizer).buf();
    let ghost p0 = old(tokenizer).position as int;
    while tokenizer.has_more(1) && tokenizer.current_char() == '/' && tokenizer.char_at(1) == '*'
        invariant
            tokenizer.wf(),
            s == tokenizer.buf(),
            tokenizer.length == old(tokenizer).length,
            p0 <= tokenizer.position as int,
            skip_comments_at(s, p0) == skip_comments_at(s, tokenizer.position as int),
            old(tokenizer).loc_ok() ==> tokenizer.loc_ok(),
        decreases s.len() - tokenizer.position,
    {
        let ghost pc = tokenizer.position as int;
        tokenizer.position = tokenizer.position + 2;
        proof {
            lemma_loc_step(s, pc);
            lemma_loc_step(s, pc + 1);
        }
        let mut closed = false;
        while !closed && !tokenizer.is_eof()
            invariant
                tokenizer.wf(),
                s == tokenizer.buf(),
                tokenizer.length == old(tokenizer).length,
                pc + 2 <= tokenizer.position as int,
                closed ==> tokenizer.position as int == comment_body_end(s, pc + 2),
                !closed ==> comment_body_end(s, pc + 2) == comment_body_end(
                    s,
                    tokenizer.position as int,
                ),
                old(tokenizer).loc_ok() ==> tokenizer.loc_ok(),
            decreases s.len() - tokenizer.position,
        {
            let ghost pi = tokenizer.position as int;
            let c = tokenizer.consume_char();
            if c == '*' {
                if !tokenizer.is_eof() && tokenizer.current_char() == '/' {
                    tokenizer.position = tokenizer.position + 1;
                    closed = true;
                    proof {
                        lemma_loc_step(s, pi);
                        lemma_loc_step(s, pi + 1);
                    }
                }
            } else if c == '\n' {
                proof {
                    lemma_loc_step(s, pi);
                    lemma_line_of_bound(s, pi);
                }
                tokenizer.new_line();
            }
            proof {
                lemma_loc_step(s, pi);
                if !closed {
                    assert(comment_body_end(s, pi) == comment_body_end(
                        s,
                        tokenizer.position as int,
                    ));
                }
            }
        }
        proof {
            if !closed {
                assert(tokenizer.position == s.len());
                assert(comment_body_end(s, tokenizer.position as int) == s.len());
            }
            assert(tokenizer.position as int == comment_body_end(s, pc + 2));
            assert(skip_comments_at(s, pc) == skip_comments_at(s, comment_body_end(s, pc + 2)));
        }
    }
    proof {
        assert(skip_comments_at(s, tokenizer.position as int) == tokenizer.position as int);
    }
}

// ------------------------------------------------------------------
// Names and escapes
// ------------------------------------------------------------------

/// Whether the ident-start rule holds at the current position.
fn is_ident_start(tokenizer: &Tokenizer) -> (r: bool)
    requires
        tokenizer.wf(),
    ensures
        r == is_ident_start_at(tokenizer.buf(), tokenizer.position as int),
{
    if tokenizer.is_eof() {
        return false;
    }
    let c = tokenizer.current_char();
    if letter_char(c) || c == '_' {
        true
    } else if c == '-' {
        if !tokenizer.has_more(1) {
            false
        } else {
            let d = tokenizer.char_at(1);
            if letter_char(d) || d == '_' {
                true
            } else if d == '\\' {
                !(tokenizer.has_more(2) && tokenizer.char_at(2) == '\n')
            } else {
                nonascii_char(d)
            }
        }
    } else if c == '\\' {
        !(tokenizer.has_more(1) && tokenizer.char_at(1) == '\n')
    } else {
        nonascii_char(c)
    }
}

/// Consume an escape after its backslash; assumes the next character was
/// already checked not to be a newline.
fn consume_escape(tokenizer: &mut Tokenizer) -> (c: char)
    requires
        old(tokenizer).wf(),
        old(tokenizer).position < old(tokenizer).length ==> old(tokenizer).buf()[old(
            tokenizer,
        ).position as int] != '\n',
    ensures
        final(tokenizer).wf(),
        old(tokenizer).same_buf(final(tokenizer)),
        c == escape_at(old(tokenizer).buf(), old(tokenizer).position as int).ch,
        final(tokenizer).position == escape_at(
            old(tokenizer).buf(),
            old(tokenizer).position as int,
        ).end,
        old(tokenizer).position <= final(tokenizer).position,
        old(tokenizer).loc_ok() ==> final(tokenizer).loc_ok(),
{
    let ghost s = old(tokenizer).buf();
    let ghost p0 = old(tokenizer).position as int;
    if tokenizer.is_eof() {
        return '\u{FFFD}';
    }
    let first = tokenizer.consume_char();
    proof {
        lemma_loc_step(s, p0);
    }
    if hex_digit_char(first) {
        let mut v: u32 = hex_digit_value(first);
        let mut digits: usize = 1;
        proof {
            assert(hex_val(s, p0, p0 + 1) == hex_val(s, p0, p0) * 16 + hex_digit_val(s[p0]));
            assert(pow16(1) == 16 * pow16(0));
        }
        while digits < 6 && !tokenizer.is_eof() && hex_digit_char(tokenizer.current_char())
            invariant
                tokenizer.wf(),
                s == tokenizer.buf(),
                tokenizer.length == old(tokenizer).length,
                1 <= digits <= 6,
                tokenizer.position as int == p0 + digits,
                old(tokenizer).loc_ok() ==> tokenizer.loc_ok(),
                scan_hex_limit(s, p0 + 1, 5) == scan_hex_limit(
                    s,
                    tokenizer.position as int,
                    (6 - digits) as nat,
                ),
                v == hex_val(s, p0, tokenizer.position as int),
                v < pow16(digits as nat),
            decreases 6 - digits,
        {
            let ghost pi = tokenizer.position as int;
            let d = hex_digit_value(tokenizer.current_char());
            proof {
                lemma_pow16_mono(digits as nat, 5);
                lemma_pow16_six();
            }
            v = v * 16 + d;
            let _ = tokenizer.consume_char();
            digits = digits + 1;
            proof {
                lemma_loc_step(s, pi);
                assert(hex_val(s, p0, pi + 1) == hex_val(s, p0, pi) * 16 + hex_digit_val(s[pi]));
                assert(scan_hex_limit(s, pi, (7 - digits) as nat) == scan_hex_limit(
                    s,
                    pi + 1,
                    (6 - digits) as nat,
                ));
                assert(pow16(digits as nat) == 16 * pow16((digits - 1) as nat));
            }
        }
        let ghost dend = tokenizer.position as int;
        proof {
            assert(scan_hex_limit(s, dend, (6 - digits) as nat) == dend);
            assert(dend == scan_hex_limit(s, p0 + 1, 5));
        }
        if !tokenizer.is_eof() {
            let w = tokenizer.current_char();
            if w == ' ' || w == '\t' {
                tokenizer.position = tokenizer.position + 1;
                proof {
                    lemma_loc_step(s, dend);
                }
            } else if w == '\n' {
                tokenizer.position = tokenizer.position + 1;
                proof {
                    lemma_loc_step(s, dend);
                    lemma_line_of_bound(s, dend);
                }
                tokenizer.new_line();
            }
        }
        proof {
            assert(escape_at(s, p0).end == tokenizer.position as int);
        }
        if v != 0 {
            match char_from_u32(v) {
                Some(ch) => {
                    proof {
                        assert(code_point(ch) == v as int);
                        assert(code_point(code_point_char(v as int)) == v as int);
                        assert(code_point_char(v as int) == ch);
                    }
                    ch
                },
                None => '\u{FFFD}',
            }
        } else {
            '\u{FFFD}'
        }
    } else {
        first
    }
}

/// Consume a name at the current position.
fn consume_name(tokenizer: &mut Tokenizer) -> (value: String)
    requires
        old(tokenizer).wf(),
    ensures
        final(tokenizer).wf(),
        old(tokenizer).same_buf(final(tokenizer)),
        value@ == scan_name(old(tokenizer).buf(), old(tokenizer).position as int).text,
        final(tokenizer).position == scan_name(
            old(tokenizer).buf(),
            old(tokenizer).position as int,
        ).end,
        old(tokenizer).position <= final(tokenizer).position,
        old(tokenizer).loc_ok() ==> final(tokenizer).loc_ok(),
{
    let ghost s = old(tokenizer).buf();
    let ghost p0 = old(tokenizer).position as int;
    let mut value = String::new();
    let mut done = false;
    proof {
        assert(Seq::<char>::empty() + scan_name(s, p0).text =~= scan_name(s, p0).text);
    }
    while !done && !tokenizer.is_eof()
        invariant
            tokenizer.wf(),
            s == tokenizer.buf(),
            tokenizer.length == old(tokenizer).length,
            p0 <= tokenizer.position as int,
            old(tokenizer).loc_ok() ==> tokenizer.loc_ok(),
            !done ==> scan_name(s, p0).text == value@ + scan_name(
                s,
                tokenizer.position as int,
            ).text,
            !done ==> scan_name(s, p0).end == scan_name(s, tokenizer.position as int).end,
            done ==> scan_name(s, p0).text == value@,
            done ==> scan_name(s, p0).end == tokenizer.position as int,
        decreases s.len() - tokenizer.position + (if done {
            0int
        } else {
            1int
        }),
    {
        let ghost p = tokenizer.position as int;
        let ghost prev = value@;
        let c = tokenizer.current_char();
        if name_char(c) {
            tokenizer.position = tokenizer.position + 1;
            push_char(&mut value, c);
            proof {
                lemma_loc_step(s, p);
                assert(scan_name(s, p).text == seq![c] + scan_name(s, p + 1).text);
                assert(prev + (seq![c] + scan_name(s, p + 1).text) =~= value@ + scan_name(
                    s,
                    p + 1,
                ).text);
            }
        } else if c == '\\' {
            if tokenizer.has_more(1) && tokenizer.char_at(1) == '\n' {
                done = true;
                proof {
                    assert(scan_name(s, p).text == Seq::<char>::empty());
                    assert(prev + Seq::<char>::empty() =~= prev);
                }
            } else {
                tokenizer.position = tokenizer.position + 1;
                proof {
                    lemma_loc_step(s, p);
                }
                let e = consume_escape(tokenizer);
                push_char(&mut value, e);
                proof {
                    lemma_escape_at_bounds(s, p + 1);
                    let er = escape_at(s, p + 1);
                    assert(scan_name(s, p).text == seq![er.ch] + scan_name(s, er.end).text);
                    assert(scan_name(s, p).end == scan_name(s, er.end).end);
                    assert(prev + (seq![er.ch] + scan_name(s, er.end).text) =~= value@
                        + scan_name(s, er.end).text);
                }
            }
        } else if nonascii_char(c) {
            let c2 = tokenizer.consume_char();
            push_char(&mut value, c2);
            proof {
                lemma_loc_step(s, p);
                assert(scan_name(s, p).text == seq![c] + scan_name(s, p + 1).text);
                assert(prev + (seq![c] + scan_name(s, p + 1).text) =~= value@ + scan_name(
                    s,
                    p + 1,
                ).text);
            }
        } else {
            done = true;
            proof {
                assert(scan_name(s, p).text == Seq::<char>::empty());
                assert(prev + Seq::<char>::empty() =~= prev);
            }
        }
    }
    proof {
        if !done {
            assert(tokenizer.position == s.len());
            assert(scan_name(s, s.len() as int).text == Seq::<char>::empty());
            assert(value@ + Seq::<char>::empty() =~= value@);
        }
    }
    value
}

// ------------------------------------------------------------------
// Strings
// ------------------------------------------------------------------

/// Read a quoted string at the current position (on the opening quote);
/// `None` stands for a bad string: an unescaped newline, which is left
/// unconsumed, or an unterminated string at the end of the input.
fn consume_quoted_string(tokenizer: &mut Tokenizer, single_quote: bool) -> (res: Option<String>)
    requires
        old(tokenizer).wf(),
        old(tokenizer).position < old(tokenizer).length,
        old(tokenizer).buf()[old(tokenizer).position as int] != '\n',
    ensures
        final(tokenizer).wf(),
        old(tokenizer).same_buf(final(tokenizer)),
        final(tokenizer).position == scan_quoted_string(
            old(tokenizer).buf(),
            old(tokenizer).position as int,
            single_quote,
        ).end,
        (match (res, scan_quoted_string(
            old(tokenizer).buf(),
            old(tokenizer).position as int,
            single_quote,
        ).text) {
            (Some(v), Some(t)) => v@ == t,
            (None, None) => true,
            _ => false,
        }),
        old(tokenizer).position <= final(tokenizer).position,
        old(tokenizer).loc_ok() ==> final(tokenizer).loc_ok(),
{
    let ghost s = old(tokenizer).buf();
    let ghost p0 = old(tokenizer).position as int;
    let ghost q = p0 + 1;
    tokenizer.position = tokenizer.position + 1;
    proof {
        lemma_loc_step(s, p0);
    }
    let mut value = String::new();
    let mut done = false;
    let mut bad = false;
    while !done && !bad && !tokenizer.is_eof()
        invariant
            tokenizer.wf(),
            s == tokenizer.buf(),
            tokenizer.length == old(tokenizer).length,
            q <= tokenizer.position as int,
            old(tokenizer).loc_ok() ==> tokenizer.loc_ok(),
            !(done && bad),
            !done && !bad ==> scan_string_body(s, q, single_quote).end == scan_string_body(
                s,
                tokenizer.position as int,
                single_quote,
            ).end,
            !done && !bad ==> scan_string_body(s, q, single_quote).text == (match scan_string_body(
                s,
                tokenizer.position as int,
                single_quote,
            ).text {
                Some(t) => Some(value@ + t),
                None => None,
            }),
            done ==> scan_string_body(s, q, single_quote).text == Some(value@),
            done ==> scan_string_body(s, q, single_quote).end == tokenizer.position as int,
            bad ==> scan_string_body(s, q, single_quote).text is None,
            bad ==> scan_string_body(s, q, single_quote).end == tokenizer.position as int,
        decreases s.len() - tokenizer.position + (if done || bad {
            0int
        } else {
            1int
        }),
    {
        let ghost p = tokenizer.position as int;
        let ghost prev = value@;
        let c = tokenizer.consume_char();
        if (c == '"' && !single_quote) || (c == '\'' && single_quote) {
            done = true;
            proof {
                lemma_loc_step(s, p);
                assert(prev + Seq::<char>::empty() =~= prev);
            }
        } else if c == '\n' {
            tokenizer.position = tokenizer.position - 1;
            bad = true;
        } else if c == '\\' {
            if !tokenizer.is_eof() {
                if tokenizer.current_char() == '\n' {
                    tokenizer.position = tokenizer.position + 1;
                    proof {
                        lemma_loc_step(s, p);
                        lemma_loc_step(s, p + 1);
                        lemma_line_of_bound(s, p + 1);
                    }
                    tokenizer.new_line();
                } else {
                    let e = consume_escape(tokenizer);
                    push_char(&mut value, e);
                    proof {
                        lemma_loc_step(s, p);
                        lemma_escape_at_bounds(s, p + 1);
                        let er = escape_at(s, p + 1);
                        let rest = scan_string_body(s, er.end, single_quote);
                        if rest.text is Some {
                            assert(prev + (seq![er.ch] + rest.text.unwrap()) =~= value@
                                + rest.text.unwrap());
                        }
                    }
                }
            } else {
                proof {
                    lemma_loc_step(s, p);
                }
            }
        } else {
            push_char(&mut value, c);
            proof {
                lemma_loc_step(s, p);
                let rest = scan_string_body(s, p + 1, single_quote);
                if rest.text is Some {
                    assert(prev + (seq![c] + rest.text.unwrap()) =~= value@ + rest.text.unwrap());
                }
            }
        }
    }
    proof {
        if !done && !bad {
            assert(tokenizer.position == s.len());
            assert(scan_string_body(s, s.len() as int, single_quote).text is None);
        }
    }
    if done {
        Some(value)
    } else {
        None
    }
}

/// Read a string token at the current position (on the opening quote).
fn consume_string(tokenizer: &mut Tokenizer, single_quote: bool) -> (t: Token)
    requires
        old(tokenizer).wf(),
        old(tokenizer).position < old(tokenizer).length,
        old(tokenizer).buf()[old(tokenizer).position as int] != '\n',
    ensures
        final(tokenizer).wf(),
        old(tokenizer).same_buf(final(tokenizer)),
        final(tokenizer).position == scan_quoted_string(
            old(tokenizer).buf(),
            old(tokenizer).position as int,
            single_quote,
        ).end,
        t@ == (match scan_quoted_string(
            old(tokenizer).buf(),
            old(tokenizer).position as int,
            single_quote,
        ).text {
            Some(v) => TokenModel::QuotedString(v),
            None => TokenModel::BadString,
        }),
        old(tokenizer).position <= final(tokenizer).position,
        old(tokenizer).loc_ok() ==> final(tokenizer).loc_ok(),
{
    match consume_quoted_string(tokenizer, single_quote) {
        Some(value) => Token::QuotedString(value),
        None => Token::BadString,
    }
}

// ------------------------------------------------------------------
// Numbers
// ------------------------------------------------------------------

/// Read a numeric token; entered only where the pattern holds a digit.
#[verifier::loop_isolation(false)]
fn consume_numeric(tokenizer: &mut Tokenizer) -> (t: Token)
    requires
        old(tokenizer).wf(),
        old(tokenizer).position < old(tokenizer).length,
        old(tokenizer).buf()[old(tokenizer).position as int] != '\n',
    ensures
        final(tokenizer).wf(),
        old(tokenizer).same_buf(final(tokenizer)),
        t@ == numeric_token(old(tokenizer).buf(), old(tokenizer).position as int).tok,
        final(tokenizer).position == numeric_token(
            old(tokenizer).buf(),
            old(tokenizer).position as int,
        ).end,
        old(tokenizer).position <= final(tokenizer).position,
        old(tokenizer).loc_ok() ==> final(tokenizer).loc_ok(),
{
    let ghost s = old(tokenizer).buf();
    let ghost p0 = old(tokenizer).position as int;
    let mut representation = String::new();
    let mut is_integer = true;
    let c0 = tokenizer.current_char();
    if c0 == '-' || c0 == '+' {
        let cc = tokenizer.consume_char();
        push_char(&mut representation, cc);
        proof {
            lemma_loc_step(s, p0);
            assert(representation@ =~= s.subrange(p0, p0 + 1));
        }
    } else {
        proof {
            assert(representation@ =~= s.subrange(p0, p0));
        }
    }
    let ghost p1 = tokenizer.position as int;
    while !tokenizer.is_eof() && digit_char(tokenizer.current_char())
        invariant
            tokenizer.wf(),
            s == tokenizer.buf(),
            tokenizer.length == old(tokenizer).length,
            p0 <= p1 <= tokenizer.position as int,
            old(tokenizer).loc_ok() ==> tokenizer.loc_ok(),
            representation@ == s.subrange(p0, tokenizer.position as int),
            scan_digits(s, p1) == scan_digits(s, tokenizer.position as int),
        decreases s.len() - tokenizer.position,
    {
        let ghost p = tokenizer.position as int;
        let cc = tokenizer.consume_char();
        push_char(&mut representation, cc);
        proof {
            lemma_loc_step(s, p);
            lemma_subrange_push(s, p0, p);
        }
    }
    let ghost d1 = tokenizer.position as int;
    proof {
        assert(scan_digits(s, d1) == d1);
        assert(d1 == scan_digits(s, p1));
    }
    if tokenizer.has_more(1) && tokenizer.current_char() == '.' && digit_char(tokenizer.char_at(1))
    {
        is_integer = false;
        let ghost p = tokenizer.position as int;
        let ca = tokenizer.consume_char();
        push_char(&mut representation, ca);
        let cb = tokenizer.consume_char();
        push_char(&mut representation, cb);
        proof {
            lemma_loc_step(s, p);
            lemma_loc_step(s, p + 1);
            lemma_subrange_push(s, p0, p);
            assert(s.subrange(p0, p + 1).push(s[p + 1]) =~= s.subrange(p0, p + 2));
        }
        let ghost f0 = tokenizer.position as int;
        while !tokenizer.is_eof() && digit_char(tokenizer.current_char())
            invariant
                tokenizer.wf(),
                s == tokenizer.buf(),
                tokenizer.length == old(tokenizer).length,
                p0 <= f0 <= tokenizer.position as int,
                old(tokenizer).loc_ok() ==> tokenizer.loc_ok(),
                representation@ == s.subrange(p0, tokenizer.position as int),
                scan_digits(s, f0) == scan_digits(s, tokenizer.position as int),
            decreases s.len() - tokenizer.position,
        {
            let ghost p = tokenizer.position as int;
            let cc = tokenizer.consume_char();
            push_char(&mut representation, cc);
            proof {
                lemma_loc_step(s, p);
                lemma_subrange_push(s, p0, p);
            }
        }
        proof {
            assert(scan_digits(s, tokenizer.position as int) == tokenizer.position as int);
        }
    }
    let e1 = tokenizer.has_more(1) && (tokenizer.current_char() == 'e' || tokenizer.current_char()
        == 'E') && digit_char(tokenizer.char_at(1));
    let e2 = tokenizer.has_more(2) && (tokenizer.current_char() == 'e' || tokenizer.current_char()
        == 'E') && (tokenizer.char_at(1) == '+' || tokenizer.char_at(1) == '-') && digit_char(
        tokenizer.char_at(2),
    );
    if e1 || e2 {
        is_integer = false;
        let ghost p = tokenizer.position as int;
        let ca = tokenizer.consume_char();
        push_char(&mut representation, ca);
        let cb = tokenizer.consume_char();
        push_char(&mut representation, cb);
        proof {
            lemma_loc_step(s, p);
            lemma_loc_step(s, p + 1);
            lemma_subrange_push(s, p0, p);
            assert(s.subrange(p0, p + 1).push(s[p + 1]) =~= s.subrange(p0, p + 2));
        }
        let ghost x0 = tokenizer.position as int;
        while !tokenizer.is_eof() && digit_char(tokenizer.current_char())
            invariant
                tokenizer.wf(),
                s == tokenizer.buf(),
                tokenizer.length == old(tokenizer).length,
                p0 <= x0 <= tokenizer.position as int,
                old(tokenizer).loc_ok() ==> tokenizer.loc_ok(),
                representation@ == s.subrange(p0, tokenizer.position as int),
                scan_digits(s, x0) == scan_digits(s, tokenizer.position as int),
            decreases s.len() - tokenizer.position,
        {
            let ghost p = tokenizer.position as int;
            let cc = tokenizer.consume_char();
            push_char(&mut representation, cc);
            proof {
                lemma_loc_step(s, p);
                lemma_subrange_push(s, p0, p);
            }
        }
        proof {
            assert(scan_digits(s, tokenizer.position as int) == tokenizer.position as int);
        }
    }
    let ghost n = scan_numeric(s, p0);
    proof {
        assert(n.repr == representation@);
        assert(n.end == tokenizer.position as int);
        assert(n.is_integer == is_integer);
    }
    let int_value: Option<i64> = if is_integer {
        let n_len = representation.as_str().unicode_len();
        let mut skip_sign: usize = 0;
        let mut neg = false;
        if n_len > 0 {
            let sc = representation.as_str().get_char(0);
            if sc == '-' {
                neg = true;
                skip_sign = 1;
            } else if sc == '+' {
                skip_sign = 1;
            }
        }
        let mut acc: i64 = 0;
        let mut i = skip_sign;
        proof {
            if skip_sign == 0 {
                assert(representation@.skip(0) =~= representation@);
            }
        }
        while i < n_len
            invariant
                skip_sign <= i <= n_len,
                n_len == representation@.len(),
                sat_dec_fold(representation@.skip(i as int), neg, acc) == sat_signed_dec(
                    representation@,
                ),
            decreases n_len - i,
        {
            let ghost di = representation@.skip(i as int);
            let c = representation.as_str().get_char(i);
            let d: i64 = (c as u32) as i64 - ('0' as u32) as i64;
            let m = match acc.checked_mul(10) {
                Some(x) => x,
                None => if acc < 0 {
                    i64::MIN
                } else {
                    i64::MAX
                },
            };
            proof {
                assert(m == i64_clip(acc as int * 10));
            }
            let ghost acc0 = acc;
            if neg {
                acc = match m.checked_sub(d) {
                    Some(x) => x,
                    None => if d > 0 {
                        i64::MIN
                    } else {
                        i64::MAX
                    },
                };
            } else {
                acc = match m.checked_add(d) {
                    Some(x) => x,
                    None => if d > 0 {
                        i64::MAX
                    } else {
                        i64::MIN
                    },
                };
            }
            proof {
                assert(d == c as int - '0' as int);
                assert(acc == sat_step(acc0, c as int - '0' as int, neg));
                assert(di[0] == representation@[i as int]);
                assert(di.skip(1) =~= representation@.skip(i + 1));
            }
            i = i + 1;
        }
        proof {
            assert(representation@.skip(n_len as int) =~= Seq::<char>::empty());
        }
        Some(acc)
    } else {
        None
    };
    let value = NumericValue { representation, int_value };
    if !tokenizer.is_eof() && tokenizer.current_char() == '%' {
        let ghost p = tokenizer.position as int;
        tokenizer.position = tokenizer.position + 1;
        proof {
            lemma_loc_step(s, p);
        }
        Token::Percentage(value)
    } else if is_ident_start(tokenizer) {
        let unit = consume_name(tokenizer);
        Token::Dimension(value, unit)
    } else {
        Token::Number(value)
    }
}

proof fn lemma_subrange_push(s: Seq<char>, a: int, b: int)
    requires
        0 <= a <= b < s.len(),
    ensures
        s.subrange(a, b).push(s[b]) == s.subrange(a, b + 1),
{
    assert(s.subrange(a, b).push(s[b]) =~= s.subrange(a, b + 1));
}

// ------------------------------------------------------------------
// URLs
// ------------------------------------------------------------------

/// A value prefix put in front of a URL token; other tokens pass through.
spec fn url_prepend(v: Seq<char>, r: TokRes) -> TokRes {
    TokRes {
        tok: match r.tok {
            TokenModel::URL(t) => TokenModel::URL(v + t),
            o => o,
        },
        end: r.end,
    }
}

/// Consume the remainder of an invalid URL, up to and including the
/// closing parenthesis.
#[verifier::loop_isolation(false)]
fn consume_bad_url(tokenizer: &mut Tokenizer) -> (t: Token)
    requires
        old(tokenizer).wf(),
    ensures
        final(tokenizer).wf(),
        old(tokenizer).same_buf(final(tokenizer)),
        t@ == TokenModel::BadURL,
        final(tokenizer).position == scan_bad_url(
            old(tokenizer).buf(),
            old(tokenizer).position as int,
        ),
        old(tokenizer).position <= final(tokenizer).position,
        old(tokenizer).loc_ok() ==> final(tokenizer).loc_ok(),
{
    let ghost s = old(tokenizer).buf();
    let ghost p0 = old(tokenizer).position as int;
    let mut done = false;
    while !done && !tokenizer.is_eof()
        invariant
            tokenizer.wf(),
            s == tokenizer.buf(),
            tokenizer.length == old(tokenizer).length,
            p0 <= tokenizer.position as int,
            old(tokenizer).loc_ok() ==> tokenizer.loc_ok(),
            !done ==> scan_bad_url(s, p0) == scan_bad_url(s, tokenizer.position as int),
            done ==> scan_bad_url(s, p0) == tokenizer.position as int,
        decreases s.len() - tokenizer.position + (if done {
            0int
        } else {
            1int
        }),
    {
        let ghost p = tokenizer.position as int;
        let c = tokenizer.consume_char();
        if c == ')' {
            done = true;
            proof {
                lemma_loc_step(s, p);
            }
        } else if c == '\\' {
            proof {
                lemma_loc_step(s, p);
            }
            if !tokenizer.is_eof() {
                let sk = tokenizer.consume_char();
                proof {
                    lemma_loc_step(s, p + 1);
                    lemma_line_of_bound(s, p + 1);
                }
                if sk == '\n' {
                    tokenizer.new_line();
                }
            }
        } else if c == '\n' {
            proof {
                lemma_loc_step(s, p);
                lemma_line_of_bound(s, p);
            }
            tokenizer.new_line();
        } else {
            proof {
                lemma_loc_step(s, p);
            }
        }
    }
    Token::BadURL
}

/// Consume what follows a URL value: whitespace, then the closing
/// parenthesis; anything else makes the token a BadURL.
#[verifier::loop_isolation(false)]
fn consume_url_end(tokenizer: &mut Tokenizer, string: String) -> (t: Token)
    requires
        old(tokenizer).wf(),
    ensures
        final(tokenizer).wf(),
        old(tokenizer).same_buf(final(tokenizer)),
        t@ == scan_url_end(old(tokenizer).buf(), old(tokenizer).position as int, string@).tok,
        final(tokenizer).position == scan_url_end(
            old(tokenizer).buf(),
            old(tokenizer).position as int,
            string@,
        ).end,
        old(tokenizer).position <= final(tokenizer).position,
        old(tokenizer).loc_ok() ==> final(tokenizer).loc_ok(),
{
    let ghost s = old(tokenizer).buf();
    let ghost p0 = old(tokenizer).position as int;
    let ghost v = string@;
    let mut done = false;
    while !done && !tokenizer.is_eof()
        invariant
            tokenizer.wf(),
            s == tokenizer.buf(),
            tokenizer.length == old(tokenizer).length,
            p0 <= tokenizer.position as int,
            old(tokenizer).loc_ok() ==> tokenizer.loc_ok(),
            v == string@,
            !done ==> scan_url_end(s, p0, v) == scan_url_end(s, tokenizer.position as int, v),
            done ==> scan_url_end(s, p0, v).tok == TokenModel::URL(v),
            done ==> scan_url_end(s, p0, v).end == tokenizer.position as int,
        decreases s.len() - tokenizer.position + (if done {
            0int
        } else {
            1int
        }),
    {
        let ghost p = tokenizer.position as int;
        let c = tokenizer.consume_char();
        if c == ' ' || c == '\t' {
            proof {
                lemma_loc_step(s, p);
            }
        } else if c == '\n' {
            proof {
                lemma_loc_step(s, p);
                lemma_line_of_bound(s, p);
            }
            tokenizer.new_line();
        } else if c == ')' {
            done = true;
            proof {
                lemma_loc_step(s, p);
            }
        } else {
            let r = consume_bad_url(tokenizer);
            return r;
        }
    }
    Token::URL(string)
}

/// Consume an unquoted URL value.
#[verifier::loop_isolation(false)]
fn consume_unquoted_url(tokenizer: &mut Tokenizer) -> (t: Token)
    requires
        old(tokenizer).wf(),
    ensures
        final(tokenizer).wf(),
        old(tokenizer).same_buf(final(tokenizer)),
        t@ == scan_unquoted_url(old(tokenizer).buf(), old(tokenizer).position as int).tok,
        final(tokenizer).position == scan_unquoted_url(
            old(tokenizer).buf(),
            old(tokenizer).position as int,
        ).end,
        old(tokenizer).position <= final(tokenizer).position,
        old(tokenizer).loc_ok() ==> final(tokenizer).loc_ok(),
{
    let ghost s = old(tokenizer).buf();
    let ghost p0 = old(tokenizer).position as int;
    let mut string = String::new();
    proof {
        assert(url_prepend(Seq::<char>::empty(), scan_unquoted_url(s, p0)) == scan_unquoted_url(
            s,
            p0,
        )) by {
            let r = scan_unquoted_url(s, p0);
            match r.tok {
                TokenModel::URL(t) => {
                    assert(Seq::<char>::empty() + t =~= t);
                },
                _ => {},
            }
        }
    }
    loop
        invariant
            tokenizer.wf(),
            s == tokenizer.buf(),
            tokenizer.length == old(tokenizer).length,
            p0 <= tokenizer.position as int,
            old(tokenizer).loc_ok() ==> tokenizer.loc_ok(),
            scan_unquoted_url(s, p0) == url_prepend(
                string@,
                scan_unquoted_url(s, tokenizer.position as int),
            ),
        decreases s.len() - tokenizer.position,
    {
        if tokenizer.is_eof() {
            break ;
        }
        let ghost p = tokenizer.position as int;
        let ghost prev = string@;
        let c = tokenizer.consume_char();
        if c == ' ' || c == '\t' || c == '\n' {
            if c == '\n' {
                proof {
                    lemma_loc_step(s, p);
                    lemma_line_of_bound(s, p);
                }
                tokenizer.new_line();
            } else {
                proof {
                    lemma_loc_step(s, p);
                }
            }
            proof {
                lemma_scan_url_end_param(s, p + 1, prev);
            }
            let r = consume_url_end(tokenizer, string);
            return r;
        } else if c == ')' {
            proof {
                lemma_loc_step(s, p);
                assert(prev + Seq::<char>::empty() =~= prev);
            }
            return Token::URL(string);
        } else if c == '\0' || (c >= '\u{1}' && c <= '\u{8}') || c == '\u{B}' || (c >= '\u{E}'
            && c <= '\u{1F}') || c == '\u{7F}' || c == '"' || c == '\'' || c == '(' {
            proof {
                lemma_loc_step(s, p);
            }
            let r = consume_bad_url(tokenizer);
            return r;
        } else if c == '\\' {
            proof {
                lemma_loc_step(s, p);
            }
            if !tokenizer.is_eof() && tokenizer.current_char() == '\n' {
                let r = consume_bad_url(tokenizer);
                return r;
            }
            let e = consume_escape(tokenizer);
            push_char(&mut string, e);
            proof {
                lemma_escape_at_bounds(s, p + 1);
                let er = escape_at(s, p + 1);
                let rest = scan_unquoted_url(s, er.end);
                match rest.tok {
                    TokenModel::URL(t) => {
                        assert(prev + (seq![er.ch] + t) =~= string@ + t);
                    },
                    _ => {},
                }
            }
        } else {
            push_char(&mut string, c);
            proof {
                lemma_loc_step(s, p);
                let rest = scan_unquoted_url(s, p + 1);
                match rest.tok {
                    TokenModel::URL(t) => {
                        assert(prev + (seq![c] + t) =~= string@ + t);
                    },
                    _ => {},
                }
            }
        }
    }
    proof {
        assert(string@ + Seq::<char>::empty() =~= string@);
    }
    Token::URL(string)
}

/// Consume a quoted URL value and what follows it.
fn consume_quoted_url(tokenizer: &mut Tokenizer, single_quote: bool) -> (t: Token)
    requires
        old(tokenizer).wf(),
        old(tokenizer).position < old(tokenizer).length,
        old(tokenizer).buf()[old(tokenizer).position as int] != '\n',
    ensures
        final(tokenizer).wf(),
        old(tokenizer).same_buf(final(tokenizer)),
        t@ == scan_quoted_url(old(tokenizer).buf(), old(tokenizer).position as int, single_quote).tok,
        final(tokenizer).position == scan_quoted_url(
            old(tokenizer).buf(),
            old(tokenizer).position as int,
            single_quote,
        ).end,
        old(tokenizer).position <= final(tokenizer).position,
        old(tokenizer).loc_ok() ==> final(tokenizer).loc_ok(),
{
    match consume_quoted_string(tokenizer, single_quote) {
        Some(value) => {
            let r = consume_url_end(tokenizer, value);
            r
        },
        None => {
            let r = consume_bad_url(tokenizer);
            r
        },
    }
}

/// Consume a URL token; assumes the initial `url(` was consumed.
#[verifier::loop_isolation(false)]
fn consume_url(tokenizer: &mut Tokenizer) -> (t: Token)
    requires
        old(tokenizer).wf(),
    ensures
        final(tokenizer).wf(),
        old(tokenizer).same_buf(final(tokenizer)),
        t@ == scan_url(old(tokenizer).buf(), old(tokenizer).position as int).tok,
        final(tokenizer).position == scan_url(
            old(tokenizer).buf(),
            old(tokenizer).position as int,
        ).end,
        old(tokenizer).position <= final(tokenizer).position,
        old(tokenizer).loc_ok() ==> final(tokenizer).loc_ok(),
{
    let ghost s = old(tokenizer).buf();
    let ghost p0 = old(tokenizer).position as int;
    loop
        invariant
            tokenizer.wf(),
            s == tokenizer.buf(),
            tokenizer.length == old(tokenizer).length,
            p0 <= tokenizer.position as int,
            old(tokenizer).loc_ok() ==> tokenizer.loc_ok(),
            scan_url(s, p0) == scan_url(s, tokenizer.position as int),
        decreases s.len() - tokenizer.position,
    {
        if tokenizer.is_eof() {
            break ;
        }
        let ghost p = tokenizer.position as int;
        let c = tokenizer.current_char();
        if c == '\t' || c == ' ' {
            tokenizer.position = tokenizer.position + 1;
            proof {
                lemma_loc_step(s, p);
            }
        } else if c == '\n' {
            tokenizer.position = tokenizer.position + 1;
            proof {
                lemma_loc_step(s, p);
                lemma_line_of_bound(s, p);
            }
            tokenizer.new_line();
        } else if c == '"' {
            let r = consume_quoted_url(tokenizer, false);
            return r;
        } else if c == '\'' {
            let r = consume_quoted_url(tokenizer, true);
            return r;
        } else if c == ')' {
            tokenizer.position = tokenizer.position + 1;
            proof {
                lemma_loc_step(s, p);
            }
            return Token::URL(String::new());
        } else {
            let r = consume_unquoted_url(tokenizer);
            return r;
        }
    }
    Token::URL(String::new())
}

// ------------------------------------------------------------------
// Unicode ranges
// ------------------------------------------------------------------

/// Consume a unicode-range token; assumes the initial `u+` was consumed.
#[verifier::loop_isolation(false)]
fn consume_unicode_range(tokenizer: &mut Tokenizer) -> (t: Token)
    requires
        old(tokenizer).wf(),
    ensures
        final(tokenizer).wf(),
        old(tokenizer).same_buf(final(tokenizer)),
        t@ == scan_unicode_range(old(tokenizer).buf(), old(tokenizer).position as int).tok,
        final(tokenizer).position == scan_unicode_range(
            old(tokenizer).buf(),
            old(tokenizer).position as int,
        ).end,
        old(tokenizer).position <= final(tokenizer).position,
        old(tokenizer).loc_ok() ==> final(tokenizer).loc_ok(),
{
    let ghost s = old(tokenizer).buf();
    let ghost p0 = old(tokenizer).position as int;
    let mut v: u32 = 0;
    let mut digits: usize = 0;
    proof {
        lemma_pow16_six();
    }
    while digits < 6 && !tokenizer.is_eof() && hex_digit_char(tokenizer.current_char())
        invariant
            tokenizer.wf(),
            s == tokenizer.buf(),
            tokenizer.length == old(tokenizer).length,
            0 <= digits <= 6,
            tokenizer.position as int == p0 + digits,
            old(tokenizer).loc_ok() ==> tokenizer.loc_ok(),
            scan_hex_limit(s, p0, 6) == scan_hex_limit(
                s,
                tokenizer.position as int,
                (6 - digits) as nat,
            ),
            v == hex_val(s, p0, tokenizer.position as int),
            v < pow16(digits as nat),
        decreases 6 - digits,
    {
        let ghost pi = tokenizer.position as int;
        let d = hex_digit_value(tokenizer.current_char());
        proof {
            lemma_pow16_mono(digits as nat, 5);
        }
        v = v * 16 + d;
        let _ = tokenizer.consume_char();
        digits = digits + 1;
        proof {
            lemma_loc_step(s, pi);
            assert(hex_val(s, p0, pi + 1) == hex_val(s, p0, pi) * 16 + hex_digit_val(s[pi]));
            assert(scan_hex_limit(s, pi, (7 - digits) as nat) == scan_hex_limit(
                s,
                pi + 1,
                (6 - digits) as nat,
            ));
            assert(pow16(digits as nat) == 16 * pow16((digits - 1) as nat));
        }
    }
    let ghost dend = tokenizer.position as int;
    proof {
        assert(scan_hex_limit(s, dend, (6 - digits) as nat) == dend);
        assert(dend == scan_hex_limit(s, p0, 6));
        assert(dend - p0 == digits);
    }
    let mut qm: usize = 0;
    while qm < 6 - digits && !tokenizer.is_eof() && tokenizer.current_char() == '?'
        invariant
            tokenizer.wf(),
            s == tokenizer.buf(),
            tokenizer.length == old(tokenizer).length,
            0 <= qm <= 6 - digits,
            tokenizer.position as int == dend + qm,
            old(tokenizer).loc_ok() ==> tokenizer.loc_ok(),
            scan_qmarks(s, dend, (6 - digits) as nat) == scan_qmarks(
                s,
                tokenizer.position as int,
                (6 - digits - qm) as nat,
            ),
        decreases 6 - digits - qm,
    {
        let ghost pi = tokenizer.position as int;
        tokenizer.position = tokenizer.position + 1;
        qm = qm + 1;
        proof {
            lemma_loc_step(s, pi);
            assert(scan_qmarks(s, pi, (7 - digits - qm) as nat) == scan_qmarks(
                s,
                pi + 1,
                (6 - digits - qm) as nat,
            ));
        }
    }
    let ghost qend = tokenizer.position as int;
    proof {
        assert(scan_qmarks(s, qend, (6 - digits - qm) as nat) == qend);
        assert(qend == scan_qmarks(s, dend, (6 - (dend - p0)) as nat));
        assert(qend - dend == qm);
    }
    if qm > 0 {
        let mut m16: u32 = 1;
        let mut k: usize = 0;
        while k < qm
            invariant
                0 <= k <= qm <= 6,
                m16 == pow16(k as nat),
            decreases qm - k,
        {
            proof {
                lemma_pow16_mono(k as nat, 5);
            }
            m16 = m16 * 16;
            k = k + 1;
            proof {
                assert(pow16(k as nat) == 16 * pow16((k - 1) as nat));
            }
        }
        proof {
            lemma_pow16_mul(digits as nat, qm as nat);
            lemma_pow16_mono((digits + qm) as nat, 6);
            lemma_pow16_pos(qm as nat);
            assert(v as int * m16 as int + m16 as int - 1 < pow16(6)) by (nonlinear_arith)
                requires
                    v < pow16(digits as nat),
                    m16 == pow16(qm as nat),
                    pow16((digits + qm) as nat) == pow16(digits as nat) * pow16(qm as nat),
                    pow16((digits + qm) as nat) <= pow16(6),
                    m16 >= 1,
                    v >= 0,
            ;
        }
        let start = v * m16;
        let end_v = start + (m16 - 1);
        proof {
            let m = (qend - dend) as nat;
            assert(m == qm as nat);
            assert(hex_val(s, p0, dend) * pow16(m) == start as int);
            assert(hex_val(s, p0, dend) * pow16(m) + pow16(m) - 1 == end_v as int);
        }
        Token::UnicodeRange(start, end_v)
    } else {
        let start = v;
        if !tokenizer.is_eof() && tokenizer.current_char() == '-' {
            let ghost pd = tokenizer.position as int;
            tokenizer.position = tokenizer.position + 1;
            proof {
                lemma_loc_step(s, pd);
            }
            let mut v2: u32 = 0;
            let mut digits2: usize = 0;
            while digits2 < 6 && !tokenizer.is_eof() && hex_digit_char(tokenizer.current_char())
                invariant
                    tokenizer.wf(),
                    s == tokenizer.buf(),
                    tokenizer.length == old(tokenizer).length,
                    0 <= digits2 <= 6,
                    tokenizer.position as int == qend + 1 + digits2,
                    old(tokenizer).loc_ok() ==> tokenizer.loc_ok(),
                    scan_hex_limit(s, qend + 1, 6) == scan_hex_limit(
                        s,
                        tokenizer.position as int,
                        (6 - digits2) as nat,
                    ),
                    v2 == hex_val(s, qend + 1, tokenizer.position as int),
                    v2 < pow16(digits2 as nat),
                decreases 6 - digits2,
            {
                let ghost pi = tokenizer.position as int;
                let d = hex_digit_value(tokenizer.current_char());
                proof {
                    lemma_pow16_mono(digits2 as nat, 5);
                }
                v2 = v2 * 16 + d;
                let _ = tokenizer.consume_char();
                digits2 = digits2 + 1;
                proof {
                    lemma_loc_step(s, pi);
                    assert(hex_val(s, qend + 1, pi + 1) == hex_val(s, qend + 1, pi) * 16
                        + hex_digit_val(s[pi]));
                    assert(scan_hex_limit(s, pi, (7 - digits2) as nat) == scan_hex_limit(
                        s,
                        pi + 1,
                        (6 - digits2) as nat,
                    ));
                    assert(pow16(digits2 as nat) == 16 * pow16((digits2 - 1) as nat));
                }
            }
            proof {
                assert(scan_hex_limit(s, tokenizer.position as int, (6 - digits2) as nat)
                    == tokenizer.position as int);
                assert(tokenizer.position as int == scan_hex_limit(s, qend + 1, 6));
            }
            if digits2 > 0 {
                Token::UnicodeRange(start, v2)
            } else {
                Token::UnicodeRange(start, start)
            }
        } else {
            Token::UnicodeRange(start, start)
        }
    }
}

// ------------------------------------------------------------------
// Ident-like tokens
// ------------------------------------------------------------------

/// ASCII-case-insensitive match against `url`.
fn is_url_name(name: &String) -> (r: bool)
    ensures
        r == is_url_keyword(name@),
{
    let n = name.as_str().unicode_len();
    if n != 3 {
        return false;
    }
    let c0 = name.as_str().get_char(0);
    let c1 = name.as_str().get_char(1);
    let c2 = name.as_str().get_char(2);
    (c0 == 'u' || c0 == 'U') && (c1 == 'r' || c1 == 'R') && (c2 == 'l' || c2 == 'L')
}

/// Consume an identifier-like token: an Ident, a Function, or a URL.
#[verifier::loop_isolation(false)]
fn consume_ident_like(tokenizer: &mut Tokenizer) -> (t: Token)
    requires
        old(tokenizer).wf(),
    ensures
        final(tokenizer).wf(),
        old(tokenizer).same_buf(final(tokenizer)),
        t@ == scan_ident_like(old(tokenizer).buf(), old(tokenizer).position as int).tok,
        final(tokenizer).position == scan_ident_like(
            old(tokenizer).buf(),
            old(tokenizer).position as int,
        ).end,
        old(tokenizer).position <= final(tokenizer).position,
        old(tokenizer).loc_ok() ==> final(tokenizer).loc_ok(),
{
    let ghost s = old(tokenizer).buf();
    let ghost p0 = old(tokenizer).position as int;
    let value = consume_name(tokenizer);
    if !tokenizer.is_eof() && tokenizer.current_char() == '(' {
        let ghost pn = tokenizer.position as int;
        tokenizer.position = tokenizer.position + 1;
        proof {
            lemma_loc_step(s, pn);
        }
        if is_url_name(&value) {
            let r = consume_url(tokenizer);
            r
        } else {
            Token::Function(value)
        }
    } else {
        Token::Ident(value)
    }
}

// ------------------------------------------------------------------
// One step of the lexer
// ------------------------------------------------------------------

/// What one call that may consume a token guarantees: the position
/// follows the model's step, the token is the model's token, and, where
/// the line bookkeeping was exact, the reported location is the true
/// line and column of the token's first character.
pub open spec fn step_ok(pre: Tokenizer, post: Tokenizer, r: Option<Node>) -> bool {
    let s = pre.buf();
    let st = lex_step(s, pre.position as int);
    &&& post.wf()
    &&& pre.same_buf(&post)
    &&& pre.position <= post.position
    &&& post.position == st.end
    &&& (match r {
        None => st.token is None,
        Some(node) => {
            &&& st.token == Some(node.0@)
            &&& (pre.loc_ok() ==> node.1.line == line_of(s, st.start) && node.1.column == col_of(
                s,
                st.start,
            ))
        },
    })
    &&& (pre.loc_ok() ==> post.loc_ok())
}

/// Consume one token, or report the end of the input.
#[verifier::loop_isolation(false)]
fn next_token(tokenizer: &mut Tokenizer) -> (r: Option<Node>)
    requires
        old(tokenizer).wf(),
    ensures
        step_ok(*old(tokenizer), *final(tokenizer), r),
{
    let ghost s = old(tokenizer).buf();
    consume_comments(tokenizer);
    if tokenizer.is_eof() {
        return None;
    }
    let ghost q = tokenizer.position as int;
    let start_location = SourceLocation {
        line: tokenizer.line,
        column: tokenizer.position - tokenizer.last_line_start + 1,
    };
    let c = tokenizer.current_char();
    let token: Token = if ws_char(c) {
        let mut done_ws = false;
        while !done_ws && !tokenizer.is_eof()
            invariant
                tokenizer.wf(),
                s == tokenizer.buf(),
                q <= tokenizer.position as int,
                old(tokenizer).loc_ok() ==> tokenizer.loc_ok(),
                !done_ws ==> ws_end(s, q) == ws_end(s, tokenizer.position as int),
                done_ws ==> ws_end(s, q) == tokenizer.position as int,
            decreases s.len() - tokenizer.position + (if done_ws {
                0int
            } else {
                1int
            }),
        {
            let ghost p = tokenizer.position as int;
            let w = tokenizer.current_char();
            if w == ' ' || w == '\t' {
                tokenizer.position = tokenizer.position + 1;
                proof {
                    lemma_loc_step(s, p);
                }
            } else if w == '\n' {
                tokenizer.position = tokenizer.position + 1;
                proof {
                    lemma_loc_step(s, p);
                    lemma_line_of_bound(s, p);
                }
                tokenizer.new_line();
            } else {
                done_ws = true;
            }
        }
        Token::WhiteSpace
    } else if c == '"' {
        consume_string(tokenizer, false)
    } else if c == '\'' {
        consume_string(tokenizer, true)
    } else if c == '#' {
        tokenizer.position = tokenizer.position + 1;
        proof {
            lemma_loc_step(s, q);
        }
        if is_ident_start(tokenizer) {
            Token::IDHash(consume_name(tokenizer))
        } else if !tokenizer.is_eof() && (name_char(tokenizer.current_char()) || (
        tokenizer.current_char() == '\\' && !(tokenizer.has_more(1) && tokenizer.char_at(1)
            == '\n'))) {
            Token::Hash(consume_name(tokenizer))
        } else {
            Token::Delim('#')
        }
    } else if c == '$' {
        if tokenizer.has_more(1) && tokenizer.char_at(1) == '=' {
            tokenizer.position = tokenizer.position + 2;
            proof {
                lemma_loc_step(s, q);
                lemma_loc_step(s, q + 1);
            }
            Token::SuffixMatch
        } else {
            tokenizer.position = tokenizer.position + 1;
            proof {
                lemma_loc_step(s, q);
            }
            Token::Delim('$')
        }
    } else if c == '(' {
        tokenizer.position = tokenizer.position + 1;
        proof {
            lemma_loc_step(s, q);
        }
        Token::LeftParen
    } else if c == ')' {
        tokenizer.position = tokenizer.position + 1;
        proof {
            lemma_loc_step(s, q);
        }
        Token::RightParen
    } else if c == '*' {
        if tokenizer.has_more(1) && tokenizer.char_at(1) == '=' {
            tokenizer.position = tokenizer.position + 2;
            proof {
                lemma_loc_step(s, q);
                lemma_loc_step(s, q + 1);
            }
            Token::SubstringMatch
        } else {
            tokenizer.position = tokenizer.position + 1;
            proof {
                lemma_loc_step(s, q);
            }
            Token::Delim('*')
        }
    } else if c == '+' {
        if (tokenizer.has_more(1) && digit_char(tokenizer.char_at(1))) || (tokenizer.has_more(2)
            && tokenizer.char_at(1) == '.' && digit_char(tokenizer.char_at(2))) {
            consume_numeric(tokenizer)
        } else {
            tokenizer.position = tokenizer.position + 1;
            proof {
                lemma_loc_step(s, q);
            }
            Token::Delim('+')
        }
    } else if c == ',' {
        tokenizer.position = tokenizer.position + 1;
        proof {
            lemma_loc_step(s, q);
        }
        Token::Comma
    } else if c == '-' {
        if (tokenizer.has_more(1) && digit_char(tokenizer.char_at(1))) || (tokenizer.has_more(2)
            && tokenizer.char_at(1) == '.' && digit_char(tokenizer.char_at(2))) {
            consume_numeric(tokenizer)
        } else if is_ident_start(tokenizer) {
            consume_ident_like(tokenizer)
        } else if tokenizer.has_more(2) && tokenizer.char_at(1) == '-' && tokenizer.char_at(2)
            == '>' {
            tokenizer.position = tokenizer.position + 3;
            proof {
                lemma_loc_step(s, q);
                lemma_loc_step(s, q + 1);
                lemma_loc_step(s, q + 2);
            }
            Token::CDC
        } else {
            tokenizer.position = tokenizer.position + 1;
            proof {
                lemma_loc_step(s, q);
            }
            Token::Delim('-')
        }
    } else if c == '.' {
        if tokenizer.has_more(1) && digit_char(tokenizer.char_at(1)) {
            consume_numeric(tokenizer)
        } else {
            tokenizer.position = tokenizer.position + 1;
            proof {
                lemma_loc_step(s, q);
            }
            Token::Delim('.')
        }
    } else if c == ':' {
        tokenizer.position = tokenizer.position + 1;
        proof {
            lemma_loc_step(s, q);
        }
        Token::Colon
    } else if c == ';' {
        tokenizer.position = tokenizer.position + 1;
        proof {
            lemma_loc_step(s, q);
        }
        Token::Semicolon
    } else if c == '<' {
        if tokenizer.has_more(3) && tokenizer.char_at(1) == '!' && tokenizer.char_at(2) == '-'
            && tokenizer.char_at(3) == '-' {
            tokenizer.position = tokenizer.position + 4;
            proof {
                lemma_loc_step(s, q);
                lemma_loc_step(s, q + 1);
                lemma_loc_step(s, q + 2);
                lemma_loc_step(s, q + 3);
            }
            Token::CDO
        } else {
            tokenizer.position = tokenizer.position + 1;
            proof {
                lemma_loc_step(s, q);
            }
            Token::Delim('<')
        }
    } else if c == '@' {
        tokenizer.position = tokenizer.position + 1;
        proof {
            lemma_loc_step(s, q);
        }
        if is_ident_start(tokenizer) {
            Token::AtKeyword(consume_name(tokenizer))
        } else {
            Token::Delim('@')
        }
    } else if c == '[' {
        tokenizer.position = tokenizer.position + 1;
        proof {
            lemma_loc_step(s, q);
        }
        Token::LeftBracket
    } else if c == '\\' {
        if !(tokenizer.has_more(1) && tokenizer.char_at(1) == '\n') {
            consume_ident_like(tokenizer)
        } else {
            tokenizer.position = tokenizer.position + 1;
            proof {
                lemma_loc_step(s, q);
            }
            Token::Delim('\\')
        }
    } else if c == ']' {
        tokenizer.position = tokenizer.position + 1;
        proof {
            lemma_loc_step(s, q);
        }
        Token::RightBracket
    } else if c == '^' {
        if tokenizer.has_more(1) && tokenizer.char_at(1) == '=' {
            tokenizer.position = tokenizer.position + 2;
            proof {
                lemma_loc_step(s, q);
                lemma_loc_step(s, q + 1);
            }
            Token::PrefixMatch
        } else {
            tokenizer.position = tokenizer.position + 1;
            proof {
                lemma_loc_step(s, q);
            }
            Token::Delim('^')
        }
    } else if c == '{' {
        tokenizer.position = tokenizer.position + 1;
        proof {
            lemma_loc_step(s, q);
        }
        Token::LeftCurlyBracket
    } else if c == '}' {
        tokenizer.position = tokenizer.position + 1;
        proof {
            lemma_loc_step(s, q);
        }
        Token::RightCurlyBracket
    } else if digit_char(c) {
        consume_numeric(tokenizer)
    } else if c == 'u' || c == 'U' {
        if tokenizer.has_more(2) && tokenizer.char_at(1) == '+' && (hex_digit_char(
            tokenizer.char_at(2),
        ) || tokenizer.char_at(2) == '?') {
            tokenizer.position = tokenizer.position + 2;
            proof {
                lemma_loc_step(s, q);
                lemma_loc_step(s, q + 1);
            }
            consume_unicode_range(tokenizer)
        } else {
            consume_ident_like(tokenizer)
        }
    } else if letter_char(c) || c == '_' {
        consume_ident_like(tokenizer)
    } else if c == '|' {
        if tokenizer.has_more(1) && tokenizer.char_at(1) == '=' {
            tokenizer.position = tokenizer.position + 2;
            proof {
                lemma_loc_step(s, q);
                lemma_loc_step(s, q + 1);
            }
            Token::DashMatch
        } else if tokenizer.has_more(1) && tokenizer.char_at(1) == '|' {
            tokenizer.position = tokenizer.position + 2;
            proof {
                lemma_loc_step(s, q);
                lemma_loc_step(s, q + 1);
            }
            Token::Column
        } else {
            tokenizer.position = tokenizer.position + 1;
            proof {
                lemma_loc_step(s, q);
            }
            Token::Delim('|')
        }
    } else if c == '~' {
        if tokenizer.has_more(1) && tokenizer.char_at(1) == '=' {
            tokenizer.position = tokenizer.position + 2;
            proof {
                lemma_loc_step(s, q);
                lemma_loc_step(s, q + 1);
            }
            Token::IncludeMatch
        } else {
            tokenizer.position = tokenizer.position + 1;
            proof {
                lemma_loc_step(s, q);
            }
            Token::Delim('~')
        }
    } else if nonascii_char(c) {
        consume_ident_like(tokenizer)
    } else {
        tokenizer.position = tokenizer.position + 1;
        proof {
            lemma_loc_step(s, q);
        }
        Token::Delim(c)
    };
    Some((token, start_location))
}

impl Tokenizer {
    /// Advance past one token, or return `None` at the end of the input.
    pub fn next(&mut self) -> (r: Option<Node>)
        requires
            old(self).wf(),
        ensures
            step_ok(*old(self), *final(self), r),
    {
        next_token(self)
    }
}

/// Preprocess a text and construct a tokenizer over it at position 0.
pub fn tokenize(input: &str) -> (t: Tokenizer)
    requires
        input@.len() < usize::MAX,
    ensures
        t.wf(),
        t.loc_ok(),
        t.buf() == preprocess_spec(input@),
        t.position == 0,
        t.line == 1,
        t.last_line_start == 0,
{
    let processed = preprocess(input);
    Tokenizer::new(Arc::new(processed))
}

} // verus!
