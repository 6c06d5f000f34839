//! The tokenizer: walks the input character by character and produces a
//! flat list of tokens. `lex_from` is its specification; `tokenize` is
//! proved to compute it.
use vstd::prelude::*;

use crate::text::chars_of;
use crate::value::{escape_string, quote};

verus! {

/// The mathematical model of a token.
pub enum SpecToken {
    LeftBrace,
    RightBrace,
    LeftBracket,
    RightBracket,
    Comma,
    Colon,
    Number(Seq<char>),
    String(Seq<char>),
    True,
    False,
    Null,
}

/// One lexical unit of JSON text.
#[derive(Clone, Debug, PartialEq)]
pub enum Token {
    LeftBrace,
    RightBrace,
    LeftBracket,
    RightBracket,
    Comma,
    Colon,
    /// The number's text exactly as written, e.g. `-45.5` or `6.022e+23`.
    Number(String),
    /// The decoded contents of a string literal.
    String(String),
    True,
    False,
    Null,
}

impl View for Token {
    type V = SpecToken;

    open spec fn view(&self) -> SpecToken {
        match self {
            Token::LeftBrace => SpecToken::LeftBrace,
            Token::RightBrace => SpecToken::RightBrace,
            Token::LeftBracket => SpecToken::LeftBracket,
            Token::RightBracket => SpecToken::RightBracket,
            Token::Comma => SpecToken::Comma,
            Token::Colon => SpecToken::Colon,
            Token::Number(t) => SpecToken::Number(t@),
            Token::String(s) => SpecToken::String(s@),
            Token::True => SpecToken::True,
            Token::False => SpecToken::False,
            Token::Null => SpecToken::Null,
        }
    }
}

impl Token {
    /// A copy of the token.
    pub fn duplicate(&self) -> (t: Token)
        ensures
            t@ == self@,
    {
        match self {
            Token::LeftBrace => Token::LeftBrace,
            Token::RightBrace => Token::RightBrace,
            Token::LeftBracket => Token::LeftBracket,
            Token::RightBracket => Token::RightBracket,
            Token::Comma => Token::Comma,
            Token::Colon => Token::Colon,
            Token::Number(t) => Token::Number(t.clone()),
            Token::String(s) => Token::String(s.clone()),
            Token::True => Token::True,
            Token::False => Token::False,
            Token::Null => Token::Null,
        }
    }
}

/// The mathematical model of a tokenizer error.
pub enum SpecTokenizeError {
    UnexpectedEof,
    CharNotRecognized(char),
    UnclosedQuotes,
    InvalidNumberFormat(Seq<char>),
    InvalidEscapeSequence(char),
}

/// Why the input could not be split into tokens.
#[derive(Debug, PartialEq)]
pub enum TokenizeError {
    UnexpectedEof,
    CharNotRecognized(char),
    UnclosedQuotes,
    InvalidNumberFormat(String),
    InvalidEscapeSequence(char),
}

impl View for TokenizeError {
    type V = SpecTokenizeError;

    open spec fn view(&self) -> SpecTokenizeError {
        match self {
            TokenizeError::UnexpectedEof => SpecTokenizeError::UnexpectedEof,
            TokenizeError::CharNotRecognized(c) => SpecTokenizeError::CharNotRecognized(*c),
            TokenizeError::UnclosedQuotes => SpecTokenizeError::UnclosedQuotes,
            TokenizeError::InvalidNumberFormat(t) => SpecTokenizeError::InvalidNumberFormat(t@),
            TokenizeError::InvalidEscapeSequence(c) => SpecTokenizeError::InvalidEscapeSequence(*c),
        }
    }
}

// ---------------------------------------------------------------------------
// Character classes
// ---------------------------------------------------------------------------

pub open spec fn is_ascii_digit(c: char) -> bool {
    '0' <= c && c <= '9'
}

pub open spec fn is_ascii_alphabetic(c: char) -> bool {
    ('a' <= c && c <= 'z') || ('A' <= c && c <= 'Z')
}

pub open spec fn is_ascii_hexdigit(c: char) -> bool {
    is_ascii_digit(c) || ('a' <= c && c <= 'f') || ('A' <= c && c <= 'F')
}

/// The Unicode `White_Space` property, which `char::is_whitespace` tests.
pub open spec fn is_whitespace(c: char) -> bool {
    ||| ('\u{9}' <= c && c <= '\u{D}')
    ||| c == ' '
    ||| c == '\u{85}'
    ||| c == '\u{A0}'
    ||| c == '\u{1680}'
    ||| ('\u{2000}' <= c && c <= '\u{200A}')
    ||| c == '\u{2028}'
    ||| c == '\u{2029}'
    ||| c == '\u{202F}'
    ||| c == '\u{205F}'
    ||| c == '\u{3000}'
}

/// The numeric value of a hexadecimal digit.
pub open spec fn hex_value(c: char) -> int {
    if is_ascii_digit(c) {
        c as int - '0' as int
    } else if 'a' <= c && c <= 'f' {
        c as int - 'a' as int + 10
    } else {
        c as int - 'A' as int + 10
    }
}

pub fn ascii_digit(c: char) -> (b: bool)
    ensures
        b == is_ascii_digit(c),
{
    '0' <= c && c <= '9'
}

pub fn ascii_alphabetic(c: char) -> (b: bool)
    ensures
        b == is_ascii_alphabetic(c),
{
    ('a' <= c && c <= 'z') || ('A' <= c && c <= 'Z')
}

pub fn ascii_hexdigit(c: char) -> (b: bool)
    ensures
        b == is_ascii_hexdigit(c),
{
    ('0' <= c && c <= '9') || ('a' <= c && c <= 'f') || ('A' <= c && c <= 'F')
}

/// Whether `c` has the Unicode `White_Space` property.
pub fn whitespace(c: char) -> (b: bool)
    ensures
        b == is_whitespace(c),
{
    ('\u{9}' <= c && c <= '\u{D}') || c == ' ' || c == '\u{85}' || c == '\u{A0}' || c
        == '\u{1680}' || ('\u{2000}' <= c && c <= '\u{200A}') || c == '\u{2028}' || c
        == '\u{2029}' || c == '\u{202F}' || c == '\u{205F}' || c == '\u{3000}'
}

fn hex_digit_value(c: char) -> (n: u32)
    requires
        is_ascii_hexdigit(c),
    ensures
        n == hex_value(c),
        n < 16,
{
    if '0' <= c && c <= '9' {
        (c as u32) - ('0' as u32)
    } else if 'a' <= c && c <= 'f' {
        (c as u32) - ('a' as u32) + 10
    } else {
        (c as u32) - ('A' as u32) + 10
    }
}

// ---------------------------------------------------------------------------
// Runs of characters
// ---------------------------------------------------------------------------

/// The end of the run of ASCII letters that starts at `j`.
pub open spec fn word_end(s: Seq<char>, j: int) -> int
    decreases s.len() - j,
{
    if 0 <= j < s.len() && is_ascii_alphabetic(s[j]) {
        word_end(s, j + 1)
    } else {
        j
    }
}

pub proof fn lemma_word_end(s: Seq<char>, j: int)
    requires
        0 <= j <= s.len(),
    ensures
        j <= word_end(s, j) <= s.len(),
        forall|k: int| j <= k < word_end(s, j) ==> is_ascii_alphabetic(#[trigger] s[k]),
        word_end(s, j) < s.len() ==> !is_ascii_alphabetic(s[word_end(s, j)]),
    decreases s.len() - j,
{
    if j < s.len() && is_ascii_alphabetic(s[j]) {
        lemma_word_end(s, j + 1);
    }
}

/// The keyword token that the word `w` spells, if any.
pub open spec fn keyword(w: Seq<char>) -> Option<SpecToken> {
    if w == seq!['t', 'r', 'u', 'e'] {
        Some(SpecToken::True)
    } else if w == seq!['f', 'a', 'l', 's', 'e'] {
        Some(SpecToken::False)
    } else if w == seq!['n', 'u', 'l', 'l'] {
        Some(SpecToken::Null)
    } else {
        None
    }
}

/// Where the scan of a number that has reached `j` stops. `dec` and `exp`
/// tell whether a decimal point or an exponent marker has been taken.
pub open spec fn number_run_end(s: Seq<char>, j: int, dec: bool, exp: bool) -> int
    decreases s.len() - j,
{
    if j < 0 || j >= s.len() {
        j
    } else if is_ascii_digit(s[j]) {
        number_run_end(s, j + 1, dec, exp)
    } else if s[j] == '.' && !dec && !exp {
        number_run_end(s, j + 1, true, exp)
    } else if (s[j] == 'e' || s[j] == 'E') && !exp {
        if j + 1 < s.len() && (s[j + 1] == '+' || s[j + 1] == '-') {
            number_run_end(s, j + 2, dec, true)
        } else {
            number_run_end(s, j + 1, dec, true)
        }
    } else {
        j
    }
}

/// Where the number that starts at `i` (a digit or `-`) ends.
pub open spec fn number_end(s: Seq<char>, i: int) -> int {
    if s[i] == '-' {
        number_run_end(s, i + 1, false, false)
    } else {
        number_run_end(s, i, false, false)
    }
}

pub proof fn lemma_number_run_end(s: Seq<char>, j: int, dec: bool, exp: bool)
    requires
        0 <= j <= s.len(),
    ensures
        j <= number_run_end(s, j, dec, exp) <= s.len(),
    decreases s.len() - j,
{
    if j < s.len() {
        if is_ascii_digit(s[j]) {
            lemma_number_run_end(s, j + 1, dec, exp);
        } else if s[j] == '.' && !dec && !exp {
            lemma_number_run_end(s, j + 1, true, exp);
        } else if (s[j] == 'e' || s[j] == 'E') && !exp {
            if j + 1 < s.len() && (s[j + 1] == '+' || s[j + 1] == '-') {
                lemma_number_run_end(s, j + 2, dec, true);
            } else {
                lemma_number_run_end(s, j + 1, dec, true);
            }
        }
    }
}

pub proof fn lemma_number_end(s: Seq<char>, i: int)
    requires
        0 <= i < s.len(),
        is_ascii_digit(s[i]) || s[i] == '-',
    ensures
        i < number_end(s, i) <= s.len(),
{
    if s[i] == '-' {
        lemma_number_run_end(s, i + 1, false, false);
    } else {
        lemma_number_run_end(s, i + 1, false, false);
    }
}

/// The end of the run of ASCII digits that starts at `k`.
pub open spec fn digits_end(t: Seq<char>, k: int) -> int
    decreases t.len() - k,
{
    if 0 <= k < t.len() && is_ascii_digit(t[k]) {
        digits_end(t, k + 1)
    } else {
        k
    }
}

/// Whether `t` is a decimal number in the grammar that `f64`'s `FromStr`
/// accepts: `Sign? (Digit+ | Digit+ '.' Digit* | Digit* '.' Digit+) Exp?`
/// with `Exp ::= ('e' | 'E') Sign? Digit+` and `Sign ::= '+' | '-'`.
pub open spec fn valid_number_text(t: Seq<char>) -> bool {
    let b: int = if t.len() > 0 && (t[0] == '+' || t[0] == '-') { 1 } else { 0 };
    let a = digits_end(t, b);
    let f = if a < t.len() && t[a] == '.' { digits_end(t, a + 1) } else { a };
    &&& (a > b || f > a + 1)
    &&& (f == t.len() || ((t[f] == 'e' || t[f] == 'E') && {
        let k = if f + 1 < t.len() && (t[f + 1] == '+' || t[f + 1] == '-') { f + 2 } else { f + 1 };
        let d = digits_end(t, k);
        d > k && d == t.len()
    }))
}

// ---------------------------------------------------------------------------
// String literals
// ---------------------------------------------------------------------------

/// The character that the escape `\e` stands for, for the one-letter escapes.
pub open spec fn escape_decode(e: char) -> Option<char> {
    if e == '"' {
        Some('"')
    } else if e == '\\' {
        Some('\\')
    } else if e == '/' {
        Some('/')
    } else if e == 'b' {
        Some('\x08')
    } else if e == 'f' {
        Some('\x0c')
    } else if e == 'n' {
        Some('\n')
    } else if e == 'r' {
        Some('\r')
    } else if e == 't' {
        Some('\t')
    } else {
        None
    }
}

/// Checks the four hex digits of a `\u` escape that start at `j`, from the
/// `k`-th on: the first missing one is an early end, the first non-hex one
/// an invalid escape.
pub open spec fn hex_scan(s: Seq<char>, j: int, k: int) -> Option<SpecTokenizeError>
    decreases 4 - k,
{
    if k < 0 || k >= 4 {
        None
    } else if j + k >= s.len() {
        Some(SpecTokenizeError::UnexpectedEof)
    } else if !is_ascii_hexdigit(s[j + k]) {
        Some(SpecTokenizeError::InvalidEscapeSequence('u'))
    } else {
        hex_scan(s, j, k + 1)
    }
}

pub proof fn lemma_hex_scan(s: Seq<char>, j: int, k: int)
    requires
        0 <= j,
        0 <= k <= 4,
        hex_scan(s, j, k) is None,
    ensures
        j + 4 <= s.len() || k == 4,
        forall|m: int| k <= m < 4 ==> is_ascii_hexdigit(#[trigger] s[j + m]),
    decreases 4 - k,
{
    if k < 4 {
        lemma_hex_scan(s, j, k + 1);
    }
}

/// The number that the first `m` hex digits at `j` spell.
pub open spec fn hex_prefix_value(s: Seq<char>, j: int, m: int) -> int
    decreases m,
{
    if m <= 0 {
        0
    } else {
        hex_prefix_value(s, j, m - 1) * 16 + hex_value(s[j + m - 1])
    }
}

/// The code point that the four hex digits at `j` spell.
pub open spec fn hex4_value(s: Seq<char>, j: int) -> int {
    hex_prefix_value(s, j, 4)
}

pub open spec fn is_surrogate(n: int) -> bool {
    0xD800 <= n <= 0xDFFF
}

/// Lexes the rest of a string literal from `k` (just after the opening quote
/// or an earlier character of it), having decoded `acc` so far. On success
/// gives the decoded contents and the position after the closing quote.
pub open spec fn lex_string(s: Seq<char>, k: int, acc: Seq<char>) -> Result<
    (Seq<char>, int),
    SpecTokenizeError,
>
    decreases s.len() - k,
{
    if k < 0 || k >= s.len() {
        Err(SpecTokenizeError::UnclosedQuotes)
    } else if s[k] == '"' {
        Ok((acc, k + 1))
    } else if s[k] == '\\' {
        if k + 1 >= s.len() {
            Err(SpecTokenizeError::UnexpectedEof)
        } else if s[k + 1] == 'u' {
            match hex_scan(s, k + 2, 0) {
                Some(e) => Err(e),
                None => {
                    let n = hex4_value(s, k + 2);
                    if is_surrogate(n) {
                        Err(SpecTokenizeError::InvalidEscapeSequence('u'))
                    } else {
                        proof {
                            lemma_hex_scan(s, k + 2, 0);
                        }
                        lex_string(s, k + 6, acc.push(n as char))
                    }
                },
            }
        } else {
            match escape_decode(s[k + 1]) {
                Some(d) => lex_string(s, k + 2, acc.push(d)),
                None => Err(SpecTokenizeError::InvalidEscapeSequence(s[k + 1])),
            }
        }
    } else {
        lex_string(s, k + 1, acc.push(s[k]))
    }
}

pub proof fn lemma_lex_string_advances(s: Seq<char>, k: int, acc: Seq<char>)
    requires
        0 <= k,
    ensures
        lex_string(s, k, acc) matches Ok((_, j)) ==> k < j <= s.len(),
    decreases s.len() - k,
{
    if 0 <= k < s.len() && s[k] != '"' {
        if s[k] == '\\' {
            if k + 1 < s.len() {
                if s[k + 1] == 'u' {
                    if hex_scan(s, k + 2, 0) is None {
                        lemma_hex_scan(s, k + 2, 0);
                        let n = hex4_value(s, k + 2);
                        lemma_lex_string_advances(s, k + 6, acc.push(n as char));
                    }
                } else if let Some(d) = escape_decode(s[k + 1]) {
                    lemma_lex_string_advances(s, k + 2, acc.push(d));
                }
            }
        } else {
            lemma_lex_string_advances(s, k + 1, acc.push(s[k]));
        }
    }
}

// ---------------------------------------------------------------------------
// The tokenizer
// ---------------------------------------------------------------------------

/// `t` in front of the tokens of `r`, if `r` succeeded.
pub open spec fn prepend_token(
    t: SpecToken,
    r: Result<Seq<SpecToken>, SpecTokenizeError>,
) -> Result<Seq<SpecToken>, SpecTokenizeError> {
    match r {
        Ok(ts) => Ok(seq![t] + ts),
        Err(e) => Err(e),
    }
}

/// The tokens of `s` from position `i` on, or the first error there.
pub open spec fn lex_from(s: Seq<char>, i: int) -> Result<Seq<SpecToken>, SpecTokenizeError>
    decreases s.len() - i,
{
    if i < 0 || i >= s.len() {
        Ok(Seq::empty())
    } else {
        let c = s[i];
        if c == '{' {
            prepend_token(SpecToken::LeftBrace, lex_from(s, i + 1))
        } else if c == '}' {
            prepend_token(SpecToken::RightBrace, lex_from(s, i + 1))
        } else if c == '[' {
            prepend_token(SpecToken::LeftBracket, lex_from(s, i + 1))
        } else if c == ']' {
            prepend_token(SpecToken::RightBracket, lex_from(s, i + 1))
        } else if c == ',' {
            prepend_token(SpecToken::Comma, lex_from(s, i + 1))
        } else if c == ':' {
            prepend_token(SpecToken::Colon, lex_from(s, i + 1))
        } else if is_whitespace(c) {
            lex_from(s, i + 1)
        } else if is_ascii_alphabetic(c) {
            let j = word_end(s, i);
            proof {
                lemma_word_end(s, i);
            }
            match keyword(s.subrange(i, j)) {
                Some(t) => prepend_token(t, lex_from(s, j)),
                None => Err(SpecTokenizeError::CharNotRecognized(c)),
            }
        } else if c == '"' {
            proof {
                lemma_lex_string_advances(s, i + 1, Seq::empty());
            }
            match lex_string(s, i + 1, Seq::empty()) {
                Ok((content, j)) => prepend_token(SpecToken::String(content), lex_from(s, j)),
                Err(e) => Err(e),
            }
        } else if is_ascii_digit(c) || c == '-' {
            let j = number_end(s, i);
            proof {
                lemma_number_end(s, i);
            }
            let text = s.subrange(i, j);
            if valid_number_text(text) {
                prepend_token(SpecToken::Number(text), lex_from(s, j))
            } else {
                Err(SpecTokenizeError::InvalidNumberFormat(text))
            }
        } else {
            Err(SpecTokenizeError::CharNotRecognized(c))
        }
    }
}

/// The tokens of `s`, or the first error in it.
pub open spec fn spec_tokenize(s: Seq<char>) -> Result<Seq<SpecToken>, SpecTokenizeError> {
    lex_from(s, 0)
}

// ---------------------------------------------------------------------------
// Executable tokenizer
// ---------------------------------------------------------------------------

/// Calls `char::from_u32`: the character with code point `n`, or `None`
/// where `n` is a surrogate or above `0x10FFFF`.
#[verifier::external_body]
fn char_from_code(n: u32) -> (r: Option<char>)
    ensures
        r == (if n < 0xD800 || (0xDFFF < n && n <= 0x10FFFF) {
            Some(n as char)
        } else {
            None
        }),
{
    char::from_u32(n)
}

fn decode_escape(e: char) -> (r: Option<char>)
    ensures
        r == escape_decode(e),
{
    if e == '"' {
        Some('"')
    } else if e == '\\' {
        Some('\\')
    } else if e == '/' {
        Some('/')
    } else if e == 'b' {
        Some('\x08')
    } else if e == 'f' {
        Some('\x0c')
    } else if e == 'n' {
        Some('\n')
    } else if e == 'r' {
        Some('\r')
    } else if e == 't' {
        Some('\t')
    } else {
        None
    }
}

pub open spec fn string_lex_view(r: Result<(String, usize), TokenizeError>) -> Result<
    (Seq<char>, int),
    SpecTokenizeError,
> {
    match r {
        Ok((t, j)) => Ok((t@, j as int)),
        Err(e) => Err(e@),
    }
}

/// Lexes the string literal whose contents start at `start`.
fn lex_string_at(s: &Vec<char>, start: usize) -> (r: Result<(String, usize), TokenizeError>)
    requires
        start <= s.len(),
    ensures
        string_lex_view(r) == lex_string(s@, start as int, Seq::empty()),
{
    let mut out = String::new();
    let mut k = start;
    loop
        invariant
            start <= k <= s.len(),
            lex_string(s@, start as int, Seq::empty()) == lex_string(s@, k as int, out@),
        decreases s.len() - k,
    {
        if k >= s.len() {
            return Err(TokenizeError::UnclosedQuotes);
        }
        let c = s[k];
        if c == '"' {
            return Ok((out, k + 1));
        }
        if c == '\\' {
            if k + 1 >= s.len() {
                return Err(TokenizeError::UnexpectedEof);
            }
            let e = s[k + 1];
            if e == 'u' {
                let j = k + 2;
                let mut m: usize = 0;
                let mut code: u32 = 0;
                while m < 4
                    invariant
                        start <= k < s.len(),
                        s@[k as int] == '\\',
                        s@[k + 1] == 'u',
                        lex_string(s@, start as int, Seq::empty()) == lex_string(s@, k as int, out@),
                        j == k + 2,
                        k + 1 < s.len(),
                        m <= 4,
                        hex_scan(s@, j as int, 0) == hex_scan(s@, j as int, m as int),
                        code == hex_prefix_value(s@, j as int, m as int),
                        m == 0 ==> code == 0,
                        m == 1 ==> code < 16,
                        m == 2 ==> code < 256,
                        m == 3 ==> code < 4096,
                        m == 4 ==> code < 65536,
                        m > 0 ==> j + m <= s.len(),
                    decreases 4 - m,
                {
                    if j + m >= s.len() {
                        return Err(TokenizeError::UnexpectedEof);
                    }
                    let h = s[j + m];
                    if !ascii_hexdigit(h) {
                        return Err(TokenizeError::InvalidEscapeSequence('u'));
                    }
                    code = code * 16 + hex_digit_value(h);
                    m = m + 1;
                }
                assert(hex_scan(s@, j as int, 4) is None);
                match char_from_code(code) {
                    Some(ch) => {
                        out.push(ch);
                        k = k + 6;
                    },
                    None => {
                        return Err(TokenizeError::InvalidEscapeSequence('u'));
                    },
                }
            } else {
                match decode_escape(e) {
                    Some(d) => {
                        out.push(d);
                        k = k + 2;
                    },
                    None => {
                        return Err(TokenizeError::InvalidEscapeSequence(e));
                    },
                }
            }
        } else {
            out.push(c);
            k = k + 1;
        }
    }
}

/// `start + digits_end` of the slice `s[start..end]`, counted from `k`.
fn digits_end_at(s: &Vec<char>, start: usize, end: usize, k: usize) -> (r: usize)
    requires
        start <= k <= end <= s.len(),
    ensures
        r == start + digits_end(s@.subrange(start as int, end as int), k - start),
        k <= r <= end,
{
    let ghost t = s@.subrange(start as int, end as int);
    let mut j = k;
    while j < end && ascii_digit(s[j])
        invariant
            start <= k <= j <= end <= s.len(),
            t == s@.subrange(start as int, end as int),
            digits_end(t, j - start) == digits_end(t, k - start),
        decreases end - j,
    {
        assert(t[j - start] == s@[j as int]);
        j = j + 1;
    }
    if j < end {
        assert(t[j - start] == s@[j as int]);
    }
    j
}

/// Whether `s[start..end]` is valid number text.
fn number_text_valid(s: &Vec<char>, start: usize, end: usize) -> (b: bool)
    requires
        start <= end <= s.len(),
    ensures
        b == valid_number_text(s@.subrange(start as int, end as int)),
{
    let ghost t = s@.subrange(start as int, end as int);
    let b = if end > start && (s[start] == '+' || s[start] == '-') {
        start + 1
    } else {
        start
    };
    let a = digits_end_at(s, start, end, b);
    let f = if a < end && s[a] == '.' {
        digits_end_at(s, start, end, a + 1)
    } else {
        a
    };
    if !(a > b || (f > a && f - a > 1)) {
        return false;
    }
    if f == end {
        return true;
    }
    if !(s[f] == 'e' || s[f] == 'E') {
        return false;
    }
    let k = if f + 1 < end && (s[f + 1] == '+' || s[f + 1] == '-') {
        f + 2
    } else {
        f + 1
    };
    let d = digits_end_at(s, start, end, k);
    d > k && d == end
}

/// Scans the number that starts at `i`; gives where it ends.
fn scan_number(s: &Vec<char>, i: usize) -> (j: usize)
    requires
        i < s.len(),
        is_ascii_digit(s@[i as int]) || s@[i as int] == '-',
    ensures
        j == number_end(s@, i as int),
{
    let mut j = if s[i] == '-' {
        i + 1
    } else {
        i
    };
    let mut dec = false;
    let mut exp = false;
    loop
        invariant
            i <= j <= s.len(),
            number_run_end(s@, j as int, dec, exp) == number_end(s@, i as int),
        ensures
            j == number_end(s@, i as int),
        decreases s.len() - j,
    {
        if j >= s.len() {
            break;
        }
        let c = s[j];
        if ascii_digit(c) {
            j = j + 1;
        } else if c == '.' && !dec && !exp {
            dec = true;
            j = j + 1;
        } else if (c == 'e' || c == 'E') && !exp {
            exp = true;
            if j + 1 < s.len() && (s[j + 1] == '+' || s[j + 1] == '-') {
                j = j + 2;
            } else {
                j = j + 1;
            }
        } else {
            break;
        }
    }
    j
}

/// The string made of `s[i..j]`.
fn collect_text(s: &Vec<char>, i: usize, j: usize) -> (t: String)
    requires
        i <= j <= s.len(),
    ensures
        t@ == s@.subrange(i as int, j as int),
{
    let mut t = String::new();
    let mut k = i;
    while k < j
        invariant
            i <= k <= j <= s.len(),
            t@ == s@.subrange(i as int, k as int),
        decreases j - k,
    {
        t.push(s[k]);
        k = k + 1;
        assert(t@ =~= s@.subrange(i as int, k as int));
    }
    t
}

/// The end of the run of ASCII letters that starts at `i`.
fn scan_word(s: &Vec<char>, i: usize) -> (j: usize)
    requires
        i <= s.len(),
    ensures
        j == word_end(s@, i as int),
        i <= j <= s.len(),
{
    let mut j = i;
    while j < s.len() && ascii_alphabetic(s[j])
        invariant
            i <= j <= s.len(),
            word_end(s@, j as int) == word_end(s@, i as int),
        decreases s.len() - j,
    {
        j = j + 1;
    }
    j
}

pub open spec fn option_token_view(r: Option<Token>) -> Option<SpecToken> {
    match r {
        Some(t) => Some(t@),
        None => None,
    }
}

/// The keyword token that `s[i..j]` spells, if any.
fn keyword_at(s: &Vec<char>, i: usize, j: usize) -> (r: Option<Token>)
    requires
        i <= j <= s.len(),
    ensures
        option_token_view(r) == keyword(s@.subrange(i as int, j as int)),
{
    let ghost w = s@.subrange(i as int, j as int);
    let n = j - i;
    if n == 4 && s[i] == 't' && s[i + 1] == 'r' && s[i + 2] == 'u' && s[i + 3] == 'e' {
        assert(w =~= seq!['t', 'r', 'u', 'e']);
        return Some(Token::True);
    }
    if n == 5 && s[i] == 'f' && s[i + 1] == 'a' && s[i + 2] == 'l' && s[i + 3] == 's' && s[i + 4]
        == 'e' {
        assert(w != seq!['t', 'r', 'u', 'e']);
        assert(w =~= seq!['f', 'a', 'l', 's', 'e']);
        return Some(Token::False);
    }
    if n == 4 && s[i] == 'n' && s[i + 1] == 'u' && s[i + 2] == 'l' && s[i + 3] == 'l' {
        assert(w != seq!['t', 'r', 'u', 'e']);
        assert(w =~= seq!['n', 'u', 'l', 'l']);
        return Some(Token::Null);
    }
    proof {
        let lt = seq!['t', 'r', 'u', 'e'];
        let lf = seq!['f', 'a', 'l', 's', 'e'];
        let ln = seq!['n', 'u', 'l', 'l'];
        assert(lt.len() == 4 && lt[0] == 't' && lt[1] == 'r' && lt[2] == 'u' && lt[3] == 'e');
        assert(lf.len() == 5 && lf[0] == 'f' && lf[1] == 'a' && lf[2] == 'l' && lf[3] == 's'
            && lf[4] == 'e');
        assert(ln.len() == 4 && ln[0] == 'n' && ln[1] == 'u' && ln[2] == 'l' && ln[3] == 'l');
        if w.len() == 4 {
            assert(w[0] == s@[i as int] && w[1] == s@[i + 1] && w[2] == s@[i + 2] && w[3]
                == s@[i + 3]);
        }
        if w.len() == 5 {
            assert(w[0] == s@[i as int] && w[1] == s@[i + 1] && w[2] == s@[i + 2] && w[3]
                == s@[i + 3] && w[4] == s@[i + 4]);
        }
    }
    None
}

pub open spec fn view_tokens(v: Seq<Token>) -> Seq<SpecToken> {
    v.map_values(|t: Token| t@)
}

/// The tokens `p` followed by those of `r`, if `r` succeeded.
pub open spec fn then_tokens(
    p: Seq<SpecToken>,
    r: Result<Seq<SpecToken>, SpecTokenizeError>,
) -> Result<Seq<SpecToken>, SpecTokenizeError> {
    match r {
        Ok(ts) => Ok(p + ts),
        Err(e) => Err(e),
    }
}

pub open spec fn tokenize_view(r: Result<Vec<Token>, TokenizeError>) -> Result<
    Seq<SpecToken>,
    SpecTokenizeError,
> {
    match r {
        Ok(v) => Ok(view_tokens(v@)),
        Err(e) => Err(e@),
    }
}

proof fn lemma_then_prepend(p: Seq<SpecToken>, t: SpecToken, r: Result<Seq<SpecToken>, SpecTokenizeError>)
    ensures
        then_tokens(p, prepend_token(t, r)) == then_tokens(p.push(t), r),
{
    if let Ok(ts) = r {
        assert(p + (seq![t] + ts) =~= p.push(t) + ts);
    }
}

/// Appends `t` to `tokens`, keeping the tokenizer's loop invariant.
fn push_token(tokens: &mut Vec<Token>, t: Token)
    ensures
        view_tokens(final(tokens)@) == view_tokens(old(tokens)@).push(t@),
{
    tokens.push(t);
    assert(view_tokens(tokens@) =~= view_tokens(old(tokens)@).push(t@));
}

/// Splits `input` into tokens: the punctuation `{ } [ ] , :`, the keywords
/// `true false null`, string literals with their escapes decoded, and
/// numbers kept as their text. Whitespace between tokens is skipped.
pub fn tokenize(input: &str) -> (r: Result<Vec<Token>, TokenizeError>)
    ensures
        tokenize_view(r) == spec_tokenize(input@),
{
    let s = chars_of(input);
    let mut tokens: Vec<Token> = Vec::new();
    let mut i: usize = 0;
    assert(view_tokens(tokens@) =~= Seq::<SpecToken>::empty());
    assert(then_tokens(Seq::empty(), lex_from(s@, 0)) == lex_from(s@, 0)) by {
        if let Ok(ts) = lex_from(s@, 0) {
            assert(Seq::<SpecToken>::empty() + ts =~= ts);
        }
    }
    while i < s.len()
        invariant
            i <= s.len(),
            s@ == input@,
            spec_tokenize(s@) == then_tokens(view_tokens(tokens@), lex_from(s@, i as int)),
        decreases s.len() - i,
    {
        let ghost p = view_tokens(tokens@);
        let c = s[i];
        let punct = if c == '{' {
            Some(Token::LeftBrace)
        } else if c == '}' {
            Some(Token::RightBrace)
        } else if c == '[' {
            Some(Token::LeftBracket)
        } else if c == ']' {
            Some(Token::RightBracket)
        } else if c == ',' {
            Some(Token::Comma)
        } else if c == ':' {
            Some(Token::Colon)
        } else {
            None
        };
        match punct {
            Some(t) => {
                proof {
                    lemma_then_prepend(p, t@, lex_from(s@, i + 1));
                }
                push_token(&mut tokens, t);
                i = i + 1;
            },
            None => {
                if whitespace(c) {
                    i = i + 1;
                } else if ascii_alphabetic(c) {
                    let j = scan_word(&s, i);
                    proof {
                        lemma_word_end(s@, i as int);
                    }
                    match keyword_at(&s, i, j) {
                        Some(t) => {
                            proof {
                                lemma_then_prepend(p, t@, lex_from(s@, j as int));
                            }
                            push_token(&mut tokens, t);
                            i = j;
                        },
                        None => {
                            return Err(TokenizeError::CharNotRecognized(c));
                        },
                    }
                } else if c == '"' {
                    match lex_string_at(&s, i + 1) {
                        Ok((content, j)) => {
                            proof {
                                lemma_lex_string_advances(s@, i + 1, Seq::empty());
                                lemma_then_prepend(
                                    p,
                                    SpecToken::String(content@),
                                    lex_from(s@, j as int),
                                );
                            }
                            push_token(&mut tokens, Token::String(content));
                            i = j;
                        },
                        Err(e) => {
                            return Err(e);
                        },
                    }
                } else if ascii_digit(c) || c == '-' {
                    let j = scan_number(&s, i);
                    proof {
                        lemma_number_end(s@, i as int);
                    }
                    let text = collect_text(&s, i, j);
                    if number_text_valid(&s, i, j) {
                        proof {
                            lemma_then_prepend(
                                p,
                                SpecToken::Number(text@),
                                lex_from(s@, j as int),
                            );
                        }
                        push_token(&mut tokens, Token::Number(text));
                        i = j;
                    } else {
                        return Err(TokenizeError::InvalidNumberFormat(text));
                    }
                } else {
                    return Err(TokenizeError::CharNotRecognized(c));
                }
            },
        }
    }
    assert(then_tokens(view_tokens(tokens@), lex_from(s@, i as int)) == Ok::<
        Seq<SpecToken>,
        SpecTokenizeError,
    >(view_tokens(tokens@))) by {
        assert(view_tokens(tokens@) + Seq::<SpecToken>::empty() =~= view_tokens(tokens@));
    }
    Ok(tokens)
}

// ---------------------------------------------------------------------------
// Messages
// ---------------------------------------------------------------------------

/// The message that describes a tokenizer error.
pub open spec fn tokenize_error_message(e: SpecTokenizeError) -> Seq<char> {
    match e {
        SpecTokenizeError::UnexpectedEof => "unexpected end of file"@,
        SpecTokenizeError::CharNotRecognized(c) => "character not recognized: '"@ + seq![c]
            + "'"@,
        SpecTokenizeError::UnclosedQuotes => "unclosed quotes"@,
        SpecTokenizeError::InvalidNumberFormat(t) => "invalid number format: "@ + t,
        SpecTokenizeError::InvalidEscapeSequence(c) => "invalid escape sequence: '\\"@ + seq![c]
            + "'"@,
    }
}

/// How a token is written in JSON text.
pub open spec fn token_text(t: SpecToken) -> Seq<char> {
    match t {
        SpecToken::LeftBrace => seq!['{'],
        SpecToken::RightBrace => seq!['}'],
        SpecToken::LeftBracket => seq!['['],
        SpecToken::RightBracket => seq![']'],
        SpecToken::Comma => seq![','],
        SpecToken::Colon => seq![':'],
        SpecToken::Number(x) => x,
        SpecToken::String(x) => quote(x),
        SpecToken::True => seq!['t', 'r', 'u', 'e'],
        SpecToken::False => seq!['f', 'a', 'l', 's', 'e'],
        SpecToken::Null => seq!['n', 'u', 'l', 'l'],
    }
}

impl Token {
    /// The token as it is written in JSON text.
    pub fn to_string(&self) -> (s: String)
        ensures
            s@ == token_text(self@),
    {
        let mut out = String::new();
        match self {
            Token::LeftBrace => out.push('{'),
            Token::RightBrace => out.push('}'),
            Token::LeftBracket => out.push('['),
            Token::RightBracket => out.push(']'),
            Token::Comma => out.push(','),
            Token::Colon => out.push(':'),
            Token::Number(x) => out.append(x.as_str()),
            Token::String(x) => {
                let e = escape_string(x.as_str());
                out.push('"');
                out.append(e.as_str());
                out.push('"');
            },
            Token::True => {
                out.push('t');
                out.push('r');
                out.push('u');
                out.push('e');
            },
            Token::False => {
                out.push('f');
                out.push('a');
                out.push('l');
                out.push('s');
                out.push('e');
            },
            Token::Null => {
                out.push('n');
                out.push('u');
                out.push('l');
                out.push('l');
            },
        }
        assert(out@ =~= token_text(self@));
        out
    }
}

impl TokenizeError {
    /// The human-readable message for this error.
    pub fn to_string(&self) -> (s: String)
        ensures
            s@ == tokenize_error_message(self@),
    {
        match self {
            TokenizeError::UnexpectedEof => String::from_str("unexpected end of file"),
            TokenizeError::CharNotRecognized(c) => {
                let mut m = String::from_str("character not recognized: '");
                m.push(*c);
                m.append("'");
                m
            },
            TokenizeError::UnclosedQuotes => String::from_str("unclosed quotes"),
            TokenizeError::InvalidNumberFormat(t) => {
                let mut m = String::from_str("invalid number format: ");
                m.append(t.as_str());
                m
            },
            TokenizeError::InvalidEscapeSequence(c) => {
                let mut m = String::from_str("invalid escape sequence: '\\");
                m.push(*c);
                m.append("'");
                m
            },
        }
    }
}

} // verus!
