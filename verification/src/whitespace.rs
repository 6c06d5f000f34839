//! Whitespace between tokens changes nothing: tokenizing `a`, some
//! whitespace, and `b` gives the tokens of `a` followed by those of `b`.
//!
//! Two facts about the tokenizer carry the proof. Tokenizing `a` succeeds
//! the same way inside a longer text when whitespace follows `a`, because no
//! token reads past a whitespace character (`lemma_lex_prefix`). And the
//! tokenizer only looks ahead, so lexing `x + y` from the start of `y` is
//! lexing `y` (`lemma_lex_shift`).
use vstd::prelude::*;

use crate::tokenize::{
    hex4_value, hex_prefix_value, hex_scan, is_ascii_alphabetic, is_ascii_digit, is_whitespace,
    lemma_hex_scan, lemma_lex_string_advances, lemma_number_end, lemma_word_end, lex_from,
    lex_string, number_end, number_run_end, prepend_token, spec_tokenize, then_tokens, word_end,
    SpecToken, SpecTokenizeError,
};

verus! {

/// `s` starts with `a`.
pub open spec fn extends(s: Seq<char>, a: Seq<char>) -> bool {
    a.len() <= s.len() && forall|t: int| 0 <= t < a.len() ==> s[t] == a[t]
}

/// Position `n` of `s` is its end or holds a whitespace character.
pub open spec fn at_boundary(s: Seq<char>, n: int) -> bool {
    n == s.len() || (0 <= n < s.len() && is_whitespace(s[n]))
}

// ---------------------------------------------------------------------------
// Hex escapes read the same characters the same way
// ---------------------------------------------------------------------------

proof fn lemma_hex_scan_same(s1: Seq<char>, j1: int, s2: Seq<char>, j2: int, m: int)
    requires
        0 <= j1,
        0 <= j2,
        0 <= m <= 4,
        s1.len() - j1 == s2.len() - j2 || (j1 + 4 <= s1.len() && j2 + 4 <= s2.len()),
        forall|q: int| j1 <= q < j1 + 4 && q < s1.len() ==> #[trigger] s1[q] == s2[q + (j2 - j1)],
    ensures
        hex_scan(s1, j1, m) == hex_scan(s2, j2, m),
    decreases 4 - m,
{
    if m < 4 {
        if j1 + m < s1.len() {
            assert(s1[j1 + m] == s2[(j1 + m) + (j2 - j1)]);
        }
        lemma_hex_scan_same(s1, j1, s2, j2, m + 1);
    }
}

proof fn lemma_hex_prefix_same(s1: Seq<char>, j1: int, s2: Seq<char>, j2: int, m: int)
    requires
        0 <= m <= 4,
        forall|q: int| j1 <= q < j1 + m ==> #[trigger] s1[q] == s2[q + (j2 - j1)],
    ensures
        hex_prefix_value(s1, j1, m) == hex_prefix_value(s2, j2, m),
    decreases m,
{
    if m > 0 {
        assert(s1[j1 + m - 1] == s2[(j1 + m - 1) + (j2 - j1)]);
        lemma_hex_prefix_same(s1, j1, s2, j2, m - 1);
    }
}

// ---------------------------------------------------------------------------
// Lexing `a` inside a text that continues with whitespace
// ---------------------------------------------------------------------------

proof fn lemma_word_end_prefix(s: Seq<char>, a: Seq<char>, j: int)
    requires
        extends(s, a),
        at_boundary(s, a.len() as int),
        0 <= j <= a.len(),
    ensures
        word_end(s, j) == word_end(a, j),
    decreases a.len() - j,
{
    if j < a.len() {
        assert(s[j] == a[j]);
        lemma_word_end_prefix(s, a, j + 1);
    }
}

proof fn lemma_number_run_prefix(s: Seq<char>, a: Seq<char>, j: int, dec: bool, exp: bool)
    requires
        extends(s, a),
        at_boundary(s, a.len() as int),
        0 <= j <= a.len(),
    ensures
        number_run_end(s, j, dec, exp) == number_run_end(a, j, dec, exp),
    decreases a.len() - j,
{
    if j < a.len() {
        assert(s[j] == a[j]);
        if j + 1 < a.len() {
            assert(s[j + 1] == a[j + 1]);
        }
        let c = a[j];
        if is_ascii_digit(c) {
            lemma_number_run_prefix(s, a, j + 1, dec, exp);
        } else if c == '.' && !dec && !exp {
            lemma_number_run_prefix(s, a, j + 1, true, exp);
        } else if (c == 'e' || c == 'E') && !exp {
            if j + 1 < a.len() && (a[j + 1] == '+' || a[j + 1] == '-') {
                lemma_number_run_prefix(s, a, j + 2, dec, true);
            } else {
                lemma_number_run_prefix(s, a, j + 1, dec, true);
            }
        }
    }
}

proof fn lemma_lex_string_prefix(s: Seq<char>, a: Seq<char>, k: int, acc: Seq<char>)
    requires
        extends(s, a),
        0 <= k,
    ensures
        lex_string(a, k, acc) is Ok ==> lex_string(s, k, acc) == lex_string(a, k, acc),
    decreases a.len() - k,
{
    if k < a.len() {
        assert(s[k] == a[k]);
        if a[k] == '\\' && k + 1 < a.len() {
            assert(s[k + 1] == a[k + 1]);
            if a[k + 1] == 'u' {
                if hex_scan(a, k + 2, 0) is None {
                    lemma_hex_scan(a, k + 2, 0);
                    lemma_hex_scan_same(a, k + 2, s, k + 2, 0);
                    lemma_hex_prefix_same(a, k + 2, s, k + 2, 4);
                    let n = hex4_value(a, k + 2);
                    lemma_lex_string_prefix(s, a, k + 6, acc.push(n as char));
                }
            } else {
                if let Some(d) = crate::tokenize::escape_decode(a[k + 1]) {
                    lemma_lex_string_prefix(s, a, k + 2, acc.push(d));
                }
            }
        } else if a[k] != '"' && a[k] != '\\' {
            lemma_lex_string_prefix(s, a, k + 1, acc.push(a[k]));
        }
    }
}

proof fn lemma_prepend_then(
    t: SpecToken,
    p: Seq<SpecToken>,
    r: Result<Seq<SpecToken>, SpecTokenizeError>,
)
    ensures
        prepend_token(t, then_tokens(p, r)) == then_tokens(seq![t] + p, r),
{
    if let Ok(ts) = r {
        assert(seq![t] + (p + ts) =~= seq![t] + p + ts);
    }
}

/// Where `a` tokenizes from `i`, the text `s` that continues `a` with
/// whitespace (or nothing) gives the same tokens up to the end of `a`.
proof fn lemma_lex_prefix(s: Seq<char>, a: Seq<char>, i: int)
    requires
        extends(s, a),
        at_boundary(s, a.len() as int),
        0 <= i <= a.len(),
    ensures
        lex_from(a, i) matches Ok(ts) ==> lex_from(s, i) == then_tokens(
            ts,
            lex_from(s, a.len() as int),
        ),
    decreases a.len() - i,
{
    let rest = lex_from(s, a.len() as int);
    if i == a.len() {
        if let Ok(ts) = rest {
            assert(Seq::<SpecToken>::empty() + ts =~= ts);
        }
    } else {
        let c = a[i];
        assert(s[i] == c);
        if c == '{' || c == '}' || c == '[' || c == ']' || c == ',' || c == ':' {
            lemma_lex_prefix(s, a, i + 1);
            if let Ok(ts) = lex_from(a, i + 1) {
                lemma_prepend_then(SpecToken::LeftBrace, ts, rest);
                lemma_prepend_then(SpecToken::RightBrace, ts, rest);
                lemma_prepend_then(SpecToken::LeftBracket, ts, rest);
                lemma_prepend_then(SpecToken::RightBracket, ts, rest);
                lemma_prepend_then(SpecToken::Comma, ts, rest);
                lemma_prepend_then(SpecToken::Colon, ts, rest);
            }
        } else if is_whitespace(c) {
            lemma_lex_prefix(s, a, i + 1);
        } else if is_ascii_alphabetic(c) {
            let j = word_end(a, i);
            lemma_word_end(a, i);
            lemma_word_end_prefix(s, a, i);
            assert(s.subrange(i, j) =~= a.subrange(i, j));
            lemma_lex_prefix(s, a, j);
            if let (Some(t), Ok(ts)) = (crate::tokenize::keyword(a.subrange(i, j)), lex_from(a, j)) {
                lemma_prepend_then(t, ts, rest);
            }
        } else if c == '"' {
            lemma_lex_string_prefix(s, a, i + 1, Seq::empty());
            lemma_lex_string_advances(a, i + 1, Seq::empty());
            if let Ok((content, j)) = lex_string(a, i + 1, Seq::empty()) {
                lemma_lex_prefix(s, a, j);
                if let Ok(ts) = lex_from(a, j) {
                    lemma_prepend_then(SpecToken::String(content), ts, rest);
                }
            }
        } else if is_ascii_digit(c) || c == '-' {
            let j = number_end(a, i);
            lemma_number_end(a, i);
            if c == '-' {
                lemma_number_run_prefix(s, a, i + 1, false, false);
            } else {
                lemma_number_run_prefix(s, a, i, false, false);
            }
            assert(number_end(s, i) == j);
            assert(s.subrange(i, j) =~= a.subrange(i, j));
            lemma_lex_prefix(s, a, j);
            if let Ok(ts) = lex_from(a, j) {
                lemma_prepend_then(SpecToken::Number(a.subrange(i, j)), ts, rest);
            }
        }
    }
}

// ---------------------------------------------------------------------------
// Lexing the tail `y` of `x + y`
// ---------------------------------------------------------------------------

/// A string-lexing result with its position moved by `d`.
pub open spec fn shift_string_lex(
    r: Result<(Seq<char>, int), SpecTokenizeError>,
    d: int,
) -> Result<(Seq<char>, int), SpecTokenizeError> {
    match r {
        Ok((c, p)) => Ok((c, p + d)),
        Err(e) => Err(e),
    }
}

proof fn lemma_word_end_shift(x: Seq<char>, y: Seq<char>, j: int)
    requires
        0 <= j <= y.len(),
    ensures
        word_end(x + y, x.len() + j) == x.len() + word_end(y, j),
    decreases y.len() - j,
{
    if j < y.len() {
        assert((x + y)[x.len() + j] == y[j]);
        lemma_word_end_shift(x, y, j + 1);
    }
}

proof fn lemma_number_run_shift(x: Seq<char>, y: Seq<char>, j: int, dec: bool, exp: bool)
    requires
        0 <= j <= y.len(),
    ensures
        number_run_end(x + y, x.len() + j, dec, exp) == x.len() + number_run_end(y, j, dec, exp),
    decreases y.len() - j,
{
    if j < y.len() {
        assert((x + y)[x.len() + j] == y[j]);
        if j + 1 < y.len() {
            assert((x + y)[x.len() + j + 1] == y[j + 1]);
        }
        let c = y[j];
        if is_ascii_digit(c) {
            lemma_number_run_shift(x, y, j + 1, dec, exp);
        } else if c == '.' && !dec && !exp {
            lemma_number_run_shift(x, y, j + 1, true, exp);
        } else if (c == 'e' || c == 'E') && !exp {
            if j + 1 < y.len() && (y[j + 1] == '+' || y[j + 1] == '-') {
                lemma_number_run_shift(x, y, j + 2, dec, true);
            } else {
                lemma_number_run_shift(x, y, j + 1, dec, true);
            }
        }
    }
}

proof fn lemma_lex_string_shift(x: Seq<char>, y: Seq<char>, k: int, acc: Seq<char>)
    requires
        0 <= k,
    ensures
        lex_string(x + y, x.len() + k, acc) == shift_string_lex(
            lex_string(y, k, acc),
            x.len() as int,
        ),
    decreases y.len() - k,
{
    let s = x + y;
    let d = x.len() as int;
    if k < y.len() {
        assert(s[d + k] == y[k]);
        if k + 1 < y.len() {
            assert(s[d + k + 1] == y[k + 1]);
        }
        if y[k] == '\\' && k + 1 < y.len() {
            if y[k + 1] == 'u' {
                assert forall|q: int| k + 2 <= q < k + 2 + 4 && q < y.len() implies #[trigger] y[q]
                    == s[q + ((d + k + 2) - (k + 2))] by {
                    assert(s[d + q] == y[q]);
                }
                lemma_hex_scan_same(y, k + 2, s, d + k + 2, 0);
                if hex_scan(y, k + 2, 0) is None {
                    lemma_hex_scan(y, k + 2, 0);
                    lemma_hex_prefix_same(y, k + 2, s, d + k + 2, 4);
                    let n = hex4_value(y, k + 2);
                    lemma_lex_string_shift(x, y, k + 6, acc.push(n as char));
                }
            } else {
                if let Some(dd) = crate::tokenize::escape_decode(y[k + 1]) {
                    lemma_lex_string_shift(x, y, k + 2, acc.push(dd));
                }
            }
        } else if y[k] != '"' && y[k] != '\\' {
            lemma_lex_string_shift(x, y, k + 1, acc.push(y[k]));
        }
    }
}

/// The tokenizer only looks ahead: lexing `x + y` from where `y` starts is
/// lexing `y`.
proof fn lemma_lex_shift(x: Seq<char>, y: Seq<char>, j: int)
    requires
        0 <= j <= y.len(),
    ensures
        lex_from(x + y, x.len() + j) == lex_from(y, j),
    decreases y.len() - j,
{
    let s = x + y;
    let d = x.len() as int;
    if j < y.len() {
        let c = y[j];
        assert(s[d + j] == c);
        if c == '{' || c == '}' || c == '[' || c == ']' || c == ',' || c == ':' || is_whitespace(
            c,
        ) {
            lemma_lex_shift(x, y, j + 1);
        } else if is_ascii_alphabetic(c) {
            let k = word_end(y, j);
            lemma_word_end(y, j);
            lemma_word_end_shift(x, y, j);
            assert(s.subrange(d + j, d + k) =~= y.subrange(j, k));
            lemma_lex_shift(x, y, k);
        } else if c == '"' {
            lemma_lex_string_shift(x, y, j + 1, Seq::empty());
            lemma_lex_string_advances(y, j + 1, Seq::empty());
            if let Ok((_, k)) = lex_string(y, j + 1, Seq::empty()) {
                lemma_lex_shift(x, y, k);
            }
        } else if is_ascii_digit(c) || c == '-' {
            let k = number_end(y, j);
            lemma_number_end(y, j);
            if c == '-' {
                lemma_number_run_shift(x, y, j + 1, false, false);
            } else {
                lemma_number_run_shift(x, y, j, false, false);
            }
            assert(number_end(s, d + j) == d + k);
            assert(s.subrange(d + j, d + k) =~= y.subrange(j, k));
            lemma_lex_shift(x, y, k);
        }
    }
}

/// Whitespace at `k..k + m` is skipped.
pub proof fn lemma_skip_whitespace(s: Seq<char>, k: int, m: int)
    requires
        0 <= k,
        0 <= m,
        k + m <= s.len(),
        forall|t: int| k <= t < k + m ==> is_whitespace(#[trigger] s[t]),
    ensures
        lex_from(s, k) == lex_from(s, k + m),
    decreases m,
{
    if m > 0 {
        assert(is_whitespace(s[k]));
        lemma_skip_whitespace(s, k + 1, m - 1);
    }
}

// ---------------------------------------------------------------------------
// The law
// ---------------------------------------------------------------------------

/// Whitespace between tokens changes nothing: where `a` and `b` both
/// tokenize and `w` is nonempty whitespace, `a`, `w`, `b` in a row tokenize
/// to the tokens of `a` followed by those of `b`. With `a` or `b` empty,
/// leading or trailing whitespace changes nothing.
pub proof fn lemma_whitespace_between_tokens(a: Seq<char>, w: Seq<char>, b: Seq<char>)
    requires
        w.len() > 0,
        forall|k: int| 0 <= k < w.len() ==> is_whitespace(#[trigger] w[k]),
    ensures
        spec_tokenize(a) is Ok && spec_tokenize(b) is Ok ==> spec_tokenize(a + w + b) == Ok::<
            Seq<SpecToken>,
            SpecTokenizeError,
        >(spec_tokenize(a)->Ok_0 + spec_tokenize(b)->Ok_0),
{
    let s = a + w + b;
    let n = a.len() as int;
    assert(s == (a + w) + b);
    assert forall|t: int| 0 <= t < a.len() implies s[t] == a[t] by {}
    assert(s[n] == w[0]);
    lemma_lex_prefix(s, a, 0);
    assert forall|t: int| n <= t < n + w.len() implies is_whitespace(#[trigger] s[t]) by {
        assert(s[t] == w[t - n]);
    }
    lemma_skip_whitespace(s, n, w.len() as int);
    lemma_lex_shift(a + w, b, 0);
}

} // verus!
