//! Laws that pin down what each stage is for, stated apart from the
//! stages' own definitions: blank text is an error, hex digits have their
//! base-16 values, a plain string is read and printed as written, every
//! number of the JSON grammar is read whole and an exponent needs digits,
//! inserting a key reads back what was written, the parser accepts exactly
//! the token sequences of values, and input cut short is an unexpected end.
use vstd::prelude::*;

use crate::parse::{parse_elements, parse_members, parse_value_at, spec_parse, SpecParseError};
use crate::round_trip::{
    element_tokens, lemma_at, lemma_element_tokens_start, lemma_member_tokens_start, lemma_split,
    lemma_value_tokens_start, member_tokens, value_tokens,
};
use crate::tokenize::{
    digits_end, hex_prefix_value, hex_scan, hex_value, is_ascii_digit, is_ascii_hexdigit,
    is_surrogate, is_whitespace, lex_from, lex_string, number_end, number_run_end, prepend_token,
    spec_tokenize, valid_number_text, SpecToken, SpecTokenizeError,
};
use crate::value::{escape, escape_char, entries_get, entries_insert, has_key, key_index, keys_distinct, SpecValue};
use crate::whitespace::lemma_skip_whitespace;
use crate::{spec_from_str, SpecJsonError};

verus! {

// ---------------------------------------------------------------------------
// from_str runs both stages
// ---------------------------------------------------------------------------

/// `from_str` gives a value only where the text tokenizes and the tokens
/// parse to that value; a tokenizer error is reported as such.
pub proof fn lemma_from_str_composes(s: Seq<char>)
    ensures
        spec_from_str(s) matches Ok(v) ==> {
            &&& spec_tokenize(s) is Ok
            &&& spec_parse(spec_tokenize(s)->Ok_0) == Ok::<SpecValue, SpecParseError>(v)
        },
        spec_tokenize(s) matches Err(e) ==> spec_from_str(s) == Err::<SpecValue, SpecJsonError>(
            SpecJsonError::Tokenizer(e),
        ),
        spec_tokenize(s) matches Ok(ts) ==> (spec_parse(ts) matches Err(e)
            ==> spec_from_str(s) == Err::<SpecValue, SpecJsonError>(SpecJsonError::Parser(e))),
{
}

/// Text with no tokens, the empty text or whitespace only, is no value: it
/// fails with an unexpected end of input.
pub proof fn lemma_blank_text_is_error(s: Seq<char>)
    requires
        forall|k: int| 0 <= k < s.len() ==> is_whitespace(#[trigger] s[k]),
    ensures
        spec_tokenize(s) == Ok::<Seq<SpecToken>, SpecTokenizeError>(Seq::empty()),
        spec_from_str(s) == Err::<SpecValue, SpecJsonError>(
            SpecJsonError::Parser(SpecParseError::UnexpectedEof),
        ),
{
    lemma_skip_whitespace(s, 0, s.len() as int);
    assert(lex_from(s, s.len() as int) == Ok::<Seq<SpecToken>, SpecTokenizeError>(Seq::empty()));
}

// ---------------------------------------------------------------------------
// Hex digits
// ---------------------------------------------------------------------------

/// The hex digits in lower case, in order of value.
pub open spec fn lower_hex_digits() -> Seq<char> {
    seq!['0', '1', '2', '3', '4', '5', '6', '7', '8', '9', 'a', 'b', 'c', 'd', 'e', 'f']
}

/// The hex digits in upper case, in order of value.
pub open spec fn upper_hex_digits() -> Seq<char> {
    seq!['0', '1', '2', '3', '4', '5', '6', '7', '8', '9', 'A', 'B', 'C', 'D', 'E', 'F']
}

/// Every hex digit has its base-16 value, the same in either case: the
/// digit at place `k` of either table is a hex digit worth `k`, and every
/// hex digit is in one of the tables.
pub proof fn lemma_hex_digit_values()
    ensures
        forall|k: int|
            0 <= k < 16 ==> {
                &&& is_ascii_hexdigit(#[trigger] lower_hex_digits()[k])
                &&& hex_value(lower_hex_digits()[k]) == k
                &&& is_ascii_hexdigit(upper_hex_digits()[k])
                &&& hex_value(upper_hex_digits()[k]) == k
            },
        forall|c: char|
            #![trigger is_ascii_hexdigit(c)]
            is_ascii_hexdigit(c) ==> lower_hex_digits().contains(c) || upper_hex_digits().contains(
                c,
            ),
{
    let lo = lower_hex_digits();
    let up = upper_hex_digits();
    assert(lo[0] == '0' && lo[1] == '1' && lo[2] == '2' && lo[3] == '3' && lo[4] == '4' && lo[5]
        == '5' && lo[6] == '6' && lo[7] == '7' && lo[8] == '8' && lo[9] == '9' && lo[10] == 'a'
        && lo[11] == 'b' && lo[12] == 'c' && lo[13] == 'd' && lo[14] == 'e' && lo[15] == 'f');
    assert(up[0] == '0' && up[1] == '1' && up[2] == '2' && up[3] == '3' && up[4] == '4' && up[5]
        == '5' && up[6] == '6' && up[7] == '7' && up[8] == '8' && up[9] == '9' && up[10] == 'A'
        && up[11] == 'B' && up[12] == 'C' && up[13] == 'D' && up[14] == 'E' && up[15] == 'F');
    assert forall|c: char| #![trigger is_ascii_hexdigit(c)] is_ascii_hexdigit(c) implies lo.contains(c)
        || up.contains(c) by {
        if '0' <= c && c <= '9' {
            let k = c as int - '0' as int;
            assert(lo[k] == c);
        } else if 'a' <= c && c <= 'f' {
            let k = c as int - 'a' as int + 10;
            assert(lo[k] == c);
        } else {
            let k = c as int - 'A' as int + 10;
            assert(up[k] == c);
        }
    }
}

/// A `\uXXXX` escape decodes to the character whose code point is `XXXX`
/// read in base 16, or is an invalid escape where that is a surrogate.
pub proof fn lemma_unicode_escape(s: Seq<char>, k: int, acc: Seq<char>)
    requires
        0 <= k,
        k + 6 <= s.len(),
        s[k] == '\\',
        s[k + 1] == 'u',
        is_ascii_hexdigit(s[k + 2]),
        is_ascii_hexdigit(s[k + 3]),
        is_ascii_hexdigit(s[k + 4]),
        is_ascii_hexdigit(s[k + 5]),
    ensures
        ({
            let n = 4096 * hex_value(s[k + 2]) + 256 * hex_value(s[k + 3]) + 16 * hex_value(
                s[k + 4],
            ) + hex_value(s[k + 5]);
            lex_string(s, k, acc) == if is_surrogate(n) {
                Err(SpecTokenizeError::InvalidEscapeSequence('u'))
            } else {
                lex_string(s, k + 6, acc.push(n as char))
            }
        }),
{
    let j = k + 2;
    assert(hex_scan(s, j, 4) is None);
    assert(hex_scan(s, j, 3) is None);
    assert(hex_scan(s, j, 2) is None);
    assert(hex_scan(s, j, 1) is None);
    assert(hex_scan(s, j, 0) is None);
    assert(hex_prefix_value(s, j, 0) == 0);
    assert(hex_prefix_value(s, j, 1) == hex_value(s[j]));
    assert(hex_prefix_value(s, j, 2) == 16 * hex_value(s[j]) + hex_value(s[j + 1]));
    assert(hex_prefix_value(s, j, 3) == 256 * hex_value(s[j]) + 16 * hex_value(s[j + 1])
        + hex_value(s[j + 2]));
    assert(hex_prefix_value(s, j, 4) == 4096 * hex_value(s[j]) + 256 * hex_value(s[j + 1]) + 16
        * hex_value(s[j + 2]) + hex_value(s[j + 3]));
}

// ---------------------------------------------------------------------------
// Plain strings
// ---------------------------------------------------------------------------

proof fn lemma_plain_run(s: Seq<char>, x: Seq<char>, i: int)
    requires
        0 <= i <= x.len(),
        x.len() + 2 <= s.len(),
        s[x.len() + 1int] == '"',
        forall|k: int| 0 <= k < x.len() ==> #[trigger] s[k + 1] == x[k],
        forall|k: int| 0 <= k < x.len() ==> #[trigger] x[k] != '"' && x[k] != '\\',
    ensures
        lex_string(s, i + 1, x.subrange(0, i)) == Ok::<(Seq<char>, int), SpecTokenizeError>(
            (x, x.len() + 2int),
        ),
    decreases x.len() - i,
{
    if i == x.len() {
        assert(x.subrange(0, i) =~= x);
    } else {
        assert(s[i + 1] == x[i]);
        assert(x.subrange(0, i).push(x[i]) =~= x.subrange(0, i + 1));
        lemma_plain_run(s, x, i + 1);
    }
}

/// A string literal with no quote or backslash inside is read as one string
/// token that holds exactly the characters between the quotes.
pub proof fn lemma_plain_string_lexes(x: Seq<char>, rest: Seq<char>)
    requires
        forall|k: int| 0 <= k < x.len() ==> #[trigger] x[k] != '"' && x[k] != '\\',
    ensures
        ({
            let s = seq!['"'] + x + seq!['"'] + rest;
            lex_from(s, 0) == prepend_token(SpecToken::String(x), lex_from(s, x.len() + 2int))
        }),
{
    let s = seq!['"'] + x + seq!['"'] + rest;
    assert forall|k: int| 0 <= k < x.len() implies #[trigger] s[k + 1] == x[k] by {}
    assert(s[x.len() + 1int] == '"');
    lemma_plain_run(s, x, 0);
    assert(x.subrange(0, 0) =~= Seq::<char>::empty());
    assert(s[0] == '"');
}

/// Printing a string escapes only what must be escaped: text with no quote,
/// no backslash and none of the control characters `\n \r \t \x08 \x0c`
/// is written as it is.
pub proof fn lemma_plain_text_unescaped(x: Seq<char>)
    requires
        forall|k: int|
            0 <= k < x.len() ==> {
                let c = #[trigger] x[k];
                c != '"' && c != '\\' && c != '\n' && c != '\r' && c != '\t' && c != '\x08' && c
                    != '\x0c'
            },
    ensures
        escape(x) == x,
    decreases x.len(),
{
    if x.len() > 0 {
        let c = x[0];
        assert(escape_char(c) == seq![c]);
        assert forall|k: int| 0 <= k < x.drop_first().len() implies {
            let d = #[trigger] x.drop_first()[k];
            d != '"' && d != '\\' && d != '\n' && d != '\r' && d != '\t' && d != '\x08' && d
                != '\x0c'
        } by {
            assert(x.drop_first()[k] == x[k + 1]);
        }
        lemma_plain_text_unescaped(x.drop_first());
        assert(seq![c] + x.drop_first() =~= x);
    }
}

// ---------------------------------------------------------------------------
// Numbers of the JSON grammar are read whole
// ---------------------------------------------------------------------------

pub open spec fn all_digits(d: Seq<char>) -> bool {
    forall|i: int| 0 <= i < d.len() ==> is_ascii_digit(#[trigger] d[i])
}

/// The text of a number `-?digits(.digits)?([eE][+-]?digits)?` from its
/// parts: an optional minus, the integer digits, the fraction digits if
/// any, and the exponent marker, sign and digits if any.
pub open spec fn json_number(
    neg: bool,
    ip: Seq<char>,
    frac: Option<Seq<char>>,
    exp: Option<(char, Option<char>, Seq<char>)>,
) -> Seq<char> {
    let p = if neg { seq!['-'] } else { Seq::<char>::empty() };
    let f = match frac {
        Some(d) => seq!['.'] + d,
        None => Seq::<char>::empty(),
    };
    let x = match exp {
        Some((m, sg, d)) => seq![m] + match sg {
            Some(c) => seq![c],
            None => Seq::<char>::empty(),
        } + d,
        None => Seq::<char>::empty(),
    };
    p + ip + f + x
}

/// The parts form a number of the grammar: digits are nonempty runs of
/// ASCII digits, the marker is `e` or `E` and the sign `+` or `-`.
pub open spec fn json_number_parts(
    ip: Seq<char>,
    frac: Option<Seq<char>>,
    exp: Option<(char, Option<char>, Seq<char>)>,
) -> bool {
    &&& ip.len() > 0 && all_digits(ip)
    &&& (frac matches Some(d) ==> d.len() > 0 && all_digits(d))
    &&& (exp matches Some((m, sg, d)) ==> {
        &&& m == 'e' || m == 'E'
        &&& (sg matches Some(c) ==> c == '+' || c == '-')
        &&& d.len() > 0 && all_digits(d)
    })
}

/// What may follow a number: nothing, whitespace, `,`, `]` or `}`.
pub open spec fn ends_number(rest: Seq<char>) -> bool {
    rest.len() == 0 || is_whitespace(rest[0]) || rest[0] == ',' || rest[0] == ']' || rest[0] == '}'
}

proof fn lemma_run_over_digits(s: Seq<char>, j: int, n: int, dec: bool, exp: bool)
    requires
        0 <= j,
        0 <= n,
        j + n <= s.len(),
        forall|k: int| j <= k < j + n ==> is_ascii_digit(#[trigger] s[k]),
    ensures
        number_run_end(s, j, dec, exp) == number_run_end(s, j + n, dec, exp),
    decreases n,
{
    if n > 0 {
        assert(is_ascii_digit(s[j]));
        lemma_run_over_digits(s, j + 1, n - 1, dec, exp);
    }
}

proof fn lemma_digits_end_over(t: Seq<char>, j: int, n: int)
    requires
        0 <= j,
        0 <= n,
        j + n <= t.len(),
        forall|k: int| j <= k < j + n ==> is_ascii_digit(#[trigger] t[k]),
    ensures
        digits_end(t, j) == digits_end(t, j + n),
    decreases n,
{
    if n > 0 {
        assert(is_ascii_digit(t[j]));
        lemma_digits_end_over(t, j + 1, n - 1);
    }
}

/// Where the parts of a number stand in its text: `b` where the integer
/// digits start, `a` where they end, `fe` where the fraction ends, `ds`
/// where the exponent digits start.
pub open spec fn number_positions(
    neg: bool,
    ip: Seq<char>,
    frac: Option<Seq<char>>,
    exp: Option<(char, Option<char>, Seq<char>)>,
) -> (int, int, int, int) {
    let b: int = if neg { 1 } else { 0 };
    let a = b + ip.len();
    let fe = match frac {
        Some(d) => a + 1 + d.len(),
        None => a,
    };
    let ds = match exp {
        Some((m, sg, d)) => fe + 1 + if sg is Some { 1int } else { 0int },
        None => fe,
    };
    (b, a, fe, ds)
}

/// The characters of a number's text, part by part.
pub open spec fn number_layout(
    t: Seq<char>,
    neg: bool,
    frac: Option<Seq<char>>,
    exp: Option<(char, Option<char>, Seq<char>)>,
    b: int,
    a: int,
    fe: int,
    ds: int,
) -> bool {
    &&& 0 <= b < a <= fe <= ds <= t.len()
    &&& (neg ==> t[0] == '-' && b == 1)
    &&& (!neg ==> b == 0)
    &&& (forall|k: int| b <= k < a ==> is_ascii_digit(#[trigger] t[k]))
    &&& (frac is None ==> fe == a)
    &&& (frac is Some ==> t[a] == '.' && a + 1 < fe && forall|k: int|
        a + 1 <= k < fe ==> is_ascii_digit(#[trigger] t[k]))
    &&& (exp is None ==> ds == fe && fe == t.len())
    &&& (exp matches Some((m, sg, d)) ==> {
        &&& t[fe] == m
        &&& (m == 'e' || m == 'E')
        &&& (sg matches Some(c) ==> ds == fe + 2 && t[fe + 1] == c && (c == '+' || c == '-'))
        &&& (sg is None ==> ds == fe + 1)
        &&& ds < t.len()
        &&& forall|k: int| ds <= k < t.len() ==> is_ascii_digit(#[trigger] t[k])
    })
}

proof fn lemma_number_layout(
    neg: bool,
    ip: Seq<char>,
    frac: Option<Seq<char>>,
    exp: Option<(char, Option<char>, Seq<char>)>,
)
    requires
        json_number_parts(ip, frac, exp),
    ensures
        ({
            let (b, a, fe, ds) = number_positions(neg, ip, frac, exp);
            number_layout(json_number(neg, ip, frac, exp), neg, frac, exp, b, a, fe, ds)
        }),
{
    let pp = if neg { seq!['-'] } else { Seq::<char>::empty() };
    let ff = match frac {
        Some(d) => seq!['.'] + d,
        None => Seq::<char>::empty(),
    };
    let sgs = match exp {
        Some((m, sg, d)) => match sg {
            Some(c) => seq![c],
            None => Seq::<char>::empty(),
        },
        None => Seq::<char>::empty(),
    };
    let xx = match exp {
        Some((m, sg, d)) => seq![m] + sgs + d,
        None => Seq::<char>::empty(),
    };
    let t = json_number(neg, ip, frac, exp);
    assert(t == pp + ip + ff + xx);
    let (b, a, fe, ds) = number_positions(neg, ip, frac, exp);
    let w = pp + ip;
    let w2 = w + ff;
    assert(neg ==> t[0] == '-') by {
        if neg {
            assert(w2[0] == w[0]);
        }
    }
    assert forall|k: int| b <= k < a implies is_ascii_digit(#[trigger] t[k]) by {
        assert(t[k] == w2[k]);
        assert(w2[k] == w[k]);
        assert(w[k] == ip[k - b]);
    }
    if let Some(d) = frac {
        assert(t[a] == '.') by {
            assert(t[a] == w2[a]);
            assert(w2[a] == ff[0]);
        }
        assert forall|k: int| a + 1 <= k < fe implies is_ascii_digit(#[trigger] t[k]) by {
            assert(t[k] == w2[k]);
            assert(w2[k] == ff[k - a]);
            assert(ff[k - a] == d[k - a - 1]);
        }
    }
    if let Some((m, sg, d)) = exp {
        assert(t[fe] == m) by {
            assert(t[fe] == xx[0]);
        }
        if let Some(c) = sg {
            assert(t[fe + 1] == c) by {
                assert(t[fe + 1] == xx[1]);
                assert((seq![m] + sgs + d)[1] == (seq![m] + sgs)[1]);
            }
        }
        assert forall|k: int| ds <= k < t.len() implies is_ascii_digit(#[trigger] t[k]) by {
            assert(t[k] == xx[k - fe]);
            assert((seq![m] + sgs + d)[k - fe] == d[k - ds]);
        }
    }
}

proof fn lemma_end_of_run(s: Seq<char>, e: int, dec: bool, exp: bool)
    requires
        0 <= e <= s.len(),
        e == s.len() || is_whitespace(s[e]) || s[e] == ',' || s[e] == ']' || s[e] == '}',
    ensures
        number_run_end(s, e, dec, exp) == e,
{
    if e < s.len() {
        let c = s[e];
        assert(!is_ascii_digit(c));
        assert(c != '.' && c != 'e' && c != 'E');
    }
}

/// The scan goes over the sign, the integer digits and the fraction of a
/// number, and goes on at the end of the fraction as after a `.` where
/// there was one.
proof fn lemma_mantissa_run(
    s: Seq<char>,
    t: Seq<char>,
    neg: bool,
    frac: Option<Seq<char>>,
    b: int,
    a: int,
    fe: int,
)
    requires
        0 <= b < a <= fe <= t.len() <= s.len(),
        forall|k: int| 0 <= k < t.len() ==> #[trigger] s[k] == t[k],
        neg ==> t[0] == '-' && b == 1,
        !neg ==> b == 0,
        forall|k: int| b <= k < a ==> is_ascii_digit(#[trigger] t[k]),
        frac is None ==> fe == a,
        frac is Some ==> a + 1 < fe && t[a] == '.' && forall|k: int|
            a + 1 <= k < fe ==> is_ascii_digit(#[trigger] t[k]),
    ensures
        number_end(s, 0) == number_run_end(s, fe, frac is Some, false),
{
    assert forall|k: int| b <= k < a implies is_ascii_digit(#[trigger] s[k]) by {
        assert(s[k] == t[k]);
    }
    let dec = frac is Some;
    if let Some(d) = frac {
        assert forall|k: int| a + 1 <= k < fe implies is_ascii_digit(#[trigger] s[k]) by {
            assert(s[k] == t[k]);
        }
        lemma_run_over_digits(s, a + 1, fe - a - 1, true, false);
        assert(s[a] == t[a]);
        assert(s[a] == '.');
        assert(number_run_end(s, a, false, false) == number_run_end(s, a + 1, true, false));
    }
    assert(number_run_end(s, a, false, false) == number_run_end(s, fe, dec, false));
    lemma_run_over_digits(s, b, a - b, false, false);
    assert(s[0] == t[0]);
    if neg {
        assert(s[0] == '-');
    } else {
        assert(is_ascii_digit(t[0]));
        assert(s[0] != '-');
    }
}

proof fn lemma_layout_scan(
    s: Seq<char>,
    t: Seq<char>,
    neg: bool,
    frac: Option<Seq<char>>,
    exp: Option<(char, Option<char>, Seq<char>)>,
    b: int,
    a: int,
    fe: int,
    ds: int,
)
    requires
        number_layout(t, neg, frac, exp, b, a, fe, ds),
        t.len() <= s.len(),
        forall|k: int| 0 <= k < t.len() ==> #[trigger] s[k] == t[k],
        t.len() == s.len() || is_whitespace(s[t.len() as int]) || s[t.len() as int] == ','
            || s[t.len() as int] == ']' || s[t.len() as int] == '}',
    ensures
        number_end(s, 0) == t.len(),
{
    let e = t.len() as int;
    assert forall|k: int| b <= k < a implies is_ascii_digit(#[trigger] s[k]) by {
        assert(s[k] == t[k]);
    }
    let dec = frac is Some;
    lemma_end_of_run(s, e, dec, true);
    lemma_end_of_run(s, e, dec, false);
    if let Some((m, sg, d)) = exp {
        assert forall|k: int| ds <= k < e implies is_ascii_digit(#[trigger] s[k]) by {
            assert(s[k] == t[k]);
        }
        lemma_run_over_digits(s, ds, e - ds, dec, true);
        assert(number_run_end(s, ds, dec, true) == e);
        assert(s[fe] == t[fe]);
        assert(s[fe] == 'e' || s[fe] == 'E');
        assert(fe + 1 < s.len());
        if let Some(c) = sg {
            assert(s[fe + 1] == t[fe + 1]);
            assert(s[fe + 1] == '+' || s[fe + 1] == '-');
            assert(number_run_end(s, fe, dec, false) == number_run_end(s, fe + 2, dec, true));
        } else {
            assert(s[ds] == t[ds]);
            assert(is_ascii_digit(t[ds]));
            assert(!(s[fe + 1] == '+' || s[fe + 1] == '-'));
            assert(number_run_end(s, fe, dec, false) == number_run_end(s, fe + 1, dec, true));
        }
        assert(number_run_end(s, fe, dec, false) == e);
    } else {
        assert(fe == e);
        assert(number_run_end(s, fe, dec, false) == e);
    }
    lemma_mantissa_run(s, t, neg, frac, b, a, fe);
}

proof fn lemma_layout_valid(
    t: Seq<char>,
    neg: bool,
    frac: Option<Seq<char>>,
    exp: Option<(char, Option<char>, Seq<char>)>,
    b: int,
    a: int,
    fe: int,
    ds: int,
)
    requires
        number_layout(t, neg, frac, exp, b, a, fe, ds),
    ensures
        valid_number_text(t),
{
    let e = t.len() as int;
    if neg {
        assert(t[0] == '-');
        assert(b == 1);
    } else {
        assert(is_ascii_digit(t[0]));
        assert(!(t[0] == '+' || t[0] == '-'));
    }
    let vb: int = if t.len() > 0 && (t[0] == '+' || t[0] == '-') { 1 } else { 0 };
    assert(vb == b);
    lemma_digits_end_over(t, b, a - b);
    if a < e {
        if frac is Some {
            assert(t[a] == '.');
        } else {
            assert(a == fe);
            assert(exp is Some);
            assert(t[a] == 'e' || t[a] == 'E');
        }
        assert(!is_ascii_digit(t[a]));
    }
    assert(digits_end(t, a) == a);
    assert(digits_end(t, b) == a);
    let vf = if a < t.len() && t[a] == '.' { digits_end(t, a + 1) } else { a };
    if frac is Some {
        lemma_digits_end_over(t, a + 1, fe - a - 1);
        if fe < e {
            assert(exp is Some);
            assert(t[fe] == 'e' || t[fe] == 'E');
            assert(!is_ascii_digit(t[fe]));
        }
        assert(digits_end(t, fe) == fe);
        assert(digits_end(t, a + 1) == fe);
        assert(vf == fe);
    } else {
        if a < e {
            assert(t[a] != '.');
        }
        assert(vf == fe);
    }
    assert(a > b);
    if let Some((m, sg, d)) = exp {
        assert(t[fe] == 'e' || t[fe] == 'E');
        let vk = if fe + 1 < t.len() && (t[fe + 1] == '+' || t[fe + 1] == '-') {
            fe + 2
        } else {
            fe + 1
        };
        if sg is None {
            assert(is_ascii_digit(t[ds]));
            assert(vk == ds);
        } else {
            assert(vk == ds);
        }
        lemma_digits_end_over(t, ds, e - ds);
        assert(digits_end(t, e) == e);
        assert(digits_end(t, ds) == e);
    } else {
        assert(fe == e);
    }
}

/// Every number of the JSON grammar, followed by the end of the text,
/// whitespace, `,`, `]` or `}`, is read as exactly one number token that
/// holds the whole text; `e` and `E` are alike, and a sign after either is
/// part of the number.
pub proof fn lemma_json_number_lexes(
    neg: bool,
    ip: Seq<char>,
    frac: Option<Seq<char>>,
    exp: Option<(char, Option<char>, Seq<char>)>,
    rest: Seq<char>,
)
    requires
        json_number_parts(ip, frac, exp),
        ends_number(rest),
    ensures
        ({
            let t = json_number(neg, ip, frac, exp);
            lex_from(t + rest, 0) == prepend_token(
                SpecToken::Number(t),
                lex_from(t + rest, t.len() as int),
            )
        }),
{
    let t = json_number(neg, ip, frac, exp);
    let s = t + rest;
    let (b, a, fe, ds) = number_positions(neg, ip, frac, exp);
    lemma_number_layout(neg, ip, frac, exp);
    if rest.len() > 0 {
        assert(s[t.len() as int] == rest[0]);
    }
    lemma_layout_scan(s, t, neg, frac, exp, b, a, fe, ds);
    lemma_layout_valid(t, neg, frac, exp, b, a, fe, ds);
    assert(s.subrange(0, t.len() as int) =~= t);
    assert(s[0] == t[0]);
    if !neg {
        assert(is_ascii_digit(t[0]));
    }
}

/// An exponent needs digits: a number of the grammar followed by `e` or
/// `E`, perhaps a sign, and then no exponent digit but the end of the text,
/// whitespace, `,`, `]` or `}`, is refused as an invalid number that holds
/// the whole text.
pub proof fn lemma_exponent_needs_digits(
    neg: bool,
    ip: Seq<char>,
    frac: Option<Seq<char>>,
    m: char,
    sg: Option<char>,
    rest: Seq<char>,
)
    requires
        json_number_parts(ip, frac, None),
        m == 'e' || m == 'E',
        sg matches Some(c) ==> c == '+' || c == '-',
        ends_number(rest),
    ensures
        ({
            let t = json_number(neg, ip, frac, Some((m, sg, Seq::<char>::empty())));
            lex_from(t + rest, 0) == Err::<Seq<SpecToken>, SpecTokenizeError>(
                SpecTokenizeError::InvalidNumberFormat(t),
            )
        }),
{
    let mant = json_number(neg, ip, frac, None);
    let (b, a, fe, ds) = number_positions(neg, ip, frac, None);
    lemma_number_layout(neg, ip, frac, None);
    let sgs = match sg {
        Some(c) => seq![c],
        None => Seq::<char>::empty(),
    };
    let t = json_number(neg, ip, frac, Some((m, sg, Seq::<char>::empty())));
    assert(t =~= mant + seq![m] + sgs);
    let s = t + rest;
    let e = t.len() as int;
    let dec = frac is Some;
    assert(fe == mant.len());
    assert forall|k: int| 0 <= k < mant.len() implies #[trigger] s[k] == mant[k] by {
        assert(s[k] == t[k]);
    }
    assert forall|k: int| 0 <= k < mant.len() implies #[trigger] t[k] == mant[k] by {}
    assert(s[fe] == m);
    assert(t[fe] == m);
    if rest.len() > 0 {
        assert(s[e] == rest[0]);
    }
    lemma_mantissa_run(s, mant, neg, frac, b, a, fe);
    lemma_end_of_run(s, e, dec, true);
    if let Some(c) = sg {
        assert(e == fe + 2);
        assert(s[fe + 1] == c);
        assert(t[fe + 1] == c);
        assert(number_run_end(s, fe, dec, false) == number_run_end(s, fe + 2, dec, true));
    } else {
        assert(e == fe + 1);
        assert(number_run_end(s, fe, dec, false) == number_run_end(s, fe + 1, dec, true));
    }
    assert(number_end(s, 0) == e);
    // the text is not a valid number: nothing follows the marker and sign
    let vb: int = if t.len() > 0 && (t[0] == '+' || t[0] == '-') { 1 } else { 0 };
    if neg {
        assert(t[0] == '-');
    } else {
        assert(is_ascii_digit(mant[0]));
    }
    assert(vb == b);
    assert forall|k: int| b <= k < a implies is_ascii_digit(#[trigger] t[k]) by {
        assert(t[k] == mant[k]);
    }
    lemma_digits_end_over(t, b, a - b);
    if dec {
        assert(t[a] == mant[a]);
        assert(t[a] == '.');
        assert forall|k: int| a + 1 <= k < fe implies is_ascii_digit(#[trigger] t[k]) by {
            assert(t[k] == mant[k]);
        }
        lemma_digits_end_over(t, a + 1, fe - a - 1);
        assert(digits_end(t, fe) == fe);
        assert(digits_end(t, a + 1) == fe);
    } else {
        assert(t[a] == m);
    }
    assert(digits_end(t, a) == a);
    assert(digits_end(t, b) == a);
    assert(digits_end(t, e) == e);
    assert(!valid_number_text(t));
    assert(s.subrange(0, e) =~= t);
    assert(s[0] == t[0]);
    if !neg {
        assert(is_ascii_digit(s[0]));
    }
}

// ---------------------------------------------------------------------------
// Objects: inserting a key
// ---------------------------------------------------------------------------

/// In entries with distinct keys, inserting `(k, v)` makes `k` read `v`,
/// leaves every other key reading as before, keeps the keys and their
/// order where `k` was there already, and otherwise adds `k` after the
/// entries that were there.
pub proof fn lemma_insert_then_get(
    e: Seq<(Seq<char>, SpecValue)>,
    k: Seq<char>,
    v: SpecValue,
    other: Seq<char>,
)
    requires
        keys_distinct(e),
    ensures
        entries_get(entries_insert(e, k, v), k) == Some(v),
        other != k ==> entries_get(entries_insert(e, k, v), other) == entries_get(e, other),
        has_key(e, k) ==> {
            &&& entries_insert(e, k, v).len() == e.len()
            &&& forall|i: int| 0 <= i < e.len() ==> #[trigger] entries_insert(e, k, v)[i].0 == e[i].0
        },
        !has_key(e, k) ==> {
            &&& entries_insert(e, k, v).len() == e.len() + 1
            &&& entries_insert(e, k, v).subrange(0, e.len() as int) == e
        },
{
    let r = entries_insert(e, k, v);
    crate::value::lemma_insert_keeps_keys_distinct(e, k, v);
    if has_key(e, k) {
        assert forall|i: int| 0 <= i < e.len() implies #[trigger] r[i].0 == e[i].0 by {}
    } else {
        assert(r.subrange(0, e.len() as int) =~= e);
    }
    let n = e.len() as int;
    let ik = if has_key(e, k) { key_index(e, k) } else { n };
    assert(r[ik] == (k, v));
    assert(has_key(r, k));
    let j = key_index(r, k);
    assert(r[j].0 == k);
    assert(j == ik);
    if other != k {
        if has_key(e, other) {
            let a = key_index(e, other);
            assert(r[a] == e[a]);
            assert(has_key(r, other));
            let b = key_index(r, other);
            assert(r[b].0 == other);
            assert(a == b);
        } else {
            assert forall|i: int| 0 <= i < r.len() implies #[trigger] r[i].0 != other by {
                if i < n {
                    assert(r[i].0 == e[i].0 || i == ik);
                }
            }
        }
    }
}

// ---------------------------------------------------------------------------
// The parser accepts exactly the token sequences of values
// ---------------------------------------------------------------------------

/// `v` with the repeated keys of each object merged as a map merges them:
/// the entries are inserted in order, so a repeated key keeps its first
/// place and takes its last value.
pub open spec fn merge_keys(v: SpecValue) -> SpecValue
    decreases v, 0int,
{
    match v {
        SpecValue::Array(items) => SpecValue::Array(merge_elements(items)),
        SpecValue::Object(es) => SpecValue::Object(merge_members(Seq::empty(), es)),
        _ => v,
    }
}

pub open spec fn merge_elements(items: Seq<SpecValue>) -> Seq<SpecValue>
    decreases items, items.len(),
{
    if items.len() == 0 {
        Seq::empty()
    } else {
        seq![merge_keys(items[0])] + merge_elements(items.drop_first())
    }
}

/// The entries `es` inserted one by one, first to last, after `acc`.
pub open spec fn merge_members(
    acc: Seq<(Seq<char>, SpecValue)>,
    es: Seq<(Seq<char>, SpecValue)>,
) -> Seq<(Seq<char>, SpecValue)>
    decreases es, es.len(),
{
    if es.len() == 0 {
        acc
    } else {
        merge_members(entries_insert(acc, es[0].0, merge_keys(es[0].1)), es.drop_first())
    }
}

/// No object in `v`, at any depth, repeats a key.
pub open spec fn keys_unique(v: SpecValue) -> bool
    decreases v, 0int,
{
    match v {
        SpecValue::Array(items) => keys_unique_elements(items),
        SpecValue::Object(es) => keys_distinct(es) && keys_unique_members(es),
        _ => true,
    }
}

pub open spec fn keys_unique_elements(items: Seq<SpecValue>) -> bool
    decreases items, items.len(),
{
    if items.len() == 0 {
        true
    } else {
        keys_unique(items[0]) && keys_unique_elements(items.drop_first())
    }
}

pub open spec fn keys_unique_members(es: Seq<(Seq<char>, SpecValue)>) -> bool
    decreases es, es.len(),
{
    if es.len() == 0 {
        true
    } else {
        keys_unique(es[0].1) && keys_unique_members(es.drop_first())
    }
}

proof fn lemma_merge_unique(v: SpecValue)
    requires
        keys_unique(v),
    ensures
        merge_keys(v) == v,
    decreases v, 0int,
{
    match v {
        SpecValue::Array(items) => {
            lemma_merge_unique_elements(items);
        },
        SpecValue::Object(es) => {
            lemma_merge_unique_members(Seq::empty(), es);
            assert(Seq::<(Seq<char>, SpecValue)>::empty() + es =~= es);
        },
        _ => {},
    }
}

proof fn lemma_merge_unique_elements(items: Seq<SpecValue>)
    requires
        keys_unique_elements(items),
    ensures
        merge_elements(items) == items,
    decreases items, items.len(),
{
    if items.len() > 0 {
        lemma_merge_unique(items[0]);
        lemma_merge_unique_elements(items.drop_first());
        assert(seq![items[0]] + items.drop_first() =~= items);
    }
}

proof fn lemma_merge_unique_members(
    acc: Seq<(Seq<char>, SpecValue)>,
    es: Seq<(Seq<char>, SpecValue)>,
)
    requires
        keys_distinct(acc + es),
        keys_unique_members(es),
    ensures
        merge_members(acc, es) == acc + es,
    decreases es, es.len(),
{
    if es.len() == 0 {
        assert(acc + es =~= acc);
    } else {
        let all = acc + es;
        lemma_merge_unique(es[0].1);
        assert(all[acc.len() as int] == es[0]);
        assert(!has_key(acc, es[0].0)) by {
            if has_key(acc, es[0].0) {
                let i = choose|i: int| 0 <= i < acc.len() && acc[i].0 == es[0].0;
                assert(all[i] == acc[i]);
            }
        }
        let acc2 = acc.push(es[0]);
        assert(entries_insert(acc, es[0].0, merge_keys(es[0].1)) == acc2);
        assert(acc2 + es.drop_first() =~= all);
        lemma_merge_unique_members(acc2, es.drop_first());
    }
}

proof fn lemma_parse_value_shape(t: Seq<SpecToken>, p: int) -> (r: SpecValue)
    requires
        parse_value_at(t, p) is Ok,
    ensures
        ({
            let (v, q) = parse_value_at(t, p)->Ok_0;
            &&& 0 <= p < q <= t.len()
            &&& t.subrange(p, q) == value_tokens(r)
            &&& merge_keys(r) == v
        }),
    decreases t.len() - p, 0int,
{
    let (v, q) = parse_value_at(t, p)->Ok_0;
    match t[p] {
        SpecToken::LeftBracket => {
            if p + 1 < t.len() && t[p + 1] is RightBracket {
                let r = SpecValue::Array(Seq::empty());
                assert(t.subrange(p, q) =~= value_tokens(r));
                assert(merge_elements(Seq::<SpecValue>::empty()) =~= Seq::<SpecValue>::empty());
                r
            } else {
                let items = lemma_parse_elements_shape(t, p + 1, Seq::empty());
                let r = SpecValue::Array(items);
                assert(t.subrange(p, q) =~= seq![t[p]] + t.subrange(p + 1, q));
                assert(t.subrange(p, q) =~= value_tokens(r));
                assert(Seq::<SpecValue>::empty() + merge_elements(items) =~= merge_elements(items));
                r
            }
        },
        SpecToken::LeftBrace => {
            if p + 1 < t.len() && t[p + 1] is RightBrace {
                let r = SpecValue::Object(Seq::empty());
                assert(t.subrange(p, q) =~= value_tokens(r));
                r
            } else {
                let es = lemma_parse_members_shape(t, p + 1, Seq::empty());
                let r = SpecValue::Object(es);
                assert(t.subrange(p, q) =~= seq![t[p]] + t.subrange(p + 1, q));
                assert(t.subrange(p, q) =~= value_tokens(r));
                r
            }
        },
        SpecToken::Null => {
            assert(t.subrange(p, q) =~= value_tokens(SpecValue::Null));
            SpecValue::Null
        },
        SpecToken::True => {
            assert(t.subrange(p, q) =~= value_tokens(SpecValue::Boolean(true)));
            SpecValue::Boolean(true)
        },
        SpecToken::False => {
            assert(t.subrange(p, q) =~= value_tokens(SpecValue::Boolean(false)));
            SpecValue::Boolean(false)
        },
        SpecToken::Number(x) => {
            assert(t.subrange(p, q) =~= value_tokens(SpecValue::Number(x)));
            SpecValue::Number(x)
        },
        SpecToken::String(x) => {
            assert(t.subrange(p, q) =~= value_tokens(SpecValue::String(x)));
            SpecValue::String(x)
        },
        _ => { SpecValue::Null },
    }
}

proof fn lemma_parse_elements_shape(t: Seq<SpecToken>, p: int, acc: Seq<SpecValue>) -> (items:
    Seq<SpecValue>)
    requires
        parse_elements(t, p, acc) is Ok,
    ensures
        ({
            let (v, q) = parse_elements(t, p, acc)->Ok_0;
            &&& 0 <= p < q <= t.len()
            &&& items.len() > 0
            &&& t.subrange(p, q) == element_tokens(items) + seq![SpecToken::RightBracket]
            &&& v == SpecValue::Array(acc + merge_elements(items))
        }),
    decreases t.len() - p, 1int,
{
    let (w, q) = parse_elements(t, p, acc)->Ok_0;
    let r0 = lemma_parse_value_shape(t, p);
    let (v, q1) = parse_value_at(t, p)->Ok_0;
    if t[q1] is Comma {
        let rest = lemma_parse_elements_shape(t, q1 + 1, acc.push(v));
        let items = seq![r0] + rest;
        assert(items.drop_first() =~= rest);
        assert(items[0] == r0);
        assert(t.subrange(p, q) =~= t.subrange(p, q1) + seq![SpecToken::Comma] + t.subrange(
            q1 + 1,
            q,
        ));
        assert(element_tokens(items) == value_tokens(r0) + seq![SpecToken::Comma] + element_tokens(
            rest,
        ));
        assert(t.subrange(p, q) =~= element_tokens(items) + seq![SpecToken::RightBracket]);
        assert(merge_elements(items) == seq![v] + merge_elements(rest));
        assert(acc + merge_elements(items) =~= acc.push(v) + merge_elements(rest));
        items
    } else {
        let items = seq![r0];
        assert(items.drop_first() =~= Seq::<SpecValue>::empty());
        assert(t.subrange(p, q) =~= t.subrange(p, q1) + seq![SpecToken::RightBracket]);
        assert(element_tokens(items) == value_tokens(r0));
        assert(merge_elements(items) == seq![v] + merge_elements(Seq::<SpecValue>::empty()));
        assert(acc + merge_elements(items) =~= acc.push(v));
        items
    }
}

proof fn lemma_parse_members_shape(
    t: Seq<SpecToken>,
    p: int,
    acc: Seq<(Seq<char>, SpecValue)>,
) -> (es: Seq<(Seq<char>, SpecValue)>)
    requires
        parse_members(t, p, acc) is Ok,
    ensures
        ({
            let (v, q) = parse_members(t, p, acc)->Ok_0;
            &&& 0 <= p < q <= t.len()
            &&& es.len() > 0
            &&& t.subrange(p, q) == member_tokens(es) + seq![SpecToken::RightBrace]
            &&& v == SpecValue::Object(merge_members(acc, es))
        }),
    decreases t.len() - p, 1int,
{
    let (w, q) = parse_members(t, p, acc)->Ok_0;
    let k = t[p]->String_0;
    let r0 = lemma_parse_value_shape(t, p + 2);
    let (v, q1) = parse_value_at(t, p + 2)->Ok_0;
    let acc2 = entries_insert(acc, k, v);
    let head = seq![SpecToken::String(k), SpecToken::Colon] + value_tokens(r0);
    assert(t.subrange(p, q1) =~= head);
    if t[q1] is Comma {
        let rest = lemma_parse_members_shape(t, q1 + 1, acc2);
        let es = seq![(k, r0)] + rest;
        assert(es.drop_first() =~= rest);
        assert(es[0] == (k, r0));
        assert(t.subrange(p, q) =~= t.subrange(p, q1) + seq![SpecToken::Comma] + t.subrange(
            q1 + 1,
            q,
        ));
        assert(member_tokens(es) == head + seq![SpecToken::Comma] + member_tokens(rest));
        assert(t.subrange(p, q) =~= member_tokens(es) + seq![SpecToken::RightBrace]);
        assert(merge_members(acc, es) == merge_members(acc2, rest));
        es
    } else {
        let es = seq![(k, r0)];
        assert(es.drop_first() =~= Seq::<(Seq<char>, SpecValue)>::empty());
        assert(t.subrange(p, q) =~= t.subrange(p, q1) + seq![SpecToken::RightBrace]);
        assert(member_tokens(es) == head);
        assert(merge_members(acc, es) == merge_members(
            acc2,
            Seq::<(Seq<char>, SpecValue)>::empty(),
        ));
        es
    }
}

proof fn lemma_tokens_parse_value(r: SpecValue, t: Seq<SpecToken>, p: int)
    requires
        0 <= p,
        p + value_tokens(r).len() <= t.len(),
        t.subrange(p, p + value_tokens(r).len()) == value_tokens(r),
    ensures
        parse_value_at(t, p) == Ok::<(SpecValue, int), SpecParseError>(
            (merge_keys(r), p + value_tokens(r).len()),
        ),
    decreases r, 0int,
{
    let vt = value_tokens(r);
    lemma_at(t, p, vt, 0);
    match r {
        SpecValue::Array(items) => {
            let el = element_tokens(items);
            assert(vt == seq![SpecToken::LeftBracket] + el + seq![SpecToken::RightBracket]);
            lemma_split(t, p, seq![SpecToken::LeftBracket] + el, seq![SpecToken::RightBracket]);
            lemma_split(t, p, seq![SpecToken::LeftBracket], el);
            lemma_at(t, p, vt, 1 + el.len() as int);
            if items.len() == 0 {
                assert(items =~= Seq::<SpecValue>::empty());
            } else {
                lemma_element_tokens_start(items);
                lemma_value_tokens_start(items[0]);
                lemma_at(t, p + 1, el, 0);
                lemma_tokens_parse_elements(items, t, p + 1, Seq::empty());
                assert(Seq::<SpecValue>::empty() + merge_elements(items) =~= merge_elements(items));
            }
        },
        SpecValue::Object(es) => {
            let mt = member_tokens(es);
            assert(vt == seq![SpecToken::LeftBrace] + mt + seq![SpecToken::RightBrace]);
            lemma_split(t, p, seq![SpecToken::LeftBrace] + mt, seq![SpecToken::RightBrace]);
            lemma_split(t, p, seq![SpecToken::LeftBrace], mt);
            lemma_at(t, p, vt, 1 + mt.len() as int);
            if es.len() == 0 {
                assert(es =~= Seq::<(Seq<char>, SpecValue)>::empty());
            } else {
                lemma_member_tokens_start(es);
                lemma_at(t, p + 1, mt, 0);
                lemma_tokens_parse_members(es, t, p + 1, Seq::empty());
            }
        },
        _ => {},
    }
}

proof fn lemma_tokens_parse_elements(
    items: Seq<SpecValue>,
    t: Seq<SpecToken>,
    p: int,
    acc: Seq<SpecValue>,
)
    requires
        items.len() > 0,
        0 <= p,
        p + element_tokens(items).len() < t.len(),
        t.subrange(p, p + element_tokens(items).len()) == element_tokens(items),
        t[p + element_tokens(items).len()] is RightBracket,
    ensures
        parse_elements(t, p, acc) == Ok::<(SpecValue, int), SpecParseError>(
            (SpecValue::Array(acc + merge_elements(items)), p + element_tokens(items).len() + 1),
        ),
    decreases items, items.len(),
{
    let v0 = items[0];
    let vt = value_tokens(v0);
    let q = p + vt.len();
    lemma_value_tokens_start(v0);
    let rest = items.drop_first();
    assert(merge_elements(items) == seq![merge_keys(v0)] + merge_elements(rest));
    if items.len() == 1 {
        assert(element_tokens(items) == vt);
        lemma_tokens_parse_value(v0, t, p);
        assert(rest =~= Seq::<SpecValue>::empty());
        assert(acc.push(merge_keys(v0)) =~= acc + merge_elements(items));
    } else {
        let rt = element_tokens(rest);
        assert(element_tokens(items) == vt + seq![SpecToken::Comma] + rt);
        lemma_split(t, p, vt + seq![SpecToken::Comma], rt);
        lemma_split(t, p, vt, seq![SpecToken::Comma]);
        lemma_at(t, q, seq![SpecToken::Comma], 0);
        lemma_tokens_parse_value(v0, t, p);
        lemma_element_tokens_start(rest);
        lemma_value_tokens_start(rest[0]);
        lemma_at(t, q + 1, rt, 0);
        lemma_tokens_parse_elements(rest, t, q + 1, acc.push(merge_keys(v0)));
        assert(acc.push(merge_keys(v0)) + merge_elements(rest) =~= acc + merge_elements(items));
    }
}

proof fn lemma_tokens_parse_members(
    es: Seq<(Seq<char>, SpecValue)>,
    t: Seq<SpecToken>,
    p: int,
    acc: Seq<(Seq<char>, SpecValue)>,
)
    requires
        es.len() > 0,
        0 <= p,
        p + member_tokens(es).len() < t.len(),
        t.subrange(p, p + member_tokens(es).len()) == member_tokens(es),
        t[p + member_tokens(es).len()] is RightBrace,
    ensures
        parse_members(t, p, acc) == Ok::<(SpecValue, int), SpecParseError>(
            (SpecValue::Object(merge_members(acc, es)), p + member_tokens(es).len() + 1),
        ),
    decreases es, es.len(),
{
    let k = es[0].0;
    let v = es[0].1;
    let ht = seq![SpecToken::String(k), SpecToken::Colon];
    let vt = value_tokens(v);
    let q = p + 2 + vt.len();
    let acc2 = entries_insert(acc, k, merge_keys(v));
    let rest = es.drop_first();
    assert(merge_members(acc, es) == merge_members(acc2, rest));
    lemma_member_tokens_start(es);
    lemma_at(t, p, member_tokens(es), 0);
    lemma_at(t, p, member_tokens(es), 1);
    lemma_value_tokens_start(v);
    if es.len() == 1 {
        assert(member_tokens(es) == ht + vt);
        lemma_split(t, p, ht, vt);
        lemma_tokens_parse_value(v, t, p + 2);
        assert(rest =~= Seq::<(Seq<char>, SpecValue)>::empty());
    } else {
        let rt = member_tokens(rest);
        assert(member_tokens(es) == ht + vt + seq![SpecToken::Comma] + rt);
        lemma_split(t, p, ht + vt + seq![SpecToken::Comma], rt);
        lemma_split(t, p, ht + vt, seq![SpecToken::Comma]);
        lemma_split(t, p, ht, vt);
        lemma_at(t, q, seq![SpecToken::Comma], 0);
        lemma_tokens_parse_value(v, t, p + 2);
        lemma_member_tokens_start(rest);
        lemma_at(t, q + 1, rt, 0);
        lemma_tokens_parse_members(rest, t, q + 1, acc2);
    }
}

/// The tokens of any value parse, to the value with the repeated keys of
/// its objects merged; to the value itself where no object repeats a key.
pub proof fn lemma_value_tokens_parse(r: SpecValue)
    ensures
        spec_parse(value_tokens(r)) == Ok::<SpecValue, SpecParseError>(merge_keys(r)),
        keys_unique(r) ==> spec_parse(value_tokens(r)) == Ok::<SpecValue, SpecParseError>(r),
{
    let t = value_tokens(r);
    assert(t.subrange(0, t.len() as int) =~= t);
    lemma_tokens_parse_value(r, t, 0);
    if keys_unique(r) {
        lemma_merge_unique(r);
    }
}

/// `t` from `p` to its end is a beginning of `w`, shorter than `w` where
/// `strict` holds.
pub open spec fn runs_out_in(t: Seq<SpecToken>, p: int, w: Seq<SpecToken>, strict: bool) -> bool {
    &&& 0 <= p <= t.len()
    &&& (if strict { t.len() < p + w.len() } else { t.len() <= p + w.len() })
    &&& forall|k: int| p <= k < t.len() ==> #[trigger] t[k] == w[k - p]
}

proof fn lemma_whole_within(t: Seq<SpecToken>, p: int, w: Seq<SpecToken>, a: Seq<SpecToken>, q: int)
    requires
        0 <= p <= q,
        q + a.len() <= t.len(),
        forall|k: int| p <= k < t.len() ==> #[trigger] t[k] == w[k - p],
        q - p + a.len() <= w.len(),
        forall|i: int| 0 <= i < a.len() ==> #[trigger] a[i] == w[q - p + i],
    ensures
        t.subrange(q, q + a.len()) == a,
{
    assert forall|i: int| 0 <= i < a.len() implies #[trigger] t.subrange(q, q + a.len())[i]
        == a[i] by {
        assert(t[q + i] == w[q + i - p]);
    }
    assert(t.subrange(q, q + a.len()) =~= a);
}

proof fn lemma_prefix_value(r: SpecValue, t: Seq<SpecToken>, p: int)
    requires
        runs_out_in(t, p, value_tokens(r), true),
    ensures
        parse_value_at(t, p) == Err::<(SpecValue, int), SpecParseError>(
            SpecParseError::UnexpectedEof,
        ),
    decreases r, 0int,
{
    let vt = value_tokens(r);
    if p < t.len() {
        assert(t[p] == vt[0]);
        match r {
            SpecValue::Array(items) => {
                let el = element_tokens(items);
                let w = seq![SpecToken::LeftBracket] + el + seq![SpecToken::RightBracket];
                assert(vt == w);
                assert(t[p] == SpecToken::LeftBracket);
                if items.len() == 0 {
                    assert(el.len() == 0);
                    assert(t.len() == p + 1);
                    assert(parse_value_at(t, p + 1) is Err);
                    assert(parse_elements(t, p + 1, Seq::empty()) is Err);
                } else {
                    lemma_element_tokens_start(items);
                    lemma_value_tokens_start(items[0]);
                    if p + 1 < t.len() {
                        assert(t[p + 1] == w[1]);
                        assert(w[1] == el[0]);
                    }
                    assert forall|k: int| p + 1 <= k < t.len() implies #[trigger] t[k] == el[k - (
                    p + 1)] by {
                        assert(t[k] == w[k - p]);
                    }
                    lemma_prefix_elements(items, t, p + 1, Seq::empty());
                }
            },
            SpecValue::Object(es) => {
                let mt = member_tokens(es);
                let w = seq![SpecToken::LeftBrace] + mt + seq![SpecToken::RightBrace];
                assert(vt == w);
                assert(t[p] == SpecToken::LeftBrace);
                if es.len() == 0 {
                    assert(mt.len() == 0);
                    assert(t.len() == p + 1);
                } else {
                    lemma_member_tokens_start(es);
                    if p + 1 < t.len() {
                        assert(t[p + 1] == w[1]);
                        assert(w[1] == mt[0]);
                    }
                    assert forall|k: int| p + 1 <= k < t.len() implies #[trigger] t[k] == mt[k - (
                    p + 1)] by {
                        assert(t[k] == w[k - p]);
                    }
                    lemma_prefix_members(es, t, p + 1, Seq::empty());
                }
            },
            _ => {},
        }
    }
}

proof fn lemma_prefix_elements(
    items: Seq<SpecValue>,
    t: Seq<SpecToken>,
    p: int,
    acc: Seq<SpecValue>,
)
    requires
        items.len() > 0,
        runs_out_in(t, p, element_tokens(items), false),
    ensures
        parse_elements(t, p, acc) == Err::<(SpecValue, int), SpecParseError>(
            SpecParseError::UnexpectedEof,
        ),
    decreases items, items.len(),
{
    let el = element_tokens(items);
    let v0 = items[0];
    let vt = value_tokens(v0);
    let rest = items.drop_first();
    let q = p + vt.len();
    if items.len() > 1 {
        assert(el == vt + seq![SpecToken::Comma] + element_tokens(rest));
    } else {
        assert(el == vt);
    }
    if t.len() < q {
        assert forall|k: int| p <= k < t.len() implies #[trigger] t[k] == vt[k - p] by {
            assert(t[k] == el[k - p]);
        }
        lemma_prefix_value(v0, t, p);
    } else {
        lemma_whole_within(t, p, el, vt, p);
        lemma_tokens_parse_value(v0, t, p);
        if q < t.len() {
            assert(items.len() > 1);
            let rt = element_tokens(rest);
            assert(t[q] == el[q - p]);
            assert(t[q] == SpecToken::Comma);
            lemma_element_tokens_start(rest);
            lemma_value_tokens_start(rest[0]);
            if q + 1 < t.len() {
                assert(t[q + 1] == el[q + 1 - p]);
                assert(t[q + 1] == rt[0]);
            }
            assert forall|k: int| q + 1 <= k < t.len() implies #[trigger] t[k] == rt[k - (q
                + 1)] by {
                assert(t[k] == el[k - p]);
            }
            lemma_prefix_elements(rest, t, q + 1, acc.push(merge_keys(v0)));
        }
    }
}

proof fn lemma_prefix_members(
    es: Seq<(Seq<char>, SpecValue)>,
    t: Seq<SpecToken>,
    p: int,
    acc: Seq<(Seq<char>, SpecValue)>,
)
    requires
        es.len() > 0,
        runs_out_in(t, p, member_tokens(es), false),
    ensures
        parse_members(t, p, acc) == Err::<(SpecValue, int), SpecParseError>(
            SpecParseError::UnexpectedEof,
        ),
    decreases es, es.len(),
{
    let mt = member_tokens(es);
    let k0 = es[0].0;
    let v = es[0].1;
    let ht = seq![SpecToken::String(k0), SpecToken::Colon];
    let vt = value_tokens(v);
    let rest = es.drop_first();
    let q = p + 2 + vt.len();
    if es.len() > 1 {
        assert(mt == ht + vt + seq![SpecToken::Comma] + member_tokens(rest));
    } else {
        assert(mt == ht + vt);
    }
    lemma_member_tokens_start(es);
    if p + 2 <= t.len() {
        assert(t[p] == mt[0]);
        assert(t[p + 1] == mt[1]);
        if t.len() < q {
            assert forall|k: int| p + 2 <= k < t.len() implies #[trigger] t[k] == vt[k - (p
                + 2)] by {
                assert(t[k] == mt[k - p]);
            }
            lemma_prefix_value(v, t, p + 2);
        } else {
            lemma_whole_within(t, p, mt, vt, p + 2);
            lemma_tokens_parse_value(v, t, p + 2);
            if q < t.len() {
                assert(es.len() > 1);
                let rt = member_tokens(rest);
                assert(t[q] == mt[q - p]);
                assert(t[q] == SpecToken::Comma);
                lemma_member_tokens_start(rest);
                if q + 1 < t.len() {
                    assert(t[q + 1] == mt[q + 1 - p]);
                    assert(t[q + 1] == rt[0]);
                }
                assert forall|k: int| q + 1 <= k < t.len() implies #[trigger] t[k] == rt[k - (q
                    + 1)] by {
                    assert(t[k] == mt[k - p]);
                }
                lemma_prefix_members(rest, t, q + 1, entries_insert(acc, k0, merge_keys(v)));
            }
        }
    } else if p < t.len() {
        assert(t[p] == mt[0]);
    }
}

/// Input cut short is an unexpected end: every proper beginning of the
/// tokens of a value is refused with `UnexpectedEof`.
pub proof fn lemma_truncated_tokens(r: SpecValue, n: int)
    requires
        0 <= n < value_tokens(r).len(),
    ensures
        spec_parse(value_tokens(r).subrange(0, n)) == Err::<SpecValue, SpecParseError>(
            SpecParseError::UnexpectedEof,
        ),
{
    let t = value_tokens(r).subrange(0, n);
    lemma_prefix_value(r, t, 0);
}

/// The parser accepts exactly the token sequences of values: tokens that
/// parse are the tokens of some value `r`, every `[` closed by `]` and
/// every `{` by `}`, and the result is `r` with the repeated keys of its
/// objects merged; where no object repeats a key, the result is `r` itself,
/// so the tokens are exactly the tokens of the parsed value.
pub proof fn lemma_parse_exactly(t: Seq<SpecToken>) -> (r: SpecValue)
    requires
        spec_parse(t) is Ok,
    ensures
        t == value_tokens(r),
        spec_parse(t) == Ok::<SpecValue, SpecParseError>(merge_keys(r)),
        keys_unique(r) ==> spec_parse(t) == Ok::<SpecValue, SpecParseError>(r),
{
    let r = lemma_parse_value_shape(t, 0);
    if keys_unique(r) {
        lemma_merge_unique(r);
    }
    assert(t.subrange(0, t.len() as int) =~= t);
    r
}

} // verus!
