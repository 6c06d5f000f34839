//! Printing a value and reading the text back gives the same value.
//!
//! `value_tokens` is the token sequence that the text of a value splits into.
//! The lexing lemmas show that the tokenizer turns `serialize(v)` into
//! `value_tokens(v)`; the parsing lemmas show that the parser turns
//! `value_tokens(v)` back into `v`.
use vstd::prelude::*;

use crate::parse::{parse_elements, parse_members, parse_value_at, spec_parse, SpecParseError};
use crate::tokenize::{
    escape_decode, is_ascii_alphabetic, is_ascii_digit, is_whitespace, keyword,
    lemma_lex_string_advances,
    lemma_number_end, lemma_number_run_end, lemma_word_end, lex_from, lex_string, number_end,
    number_run_end, prepend_token, spec_tokenize, then_tokens, valid_number_text, word_end,
    SpecToken, SpecTokenizeError,
};
use crate::{spec_from_str, SpecJsonError};
use crate::value::{
    entries_insert, escape, escape_char, has_key, keys_distinct, lemma_insert_keeps_keys_distinct,
    quote, serialize,
    serialize_elements, serialize_members, SpecValue,
};

verus! {

// ---------------------------------------------------------------------------
// Well-formed values and their tokens
// ---------------------------------------------------------------------------

/// Text that the tokenizer reads back as exactly one number token.
pub open spec fn is_number_lexeme(t: Seq<char>) -> bool {
    &&& t.len() > 0
    &&& (is_ascii_digit(t[0]) || t[0] == '-')
    &&& number_end(t, 0) == t.len()
    &&& valid_number_text(t)
}

/// Every number is a number lexeme and no object repeats a key.
pub open spec fn well_formed(v: SpecValue) -> bool
    decreases v, 0int,
{
    match v {
        SpecValue::Number(t) => is_number_lexeme(t),
        SpecValue::Array(items) => well_formed_elements(items),
        SpecValue::Object(es) => keys_distinct(es) && well_formed_members(es),
        _ => true,
    }
}

pub open spec fn well_formed_elements(items: Seq<SpecValue>) -> bool
    decreases items, items.len(),
{
    if items.len() == 0 {
        true
    } else {
        well_formed(items[0]) && well_formed_elements(items.drop_first())
    }
}

pub open spec fn well_formed_members(es: Seq<(Seq<char>, SpecValue)>) -> bool
    decreases es, es.len(),
{
    if es.len() == 0 {
        true
    } else {
        well_formed(es[0].1) && well_formed_members(es.drop_first())
    }
}

/// Every number of `v` is a number lexeme: text that the tokenizer reads
/// back as exactly one number token.
pub open spec fn valid_numbers(v: SpecValue) -> bool
    decreases v, 0int,
{
    match v {
        SpecValue::Number(t) => is_number_lexeme(t),
        SpecValue::Array(items) => valid_numbers_elements(items),
        SpecValue::Object(es) => valid_numbers_members(es),
        _ => true,
    }
}

pub open spec fn valid_numbers_elements(items: Seq<SpecValue>) -> bool
    decreases items, items.len(),
{
    if items.len() == 0 {
        true
    } else {
        valid_numbers(items[0]) && valid_numbers_elements(items.drop_first())
    }
}

pub open spec fn valid_numbers_members(es: Seq<(Seq<char>, SpecValue)>) -> bool
    decreases es, es.len(),
{
    if es.len() == 0 {
        true
    } else {
        valid_numbers(es[0].1) && valid_numbers_members(es.drop_first())
    }
}

pub proof fn lemma_valid_numbers_elements_all(items: Seq<SpecValue>)
    ensures
        valid_numbers_elements(items) <==> forall|i: int|
            0 <= i < items.len() ==> valid_numbers(#[trigger] items[i]),
    decreases items.len(),
{
    if items.len() > 0 {
        lemma_valid_numbers_elements_all(items.drop_first());
        if forall|i: int| 0 <= i < items.len() ==> valid_numbers(#[trigger] items[i]) {
            assert forall|i: int| 0 <= i < items.drop_first().len() implies valid_numbers(
                #[trigger] items.drop_first()[i],
            ) by {
                assert(items.drop_first()[i] == items[i + 1]);
            }
        }
        if valid_numbers_elements(items) {
            assert forall|i: int| 0 <= i < items.len() implies valid_numbers(#[trigger] items[i]) by {
                if i > 0 {
                    assert(items[i] == items.drop_first()[i - 1]);
                }
            }
        }
    }
}

pub proof fn lemma_valid_numbers_members_all(es: Seq<(Seq<char>, SpecValue)>)
    ensures
        valid_numbers_members(es) <==> forall|i: int|
            0 <= i < es.len() ==> valid_numbers(#[trigger] es[i].1),
    decreases es.len(),
{
    if es.len() > 0 {
        lemma_valid_numbers_members_all(es.drop_first());
        if forall|i: int| 0 <= i < es.len() ==> valid_numbers(#[trigger] es[i].1) {
            assert forall|i: int| 0 <= i < es.drop_first().len() implies valid_numbers(
                #[trigger] es.drop_first()[i].1,
            ) by {
                assert(es.drop_first()[i] == es[i + 1]);
            }
        }
        if valid_numbers_members(es) {
            assert forall|i: int| 0 <= i < es.len() implies valid_numbers(#[trigger] es[i].1) by {
                if i > 0 {
                    assert(es[i] == es.drop_first()[i - 1]);
                }
            }
        }
    }
}

/// The tokens that the text of `v` consists of.
pub open spec fn value_tokens(v: SpecValue) -> Seq<SpecToken>
    decreases v, 0int,
{
    match v {
        SpecValue::Null => seq![SpecToken::Null],
        SpecValue::Boolean(b) => if b {
            seq![SpecToken::True]
        } else {
            seq![SpecToken::False]
        },
        SpecValue::Number(t) => seq![SpecToken::Number(t)],
        SpecValue::String(x) => seq![SpecToken::String(x)],
        SpecValue::Array(items) => seq![SpecToken::LeftBracket] + element_tokens(items) + seq![
            SpecToken::RightBracket,
        ],
        SpecValue::Object(es) => seq![SpecToken::LeftBrace] + member_tokens(es) + seq![
            SpecToken::RightBrace,
        ],
    }
}

pub open spec fn element_tokens(items: Seq<SpecValue>) -> Seq<SpecToken>
    decreases items, items.len(),
{
    if items.len() == 0 {
        Seq::empty()
    } else if items.len() == 1 {
        value_tokens(items[0])
    } else {
        value_tokens(items[0]) + seq![SpecToken::Comma] + element_tokens(items.drop_first())
    }
}

pub open spec fn member_tokens(es: Seq<(Seq<char>, SpecValue)>) -> Seq<SpecToken>
    decreases es, es.len(),
{
    if es.len() == 0 {
        Seq::empty()
    } else if es.len() == 1 {
        seq![SpecToken::String(es[0].0), SpecToken::Colon] + value_tokens(es[0].1)
    } else {
        seq![SpecToken::String(es[0].0), SpecToken::Colon] + value_tokens(es[0].1) + seq![
            SpecToken::Comma,
        ] + member_tokens(es.drop_first())
    }
}

// ---------------------------------------------------------------------------
// Sequence helpers
// ---------------------------------------------------------------------------

pub proof fn lemma_split<A>(s: Seq<A>, p: int, a: Seq<A>, b: Seq<A>)
    requires
        0 <= p,
        p + a.len() + b.len() <= s.len(),
        s.subrange(p, p + a.len() + b.len()) == a + b,
    ensures
        s.subrange(p, p + a.len()) == a,
        s.subrange(p + a.len(), p + a.len() + b.len()) == b,
{
    let w = s.subrange(p, p + a.len() + b.len());
    assert forall|k: int| 0 <= k < a.len() implies s[p + k] == a[k] by {
        assert(w[k] == s[p + k]);
        assert((a + b)[k] == a[k]);
    }
    assert forall|k: int| 0 <= k < b.len() implies s[p + a.len() + k] == b[k] by {
        assert(w[a.len() + k] == s[p + a.len() + k]);
        assert((a + b)[a.len() + k] == b[k]);
    }
    assert(s.subrange(p, p + a.len()) =~= a);
    assert(s.subrange(p + a.len(), p + a.len() + b.len()) =~= b);
}

pub proof fn lemma_at<A>(s: Seq<A>, p: int, a: Seq<A>, k: int)
    requires
        0 <= p,
        p + a.len() <= s.len(),
        s.subrange(p, p + a.len()) == a,
        0 <= k < a.len(),
    ensures
        s[p + k] == a[k],
{
    assert(s.subrange(p, p + a.len())[k] == s[p + k]);
}

proof fn lemma_then_empty(r: Result<Seq<SpecToken>, SpecTokenizeError>)
    ensures
        then_tokens(Seq::empty(), r) == r,
{
    if let Ok(ts) = r {
        assert(Seq::<SpecToken>::empty() + ts =~= ts);
    }
}

proof fn lemma_then_concat(
    a: Seq<SpecToken>,
    b: Seq<SpecToken>,
    r: Result<Seq<SpecToken>, SpecTokenizeError>,
)
    ensures
        then_tokens(a + b, r) == then_tokens(a, then_tokens(b, r)),
{
    if let Ok(ts) = r {
        assert(a + b + ts =~= a + (b + ts));
    }
}

// ---------------------------------------------------------------------------
// Lexing the text of a value
// ---------------------------------------------------------------------------

/// Position `k` of `s` is the end of the text or a character that closes a
/// word or a number: `,`, `]` or `}`.
pub open spec fn ends_token(s: Seq<char>, k: int) -> bool {
    k == s.len() || (0 <= k < s.len() && (s[k] == ',' || s[k] == ']' || s[k] == '}'))
}

proof fn lemma_word_end_exact(s: Seq<char>, p: int, w: Seq<char>, j: int)
    requires
        0 <= p,
        p + w.len() <= s.len(),
        s.subrange(p, p + w.len()) == w,
        forall|k: int| 0 <= k < w.len() ==> is_ascii_alphabetic(#[trigger] w[k]),
        ends_token(s, p + w.len()),
        0 <= j <= w.len(),
    ensures
        word_end(s, p + j) == p + w.len(),
    decreases w.len() - j,
{
    if j < w.len() {
        lemma_at(s, p, w, j);
        lemma_word_end_exact(s, p, w, j + 1);
    }
}

proof fn lemma_lex_keyword(s: Seq<char>, p: int, w: Seq<char>, tok: SpecToken)
    requires
        0 <= p,
        p + w.len() <= s.len(),
        s.subrange(p, p + w.len()) == w,
        w.len() > 0,
        forall|k: int| 0 <= k < w.len() ==> is_ascii_alphabetic(#[trigger] w[k]),
        keyword(w) == Some(tok),
        ends_token(s, p + w.len()),
    ensures
        lex_from(s, p) == prepend_token(tok, lex_from(s, p + w.len())),
{
    lemma_at(s, p, w, 0);
    assert(is_ascii_alphabetic(w[0]));
    lemma_word_end_exact(s, p, w, 0);
}

proof fn lemma_number_shift(s: Seq<char>, p: int, t: Seq<char>, j: int, dec: bool, exp: bool)
    requires
        0 <= p,
        p + t.len() <= s.len(),
        s.subrange(p, p + t.len()) == t,
        ends_token(s, p + t.len()),
        0 <= j <= t.len(),
    ensures
        number_run_end(s, p + j, dec, exp) == p + number_run_end(t, j, dec, exp),
    decreases t.len() - j,
{
    if j < t.len() {
        lemma_at(s, p, t, j);
        if j + 1 < t.len() {
            lemma_at(s, p, t, j + 1);
        }
        let c = t[j];
        if is_ascii_digit(c) {
            lemma_number_shift(s, p, t, j + 1, dec, exp);
        } else if c == '.' && !dec && !exp {
            lemma_number_shift(s, p, t, j + 1, true, exp);
        } else if (c == 'e' || c == 'E') && !exp {
            if j + 1 < t.len() && (t[j + 1] == '+' || t[j + 1] == '-') {
                lemma_number_shift(s, p, t, j + 2, dec, true);
            } else {
                lemma_number_shift(s, p, t, j + 1, dec, true);
            }
        }
    }
}

proof fn lemma_lex_number(s: Seq<char>, p: int, t: Seq<char>)
    requires
        0 <= p,
        p + t.len() <= s.len(),
        s.subrange(p, p + t.len()) == t,
        is_number_lexeme(t),
        ends_token(s, p + t.len()),
    ensures
        lex_from(s, p) == prepend_token(SpecToken::Number(t), lex_from(s, p + t.len())),
{
    lemma_at(s, p, t, 0);
    if t[0] == '-' {
        lemma_number_shift(s, p, t, 1, false, false);
    } else {
        lemma_number_shift(s, p, t, 0, false, false);
    }
    assert(number_end(s, p) == p + t.len());
}

/// Decoding the escaped text of `x`, up to the closing quote, gives `x` back.
pub proof fn lemma_lex_escaped(x: Seq<char>, s: Seq<char>, q: int, acc: Seq<char>)
    requires
        0 <= q,
        q + escape(x).len() < s.len(),
        s.subrange(q, q + escape(x).len()) == escape(x),
        s[q + escape(x).len()] == '"',
    ensures
        lex_string(s, q, acc) == Ok::<(Seq<char>, int), SpecTokenizeError>(
            (acc + x, q + escape(x).len() + 1),
        ),
    decreases x.len(),
{
    if x.len() == 0 {
        assert(acc + x =~= acc);
    } else {
        let c = x[0];
        let rest = x.drop_first();
        let e = escape_char(c);
        assert(escape(x) == e + escape(rest));
        lemma_split(s, q, e, escape(rest));
        lemma_lex_escaped(rest, s, q + e.len(), acc.push(c));
        assert(acc.push(c) + rest =~= acc + x);
        lemma_at(s, q, e, 0);
        if e.len() == 2 {
            lemma_at(s, q, e, 1);
            assert(escape_decode(e[1]) == Some(c));
        }
    }
}

proof fn lemma_lex_string_value(s: Seq<char>, p: int, x: Seq<char>)
    requires
        0 <= p,
        p + quote(x).len() <= s.len(),
        s.subrange(p, p + quote(x).len()) == quote(x),
    ensures
        lex_from(s, p) == prepend_token(SpecToken::String(x), lex_from(s, p + quote(x).len())),
{
    let n = escape(x).len();
    assert(quote(x) == seq!['"'] + escape(x) + seq!['"']);
    lemma_split(s, p, seq!['"'] + escape(x), seq!['"']);
    lemma_split(s, p, seq!['"'], escape(x));
    lemma_at(s, p, quote(x), 0);
    lemma_at(s, p, quote(x), (n + 1) as int);
    lemma_lex_escaped(x, s, p + 1, Seq::empty());
    assert(Seq::<char>::empty() + x =~= x);
}

proof fn lemma_then_pair(a: SpecToken, b: SpecToken, r: Result<Seq<SpecToken>, SpecTokenizeError>)
    ensures
        then_tokens(seq![a, b], r) == prepend_token(a, prepend_token(b, r)),
{
    assert(seq![a, b] =~= seq![a] + seq![b]);
    lemma_then_concat(seq![a], seq![b], r);
}

proof fn lemma_lex_value(v: SpecValue, s: Seq<char>, p: int)
    requires
        well_formed(v),
        0 <= p,
        p + serialize(v).len() <= s.len(),
        s.subrange(p, p + serialize(v).len()) == serialize(v),
        ends_token(s, p + serialize(v).len()),
    ensures
        lex_from(s, p) == then_tokens(value_tokens(v), lex_from(s, p + serialize(v).len())),
    decreases v, 0int,
{
    let n = serialize(v).len();
    let after = lex_from(s, p + n);
    match v {
        SpecValue::Null => {
            let w = seq!['n', 'u', 'l', 'l'];
            assert(w[0] == 'n' && w[1] == 'u' && w[2] == 'l' && w[3] == 'l');
            lemma_lex_keyword(s, p, w, SpecToken::Null);
        },
        SpecValue::Boolean(b) => {
            if b {
                let w = seq!['t', 'r', 'u', 'e'];
                assert(w[0] == 't' && w[1] == 'r' && w[2] == 'u' && w[3] == 'e');
                lemma_lex_keyword(s, p, w, SpecToken::True);
            } else {
                let w = seq!['f', 'a', 'l', 's', 'e'];
                assert(w[0] == 'f' && w[1] == 'a' && w[2] == 'l' && w[3] == 's' && w[4] == 'e');
                assert(w != seq!['t', 'r', 'u', 'e']);
                lemma_lex_keyword(s, p, w, SpecToken::False);
            }
        },
        SpecValue::Number(t) => {
            lemma_lex_number(s, p, t);
        },
        SpecValue::String(x) => {
            lemma_lex_string_value(s, p, x);
        },
        SpecValue::Array(items) => {
            let inner = serialize_elements(items);
            let q = p + 1 + inner.len();
            assert(serialize(v) == seq!['['] + inner + seq![']']);
            lemma_split(s, p, seq!['['] + inner, seq![']']);
            lemma_split(s, p, seq!['['], inner);
            lemma_at(s, p, serialize(v), 0);
            lemma_at(s, p, serialize(v), q - p);
            lemma_lex_elements(items, s, p + 1);
            let el = element_tokens(items);
            lemma_then_concat(seq![SpecToken::LeftBracket] + el, seq![SpecToken::RightBracket], after);
            lemma_then_concat(seq![SpecToken::LeftBracket], el, then_tokens(seq![SpecToken::RightBracket], after));
        },
        SpecValue::Object(es) => {
            let inner = serialize_members(es);
            let q = p + 1 + inner.len();
            assert(serialize(v) == seq!['{'] + inner + seq!['}']);
            lemma_split(s, p, seq!['{'] + inner, seq!['}']);
            lemma_split(s, p, seq!['{'], inner);
            lemma_at(s, p, serialize(v), 0);
            lemma_at(s, p, serialize(v), q - p);
            lemma_lex_members(es, s, p + 1);
            let mt = member_tokens(es);
            lemma_then_concat(seq![SpecToken::LeftBrace] + mt, seq![SpecToken::RightBrace], after);
            lemma_then_concat(seq![SpecToken::LeftBrace], mt, then_tokens(seq![SpecToken::RightBrace], after));
        },
    }
}

proof fn lemma_lex_elements(items: Seq<SpecValue>, s: Seq<char>, p: int)
    requires
        well_formed_elements(items),
        0 <= p,
        p + serialize_elements(items).len() <= s.len(),
        s.subrange(p, p + serialize_elements(items).len()) == serialize_elements(items),
        ends_token(s, p + serialize_elements(items).len()),
    ensures
        lex_from(s, p) == then_tokens(
            element_tokens(items),
            lex_from(s, p + serialize_elements(items).len()),
        ),
    decreases items, items.len(),
{
    let n = serialize_elements(items).len();
    let after = lex_from(s, p + n);
    if items.len() == 0 {
        lemma_then_empty(after);
    } else if items.len() == 1 {
        lemma_lex_value(items[0], s, p);
    } else {
        let a = serialize(items[0]);
        let rest = items.drop_first();
        let b = serialize_elements(rest);
        assert(serialize_elements(items) == a + seq![','] + b);
        lemma_split(s, p, a + seq![','], b);
        lemma_split(s, p, a, seq![',']);
        lemma_at(s, p + a.len(), seq![','], 0);
        lemma_lex_value(items[0], s, p);
        lemma_lex_elements(rest, s, p + a.len() + 1);
        let vt = value_tokens(items[0]);
        let rt = element_tokens(rest);
        lemma_then_concat(vt + seq![SpecToken::Comma], rt, after);
        lemma_then_concat(vt, seq![SpecToken::Comma], then_tokens(rt, after));
    }
}

proof fn lemma_lex_members(es: Seq<(Seq<char>, SpecValue)>, s: Seq<char>, p: int)
    requires
        well_formed_members(es),
        0 <= p,
        p + serialize_members(es).len() <= s.len(),
        s.subrange(p, p + serialize_members(es).len()) == serialize_members(es),
        ends_token(s, p + serialize_members(es).len()),
    ensures
        lex_from(s, p) == then_tokens(
            member_tokens(es),
            lex_from(s, p + serialize_members(es).len()),
        ),
    decreases es, es.len(),
{
    let n = serialize_members(es).len();
    let after = lex_from(s, p + n);
    if es.len() == 0 {
        lemma_then_empty(after);
    } else {
        let k = es[0].0;
        let v = es[0].1;
        let qk = quote(k);
        let head = qk + seq![':'] + serialize(v);
        let m = p + head.len();
        if es.len() == 1 {
            assert(serialize_members(es) == head);
        } else {
            let b = serialize_members(es.drop_first());
            assert(serialize_members(es) == head + seq![','] + b);
            lemma_split(s, p, head + seq![','], b);
            lemma_split(s, p, head, seq![',']);
        }
        lemma_split(s, p, qk + seq![':'], serialize(v));
        lemma_split(s, p, qk, seq![':']);
        lemma_at(s, p + qk.len(), seq![':'], 0);
        lemma_lex_string_value(s, p, k);
        let vp = p + qk.len() + 1;
        let ht = seq![SpecToken::String(k), SpecToken::Colon];
        let vt = value_tokens(v);
        if es.len() == 1 {
            assert(serialize_members(es) == head);
            lemma_lex_value(v, s, vp);
            lemma_then_concat(ht, vt, after);
            lemma_then_pair(SpecToken::String(k), SpecToken::Colon, then_tokens(vt, after));
        } else {
            let rest = es.drop_first();
            let b = serialize_members(rest);
            assert(serialize_members(es) == head + seq![','] + b);
            lemma_split(s, p, head + seq![','], b);
            lemma_split(s, p, head, seq![',']);
            lemma_at(s, m, seq![','], 0);
            lemma_lex_value(v, s, vp);
            lemma_lex_members(rest, s, m + 1);
            let rt = member_tokens(rest);
            let r1 = then_tokens(rt, after);
            lemma_then_concat(ht + vt + seq![SpecToken::Comma], rt, after);
            lemma_then_concat(ht + vt, seq![SpecToken::Comma], r1);
            lemma_then_concat(ht, vt, then_tokens(seq![SpecToken::Comma], r1));
            lemma_then_pair(
                SpecToken::String(k),
                SpecToken::Colon,
                then_tokens(vt, then_tokens(seq![SpecToken::Comma], r1)),
            );
        }
    }
}

// ---------------------------------------------------------------------------
// Parsing the tokens of a value
// ---------------------------------------------------------------------------

pub proof fn lemma_value_tokens_start(v: SpecValue)
    ensures
        value_tokens(v).len() >= 1,
        !(value_tokens(v)[0] is RightBracket),
        !(value_tokens(v)[0] is RightBrace),
{
    match v {
        SpecValue::Array(items) => {
            let el = element_tokens(items);
            assert((seq![SpecToken::LeftBracket] + el + seq![SpecToken::RightBracket])[0]
                == SpecToken::LeftBracket);
        },
        SpecValue::Object(es) => {
            let mt = member_tokens(es);
            assert((seq![SpecToken::LeftBrace] + mt + seq![SpecToken::RightBrace])[0]
                == SpecToken::LeftBrace);
        },
        _ => {},
    }
}

pub proof fn lemma_element_tokens_start(items: Seq<SpecValue>)
    requires
        items.len() > 0,
    ensures
        element_tokens(items).len() >= 1,
        element_tokens(items)[0] == value_tokens(items[0])[0],
{
    lemma_value_tokens_start(items[0]);
    if items.len() > 1 {
        let vt = value_tokens(items[0]);
        assert((vt + seq![SpecToken::Comma] + element_tokens(items.drop_first()))[0] == vt[0]);
    }
}

pub proof fn lemma_member_tokens_start(es: Seq<(Seq<char>, SpecValue)>)
    requires
        es.len() > 0,
    ensures
        member_tokens(es).len() >= 2,
        member_tokens(es)[0] == SpecToken::String(es[0].0),
        member_tokens(es)[1] == SpecToken::Colon,
{
    let ht = seq![SpecToken::String(es[0].0), SpecToken::Colon];
    let vt = value_tokens(es[0].1);
    if es.len() == 1 {
        assert((ht + vt)[0] == ht[0] && (ht + vt)[1] == ht[1]);
    } else {
        let w = ht + vt + seq![SpecToken::Comma] + member_tokens(es.drop_first());
        assert(w[0] == ht[0] && w[1] == ht[1]);
    }
}

proof fn lemma_parse_value(v: SpecValue, t: Seq<SpecToken>, p: int)
    requires
        well_formed(v),
        0 <= p,
        p + value_tokens(v).len() <= t.len(),
        t.subrange(p, p + value_tokens(v).len()) == value_tokens(v),
    ensures
        parse_value_at(t, p) == Ok::<(SpecValue, int), SpecParseError>(
            (v, p + value_tokens(v).len()),
        ),
    decreases v, 0int,
{
    let vt = value_tokens(v);
    lemma_at(t, p, vt, 0);
    match v {
        SpecValue::Array(items) => {
            let el = element_tokens(items);
            assert(vt == seq![SpecToken::LeftBracket] + el + seq![SpecToken::RightBracket]);
            lemma_split(t, p, seq![SpecToken::LeftBracket] + el, seq![SpecToken::RightBracket]);
            lemma_split(t, p, seq![SpecToken::LeftBracket], el);
            lemma_at(t, p, vt, 1 + el.len() as int);
            if items.len() == 0 {
                assert(items =~= Seq::<SpecValue>::empty());
            } else {
                lemma_element_tokens_start(items);
                lemma_at(t, p + 1, el, 0);
                lemma_parse_elements(items, t, p + 1, Seq::empty());
                assert(Seq::<SpecValue>::empty() + items =~= items);
            }
        },
        SpecValue::Object(es) => {
            let mt = member_tokens(es);
            assert(vt == seq![SpecToken::LeftBrace] + mt + seq![SpecToken::RightBrace]);
            lemma_split(t, p, seq![SpecToken::LeftBrace] + mt, seq![SpecToken::RightBrace]);
            lemma_split(t, p, seq![SpecToken::LeftBrace], mt);
            lemma_at(t, p, vt, 1 + mt.len() as int);
            if es.len() == 0 {
                assert(es =~= Seq::<(Seq<char>, SpecValue)>::empty());
            } else {
                lemma_member_tokens_start(es);
                lemma_at(t, p + 1, mt, 0);
                assert(Seq::<(Seq<char>, SpecValue)>::empty() + es =~= es);
                lemma_parse_members(es, t, p + 1, Seq::empty());
            }
        },
        _ => {},
    }
}

proof fn lemma_parse_elements(items: Seq<SpecValue>, t: Seq<SpecToken>, p: int, acc: Seq<SpecValue>)
    requires
        well_formed_elements(items),
        items.len() > 0,
        0 <= p,
        p + element_tokens(items).len() < t.len(),
        t.subrange(p, p + element_tokens(items).len()) == element_tokens(items),
        t[p + element_tokens(items).len()] is RightBracket,
    ensures
        parse_elements(t, p, acc) == Ok::<(SpecValue, int), SpecParseError>(
            (SpecValue::Array(acc + items), p + element_tokens(items).len() + 1),
        ),
    decreases items, items.len(),
{
    let v0 = items[0];
    let vt = value_tokens(v0);
    let q = p + vt.len();
    lemma_value_tokens_start(v0);
    if items.len() == 1 {
        assert(element_tokens(items) == vt);
        lemma_parse_value(v0, t, p);
        assert(acc.push(v0) =~= acc + items);
    } else {
        let rest = items.drop_first();
        let rt = element_tokens(rest);
        assert(element_tokens(items) == vt + seq![SpecToken::Comma] + rt);
        lemma_split(t, p, vt + seq![SpecToken::Comma], rt);
        lemma_split(t, p, vt, seq![SpecToken::Comma]);
        lemma_at(t, q, seq![SpecToken::Comma], 0);
        lemma_parse_value(v0, t, p);
        lemma_element_tokens_start(rest);
        lemma_value_tokens_start(rest[0]);
        lemma_at(t, q + 1, rt, 0);
        lemma_parse_elements(rest, t, q + 1, acc.push(v0));
        assert(acc.push(v0) + rest =~= acc + items);
    }
}

proof fn lemma_parse_members(
    es: Seq<(Seq<char>, SpecValue)>,
    t: Seq<SpecToken>,
    p: int,
    acc: Seq<(Seq<char>, SpecValue)>,
)
    requires
        well_formed_members(es),
        es.len() > 0,
        keys_distinct(acc + es),
        0 <= p,
        p + member_tokens(es).len() < t.len(),
        t.subrange(p, p + member_tokens(es).len()) == member_tokens(es),
        t[p + member_tokens(es).len()] is RightBrace,
    ensures
        parse_members(t, p, acc) == Ok::<(SpecValue, int), SpecParseError>(
            (SpecValue::Object(acc + es), p + member_tokens(es).len() + 1),
        ),
    decreases es, es.len(),
{
    let k = es[0].0;
    let v = es[0].1;
    let ht = seq![SpecToken::String(k), SpecToken::Colon];
    let vt = value_tokens(v);
    let q = p + 2 + vt.len();
    let all = acc + es;
    assert(!has_key(acc, k)) by {
        if has_key(acc, k) {
            let i = choose|i: int| 0 <= i < acc.len() && acc[i].0 == k;
            assert(all[i].0 == all[acc.len() as int].0);
        }
    }
    assert(entries_insert(acc, k, v) == acc.push(es[0]));
    lemma_member_tokens_start(es);
    lemma_at(t, p, member_tokens(es), 0);
    lemma_at(t, p, member_tokens(es), 1);
    if es.len() == 1 {
        assert(member_tokens(es) == ht + vt);
        lemma_split(t, p, ht, vt);
        lemma_parse_value(v, t, p + 2);
        assert(acc.push(es[0]) =~= acc + es);
    } else {
        let rest = es.drop_first();
        let rt = member_tokens(rest);
        assert(member_tokens(es) == ht + vt + seq![SpecToken::Comma] + rt);
        lemma_split(t, p, ht + vt + seq![SpecToken::Comma], rt);
        lemma_split(t, p, ht + vt, seq![SpecToken::Comma]);
        lemma_split(t, p, ht, vt);
        lemma_at(t, q, seq![SpecToken::Comma], 0);
        lemma_parse_value(v, t, p + 2);
        lemma_member_tokens_start(rest);
        lemma_at(t, q + 1, rt, 0);
        assert(acc.push(es[0]) + rest =~= acc + es);
        lemma_parse_members(rest, t, q + 1, acc.push(es[0]));
    }
}

// ---------------------------------------------------------------------------
// The laws
// ---------------------------------------------------------------------------

/// The text of a well-formed value reads back as that value: tokenizing
/// and parsing `serialize(v)` gives `v`.
pub proof fn lemma_round_trip(v: SpecValue)
    requires
        well_formed(v),
    ensures
        spec_from_str(serialize(v)) == Ok::<SpecValue, SpecJsonError>(v),
{
    let s = serialize(v);
    let vt = value_tokens(v);
    assert(s.subrange(0, s.len() as int) =~= s);
    lemma_lex_value(v, s, 0);
    assert(vt + Seq::<SpecToken>::empty() =~= vt);
    assert(spec_tokenize(s) == Ok::<Seq<SpecToken>, SpecTokenizeError>(vt));
    assert(vt.subrange(0, vt.len() as int) =~= vt);
    lemma_parse_value(v, vt, 0);
}

// ---------------------------------------------------------------------------
// What the tokenizer and the parser produce is well formed
// ---------------------------------------------------------------------------

pub open spec fn numbers_are_lexemes(ts: Seq<SpecToken>) -> bool {
    forall|i: int|
        0 <= i < ts.len() ==> (#[trigger] ts[i] matches SpecToken::Number(x) ==> is_number_lexeme(
            x,
        ))
}

proof fn lemma_number_run_sub(s: Seq<char>, i: int, j: int, k: int, dec: bool, exp: bool)
    requires
        0 <= i <= k <= j <= s.len(),
        number_run_end(s, k, dec, exp) == j,
    ensures
        number_run_end(s.subrange(i, j), k - i, dec, exp) == j - i,
    decreases j - k,
{
    let t = s.subrange(i, j);
    if k < j {
        assert(t[k - i] == s[k]);
        if k + 1 < j {
            assert(t[k + 1 - i] == s[k + 1]);
        }
        let c = s[k];
        if is_ascii_digit(c) {
            lemma_number_run_sub(s, i, j, k + 1, dec, exp);
        } else if c == '.' && !dec && !exp {
            lemma_number_run_sub(s, i, j, k + 1, true, exp);
        } else if (c == 'e' || c == 'E') && !exp {
            if k + 1 < s.len() && (s[k + 1] == '+' || s[k + 1] == '-') {
                lemma_number_run_end(s, k + 2, dec, true);
                lemma_number_run_sub(s, i, j, k + 2, dec, true);
            } else {
                lemma_number_run_end(s, k + 1, dec, true);
                lemma_number_run_sub(s, i, j, k + 1, dec, true);
            }
        }
    }
}

proof fn lemma_scanned_number_is_lexeme(s: Seq<char>, i: int)
    requires
        0 <= i < s.len(),
        is_ascii_digit(s[i]) || s[i] == '-',
        valid_number_text(s.subrange(i, number_end(s, i))),
    ensures
        is_number_lexeme(s.subrange(i, number_end(s, i))),
{
    let j = number_end(s, i);
    lemma_number_end(s, i);
    let t = s.subrange(i, j);
    assert(t[0] == s[i]);
    if s[i] == '-' {
        lemma_number_run_sub(s, i, j, i + 1, false, false);
    } else {
        lemma_number_run_sub(s, i, j, i, false, false);
    }
}

proof fn lemma_prepend_lexemes(t: SpecToken, r: Result<Seq<SpecToken>, SpecTokenizeError>)
    requires
        r matches Ok(ts) ==> numbers_are_lexemes(ts),
        t matches SpecToken::Number(x) ==> is_number_lexeme(x),
    ensures
        prepend_token(t, r) matches Ok(ts) ==> numbers_are_lexemes(ts),
{
    if let Ok(ts) = r {
        let w = seq![t] + ts;
        assert forall|i: int| 0 <= i < w.len() implies (#[trigger] w[i] matches SpecToken::Number(
            x,
        ) ==> is_number_lexeme(x)) by {
            if i > 0 {
                assert(w[i] == ts[i - 1]);
            }
        }
    }
}

/// Every number token that the tokenizer produces is a number lexeme.
proof fn lemma_lex_numbers(s: Seq<char>, i: int)
    requires
        0 <= i,
    ensures
        lex_from(s, i) matches Ok(ts) ==> numbers_are_lexemes(ts),
    decreases s.len() - i,
{
    if i < s.len() {
        let c = s[i];
        if c == '{' || c == '}' || c == '[' || c == ']' || c == ',' || c == ':' {
            lemma_lex_numbers(s, i + 1);
            lemma_prepend_lexemes(SpecToken::Comma, lex_from(s, i + 1));
            lemma_prepend_lexemes(SpecToken::Colon, lex_from(s, i + 1));
            lemma_prepend_lexemes(SpecToken::LeftBrace, lex_from(s, i + 1));
            lemma_prepend_lexemes(SpecToken::RightBrace, lex_from(s, i + 1));
            lemma_prepend_lexemes(SpecToken::LeftBracket, lex_from(s, i + 1));
            lemma_prepend_lexemes(SpecToken::RightBracket, lex_from(s, i + 1));
        } else if is_whitespace(c) {
            lemma_lex_numbers(s, i + 1);
        } else if is_ascii_alphabetic(c) {
            let j = word_end(s, i);
            lemma_word_end(s, i);
            lemma_lex_numbers(s, j);
            if let Some(t) = keyword(s.subrange(i, j)) {
                lemma_prepend_lexemes(t, lex_from(s, j));
            }
        } else if c == '"' {
            lemma_lex_string_advances(s, i + 1, Seq::empty());
            if let Ok((content, j)) = lex_string(s, i + 1, Seq::empty()) {
                lemma_lex_numbers(s, j);
                lemma_prepend_lexemes(SpecToken::String(content), lex_from(s, j));
            }
        } else if is_ascii_digit(c) || c == '-' {
            let j = number_end(s, i);
            lemma_number_end(s, i);
            lemma_lex_numbers(s, j);
            if valid_number_text(s.subrange(i, j)) {
                lemma_scanned_number_is_lexeme(s, i);
                lemma_prepend_lexemes(SpecToken::Number(s.subrange(i, j)), lex_from(s, j));
            }
        }
    }
}

pub proof fn lemma_well_formed_elements_all(items: Seq<SpecValue>)
    ensures
        well_formed_elements(items) <==> forall|i: int|
            0 <= i < items.len() ==> well_formed(#[trigger] items[i]),
    decreases items.len(),
{
    if items.len() > 0 {
        lemma_well_formed_elements_all(items.drop_first());
        if forall|i: int| 0 <= i < items.len() ==> well_formed(#[trigger] items[i]) {
            assert forall|i: int| 0 <= i < items.drop_first().len() implies well_formed(
                #[trigger] items.drop_first()[i],
            ) by {
                assert(items.drop_first()[i] == items[i + 1]);
            }
        }
        if well_formed_elements(items) {
            assert forall|i: int| 0 <= i < items.len() implies well_formed(#[trigger] items[i]) by {
                if i > 0 {
                    assert(items[i] == items.drop_first()[i - 1]);
                }
            }
        }
    }
}

pub proof fn lemma_well_formed_members_all(es: Seq<(Seq<char>, SpecValue)>)
    ensures
        well_formed_members(es) <==> forall|i: int|
            0 <= i < es.len() ==> well_formed(#[trigger] es[i].1),
    decreases es.len(),
{
    if es.len() > 0 {
        lemma_well_formed_members_all(es.drop_first());
        if forall|i: int| 0 <= i < es.len() ==> well_formed(#[trigger] es[i].1) {
            assert forall|i: int| 0 <= i < es.drop_first().len() implies well_formed(
                #[trigger] es.drop_first()[i].1,
            ) by {
                assert(es.drop_first()[i] == es[i + 1]);
            }
        }
        if well_formed_members(es) {
            assert forall|i: int| 0 <= i < es.len() implies well_formed(#[trigger] es[i].1) by {
                if i > 0 {
                    assert(es[i] == es.drop_first()[i - 1]);
                }
            }
        }
    }
}

proof fn lemma_insert_well_formed(es: Seq<(Seq<char>, SpecValue)>, k: Seq<char>, v: SpecValue)
    requires
        keys_distinct(es),
        well_formed_members(es),
        well_formed(v),
    ensures
        keys_distinct(entries_insert(es, k, v)),
        well_formed_members(entries_insert(es, k, v)),
{
    let r = entries_insert(es, k, v);
    lemma_insert_keeps_keys_distinct(es, k, v);
    lemma_well_formed_members_all(es);
    lemma_well_formed_members_all(r);
    assert forall|i: int| 0 <= i < r.len() implies well_formed(#[trigger] r[i].1) by {
        if !has_key(es, k) && i < es.len() {
            assert(r[i] == es[i]);
        }
    }
}

proof fn lemma_parse_value_wf(t: Seq<SpecToken>, p: int)
    requires
        numbers_are_lexemes(t),
    ensures
        parse_value_at(t, p) matches Ok((v, _)) ==> well_formed(v),
    decreases t.len() - p, 0int,
{
    if 0 <= p < t.len() {
        match t[p] {
            SpecToken::LeftBracket => {
                if !(p + 1 < t.len() && t[p + 1] is RightBracket) {
                    assert(well_formed_elements(Seq::<SpecValue>::empty()));
                    lemma_parse_elements_wf(t, p + 1, Seq::empty());
                }
            },
            SpecToken::LeftBrace => {
                if p + 1 < t.len() && t[p + 1] is RightBrace {
                    assert(keys_distinct(Seq::<(Seq<char>, SpecValue)>::empty()));
                } else {
                    assert(keys_distinct(Seq::<(Seq<char>, SpecValue)>::empty()));
                    assert(well_formed_members(Seq::<(Seq<char>, SpecValue)>::empty()));
                    lemma_parse_members_wf(t, p + 1, Seq::empty());
                }
            },
            _ => {},
        }
    }
}

proof fn lemma_parse_elements_wf(t: Seq<SpecToken>, p: int, acc: Seq<SpecValue>)
    requires
        numbers_are_lexemes(t),
        well_formed_elements(acc),
    ensures
        parse_elements(t, p, acc) matches Ok((v, _)) ==> well_formed(v),
    decreases t.len() - p, 1int,
{
    lemma_parse_value_wf(t, p);
    if let Ok((v, q)) = parse_value_at(t, p) {
        if q < t.len() {
            lemma_well_formed_elements_all(acc);
            lemma_well_formed_elements_all(acc.push(v));
            assert forall|i: int| 0 <= i < acc.push(v).len() implies well_formed(
                #[trigger] acc.push(v)[i],
            ) by {
                if i < acc.len() {
                    assert(acc.push(v)[i] == acc[i]);
                }
            }
            if t[q] is Comma && !(q + 1 < t.len() && t[q + 1] is RightBracket) && q >= p {
                lemma_parse_elements_wf(t, q + 1, acc.push(v));
            }
        }
    }
}

proof fn lemma_parse_members_wf(t: Seq<SpecToken>, p: int, acc: Seq<(Seq<char>, SpecValue)>)
    requires
        numbers_are_lexemes(t),
        keys_distinct(acc),
        well_formed_members(acc),
    ensures
        parse_members(t, p, acc) matches Ok((v, _)) ==> well_formed(v),
    decreases t.len() - p, 1int,
{
    if 0 <= p && p + 1 < t.len() && t[p] is String && t[p + 1] is Colon {
        let k = t[p]->String_0;
        lemma_parse_value_wf(t, p + 2);
        if let Ok((v, q)) = parse_value_at(t, p + 2) {
            lemma_insert_well_formed(acc, k, v);
            if q < t.len() && t[q] is Comma && !(q + 1 < t.len() && t[q + 1] is RightBrace) && q
                >= p {
                lemma_parse_members_wf(t, q + 1, entries_insert(acc, k, v));
            }
        }
    }
}

/// Every value that the text `s` parses to is well formed.
pub proof fn lemma_parsed_well_formed(s: Seq<char>)
    ensures
        spec_from_str(s) matches Ok(v) ==> well_formed(v),
{
    lemma_lex_numbers(s, 0);
    if let Ok(ts) = spec_tokenize(s) {
        lemma_parse_value_wf(ts, 0);
    }
}

/// Printing a parsed value and parsing the printed text gives the same value.
pub proof fn lemma_reparse(s: Seq<char>)
    ensures
        spec_from_str(s) matches Ok(v) ==> spec_from_str(serialize(v)) == Ok::<
            SpecValue,
            SpecJsonError,
        >(v),
{
    lemma_parsed_well_formed(s);
    if let Ok(v) = spec_from_str(s) {
        lemma_round_trip(v);
    }
}

// ---------------------------------------------------------------------------
// Strict JSON: no trailing commas, keys are strings
// ---------------------------------------------------------------------------

/// In `t[a..b]`, every comma is followed, within the range, by a token other
/// than a closing bracket or brace.
pub open spec fn commas_separate(t: Seq<SpecToken>, a: int, b: int) -> bool {
    forall|i: int|
        a <= i < b && #[trigger] t[i] is Comma ==> i + 1 < b && !(t[i + 1] is RightBracket) && !(
        t[i + 1] is RightBrace)
}

/// In `t[a..b]`, every colon comes right after a string token of the range.
pub open spec fn colons_follow_keys(t: Seq<SpecToken>, a: int, b: int) -> bool {
    forall|i: int| a <= i < b && #[trigger] t[i] is Colon ==> a < i && t[i - 1] is String
}

pub open spec fn strict_range(t: Seq<SpecToken>, a: int, b: int) -> bool {
    commas_separate(t, a, b) && colons_follow_keys(t, a, b)
}

/// A token that can start a value.
pub open spec fn starts_value(tok: SpecToken) -> bool {
    !(tok is RightBracket) && !(tok is RightBrace) && !(tok is Comma) && !(tok is Colon)
}

proof fn lemma_strict_combine(t: Seq<SpecToken>, a: int, b: int, c: int)
    requires
        a <= b <= c,
        strict_range(t, a, b),
        strict_range(t, b, c),
    ensures
        strict_range(t, a, c),
{
    assert forall|i: int| a <= i < c && #[trigger] t[i] is Comma implies i + 1 < c && !(
    t[i + 1] is RightBracket) && !(t[i + 1] is RightBrace) by {
        if i < b {
        }
    }
    assert forall|i: int| a <= i < c && #[trigger] t[i] is Colon implies a < i && t[i
        - 1] is String by {
        if i < b {
        }
    }
}

proof fn lemma_strict_single(t: Seq<SpecToken>, a: int)
    requires
        0 <= a < t.len(),
        !(t[a] is Comma),
        !(t[a] is Colon),
    ensures
        strict_range(t, a, a + 1),
{
}

proof fn lemma_strict_comma(t: Seq<SpecToken>, a: int, c: int)
    requires
        0 <= a,
        a + 1 < c <= t.len(),
        t[a] is Comma,
        starts_value(t[a + 1]),
        strict_range(t, a + 1, c),
    ensures
        strict_range(t, a, c),
{
    assert forall|i: int| a <= i < c && #[trigger] t[i] is Colon implies a < i && t[i
        - 1] is String by {
        if i == a {
        }
    }
}

proof fn lemma_parse_value_strict(t: Seq<SpecToken>, p: int)
    ensures
        parse_value_at(t, p) matches Ok((_, q)) ==> {
            &&& 0 <= p < q <= t.len()
            &&& starts_value(t[p])
            &&& strict_range(t, p, q)
        },
    decreases t.len() - p, 0int,
{
    if 0 <= p < t.len() {
        match t[p] {
            SpecToken::LeftBracket => {
                if p + 1 < t.len() && t[p + 1] is RightBracket {
                    lemma_strict_single(t, p);
                    lemma_strict_single(t, p + 1);
                    lemma_strict_combine(t, p, p + 1, p + 2);
                } else {
                    lemma_parse_elements_strict(t, p + 1, Seq::empty());
                    if let Ok((_, q)) = parse_elements(t, p + 1, Seq::empty()) {
                        lemma_strict_single(t, p);
                        lemma_strict_combine(t, p, p + 1, q);
                    }
                }
            },
            SpecToken::LeftBrace => {
                if p + 1 < t.len() && t[p + 1] is RightBrace {
                    lemma_strict_single(t, p);
                    lemma_strict_single(t, p + 1);
                    lemma_strict_combine(t, p, p + 1, p + 2);
                } else {
                    lemma_parse_members_strict(t, p + 1, Seq::empty());
                    if let Ok((_, q)) = parse_members(t, p + 1, Seq::empty()) {
                        lemma_strict_single(t, p);
                        lemma_strict_combine(t, p, p + 1, q);
                    }
                }
            },
            _ => {
                if parse_value_at(t, p) is Ok {
                    lemma_strict_single(t, p);
                }
            },
        }
    }
}

proof fn lemma_parse_elements_strict(t: Seq<SpecToken>, p: int, acc: Seq<SpecValue>)
    ensures
        parse_elements(t, p, acc) matches Ok((_, q)) ==> {
            &&& 0 <= p < q <= t.len()
            &&& starts_value(t[p])
            &&& strict_range(t, p, q)
        },
    decreases t.len() - p, 1int,
{
    lemma_parse_value_strict(t, p);
    if let Ok((v, q1)) = parse_value_at(t, p) {
        if q1 < t.len() {
            if t[q1] is Comma && !(q1 + 1 < t.len() && t[q1 + 1] is RightBracket) && q1 >= p {
                lemma_parse_elements_strict(t, q1 + 1, acc.push(v));
                if let Ok((_, q)) = parse_elements(t, q1 + 1, acc.push(v)) {
                    lemma_strict_comma(t, q1, q);
                    lemma_strict_combine(t, p, q1, q);
                }
            } else if t[q1] is RightBracket {
                lemma_strict_single(t, q1);
                lemma_strict_combine(t, p, q1, q1 + 1);
            }
        }
    }
}

proof fn lemma_parse_members_strict(
    t: Seq<SpecToken>,
    p: int,
    acc: Seq<(Seq<char>, SpecValue)>,
)
    ensures
        parse_members(t, p, acc) matches Ok((_, q)) ==> {
            &&& 0 <= p < q <= t.len()
            &&& t[p] is String
            &&& strict_range(t, p, q)
        },
    decreases t.len() - p, 1int,
{
    if 0 <= p && p + 1 < t.len() && t[p] is String && t[p + 1] is Colon {
        let k = t[p]->String_0;
        lemma_parse_value_strict(t, p + 2);
        if let Ok((v, q1)) = parse_value_at(t, p + 2) {
            let acc2 = entries_insert(acc, k, v);
            lemma_strict_single(t, p);
            assert(strict_range(t, p, p + 2));
            lemma_strict_combine(t, p, p + 2, q1);
            if q1 < t.len() {
                if t[q1] is Comma && !(q1 + 1 < t.len() && t[q1 + 1] is RightBrace) && q1 >= p {
                    lemma_parse_members_strict(t, q1 + 1, acc2);
                    if let Ok((_, q)) = parse_members(t, q1 + 1, acc2) {
                        lemma_strict_comma(t, q1, q);
                        lemma_strict_combine(t, p, q1, q);
                    }
                } else if t[q1] is RightBrace {
                    lemma_strict_single(t, q1);
                    lemma_strict_combine(t, p, q1, q1 + 1);
                }
            }
        }
    }
}

/// No trailing commas: in tokens that parse, every comma is followed by a
/// token that is neither `]` nor `}`.
pub proof fn lemma_no_trailing_comma(t: Seq<SpecToken>)
    ensures
        spec_parse(t) is Ok ==> forall|i: int|
            0 <= i < t.len() && #[trigger] t[i] is Comma ==> i + 1 < t.len() && !(
            t[i + 1] is RightBracket) && !(t[i + 1] is RightBrace),
{
    lemma_parse_value_strict(t, 0);
}

/// Keys are strings: in tokens that parse, every colon comes right after a
/// string token.
pub proof fn lemma_keys_are_strings(t: Seq<SpecToken>)
    ensures
        spec_parse(t) is Ok ==> forall|i: int|
            0 <= i < t.len() && #[trigger] t[i] is Colon ==> 0 < i && t[i - 1] is String,
{
    lemma_parse_value_strict(t, 0);
}

} // verus!
