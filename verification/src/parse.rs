//! The parser: builds a value tree from a flat list of tokens by recursive
//! descent. `parse_value_at` and its two list helpers are the specification;
//! the executable functions are proved to compute them.
use vstd::prelude::*;

use crate::tokenize::{token_text, view_tokens, SpecToken, Token};
use crate::value::{
    entries_insert, lemma_view_values_push, object_entries, view_values, ObjectMap, SpecValue,
    Value,
};

verus! {

/// The mathematical model of a parser error.
pub enum SpecParseError {
    UnexpectedEof,
    UnexpectedToken(SpecToken),
    ExpectedColon,
    ExpectedComma,
}

/// Why a list of tokens does not form a JSON value.
#[derive(Debug, PartialEq)]
pub enum ParseError {
    UnexpectedEof,
    UnexpectedToken(Token),
    ExpectedColon,
    ExpectedComma,
}

impl View for ParseError {
    type V = SpecParseError;

    open spec fn view(&self) -> SpecParseError {
        match self {
            ParseError::UnexpectedEof => SpecParseError::UnexpectedEof,
            ParseError::UnexpectedToken(t) => SpecParseError::UnexpectedToken(t@),
            ParseError::ExpectedColon => SpecParseError::ExpectedColon,
            ParseError::ExpectedComma => SpecParseError::ExpectedComma,
        }
    }
}

/// The value that starts at token `p`, and the position just after it.
pub open spec fn parse_value_at(t: Seq<SpecToken>, p: int) -> Result<
    (SpecValue, int),
    SpecParseError,
>
    decreases t.len() - p, 0int,
{
    if p < 0 || p >= t.len() {
        Err(SpecParseError::UnexpectedEof)
    } else {
        match t[p] {
            SpecToken::Null => Ok((SpecValue::Null, p + 1)),
            SpecToken::True => Ok((SpecValue::Boolean(true), p + 1)),
            SpecToken::False => Ok((SpecValue::Boolean(false), p + 1)),
            SpecToken::Number(x) => Ok((SpecValue::Number(x), p + 1)),
            SpecToken::String(x) => Ok((SpecValue::String(x), p + 1)),
            SpecToken::LeftBracket => {
                if p + 1 < t.len() && t[p + 1] is RightBracket {
                    Ok((SpecValue::Array(Seq::empty()), p + 2))
                } else {
                    parse_elements(t, p + 1, Seq::empty())
                }
            },
            SpecToken::LeftBrace => {
                if p + 1 < t.len() && t[p + 1] is RightBrace {
                    Ok((SpecValue::Object(Seq::empty()), p + 2))
                } else {
                    parse_members(t, p + 1, Seq::empty())
                }
            },
            _ => Err(SpecParseError::UnexpectedToken(t[p])),
        }
    }
}

/// The rest of an array from its element at `p` on, `acc` being the
/// elements before it: elements are separated by commas, a comma may not
/// come before the closing bracket.
pub open spec fn parse_elements(t: Seq<SpecToken>, p: int, acc: Seq<SpecValue>) -> Result<
    (SpecValue, int),
    SpecParseError,
>
    decreases t.len() - p, 1int,
{
    match parse_value_at(t, p) {
        Err(e) => Err(e),
        Ok((v, q)) => {
            if q >= t.len() {
                Err(SpecParseError::UnexpectedEof)
            } else {
                match t[q] {
                    SpecToken::Comma => {
                        if q + 1 < t.len() && t[q + 1] is RightBracket {
                            Err(SpecParseError::UnexpectedToken(SpecToken::RightBracket))
                        } else if q < p {
                            // never taken: a value spans at least one token
                            Err(SpecParseError::UnexpectedEof)
                        } else {
                            parse_elements(t, q + 1, acc.push(v))
                        }
                    },
                    SpecToken::RightBracket => Ok((SpecValue::Array(acc.push(v)), q + 1)),
                    _ => Err(SpecParseError::UnexpectedToken(t[q])),
                }
            }
        },
    }
}

/// The rest of an object from its member at `p` on, `acc` being the entries
/// so far: each member is a string key, a colon and a value; members are
/// separated by commas, a comma may not come before the closing brace; a
/// repeated key keeps its first place and takes the later value.
pub open spec fn parse_members(
    t: Seq<SpecToken>,
    p: int,
    acc: Seq<(Seq<char>, SpecValue)>,
) -> Result<(SpecValue, int), SpecParseError>
    decreases t.len() - p, 1int,
{
    if p < 0 || p >= t.len() {
        Err(SpecParseError::UnexpectedEof)
    } else {
        match t[p] {
            SpecToken::String(k) => {
                if p + 1 >= t.len() {
                    Err(SpecParseError::UnexpectedEof)
                } else if !(t[p + 1] is Colon) {
                    Err(SpecParseError::ExpectedColon)
                } else {
                    match parse_value_at(t, p + 2) {
                        Err(e) => Err(e),
                        Ok((v, q)) => {
                            let acc2 = entries_insert(acc, k, v);
                            if q >= t.len() {
                                Err(SpecParseError::UnexpectedEof)
                            } else {
                                match t[q] {
                                    SpecToken::Comma => {
                                        if q + 1 < t.len() && t[q + 1] is RightBrace {
                                            Err(
                                                SpecParseError::UnexpectedToken(
                                                    SpecToken::RightBrace,
                                                ),
                                            )
                                        } else if q < p {
                                            // never taken: a value spans at least one token
                                            Err(SpecParseError::UnexpectedEof)
                                        } else {
                                            parse_members(t, q + 1, acc2)
                                        }
                                    },
                                    SpecToken::RightBrace => Ok((SpecValue::Object(acc2), q + 1)),
                                    _ => Err(SpecParseError::UnexpectedToken(t[q])),
                                }
                            }
                        },
                    }
                }
            },
            _ => Err(SpecParseError::UnexpectedToken(t[p])),
        }
    }
}

/// The value that the tokens `t` form, with no token left over.
pub open spec fn spec_parse(t: Seq<SpecToken>) -> Result<SpecValue, SpecParseError> {
    match parse_value_at(t, 0) {
        Err(e) => Err(e),
        Ok((v, q)) => {
            if q < t.len() {
                Err(SpecParseError::UnexpectedToken(t[q]))
            } else {
                Ok(v)
            }
        },
    }
}

pub open spec fn step_view(r: Result<(Value, usize), ParseError>) -> Result<
    (SpecValue, int),
    SpecParseError,
> {
    match r {
        Ok((v, q)) => Ok((v@, q as int)),
        Err(e) => Err(e@),
    }
}

pub open spec fn parse_result_view(r: Result<Value, ParseError>) -> Result<
    SpecValue,
    SpecParseError,
> {
    match r {
        Ok(v) => Ok(v@),
        Err(e) => Err(e@),
    }
}

fn value_at(tokens: &[Token], p: usize) -> (r: Result<(Value, usize), ParseError>)
    requires
        p <= tokens@.len(),
    ensures
        step_view(r) == parse_value_at(view_tokens(tokens@), p as int),
        r matches Ok((_, q)) ==> p < q <= tokens@.len(),
    decreases tokens@.len() - p, 0int,
{
    let ghost t = view_tokens(tokens@);
    if p >= tokens.len() {
        return Err(ParseError::UnexpectedEof);
    }
    assert(t[p as int] == tokens@[p as int]@);
    match &tokens[p] {
        Token::Null => Ok((Value::Null, p + 1)),
        Token::True => Ok((Value::Boolean(true), p + 1)),
        Token::False => Ok((Value::Boolean(false), p + 1)),
        Token::Number(x) => Ok((Value::Number(x.clone()), p + 1)),
        Token::String(x) => Ok((Value::String(x.clone()), p + 1)),
        Token::LeftBracket => {
            if p + 1 < tokens.len() && matches!(tokens[p + 1], Token::RightBracket) {
                assert(t[p + 1] == tokens@[p + 1]@);
                assert(view_values(Seq::<Value>::empty()) =~= Seq::<SpecValue>::empty());
                Ok((Value::Array(Vec::new()), p + 2))
            } else {
                proof {
                    if p + 1 < tokens@.len() {
                        assert(t[p + 1] == tokens@[p + 1]@);
                    }
                }
                elements_at(tokens, p + 1)
            }
        },
        Token::LeftBrace => {
            if p + 1 < tokens.len() && matches!(tokens[p + 1], Token::RightBrace) {
                assert(t[p + 1] == tokens@[p + 1]@);
                Ok((Value::Object(ObjectMap::new()), p + 2))
            } else {
                proof {
                    if p + 1 < tokens@.len() {
                        assert(t[p + 1] == tokens@[p + 1]@);
                    }
                }
                members_at(tokens, p + 1)
            }
        },
        other => Err(ParseError::UnexpectedToken(other.duplicate())),
    }
}

fn elements_at(tokens: &[Token], p: usize) -> (r: Result<(Value, usize), ParseError>)
    requires
        p <= tokens@.len(),
    ensures
        step_view(r) == parse_elements(view_tokens(tokens@), p as int, Seq::empty()),
        r matches Ok((_, q)) ==> p < q <= tokens@.len(),
    decreases tokens@.len() - p, 1int,
{
    let ghost t = view_tokens(tokens@);
    let mut items: Vec<Value> = Vec::new();
    let mut cur = p;
    assert(view_values(items@) =~= Seq::<SpecValue>::empty());
    loop
        invariant
            p <= cur <= tokens@.len(),
            t == view_tokens(tokens@),
            parse_elements(t, p as int, Seq::empty()) == parse_elements(
                t,
                cur as int,
                view_values(items@),
            ),
        decreases tokens@.len() - cur,
    {
        let (v, q) = match value_at(tokens, cur) {
            Ok(x) => x,
            Err(e) => {
                return Err(e);
            },
        };
        if q >= tokens.len() {
            return Err(ParseError::UnexpectedEof);
        }
        assert(t[q as int] == tokens@[q as int]@);
        proof {
            lemma_view_values_push(items@, v);
        }
        match &tokens[q] {
            Token::Comma => {
                if q + 1 < tokens.len() && matches!(tokens[q + 1], Token::RightBracket) {
                    assert(t[q + 1] == tokens@[q + 1]@);
                    return Err(ParseError::UnexpectedToken(Token::RightBracket));
                }
                proof {
                    if q + 1 < tokens@.len() {
                        assert(t[q + 1] == tokens@[q + 1]@);
                    }
                }
                items.push(v);
                cur = q + 1;
            },
            Token::RightBracket => {
                items.push(v);
                return Ok((Value::Array(items), q + 1));
            },
            other => {
                return Err(ParseError::UnexpectedToken(other.duplicate()));
            },
        }
    }
}

fn members_at(tokens: &[Token], p: usize) -> (r: Result<(Value, usize), ParseError>)
    requires
        p <= tokens@.len(),
    ensures
        step_view(r) == parse_members(view_tokens(tokens@), p as int, Seq::empty()),
        r matches Ok((_, q)) ==> p < q <= tokens@.len(),
    decreases tokens@.len() - p, 1int,
{
    let ghost t = view_tokens(tokens@);
    let mut map = ObjectMap::new();
    let mut cur = p;
    loop
        invariant
            p <= cur <= tokens@.len(),
            t == view_tokens(tokens@),
            parse_members(t, p as int, Seq::empty()) == parse_members(
                t,
                cur as int,
                object_entries(map),
            ),
        decreases tokens@.len() - cur,
    {
        if cur >= tokens.len() {
            return Err(ParseError::UnexpectedEof);
        }
        assert(t[cur as int] == tokens@[cur as int]@);
        let key = match &tokens[cur] {
            Token::String(k) => k.clone(),
            other => {
                return Err(ParseError::UnexpectedToken(other.duplicate()));
            },
        };
        if cur + 1 >= tokens.len() {
            return Err(ParseError::UnexpectedEof);
        }
        assert(t[cur + 1] == tokens@[cur + 1]@);
        if !matches!(tokens[cur + 1], Token::Colon) {
            return Err(ParseError::ExpectedColon);
        }
        let (v, q) = match value_at(tokens, cur + 2) {
            Ok(x) => x,
            Err(e) => {
                return Err(e);
            },
        };
        map.insert(key, v);
        if q >= tokens.len() {
            return Err(ParseError::UnexpectedEof);
        }
        assert(t[q as int] == tokens@[q as int]@);
        match &tokens[q] {
            Token::Comma => {
                if q + 1 < tokens.len() && matches!(tokens[q + 1], Token::RightBrace) {
                    assert(t[q + 1] == tokens@[q + 1]@);
                    return Err(ParseError::UnexpectedToken(Token::RightBrace));
                }
                proof {
                    if q + 1 < tokens@.len() {
                        assert(t[q + 1] == tokens@[q + 1]@);
                    }
                }
                cur = q + 1;
            },
            Token::RightBrace => {
                return Ok((Value::Object(map), q + 1));
            },
            other => {
                return Err(ParseError::UnexpectedToken(other.duplicate()));
            },
        }
    }
}

/// Takes a flat slice of tokens and constructs a hierarchical JSON value
/// tree; every token must belong to the value.
pub fn parse(tokens: &[Token]) -> (r: Result<Value, ParseError>)
    ensures
        parse_result_view(r) == spec_parse(view_tokens(tokens@)),
{
    let ghost t = view_tokens(tokens@);
    let (v, q) = match value_at(tokens, 0) {
        Ok(x) => x,
        Err(e) => {
            return Err(e);
        },
    };
    if q < tokens.len() {
        assert(t[q as int] == tokens@[q as int]@);
        return Err(ParseError::UnexpectedToken(tokens[q].duplicate()));
    }
    Ok(v)
}

/// The message that describes a parser error.
pub open spec fn parse_error_message(e: SpecParseError) -> Seq<char> {
    match e {
        SpecParseError::UnexpectedEof => "unexpected end of file"@,
        SpecParseError::UnexpectedToken(t) => "unexpected token: "@ + token_text(t),
        SpecParseError::ExpectedColon => "expected ':'"@,
        SpecParseError::ExpectedComma => "expected ','"@,
    }
}

impl ParseError {
    /// The human-readable message for this error.
    pub fn to_string(&self) -> (s: String)
        ensures
            s@ == parse_error_message(self@),
    {
        match self {
            ParseError::UnexpectedEof => String::from_str("unexpected end of file"),
            ParseError::UnexpectedToken(t) => {
                let mut m = String::from_str("unexpected token: ");
                let text = t.to_string();
                m.append(text.as_str());
                m
            },
            ParseError::ExpectedColon => String::from_str("expected ':'"),
            ParseError::ExpectedComma => String::from_str("expected ','"),
        }
    }
}

// ---------------------------------------------------------------------------
// Tokens after a complete value
// ---------------------------------------------------------------------------

proof fn lemma_parse_value_extend(t1: Seq<SpecToken>, t2: Seq<SpecToken>, p: int)
    ensures
        parse_value_at(t1, p) matches Ok((_, q)) ==> {
            &&& p < q <= t1.len()
            &&& parse_value_at(t1 + t2, p) == parse_value_at(t1, p)
        },
    decreases t1.len() - p, 0int,
{
    let t = t1 + t2;
    if 0 <= p < t1.len() {
        assert(t[p] == t1[p]);
        if p + 1 < t1.len() {
            assert(t[p + 1] == t1[p + 1]);
        }
        match t1[p] {
            SpecToken::LeftBracket => {
                if !(p + 1 < t1.len() && t1[p + 1] is RightBracket) {
                    lemma_parse_elements_extend(t1, t2, p + 1, Seq::empty());
                }
            },
            SpecToken::LeftBrace => {
                if !(p + 1 < t1.len() && t1[p + 1] is RightBrace) {
                    lemma_parse_members_extend(t1, t2, p + 1, Seq::empty());
                }
            },
            _ => {},
        }
    }
}

proof fn lemma_parse_elements_extend(
    t1: Seq<SpecToken>,
    t2: Seq<SpecToken>,
    p: int,
    acc: Seq<SpecValue>,
)
    ensures
        parse_elements(t1, p, acc) matches Ok((_, q)) ==> {
            &&& p < t1.len()
            &&& p < q <= t1.len()
            &&& parse_elements(t1 + t2, p, acc) == parse_elements(t1, p, acc)
        },
    decreases t1.len() - p, 1int,
{
    let t = t1 + t2;
    lemma_parse_value_extend(t1, t2, p);
    if let Ok((v, q)) = parse_value_at(t1, p) {
        if q < t1.len() {
            assert(t[q] == t1[q]);
            if q + 1 < t1.len() {
                assert(t[q + 1] == t1[q + 1]);
            }
            if t1[q] is Comma && !(q + 1 < t1.len() && t1[q + 1] is RightBracket) && q >= p {
                lemma_parse_elements_extend(t1, t2, q + 1, acc.push(v));
            }
        }
    }
}

proof fn lemma_parse_members_extend(
    t1: Seq<SpecToken>,
    t2: Seq<SpecToken>,
    p: int,
    acc: Seq<(Seq<char>, SpecValue)>,
)
    ensures
        parse_members(t1, p, acc) matches Ok((_, q)) ==> {
            &&& p < t1.len()
            &&& p < q <= t1.len()
            &&& parse_members(t1 + t2, p, acc) == parse_members(t1, p, acc)
        },
    decreases t1.len() - p, 1int,
{
    let t = t1 + t2;
    if 0 <= p && p + 1 < t1.len() && t1[p] is String && t1[p + 1] is Colon {
        assert(t[p] == t1[p]);
        assert(t[p + 1] == t1[p + 1]);
        let k = t1[p]->String_0;
        lemma_parse_value_extend(t1, t2, p + 2);
        if let Ok((v, q)) = parse_value_at(t1, p + 2) {
            let acc2 = entries_insert(acc, k, v);
            if q < t1.len() {
                assert(t[q] == t1[q]);
                if q + 1 < t1.len() {
                    assert(t[q + 1] == t1[q + 1]);
                }
                if t1[q] is Comma && !(q + 1 < t1.len() && t1[q + 1] is RightBrace) && q >= p {
                    lemma_parse_members_extend(t1, t2, q + 1, acc2);
                }
            }
        }
    } else if 0 <= p < t1.len() {
        assert(t[p] == t1[p]);
    }
}

/// Tokens after a complete value are rejected: where `t1` parses and `t2`
/// is not empty, `t1` followed by `t2` fails on the first token of `t2`.
pub proof fn lemma_trailing_tokens_rejected(t1: Seq<SpecToken>, t2: Seq<SpecToken>)
    requires
        t2.len() > 0,
    ensures
        spec_parse(t1) is Ok ==> spec_parse(t1 + t2) == Err::<SpecValue, SpecParseError>(
            SpecParseError::UnexpectedToken(t2[0]),
        ),
{
    lemma_parse_value_extend(t1, t2, 0);
    if let Ok((_, q)) = parse_value_at(t1, 0) {
        if q >= t1.len() {
            assert((t1 + t2)[q] == t2[0]);
        }
    }
}

} // verus!
