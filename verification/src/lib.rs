//! A JSON parser in two stages: a tokenizer that turns text into a flat list
//! of tokens, and a recursive-descent parser that builds a value tree from
//! the tokens. Every stage is specified by a spec function over sequences of
//! characters and tokens, and the executable code is proved to compute it.
pub mod laws;
pub mod parse;
pub mod round_trip;
pub mod text;
pub mod tokenize;
pub mod value;
pub mod whitespace;

use vstd::prelude::*;

pub use parse::{parse, ParseError};
pub use tokenize::{tokenize, Token, TokenizeError};
pub use value::{escape_string, ObjectMap, Value};

use parse::{parse_error_message, spec_parse, SpecParseError};
use tokenize::{spec_tokenize, tokenize_error_message, SpecTokenizeError};
use value::SpecValue;

verus! {

/// The mathematical model of `JsonError`.
pub enum SpecJsonError {
    Tokenizer(SpecTokenizeError),
    Parser(SpecParseError),
}

/// A master error enum that combines both tokenizer and parser errors.
#[derive(Debug, PartialEq)]
pub enum JsonError {
    Tokenizer(TokenizeError),
    Parser(ParseError),
}

impl View for JsonError {
    type V = SpecJsonError;

    open spec fn view(&self) -> SpecJsonError {
        match self {
            JsonError::Tokenizer(e) => SpecJsonError::Tokenizer(e@),
            JsonError::Parser(e) => SpecJsonError::Parser(e@),
        }
    }
}

/// The message that describes an error of either stage.
pub open spec fn json_error_message(e: SpecJsonError) -> Seq<char> {
    match e {
        SpecJsonError::Tokenizer(t) => "tokenizer error: "@ + tokenize_error_message(t),
        SpecJsonError::Parser(p) => "parser error: "@ + parse_error_message(p),
    }
}

impl JsonError {
    /// The human-readable message for this error.
    pub fn to_string(&self) -> (s: String)
        ensures
            s@ == json_error_message(self@),
    {
        match self {
            JsonError::Tokenizer(e) => {
                let mut m = String::from_str("tokenizer error: ");
                let inner = e.to_string();
                m.append(inner.as_str());
                m
            },
            JsonError::Parser(e) => {
                let mut m = String::from_str("parser error: ");
                let inner = e.to_string();
                m.append(inner.as_str());
                m
            },
        }
    }
}

impl From<TokenizeError> for JsonError {
    fn from(err: TokenizeError) -> (r: JsonError) {
        JsonError::Tokenizer(err)
    }
}

impl vstd::std_specs::convert::FromSpecImpl<TokenizeError> for JsonError {
    open spec fn obeys_from_spec() -> bool {
        true
    }

    open spec fn from_spec(v: TokenizeError) -> JsonError {
        JsonError::Tokenizer(v)
    }
}

impl From<ParseError> for JsonError {
    fn from(err: ParseError) -> (r: JsonError) {
        JsonError::Parser(err)
    }
}

impl vstd::std_specs::convert::FromSpecImpl<ParseError> for JsonError {
    open spec fn obeys_from_spec() -> bool {
        true
    }

    open spec fn from_spec(v: ParseError) -> JsonError {
        JsonError::Parser(v)
    }
}

/// The value that the text `s` denotes, or the first error of the first
/// stage that fails.
pub open spec fn spec_from_str(s: Seq<char>) -> Result<SpecValue, SpecJsonError> {
    match spec_tokenize(s) {
        Err(e) => Err(SpecJsonError::Tokenizer(e)),
        Ok(ts) => match spec_parse(ts) {
            Err(e) => Err(SpecJsonError::Parser(e)),
            Ok(v) => Ok(v),
        },
    }
}

pub open spec fn from_str_view(r: Result<Value, JsonError>) -> Result<SpecValue, SpecJsonError> {
    match r {
        Ok(v) => Ok(v@),
        Err(e) => Err(e@),
    }
}

/// The main entry point: tokenizes `input`, parses the tokens, and returns
/// the value tree.
pub fn from_str(input: &str) -> (r: Result<Value, JsonError>)
    ensures
        from_str_view(r) == spec_from_str(input@),
{
    let tokens = match tokenize(input) {
        Ok(t) => t,
        Err(e) => {
            return Err(JsonError::from(e));
        },
    };
    match parse(tokens.as_slice()) {
        Ok(v) => Ok(v),
        Err(e) => Err(JsonError::from(e)),
    }
}

} // verus!
