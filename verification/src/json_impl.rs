//! Lexical tokens of the wire format.

use vstd::prelude::*;
use crate::json_number::JsonNumber;

verus! {

/// Spec-level tokens: what the lexer's output means.
#[verifier::ext_equal]
pub enum TokData {
    Text(Seq<char>),
    Number(Seq<char>),
    Boolean(bool),
    Null,
    Comma,
    Colon,
    LeftBrace,
    RightBrace,
    LeftBracket,
    RightBracket,
}

/// One lexical token.  Tokens are produced and consumed strictly in sequence.
#[derive(Debug, PartialEq)]
pub enum JsonToken {
    Text(String),
    Number(JsonNumber),
    Boolean(bool),
    Null,
    Comma,
    Colon,
    LeftBrace,
    RightBrace,
    LeftBracket,
    RightBracket,
}

impl View for JsonToken {
    type V = TokData;

    open spec fn view(&self) -> TokData {
        match self {
            JsonToken::Text(s) => TokData::Text(s@),
            JsonToken::Number(num) => TokData::Number(num@),
            JsonToken::Boolean(b) => TokData::Boolean(*b),
            JsonToken::Null => TokData::Null,
            JsonToken::Comma => TokData::Comma,
            JsonToken::Colon => TokData::Colon,
            JsonToken::LeftBrace => TokData::LeftBrace,
            JsonToken::RightBrace => TokData::RightBrace,
            JsonToken::LeftBracket => TokData::LeftBracket,
            JsonToken::RightBracket => TokData::RightBracket,
        }
    }
}

impl JsonToken {
    /// A copy of this token with the same view.
    pub fn duplicate(&self) -> (r: JsonToken)
        ensures
            r@ == self@,
    {
        match self {
            JsonToken::Text(s) => JsonToken::Text(s.clone()),
            JsonToken::Number(num) => JsonToken::Number(num.duplicate()),
            JsonToken::Boolean(b) => JsonToken::Boolean(*b),
            JsonToken::Null => JsonToken::Null,
            JsonToken::Comma => JsonToken::Comma,
            JsonToken::Colon => JsonToken::Colon,
            JsonToken::LeftBrace => JsonToken::LeftBrace,
            JsonToken::RightBrace => JsonToken::RightBrace,
            JsonToken::LeftBracket => JsonToken::LeftBracket,
            JsonToken::RightBracket => JsonToken::RightBracket,
        }
    }
}

/// View of a whole token queue.
pub open spec fn toks_data(ts: Seq<JsonToken>) -> Seq<TokData> {
    ts.map(|i: int, t: JsonToken| t@)
}

} // verus!
