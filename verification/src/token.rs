//! The tokens that the tokenizer hands out.

use crate::grammar::{LexError, Lexeme};
use vstd::prelude::*;

verus! {

/// One token. Text and bytes are borrowed from the buffer that was tokenized.
#[derive(Debug, Clone, Copy, PartialEq, Eq)]
pub enum Token<'a> {
    /// A decimal integer.
    Number(i32),
    /// A run of ASCII letters and digits that starts with a letter.
    Symbol(&'a str),
    /// The number of bytes between `<<` and the first `>>` after it.
    Dictionary(usize),
    /// The bytes between `stream` and the first `endstream` after it.
    Stream(&'a [u8]),
}

impl<'a> View for Token<'a> {
    type V = Lexeme;

    open spec fn view(&self) -> Lexeme {
        match *self {
            Token::Number(n) => Lexeme::Number(n as int),
            Token::Symbol(text) => Lexeme::Symbol(text@),
            Token::Dictionary(len) => Lexeme::Dictionary(len as nat),
            Token::Stream(bytes) => Lexeme::Stream(bytes@),
        }
    }
}

/// What a call of the tokenizer returned, as a mathematical value.
pub open spec fn outcome(r: Result<Option<Token<'_>>, LexError>) -> Result<
    Option<Lexeme>,
    LexError,
> {
    match r {
        Ok(Some(token)) => Ok(Some(token@)),
        Ok(None) => Ok(None),
        Err(e) => Err(e),
    }
}

/// The tokens of `tokens` as mathematical values.
pub open spec fn lexemes(tokens: Seq<Token<'_>>) -> Seq<Lexeme> {
    Seq::new(tokens.len(), |i: int| tokens[i]@)
}

/// All the tokens of an input, and how tokenizing it ended.
#[derive(Debug, PartialEq, Eq)]
pub struct Tokens<'a> {
    /// The tokens, in the order in which they stand in the input.
    pub tokens: Vec<Token<'a>>,
    /// The error that ended tokenizing, or `None` where the input was read
    /// to its end.
    pub error: Option<LexError>,
}

} // verus!
