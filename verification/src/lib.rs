//! A tokenizer for the low-level object syntax of PDF files.
//!
//! [`PdfParser`] is a cursor over a byte buffer. Each call of
//! [`PdfParser::next_token`] skips whitespace and `%` comments and hands out
//! one [`Token`]: a decimal number, a bare symbol, the length of a `<<`...`>>`
//! block, or the raw bytes between `stream` and `endstream`. What each call
//! returns is stated over the byte sequence still ahead of the cursor, by the
//! functions of [`grammar`]; [`laws`] proves what follows from them for whole
//! families of inputs. [`stream`] turns the raw bytes of a stream into text.

pub mod bytes;
pub mod grammar;
pub mod laws;
pub mod parser;
pub mod stream;
pub mod text;
pub mod token;

pub use crate::grammar::LexError;
pub use crate::parser::PdfParser;
pub use crate::token::{Token, Tokens};
