//! The tokenizer: a cursor over a byte buffer.

use crate::bytes::{
    alphanumeric, alphanumerics, digit, digits, is_alphanumeric, is_digit, is_space,
    lemma_find_unique, lemma_run_len, lemma_run_len_unique, letter, line_body, occurs_at, space,
    spaces, starts_with_at,
};
use crate::grammar::{
    decimal_value, drop_line, is_decimal, lemma_decimal_value_grows, lemma_scan_rest,
    lemma_skip_blank, scan, scan_all, skip_blank, span_body, span_rest, trim_spaces, LexError,
    COMMENT, DICT_CLOSE, DICT_OPEN, LINE_FEED, STREAM_CLOSE, STREAM_OPEN,
};
use crate::text::ascii_str;
use crate::token::{lexemes, outcome, Token, Tokens};
use vstd::prelude::*;

verus! {

/// A cursor over a byte buffer that hands out its tokens one by one.
///
/// The cursor borrows the buffer. Its view is the part of the buffer that is
/// still ahead; every operation leaves a suffix of what was there before.
pub struct PdfParser<'a> {
    content: &'a [u8],
}

impl<'a> View for PdfParser<'a> {
    type V = Seq<u8>;

    closed spec fn view(&self) -> Seq<u8> {
        self.content@
    }
}

impl<'a> PdfParser<'a> {
    /// A cursor at the start of `content`.
    pub fn from_bytes(content: &'a [u8]) -> (parser: Self)
        ensures
            parser@ == content@,
    {
        Self { content }
    }

    /// The part of the buffer that is still ahead.
    pub fn remaining(&self) -> (rest: &'a [u8])
        ensures
            rest@ == self@,
    {
        self.content
    }

    /// Moves past the whitespace at the front.
    pub fn trim_left_spaces(&mut self)
        ensures
            final(self)@ == trim_spaces(old(self)@),
            final(self)@.is_suffix_of(old(self)@),
    {
        let content = self.content;
        let mut index: usize = 0;
        while index < content.len() && space(content[index])
            invariant
                index <= content@.len(),
                forall|i: int| 0 <= i < index ==> is_space(#[trigger] content@[i]),
            decreases content@.len() - index,
        {
            index += 1;
        }
        proof {
            lemma_run_len_unique(content@, spaces(), index as int);
        }
        self.content = &content[index..content.len()];
    }

    /// Moves past the rest of the line: past the first line feed, or to the
    /// end of the buffer where there is none.
    pub fn drop_line(&mut self)
        ensures
            final(self)@ == drop_line(old(self)@),
            final(self)@.is_suffix_of(old(self)@),
    {
        let content = self.content;
        let mut index: usize = 0;
        while index < content.len() && content[index] != LINE_FEED
            invariant
                index <= content@.len(),
                forall|i: int| 0 <= i < index ==> #[trigger] content@[i] != LINE_FEED,
            decreases content@.len() - index,
        {
            index += 1;
        }
        proof {
            lemma_run_len_unique(content@, line_body(), index as int);
        }
        if index < content.len() {
            self.content = &content[index + 1..content.len()];
        } else {
            self.content = &content[index..content.len()];
        }
    }

    /// Moves past whitespace and comments, up to the first byte that is
    /// neither, or to the end of the buffer.
    pub fn trim_left_spaces_and_comments(&mut self)
        ensures
            final(self)@ == skip_blank(old(self)@),
            final(self)@.is_suffix_of(old(self)@),
    {
        proof {
            lemma_skip_blank(old(self)@);
        }
        loop
            invariant
                skip_blank(self@) == skip_blank(old(self)@),
            ensures
                self@ == skip_blank(old(self)@),
            decreases self@.len(),
        {
            let ghost before = self@;
            self.trim_left_spaces();
            proof {
                lemma_run_len(before, spaces());
                lemma_run_len(self@, line_body());
            }
            if self.content.len() > 0 && self.content[0] == COMMENT {
                self.drop_line();
                continue ;
            } else {
                break ;
            }
        }
    }

    /// Takes a bracketed span off the front: moves past the opening marker
    /// `bra`, which is taken to stand at the front, and returns the bytes up
    /// to the first closing marker `ket`, which it moves past too. Where no
    /// `ket` follows, the span is all that is left, and nothing remains.
    pub fn chop_brackets(&mut self, bra: &[u8], ket: &[u8]) -> (bytes: &'a [u8])
        requires
            bra@.len() <= old(self)@.len(),
        ensures
            bytes@ == span_body(old(self)@, bra@, ket@),
            final(self)@ == span_rest(old(self)@, bra@, ket@),
            final(self)@.is_suffix_of(old(self)@),
    {
        let content = &self.content[bra.len()..self.content.len()];
        let mut index: usize = 0;
        while index < content.len() && !starts_with_at(content, index, ket)
            invariant
                index <= content@.len(),
                forall|i: int| 0 <= i < index ==> !#[trigger] occurs_at(content@, ket@, i),
            decreases content@.len() - index,
        {
            index += 1;
        }
        proof {
            lemma_find_unique(content@, ket@, index as int);
        }
        let bytes = &content[0..index];
        if starts_with_at(content, index, ket) {
            self.content = &content[index + ket.len()..content.len()];
        } else {
            self.content = &content[index..content.len()];
        }
        bytes
    }

    /// The next token, `Ok(None)` once nothing but whitespace and comments
    /// is left, or the error that ends tokenizing. A token moves the cursor
    /// past its bytes; an error leaves it at the byte that caused it.
    pub fn next_token(&mut self) -> (r: Result<Option<Token<'a>>, LexError>)
        ensures
            outcome(r) == scan(old(self)@).result,
            final(self)@ == scan(old(self)@).rest,
            final(self)@.is_suffix_of(old(self)@),
            r matches Ok(Some(_)) ==> final(self)@.len() < old(self)@.len(),
    {
        proof {
            lemma_scan_rest(old(self)@);
        }
        self.trim_left_spaces_and_comments();
        let content = self.content;

        if content.len() == 0 {
            return Ok(None);
        }
        if digit(content[0]) {
            let mut index: usize = 0;
            while index < content.len() && digit(content[index])
                invariant
                    index <= content@.len(),
                    forall|i: int| 0 <= i < index ==> is_digit(#[trigger] content@[i]),
                decreases content@.len() - index,
            {
                index += 1;
            }
            proof {
                lemma_run_len_unique(content@, digits(), index as int);
            }
            return match parse_decimal(&content[0..index]) {
                Some(number) => {
                    self.content = &content[index..content.len()];
                    Ok(Some(Token::Number(number)))
                },
                None => Err(LexError::MalformedNumber),
            };
        }
        if starts_with_at(content, 0, DICT_OPEN.as_slice()) {
            let body = self.chop_brackets(DICT_OPEN.as_slice(), DICT_CLOSE.as_slice());
            return Ok(Some(Token::Dictionary(body.len())));
        }
        if starts_with_at(content, 0, STREAM_OPEN.as_slice()) {
            let body = self.chop_brackets(STREAM_OPEN.as_slice(), STREAM_CLOSE.as_slice());
            return Ok(Some(Token::Stream(body)));
        }
        if letter(content[0]) {
            let mut index: usize = 0;
            while index < content.len() && alphanumeric(content[index])
                invariant
                    index <= content@.len(),
                    forall|i: int| 0 <= i < index ==> is_alphanumeric(#[trigger] content@[i]),
                decreases content@.len() - index,
            {
                index += 1;
            }
            proof {
                lemma_run_len_unique(content@, alphanumerics(), index as int);
            }
            let symbol = ascii_str(&content[0..index]);
            self.content = &content[index..content.len()];
            return Ok(Some(Token::Symbol(symbol)));
        }
        Err(LexError::UnrecognizedToken)
    }

    /// All the tokens that are left, up to the end of the buffer or to the
    /// first error. The cursor ends where the last call of `next_token`
    /// leaves it.
    pub fn tokens(&mut self) -> (r: Tokens<'a>)
        ensures
            lexemes(r.tokens@) == scan_all(old(self)@).tokens,
            r.error == scan_all(old(self)@).error,
            final(self)@ == scan_all(old(self)@).rest,
            final(self)@.is_suffix_of(old(self)@),
    {
        let mut tokens: Vec<Token<'a>> = Vec::new();
        loop
            invariant
                scan_all(old(self)@).tokens == lexemes(tokens@) + scan_all(self@).tokens,
                scan_all(old(self)@).error == scan_all(self@).error,
                scan_all(old(self)@).rest == scan_all(self@).rest,
                self@.is_suffix_of(old(self)@),
            decreases self@.len(),
        {
            let ghost found = lexemes(tokens@);
            match self.next_token() {
                Ok(Some(token)) => {
                    tokens.push(token);
                    proof {
                        assert(found + (seq![token@] + scan_all(self@).tokens) =~= found.push(
                            token@,
                        ) + scan_all(self@).tokens);
                    }
                },
                Ok(None) => return Tokens { tokens, error: None },
                Err(error) => return Tokens { tokens, error: Some(error) },
            }
        }
    }
}

/// The number that `d` writes in decimal digits: `None` where `d` is empty,
/// holds a byte that is no digit, or writes a number that does not fit an
/// `i32`.
pub fn parse_decimal(d: &[u8]) -> (r: Option<i32>)
    ensures
        r is Some <==> is_decimal(d@) && decimal_value(d@) <= i32::MAX,
        r matches Some(n) ==> n == decimal_value(d@),
{
    if d.len() == 0 {
        return None;
    }
    let mut value: i32 = 0;
    let mut k: usize = 0;
    while k < d.len()
        invariant
            0 < d@.len(),
            k <= d@.len(),
            0 <= value == decimal_value(d@.take(k as int)),
            forall|i: int| 0 <= i < k ==> is_digit(#[trigger] d@[i]),
        decreases d@.len() - k,
    {
        if !digit(d[k]) {
            return None;
        }
        let units: i32 = (d[k] - 0x30) as i32;
        proof {
            assert(d@.take(k + 1).drop_last() =~= d@.take(k as int));
            lemma_decimal_value_grows(d@, k + 1);
        }
        if value > (i32::MAX - units) / 10 {
            return None;
        }
        value = value * 10 + units;
        k += 1;
    }
    proof {
        assert(d@.take(k as int) =~= d@);
    }
    Some(value)
}

} // verus!
