//! The token syntax as functions on byte sequences.
//!
//! [`scan`] says what one step of the tokenizer yields on a given input and
//! what input it leaves, [`scan_all`] what a whole input yields. The cursor
//! of [`crate::parser`] is held to these.

use crate::bytes::{
    alphanumerics, digits, find, is_digit, is_letter, is_space, lemma_find, lemma_run_len,
    line_body, occurs_at, run_len, spaces,
};
use vstd::prelude::*;

verus! {

/// A condition that ends tokenizing for good.
#[derive(Debug, Clone, Copy, PartialEq, Eq)]
pub enum LexError {
    /// A run of digits whose value does not fit a 32-bit signed integer.
    MalformedNumber,
    /// A byte that starts none of the tokens.
    UnrecognizedToken,
}

/// A token as a mathematical value.
pub enum Lexeme {
    /// The value of a run of decimal digits.
    Number(int),
    /// The characters of a run of letters and digits.
    Symbol(Seq<char>),
    /// The number of bytes between `<<` and `>>`.
    Dictionary(nat),
    /// The bytes between the `stream` and `endstream` markers.
    Stream(Seq<u8>),
}

/// The byte `%`, which opens a comment.
pub const COMMENT: u8 = 0x25;

/// The line feed, which ends a line.
pub const LINE_FEED: u8 = 0x0A;

/// The marker `<<`, which opens a dictionary.
pub const DICT_OPEN: [u8; 2] = [0x3C, 0x3C];

/// The marker `>>`, which closes a dictionary.
pub const DICT_CLOSE: [u8; 2] = [0x3E, 0x3E];

/// The marker that opens a stream: `stream` and a line feed.
pub const STREAM_OPEN: [u8; 7] = [0x73, 0x74, 0x72, 0x65, 0x61, 0x6D, 0x0A];

/// The marker that closes a stream: a line feed and `endstream`.
pub const STREAM_CLOSE: [u8; 10] = [0x0A, 0x65, 0x6E, 0x64, 0x73, 0x74, 0x72, 0x65, 0x61, 0x6D];

/// `s` without its leading whitespace.
pub open spec fn trim_spaces(s: Seq<u8>) -> Seq<u8> {
    s.skip(run_len(s, spaces()) as int)
}

/// `s` without its first line: what follows the first line feed, or nothing
/// where `s` holds no line feed.
pub open spec fn drop_line(s: Seq<u8>) -> Seq<u8> {
    let n = run_len(s, line_body());
    if n < s.len() {
        s.skip((n + 1) as int)
    } else {
        s.skip(n as int)
    }
}

/// `s` without its leading whitespace and comments. A comment runs from a `%`
/// to the end of its line.
pub open spec fn skip_blank(s: Seq<u8>) -> Seq<u8>
    decreases s.len(),
{
    let t = trim_spaces(s);
    if t.len() > 0 && t[0] == COMMENT {
        proof {
            lemma_run_len(s, spaces());
            lemma_run_len(t, line_body());
        }
        skip_blank(drop_line(t))
    } else {
        t
    }
}

/// The part of `s` before the first occurrence of `marker`; all of `s` where
/// it does not occur.
pub open spec fn before_marker(s: Seq<u8>, marker: Seq<u8>) -> Seq<u8> {
    s.take(find(s, marker) as int)
}

/// The part of `s` after the first occurrence of `marker`; nothing where it
/// does not occur.
pub open spec fn after_marker(s: Seq<u8>, marker: Seq<u8>) -> Seq<u8> {
    let n = find(s, marker);
    if occurs_at(s, marker, n as int) {
        s.skip((n + marker.len()) as int)
    } else {
        s.skip(n as int)
    }
}

/// The bytes of a bracketed span at the front of `s`: what stands between
/// the opening marker `bra`, which is taken to stand at the front, and the
/// first closing marker `ket` after it; all that follows `bra` where no `ket`
/// does.
pub open spec fn span_body(s: Seq<u8>, bra: Seq<u8>, ket: Seq<u8>) -> Seq<u8> {
    before_marker(s.skip(bra.len() as int), ket)
}

/// What follows a bracketed span at the front of `s`: what stands after the
/// first closing marker `ket` that follows the opening marker `bra`; nothing
/// where no `ket` does.
pub open spec fn span_rest(s: Seq<u8>, bra: Seq<u8>, ket: Seq<u8>) -> Seq<u8> {
    after_marker(s.skip(bra.len() as int), ket)
}

/// `d` is a number in decimal digits: it is not empty and holds digits only.
pub open spec fn is_decimal(d: Seq<u8>) -> bool {
    &&& d.len() > 0
    &&& forall|i: int| 0 <= i < d.len() ==> is_digit(#[trigger] d[i])
}

/// The number that the decimal digits `d` write.
pub open spec fn decimal_value(d: Seq<u8>) -> nat
    decreases d.len(),
{
    if d.len() == 0 {
        0
    } else {
        10 * decimal_value(d.drop_last()) + (d.last() - 0x30) as nat
    }
}

/// `decimal_value` grows with every digit that is added.
pub proof fn lemma_decimal_value_grows(d: Seq<u8>, k: int)
    requires
        0 <= k <= d.len(),
    ensures
        decimal_value(d.take(k)) <= decimal_value(d),
    decreases d.len(),
{
    if k < d.len() {
        assert(d.drop_last().take(k) =~= d.take(k));
        lemma_decimal_value_grows(d.drop_last(), k);
    } else {
        assert(d.take(k) =~= d);
    }
}

/// The ASCII bytes `b` as characters.
pub open spec fn ascii_text(b: Seq<u8>) -> Seq<char> {
    Seq::new(b.len(), |i: int| b[i] as char)
}

/// One step of tokenizing: what it yields and what input it leaves.
pub struct Step {
    /// The token, `Ok(None)` at the end of the input, or the error.
    pub result: Result<Option<Lexeme>, LexError>,
    /// The input that is left.
    pub rest: Seq<u8>,
}

/// The step that a number makes of `t`, which starts with a digit.
pub open spec fn scan_number(t: Seq<u8>) -> Step {
    let n = run_len(t, digits()) as int;
    let value = decimal_value(t.take(n));
    if value <= i32::MAX {
        Step { result: Ok(Some(Lexeme::Number(value as int))), rest: t.skip(n) }
    } else {
        Step { result: Err(LexError::MalformedNumber), rest: t }
    }
}

/// The step that a symbol makes of `t`, which starts with a letter.
pub open spec fn scan_symbol(t: Seq<u8>) -> Step {
    let n = run_len(t, alphanumerics()) as int;
    Step { result: Ok(Some(Lexeme::Symbol(ascii_text(t.take(n))))), rest: t.skip(n) }
}

/// One step of tokenizing `s`.
///
/// Whitespace and comments are skipped first. Then a digit starts a number,
/// `<<` a dictionary, `stream` and a line feed a stream, a letter a symbol;
/// any other byte is an error. A dictionary or stream ends at the first
/// closing marker, or at the end of the input. An error leaves the input at
/// the byte where the token would start.
pub open spec fn scan(s: Seq<u8>) -> Step {
    let t = skip_blank(s);
    if t.len() == 0 {
        Step { result: Ok(None), rest: t }
    } else if is_digit(t[0]) {
        scan_number(t)
    } else if occurs_at(t, DICT_OPEN@, 0) {
        Step {
            result: Ok(Some(Lexeme::Dictionary(span_body(t, DICT_OPEN@, DICT_CLOSE@).len()))),
            rest: span_rest(t, DICT_OPEN@, DICT_CLOSE@),
        }
    } else if occurs_at(t, STREAM_OPEN@, 0) {
        Step {
            result: Ok(Some(Lexeme::Stream(span_body(t, STREAM_OPEN@, STREAM_CLOSE@)))),
            rest: span_rest(t, STREAM_OPEN@, STREAM_CLOSE@),
        }
    } else if is_letter(t[0]) {
        scan_symbol(t)
    } else {
        Step { result: Err(LexError::UnrecognizedToken), rest: t }
    }
}

/// `skip_blank` drops a prefix, and what it leaves starts with a byte that
/// is neither whitespace nor `%`.
pub proof fn lemma_skip_blank(s: Seq<u8>)
    ensures
        skip_blank(s).len() <= s.len(),
        skip_blank(s) == s.skip(s.len() - skip_blank(s).len()),
        skip_blank(s).len() > 0 ==> !is_space(skip_blank(s)[0]) && skip_blank(s)[0]
            != COMMENT,
    decreases s.len(),
{
    lemma_run_len(s, spaces());
    let t = trim_spaces(s);
    if t.len() > 0 && t[0] == COMMENT {
        lemma_run_len(t, line_body());
        lemma_skip_blank(drop_line(t));
    }
}

/// `after_marker` drops a prefix.
pub proof fn lemma_after_marker(s: Seq<u8>, marker: Seq<u8>)
    ensures
        after_marker(s, marker).len() <= s.len(),
        after_marker(s, marker) == s.skip(s.len() - after_marker(s, marker).len()),
{
    lemma_find(s, marker);
}

/// A step leaves a suffix of its input, and a token takes at least one byte.
pub proof fn lemma_scan_rest(s: Seq<u8>)
    ensures
        scan(s).rest.len() <= s.len(),
        scan(s).rest == s.skip(s.len() - scan(s).rest.len()),
        scan(s).result matches Ok(Some(_)) ==> scan(s).rest.len() < s.len(),
{
    lemma_skip_blank(s);
    let t = skip_blank(s);
    if t.len() > 0 {
        if is_digit(t[0]) {
            lemma_run_len(t, digits());
        } else if occurs_at(t, DICT_OPEN@, 0) {
            lemma_after_marker(t.skip(DICT_OPEN@.len() as int), DICT_CLOSE@);
        } else if occurs_at(t, STREAM_OPEN@, 0) {
            lemma_after_marker(t.skip(STREAM_OPEN@.len() as int), STREAM_CLOSE@);
        } else if is_letter(t[0]) {
            lemma_run_len(t, alphanumerics());
        }
    }
}

/// What tokenizing a whole input yields: the tokens in order, the error
/// that cut them short, if one did, and the input that is left.
pub struct Scanned {
    /// The tokens, in the order in which they stand in the input.
    pub tokens: Seq<Lexeme>,
    /// The error that ended tokenizing, or `None` where the input was read
    /// to its end.
    pub error: Option<LexError>,
    /// The input that is left: nothing at the end of the input, and after
    /// an error what starts with the byte that caused it.
    pub rest: Seq<u8>,
}

/// What tokenizing all of `s` yields: the steps of [`scan`], one after the
/// other, until one of them yields no token.
pub open spec fn scan_all(s: Seq<u8>) -> Scanned
    decreases s.len(),
{
    let step = scan(s);
    match step.result {
        Ok(Some(token)) => {
            proof {
                lemma_scan_rest(s);
            }
            let tail = scan_all(step.rest);
            Scanned { tokens: seq![token] + tail.tokens, error: tail.error, rest: tail.rest }
        },
        Ok(None) => Scanned { tokens: Seq::empty(), error: None, rest: step.rest },
        Err(e) => Scanned { tokens: Seq::empty(), error: Some(e), rest: step.rest },
    }
}

} // verus!
