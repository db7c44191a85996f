//! Text out of the raw bytes of a stream.
//!
//! The bytes between `stream` and `endstream` are usually zlib-compressed
//! text. [`decode`] inflates them; where that fails it falls back on the
//! first bytes of the stream, read as text.

use vstd::prelude::*;
use vstd::utf8::{decode_utf8, valid_utf8};

verus! {

/// The error of a failed read, carried through unread.
#[verifier::external_type_specification]
#[verifier::external_body]
pub struct ExIoError(std::io::Error);

/// The text that the zlib stream `data` inflates to: what reading a
/// `flate2::read::ZlibDecoder` over `data` to its end as a string gives, and
/// `None` where that read fails (the data is cut short or corrupt, or what
/// it inflates to is not UTF-8).
pub uninterp spec fn inflated_text(data: Seq<u8>) -> Option<Seq<char>>;

/// Reads a `flate2::read::ZlibDecoder` over `data` to its end with
/// `read_to_string`. The contract only names the outcome: the text is
/// `inflated_text` of the data, and an error comes exactly where that is
/// `None`. The decoder reads from memory, so the outcome depends on nothing
/// but the bytes.
#[verifier::external_body]
fn inflate(data: &[u8]) -> (r: Result<String, std::io::Error>)
    ensures
        r matches Ok(text) ==> inflated_text(data@) == Some(text@),
        r is Err ==> inflated_text(data@) is None,
{
    let mut decoder = flate2::read::ZlibDecoder::new(data);
    let mut text = String::new();
    match std::io::Read::read_to_string(&mut decoder, &mut text) {
        Ok(_) => Ok(text),
        Err(e) => Err(e),
    }
}

/// How many bytes of a stream that does not inflate are read as text.
pub const HEAD_LEN: usize = 8;

/// What can be shown of a stream.
#[derive(Debug)]
pub enum StreamText<'a> {
    /// The text that the stream inflates to.
    Inflated(String),
    /// The stream does not inflate, for the reason `cause`; its first
    /// `HEAD_LEN` bytes are the text `head`.
    Head { cause: std::io::Error, head: &'a str },
    /// The stream does not inflate, for the reason `cause`, and its first
    /// `HEAD_LEN` bytes are no text, for the reason `head_cause`.
    Unreadable { cause: std::io::Error, head_cause: core::str::Utf8Error },
}

/// What can be shown of a stream, as a mathematical value.
pub enum Shown {
    /// The text that the stream inflates to.
    Inflated(Seq<char>),
    /// The text of the first bytes of a stream that does not inflate.
    Head(Seq<char>),
    /// Nothing: the stream does not inflate and does not start with text.
    Unreadable,
}

impl<'a> View for StreamText<'a> {
    type V = Shown;

    open spec fn view(&self) -> Shown {
        match *self {
            StreamText::Inflated(text) => Shown::Inflated(text@),
            StreamText::Head { head, .. } => Shown::Head(head@),
            StreamText::Unreadable { .. } => Shown::Unreadable,
        }
    }
}

/// What is shown of the stream `bytes`, given the text that it inflates to:
/// that text; else the first `HEAD_LEN` bytes, where they are UTF-8.
pub open spec fn shown(bytes: Seq<u8>, inflated: Option<Seq<char>>) -> Shown {
    match inflated {
        Some(text) => Shown::Inflated(text),
        None => {
            let head = bytes.take(HEAD_LEN as int);
            if valid_utf8(head) {
                Shown::Head(decode_utf8(head))
            } else {
                Shown::Unreadable
            }
        },
    }
}

/// The text of an attempt to inflate, as a mathematical value.
pub open spec fn text_of(inflated: Result<String, std::io::Error>) -> Option<Seq<char>> {
    match inflated {
        Ok(text) => Some(text@),
        Err(_) => None,
    }
}

/// What is shown of the stream `bytes`, given the outcome `inflated` of
/// inflating it. A stream that did not inflate has to hold `HEAD_LEN` bytes.
pub fn decode_with<'a>(bytes: &'a [u8], inflated: Result<String, std::io::Error>) -> (r:
    StreamText<'a>)
    requires
        inflated is Err ==> bytes@.len() >= HEAD_LEN,
    ensures
        r@ == shown(bytes@, text_of(inflated)),
        inflated matches Ok(text) ==> r == StreamText::Inflated(text),
        inflated matches Err(e) ==> match r {
            StreamText::Inflated(_) => false,
            StreamText::Head { cause, .. } => cause == e,
            StreamText::Unreadable { cause, .. } => cause == e,
        },
{
    match inflated {
        Ok(text) => StreamText::Inflated(text),
        Err(cause) => {
            let head = &bytes[0..HEAD_LEN];
            match core::str::from_utf8(head) {
                Ok(head) => {
                    proof {
                        vstd::utf8::encode_utf8_decode_utf8(head@);
                    }
                    StreamText::Head { cause, head }
                },
                Err(head_cause) => StreamText::Unreadable { cause, head_cause },
            }
        },
    }
}

/// What is shown of the stream `bytes`: the text that it inflates to, or
/// what its first `HEAD_LEN` bytes give. A stream that does not inflate and
/// is shorter than that gives the error of the attempt to inflate it.
pub fn decode<'a>(bytes: &'a [u8]) -> (r: Result<StreamText<'a>, std::io::Error>)
    ensures
        r is Err <==> inflated_text(bytes@) is None && bytes@.len() < HEAD_LEN,
        r matches Ok(text) ==> text@ == shown(bytes@, inflated_text(bytes@)),
{
    match inflate(bytes) {
        Ok(text) => Ok(decode_with(bytes, Ok(text))),
        Err(cause) => {
            if bytes.len() < HEAD_LEN {
                Err(cause)
            } else {
                Ok(decode_with(bytes, Err(cause)))
            }
        },
    }
}

} // verus!
