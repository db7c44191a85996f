use pdf_lexer::grammar::LexError;
use pdf_lexer::parser::PdfParser;
use pdf_lexer::token::{Token, Tokens};

fn tokens(buffer: &[u8]) -> (Vec<Token<'_>>, Option<LexError>) {
    let mut parser = PdfParser::from_bytes(buffer);
    let mut found = Vec::new();
    loop {
        match parser.next_token() {
            Ok(Some(token)) => found.push(token),
            Ok(None) => return (found, None),
            Err(error) => return (found, Some(error)),
        }
    }
}

#[test]
fn tokens_collects_what_next_token_hands_out() {
    let inputs: [&[u8]; 8] = [
        b"",
        b"  %comment\n123 foo<<abc>>",
        b"stream\nhello\nendstream",
        b"<<nested<<inner>>outer>>",
        b"<<unterminated",
        b"#bad",
        b"1 2 3 99999999999 4",
        b"1 0 obj <</Length 3>> stream\nabc\nendstream endobj % end",
    ];
    for input in inputs {
        let (found, error) = tokens(input);
        let mut parser = PdfParser::from_bytes(input);
        assert_eq!(parser.tokens(), Tokens { tokens: found, error });
    }
}

#[test]
fn tokens_leaves_cursor_at_end_or_error() {
    let mut parser = PdfParser::from_bytes(b"1 two <<3>> % done");
    let all = parser.tokens();
    assert_eq!(
        all.tokens,
        vec![Token::Number(1), Token::Symbol("two"), Token::Dictionary(1)]
    );
    assert_eq!(all.error, None);
    assert_eq!(parser.remaining(), b"");
    assert_eq!(parser.tokens(), Tokens { tokens: vec![], error: None });

    let mut parser = PdfParser::from_bytes(b"1 two /three 4");
    let all = parser.tokens();
    assert_eq!(all.tokens, vec![Token::Number(1), Token::Symbol("two")]);
    assert_eq!(all.error, Some(LexError::UnrecognizedToken));
    assert_eq!(parser.remaining(), b"/three 4");
    assert_eq!(
        parser.tokens(),
        Tokens { tokens: vec![], error: Some(LexError::UnrecognizedToken) }
    );
}

#[test]
fn tokens_after_some_were_taken() {
    let mut parser = PdfParser::from_bytes(b"a b c");
    assert_eq!(parser.next_token(), Ok(Some(Token::Symbol("a"))));
    assert_eq!(
        parser.tokens(),
        Tokens { tokens: vec![Token::Symbol("b"), Token::Symbol("c")], error: None }
    );
}

#[test]
fn comment_number_symbol_dictionary() {
    let (found, error) = tokens(b"  %comment\n123 foo<<abc>>");
    assert_eq!(
        found,
        vec![Token::Number(123), Token::Symbol("foo"), Token::Dictionary(3)]
    );
    assert_eq!(error, None);
}

#[test]
fn stream_between_markers() {
    let (found, error) = tokens(b"stream\nhello\nendstream");
    assert_eq!(found, vec![Token::Stream(b"hello")]);
    assert_eq!(error, None);
}

#[test]
fn nested_dictionary_ends_at_first_close() {
    let mut parser = PdfParser::from_bytes(b"<<nested<<inner>>outer>>");
    assert_eq!(
        parser.next_token(),
        Ok(Some(Token::Dictionary("nested<<inner".len())))
    );
    assert_eq!(parser.remaining(), b"outer>>");
}

#[test]
fn nested_dictionary_then_symbol_then_error() {
    let (found, error) = tokens(b"<<nested<<inner>>outer>>");
    assert_eq!(
        found,
        vec![Token::Dictionary(13), Token::Symbol("outer")]
    );
    assert_eq!(error, Some(LexError::UnrecognizedToken));
}

#[test]
fn unterminated_dictionary_runs_to_the_end() {
    let mut parser = PdfParser::from_bytes(b"<<unterminated");
    assert_eq!(
        parser.next_token(),
        Ok(Some(Token::Dictionary("unterminated".len())))
    );
    assert_eq!(parser.remaining(), b"");
    assert_eq!(parser.next_token(), Ok(None));
}

#[test]
fn unrecognized_byte_is_an_error() {
    let mut parser = PdfParser::from_bytes(b"#bad");
    assert_eq!(parser.next_token(), Err(LexError::UnrecognizedToken));
    assert_eq!(parser.remaining(), b"#bad");
    let (found, error) = tokens(b"#bad");
    assert!(found.is_empty());
    assert_eq!(error, Some(LexError::UnrecognizedToken));
}

#[test]
fn error_leaves_cursor_at_offending_byte() {
    let mut parser = PdfParser::from_bytes(b"  % note\n\t/Name 1");
    assert_eq!(parser.next_token(), Err(LexError::UnrecognizedToken));
    assert_eq!(parser.remaining(), b"/Name 1");
    assert_eq!(parser.next_token(), Err(LexError::UnrecognizedToken));
    assert_eq!(parser.remaining(), b"/Name 1");
}

#[test]
fn other_unrecognized_bytes() {
    let inputs: [&[u8]; 10] = [
        b"/Foo", b"(text)", b"[1 2]", b"-5", b">>", b"<", b"<a", b"\x0B1", b"\x00", b"\xFF",
    ];
    for input in inputs {
        let mut parser = PdfParser::from_bytes(input);
        assert_eq!(parser.next_token(), Err(LexError::UnrecognizedToken));
        assert_eq!(parser.remaining(), input);
    }
}

#[test]
fn empty_input_is_the_end() {
    let mut parser = PdfParser::from_bytes(b"");
    assert_eq!(parser.next_token(), Ok(None));
    assert_eq!(parser.next_token(), Ok(None));
    assert_eq!(parser.remaining(), b"");
}

#[test]
fn blank_input_is_used_up() {
    for input in [
        &b" "[..],
        b" \t\r\n\x0C",
        b"%only a comment",
        b"%",
        b"% one\n% two\n",
        b"  % one\n\n\t% two % still two\n   % three without end",
        b"\n\n\n",
    ] {
        let mut parser = PdfParser::from_bytes(input);
        assert_eq!(parser.next_token(), Ok(None));
        assert_eq!(parser.remaining(), b"");
        assert_eq!(parser.next_token(), Ok(None));
    }
}

#[test]
fn digit_runs_are_numbers() {
    for (input, value) in [
        (&b"0"[..], 0),
        (b"7", 7),
        (b"42", 42),
        (b"123", 123),
        (b"0000000000000000000000123", 123),
        (b"2147483647", i32::MAX),
        (b"002147483647", i32::MAX),
        (b"1000000000", 1_000_000_000),
    ] {
        let mut parser = PdfParser::from_bytes(input);
        assert_eq!(parser.next_token(), Ok(Some(Token::Number(value))));
        assert_eq!(parser.remaining(), b"");
        assert_eq!(parser.next_token(), Ok(None));
    }
}

#[test]
fn number_ends_at_first_non_digit() {
    let mut parser = PdfParser::from_bytes(b"12ab 3.5");
    assert_eq!(parser.next_token(), Ok(Some(Token::Number(12))));
    assert_eq!(parser.remaining(), b"ab 3.5");
    assert_eq!(parser.next_token(), Ok(Some(Token::Symbol("ab"))));
    assert_eq!(parser.next_token(), Ok(Some(Token::Number(3))));
    assert_eq!(parser.remaining(), b".5");
    assert_eq!(parser.next_token(), Err(LexError::UnrecognizedToken));
}

#[test]
fn number_too_large_is_malformed() {
    for input in [
        &b"2147483648"[..],
        b"2147483650",
        b"3000000000",
        b"99999999999999999999999999",
        b"21474836470",
    ] {
        let mut parser = PdfParser::from_bytes(input);
        assert_eq!(parser.next_token(), Err(LexError::MalformedNumber));
        assert_eq!(parser.remaining(), input);
    }
}

#[test]
fn malformed_number_leaves_cursor_at_its_first_digit() {
    let mut parser = PdfParser::from_bytes(b"  1 99999999999 x");
    assert_eq!(parser.next_token(), Ok(Some(Token::Number(1))));
    assert_eq!(parser.next_token(), Err(LexError::MalformedNumber));
    assert_eq!(parser.remaining(), b"99999999999 x");
}

#[test]
fn alphanumeric_runs_are_symbols() {
    let inputs = [
        "a", "Z", "obj", "endobj", "R2D2", "stream", "streamX", "endstream", "x0123456789",
    ];
    for input in inputs {
        let mut parser = PdfParser::from_bytes(input.as_bytes());
        assert_eq!(parser.next_token(), Ok(Some(Token::Symbol(input))));
        assert_eq!(parser.remaining(), b"");
        assert_eq!(parser.next_token(), Ok(None));
    }
}

#[test]
fn symbol_ends_at_first_other_byte() {
    let mut parser = PdfParser::from_bytes(b"abc_def");
    assert_eq!(parser.next_token(), Ok(Some(Token::Symbol("abc"))));
    assert_eq!(parser.remaining(), b"_def");
    let mut parser = PdfParser::from_bytes(b"caf\xC3\xA9");
    assert_eq!(parser.next_token(), Ok(Some(Token::Symbol("caf"))));
    assert_eq!(parser.remaining(), b"\xC3\xA9");
}

#[test]
fn padding_changes_nothing() {
    let bodies: [&[u8]; 6] = [
        b"123",
        b"foo",
        b"<<abc>>",
        b"stream\nhello\nendstream",
        b"1 two <<3>> 4",
        b"#bad",
    ];
    let paddings: [&[u8]; 6] = [
        b"",
        b" ",
        b"\t\r\n \x0C",
        b"%comment\n",
        b"  % one\n  % two\n\n",
        b"%%\n%\n",
    ];
    for body in bodies {
        for padding in paddings {
            let mut padded = padding.to_vec();
            padded.extend_from_slice(body);
            assert_eq!(tokens(&padded), tokens(body));
        }
    }
}

#[test]
fn open_comment_swallows_what_follows() {
    let (found, error) = tokens(b"%comment 123");
    assert!(found.is_empty());
    assert_eq!(error, None);
}

#[test]
fn stream_round_trip() {
    let bodies: [&[u8]; 7] = [
        b"",
        b"hello",
        b"\n",
        b"\nendstrea",
        b"endstream",
        b"line one\nline two\n",
        b"\x00\xFF<<>>%stream\n",
    ];
    for body in bodies {
        let mut input = b"stream\n".to_vec();
        input.extend_from_slice(body);
        input.extend_from_slice(b"\nendstream");
        let (found, error) = tokens(&input);
        assert_eq!(found, vec![Token::Stream(body)]);
        assert_eq!(error, None);
    }
}

#[test]
fn stream_ends_at_first_endstream() {
    let mut parser = PdfParser::from_bytes(b"stream\nab\nendstream\nendstream");
    assert_eq!(parser.next_token(), Ok(Some(Token::Stream(b"ab"))));
    assert_eq!(parser.remaining(), b"\nendstream");
    assert_eq!(parser.next_token(), Ok(Some(Token::Symbol("endstream"))));
    assert_eq!(parser.next_token(), Ok(None));
}

#[test]
fn unterminated_stream_runs_to_the_end() {
    let mut parser = PdfParser::from_bytes(b"stream\nhello\nendstrea");
    assert_eq!(
        parser.next_token(),
        Ok(Some(Token::Stream(b"hello\nendstrea")))
    );
    assert_eq!(parser.remaining(), b"");
    assert_eq!(parser.next_token(), Ok(None));
}

#[test]
fn stream_marker_needs_its_line_feed() {
    let mut parser = PdfParser::from_bytes(b"stream hello");
    assert_eq!(parser.next_token(), Ok(Some(Token::Symbol("stream"))));
    assert_eq!(parser.next_token(), Ok(Some(Token::Symbol("hello"))));
    let mut parser = PdfParser::from_bytes(b"stream\r\nhello");
    assert_eq!(parser.next_token(), Ok(Some(Token::Symbol("stream"))));
}

#[test]
fn empty_spans() {
    let mut parser = PdfParser::from_bytes(b"<<>>");
    assert_eq!(parser.next_token(), Ok(Some(Token::Dictionary(0))));
    assert_eq!(parser.next_token(), Ok(None));
    let mut parser = PdfParser::from_bytes(b"<<");
    assert_eq!(parser.next_token(), Ok(Some(Token::Dictionary(0))));
    assert_eq!(parser.next_token(), Ok(None));
    let mut parser = PdfParser::from_bytes(b"stream\n");
    assert_eq!(parser.next_token(), Ok(Some(Token::Stream(b""))));
    assert_eq!(parser.next_token(), Ok(None));
    let mut parser = PdfParser::from_bytes(b"stream\n\nendstream");
    assert_eq!(parser.next_token(), Ok(Some(Token::Stream(b""))));
    assert_eq!(parser.next_token(), Ok(None));
}

#[test]
fn dictionary_round_trip() {
    let bodies: [&[u8]; 6] = [b"", b"abc", b"/Length 42", b"> a", b"<<", b"a>b<c"];
    for body in bodies {
        let mut input = b"<<".to_vec();
        input.extend_from_slice(body);
        input.extend_from_slice(b">>");
        let (found, error) = tokens(&input);
        assert_eq!(found, vec![Token::Dictionary(body.len())]);
        assert_eq!(error, None);
    }
}

#[test]
fn dictionary_body_ending_in_close_byte_ends_early() {
    let mut parser = PdfParser::from_bytes(b"<<a>>>");
    assert_eq!(parser.next_token(), Ok(Some(Token::Dictionary(1))));
    assert_eq!(parser.remaining(), b">");
    assert_eq!(parser.next_token(), Err(LexError::UnrecognizedToken));
}

#[test]
fn cursor_only_moves_forward() {
    let input: &[u8] = b" 1 %c\n two <<3>> stream\nfour\nendstream 5";
    let mut parser = PdfParser::from_bytes(input);
    let mut left = input.len();
    while let Ok(Some(_)) = parser.next_token() {
        let rest = parser.remaining();
        assert!(rest.len() < left);
        assert_eq!(rest, &input[input.len() - rest.len()..]);
        left = rest.len();
    }
    assert_eq!(parser.remaining(), b"");
}

#[test]
fn tokens_borrow_from_the_buffer() {
    let input = b"stream\npayload\nendstream name".to_vec();
    let mut parser = PdfParser::from_bytes(&input);
    let first = parser.next_token();
    let second = parser.next_token();
    match (first, second) {
        (Ok(Some(Token::Stream(bytes))), Ok(Some(Token::Symbol(text)))) => {
            assert_eq!(bytes.as_ptr(), input[7..].as_ptr());
            assert_eq!(text.as_ptr(), input[25..].as_ptr());
            assert_eq!(bytes, b"payload");
            assert_eq!(text, "name");
        }
        other => panic!("unexpected tokens: {:?}", other),
    }
}
