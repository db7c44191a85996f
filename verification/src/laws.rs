//! What holds of the token syntax on whole families of inputs.

use crate::bytes::{
    alphanumerics, digits, is_alphanumeric, is_letter, is_space, lemma_find_unique, lemma_run_len,
    lemma_run_len_goes_on, lemma_run_len_stops, lemma_run_len_unique, line_body, occurs_at,
    run_len, spaces,
};
use crate::grammar::{
    ascii_text, decimal_value, drop_line, is_decimal, lemma_skip_blank, scan, scan_all,
    skip_blank, trim_spaces, LexError, Lexeme, Scanned, Step, COMMENT, DICT_CLOSE, DICT_OPEN,
    LINE_FEED, STREAM_CLOSE, STREAM_OPEN,
};
use vstd::prelude::*;

verus! {

/// The byte at `i` stands in a comment: a `%` stands at or before it with no
/// line feed in between.
pub open spec fn in_comment(s: Seq<u8>, i: int) -> bool {
    exists|j: int|
        0 <= j <= i && #[trigger] s[j] == COMMENT && forall|k: int|
            j <= k < i ==> #[trigger] s[k] != LINE_FEED
}

/// `s` holds whitespace and comments only: every byte is whitespace or
/// stands in a comment.
pub open spec fn is_blank(s: Seq<u8>) -> bool {
    forall|i: int| 0 <= i < s.len() ==> is_space(s[i]) || #[trigger] in_comment(s, i)
}

/// `s` holds whitespace and whole comment lines only: it is blank, and a
/// line feed follows every `%`.
pub open spec fn is_padding(s: Seq<u8>) -> bool {
    &&& is_blank(s)
    &&& forall|j: int|
        0 <= j < s.len() && #[trigger] s[j] == COMMENT ==> exists|k: int|
            j < k < s.len() && #[trigger] s[k] == LINE_FEED
}

/// The step that yields `token` and leaves nothing.
pub open spec fn last_step(token: Lexeme) -> Step {
    Step { result: Ok(Some(token)), rest: Seq::empty() }
}

/// The step that reports the end and leaves nothing.
pub open spec fn end_step() -> Step {
    Step { result: Ok(None), rest: Seq::empty() }
}

/// What an input yields that holds the tokens `tokens` and nothing after
/// them.
pub open spec fn all_tokens(tokens: Seq<Lexeme>) -> Scanned {
    Scanned { tokens, error: None, rest: Seq::empty() }
}

/// `s` holds the marker `marker` nowhere.
pub open spec fn lacks(s: Seq<u8>, marker: Seq<u8>) -> bool {
    forall|i: int| !#[trigger] occurs_at(s, marker, i)
}

/// An input of whitespace and comments yields no token and is used up: the
/// first step reports the end and leaves nothing.
pub proof fn law_blank_input_ends(s: Seq<u8>)
    requires
        is_blank(s),
    ensures
        skip_blank(s) == Seq::<u8>::empty(),
        scan(s) == end_step(),
        scan_all(s) == all_tokens(Seq::empty()),
{
    lemma_blank_skipped(s);
}

/// Only an input of whitespace and comments ends at once: where the first
/// step reports the end, the input is blank.
pub proof fn law_end_at_once_is_blank(s: Seq<u8>)
    requires
        scan(s).result == Ok::<Option<Lexeme>, LexError>(None),
    ensures
        is_blank(s),
{
    lemma_skipped_is_blank(s);
}

/// A run of decimal digits whose value fits an `i32` is one number token of
/// that value, which takes all of its bytes.
pub proof fn law_digits_are_one_number(d: Seq<u8>)
    requires
        is_decimal(d),
        decimal_value(d) <= i32::MAX,
    ensures
        scan(d) == last_step(Lexeme::Number(decimal_value(d) as int)),
        scan_all(d) == all_tokens(seq![Lexeme::Number(decimal_value(d) as int)]),
{
    lemma_run_len_unique(d, digits(), d.len() as int);
    assert(d.take(d.len() as int) =~= d);
    assert(d.skip(d.len() as int) =~= Seq::<u8>::empty());
    lemma_end_of_input();
    assert(seq![Lexeme::Number(decimal_value(d) as int)] + Seq::<Lexeme>::empty() =~= seq![
        Lexeme::Number(decimal_value(d) as int),
    ]);
}

/// A run of letters and digits that starts with a letter is one symbol token
/// with the text of the run.
pub proof fn law_alphanumerics_are_one_symbol(s: Seq<u8>)
    requires
        s.len() > 0,
        is_letter(s[0]),
        forall|i: int| 0 <= i < s.len() ==> is_alphanumeric(#[trigger] s[i]),
    ensures
        scan(s) == last_step(Lexeme::Symbol(ascii_text(s))),
        scan_all(s) == all_tokens(seq![Lexeme::Symbol(ascii_text(s))]),
{
    lemma_run_len_unique(s, alphanumerics(), s.len() as int);
    assert(s.take(s.len() as int) =~= s);
    assert(s.skip(s.len() as int) =~= Seq::<u8>::empty());
    assert(!occurs_at(s, STREAM_OPEN@, 0)) by {
        // The line feed of the marker is no letter or digit.
        if occurs_at(s, STREAM_OPEN@, 0) {
            assert(s[0int + 6] == STREAM_OPEN@[6]);
        }
    }
    lemma_end_of_input();
    assert(seq![Lexeme::Symbol(ascii_text(s))] + Seq::<Lexeme>::empty() =~= seq![
        Lexeme::Symbol(ascii_text(s)),
    ]);
}

/// Whitespace and whole comment lines in front of an input change nothing:
/// the input yields the same tokens, and leaves the same bytes, with the
/// padding as without it.
pub proof fn law_padding_is_skipped(p: Seq<u8>, t: Seq<u8>)
    requires
        is_padding(p),
    ensures
        skip_blank(p + t) == skip_blank(t),
        scan(p + t) == scan(t),
        scan_all(p + t) == scan_all(t),
{
    lemma_padding_skipped(p, t);
}

/// Skipping twice skips no more than skipping once.
pub proof fn law_skip_is_idempotent(s: Seq<u8>)
    ensures
        skip_blank(skip_blank(s)) == skip_blank(s),
{
    lemma_skip_blank(s);
}

/// The end and an error are final: a step that yields no token leaves the
/// input where the next step yields the same and leaves the same.
pub proof fn law_no_token_is_final(s: Seq<u8>)
    requires
        !(scan(s).result matches Ok(Some(_))),
    ensures
        scan(scan(s).rest) == scan(s),
        scan_all(s).tokens == Seq::<Lexeme>::empty(),
        scan_all(s).rest == scan(s).rest,
{
    law_skip_is_idempotent(s);
}

/// Bytes `x` that hold no `endstream` marker, put between the two stream
/// markers, are one stream token that holds exactly `x`.
pub proof fn law_stream_round_trip(x: Seq<u8>)
    requires
        lacks(x, STREAM_CLOSE@),
    ensures
        scan(STREAM_OPEN@ + x + STREAM_CLOSE@) == last_step(Lexeme::Stream(x)),
        scan_all(STREAM_OPEN@ + x + STREAM_CLOSE@) == all_tokens(seq![Lexeme::Stream(x)]),
{
    let open = STREAM_OPEN@;
    let close = STREAM_CLOSE@;
    let s = open + x + close;
    lemma_nothing_to_skip(s);
    assert(occurs_at(s, open, 0));
    let body = s.skip(open.len() as int);
    let n = x.len() as int;
    assert forall|i: int| 0 <= i < n implies !#[trigger] occurs_at(body, close, i) by {
        if occurs_at(body, close, i) {
            if i + close.len() <= n {
                assert forall|k: int| 0 <= k < close.len() implies #[trigger] x[i + k]
                    == close[k] by {
                    assert(body[i + k] == close[k]);
                }
                assert(occurs_at(x, close, i));
            } else {
                // The occurrence would run into the closing marker, whose
                // line feed would then stand inside it.
                assert(body[i + (n - i)] == close[n - i]);
            }
        }
    }
    assert(occurs_at(body, close, n));
    lemma_find_unique(body, close, n);
    assert(body.take(n) =~= x);
    assert(body.skip(n + close.len()) =~= Seq::<u8>::empty());
    lemma_end_of_input();
}

/// Bytes `y` that hold no `>>` and do not end in `>`, put between `<<` and
/// `>>`, are one dictionary token whose length is that of `y`.
///
/// Where `y` ends in `>`, that byte and the first of the closing marker make
/// a `>>` one byte early, and the dictionary ends there.
pub proof fn law_dictionary_round_trip(y: Seq<u8>)
    requires
        lacks(y, DICT_CLOSE@),
        y.len() > 0 ==> y.last() != DICT_CLOSE@[0],
    ensures
        scan(DICT_OPEN@ + y + DICT_CLOSE@) == last_step(Lexeme::Dictionary(y.len())),
        scan_all(DICT_OPEN@ + y + DICT_CLOSE@) == all_tokens(seq![Lexeme::Dictionary(y.len())]),
{
    let open = DICT_OPEN@;
    let close = DICT_CLOSE@;
    let s = open + y + close;
    lemma_nothing_to_skip(s);
    assert(occurs_at(s, open, 0));
    let body = s.skip(open.len() as int);
    let n = y.len() as int;
    assert forall|i: int| 0 <= i < n implies !#[trigger] occurs_at(body, close, i) by {
        if occurs_at(body, close, i) {
            if i + close.len() <= n {
                assert forall|k: int| 0 <= k < close.len() implies #[trigger] y[i + k]
                    == close[k] by {
                    assert(body[i + k] == close[k]);
                }
                assert(occurs_at(y, close, i));
            } else {
                // The occurrence would start at the last byte of `y`.
                assert(body[i + 0] == close[0]);
            }
        }
    }
    assert(occurs_at(body, close, n));
    lemma_find_unique(body, close, n);
    assert(body.skip(n + close.len()) =~= Seq::<u8>::empty());
    lemma_end_of_input();
    assert(seq![Lexeme::Dictionary(y.len())] + Seq::<Lexeme>::empty() =~= seq![
        Lexeme::Dictionary(y.len()),
    ]);
}

/// Bytes `y` that hold no `>>` but end in `>`, put between `<<` and `>>`,
/// are a dictionary token that is one byte shorter than `y`, and leave the
/// last `>`.
pub proof fn law_dictionary_ends_early(y: Seq<u8>)
    requires
        lacks(y, DICT_CLOSE@),
        y.len() > 0,
        y.last() == DICT_CLOSE@[0],
    ensures
        scan(DICT_OPEN@ + y + DICT_CLOSE@) == (Step {
            result: Ok(Some(Lexeme::Dictionary((y.len() - 1) as nat))),
            rest: seq![DICT_CLOSE@[1]],
        }),
{
    let open = DICT_OPEN@;
    let close = DICT_CLOSE@;
    let s = open + y + close;
    lemma_nothing_to_skip(s);
    assert(occurs_at(s, open, 0));
    let body = s.skip(open.len() as int);
    let n = y.len() - 1;
    assert forall|i: int| 0 <= i < n implies !#[trigger] occurs_at(body, close, i) by {
        if occurs_at(body, close, i) {
            assert forall|k: int| 0 <= k < close.len() implies #[trigger] y[i + k]
                == close[k] by {
                assert(body[i + k] == close[k]);
            }
            assert(occurs_at(y, close, i));
        }
    }
    assert(occurs_at(body, close, n));
    lemma_find_unique(body, close, n);
    assert(body.skip(n + close.len()) =~= seq![close[1]]);
}

/// An input that starts with a byte that is neither whitespace nor `%` has
/// nothing to skip.
pub proof fn lemma_nothing_to_skip(s: Seq<u8>)
    requires
        s.len() > 0,
        !is_space(s[0]),
        s[0] != COMMENT,
    ensures
        skip_blank(s) == s,
{
}

/// The empty input yields no token.
proof fn lemma_end_of_input()
    ensures
        scan(Seq::empty()) == end_step(),
        scan_all(Seq::empty()) == all_tokens(Seq::empty()),
{
    law_blank_input_ends(Seq::empty());
}

/// In a blank input, the first byte after the leading whitespace is a `%`.
proof fn lemma_blank_then_comment(s: Seq<u8>)
    requires
        is_blank(s),
        run_len(s, spaces()) < s.len(),
    ensures
        s[run_len(s, spaces()) as int] == COMMENT,
{
    lemma_run_len(s, spaces());
    let n = run_len(s, spaces()) as int;
    assert(in_comment(s, n));
}

/// What follows a line feed in a blank input is blank.
proof fn lemma_blank_after_line(s: Seq<u8>, c: int)
    requires
        is_blank(s),
        0 < c <= s.len(),
        s[c - 1] == LINE_FEED,
    ensures
        is_blank(s.skip(c)),
{
    let u = s.skip(c);
    assert forall|i: int| 0 <= i < u.len() implies is_space(u[i]) || #[trigger] in_comment(
        u,
        i,
    ) by {
        let p = c + i;
        if !is_space(s[p]) {
            assert(in_comment(s, p));
            let j = choose|j: int|
                0 <= j <= p && #[trigger] s[j] == COMMENT && forall|k: int|
                    j <= k < p ==> #[trigger] s[k] != LINE_FEED;
            assert(u[j - c] == s[j]);
        }
    }
}

/// What follows a line feed in padding is padding.
proof fn lemma_padding_after_line(s: Seq<u8>, c: int)
    requires
        is_padding(s),
        0 < c <= s.len(),
        s[c - 1] == LINE_FEED,
    ensures
        is_padding(s.skip(c)),
{
    let u = s.skip(c);
    lemma_blank_after_line(s, c);
    assert forall|j: int| 0 <= j < u.len() && #[trigger] u[j] == COMMENT implies exists|
        k: int,
    |
        j < k < u.len() && #[trigger] u[k] == LINE_FEED by {
        let k = choose|k: int| j + c < k < s.len() && #[trigger] s[k] == LINE_FEED;
        assert(u[k - c] == s[k]);
    }
}

/// A blank input is skipped whole.
proof fn lemma_blank_skipped(s: Seq<u8>)
    requires
        is_blank(s),
    ensures
        skip_blank(s) == Seq::<u8>::empty(),
    decreases s.len(),
{
    lemma_run_len(s, spaces());
    let n = run_len(s, spaces()) as int;
    let t = trim_spaces(s);
    if t.len() > 0 {
        lemma_blank_then_comment(s);
        lemma_run_len(t, line_body());
        let m = run_len(t, line_body()) as int;
        let u = drop_line(t);
        if m < t.len() {
            lemma_blank_after_line(s, n + m + 1);
            assert(u =~= s.skip(n + m + 1));
        }
        lemma_blank_skipped(u);
    }
}

/// An input that is skipped whole is blank.
proof fn lemma_skipped_is_blank(s: Seq<u8>)
    requires
        skip_blank(s).len() == 0,
    ensures
        is_blank(s),
    decreases s.len(),
{
    lemma_run_len(s, spaces());
    let n = run_len(s, spaces()) as int;
    let t = trim_spaces(s);
    if t.len() > 0 {
        lemma_run_len(t, line_body());
        let u = drop_line(t);
        lemma_skipped_is_blank(u);
        let c = s.len() - u.len();
        assert forall|i: int| 0 <= i < s.len() implies is_space(s[i]) || #[trigger] in_comment(
            s,
            i,
        ) by {
            if n <= i < c {
                assert forall|k: int| n <= k < i implies #[trigger] s[k] != LINE_FEED by {
                    assert(s[k] == t[k - n]);
                }
            } else if i >= c && !is_space(s[i]) {
                assert(in_comment(u, i - c));
                let j = choose|j: int|
                    0 <= j <= i - c && #[trigger] u[j] == COMMENT && forall|k: int|
                        j <= k < i - c ==> #[trigger] u[k] != LINE_FEED;
                assert forall|k: int| j + c <= k < i implies #[trigger] s[k] != LINE_FEED by {
                    assert(s[k] == u[k - c]);
                }
            }
        }
    }
}

/// Padding in front of an input is skipped: what is left after skipping is
/// what is left of the input alone.
proof fn lemma_padding_skipped(p: Seq<u8>, t: Seq<u8>)
    requires
        is_padding(p),
    ensures
        skip_blank(p + t) == skip_blank(t),
    decreases p.len(),
{
    let s = p + t;
    lemma_run_len(p, spaces());
    let n = run_len(p, spaces()) as int;
    if n == p.len() {
        // All of `p` is whitespace, which runs on into `t`.
        lemma_run_len_goes_on(p, t, spaces());
        lemma_run_len(t, spaces());
        assert(trim_spaces(s) =~= trim_spaces(t));
    } else {
        // A comment starts at `n`; it ends inside `p`, and what follows it
        // is padding again.
        lemma_blank_then_comment(p);
        lemma_run_len_stops(p, t, spaces());
        let q = p.skip(n);
        assert(trim_spaces(s) =~= q + t);
        let k = choose|k: int| n < k < p.len() && #[trigger] p[k] == LINE_FEED;
        lemma_run_len(q, line_body());
        let m = run_len(q, line_body()) as int;
        if m == q.len() {
            assert(q[k - n] == p[k]);
        }
        lemma_run_len_stops(q, t, line_body());
        lemma_padding_after_line(p, n + m + 1);
        let rest = p.skip(n + m + 1);
        assert(drop_line(q + t) =~= rest + t);
        lemma_padding_skipped(rest, t);
    }
}

} // verus!
