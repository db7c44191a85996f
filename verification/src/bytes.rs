//! Byte classes of the token syntax, and runs and markers in byte sequences.

use vstd::prelude::*;

verus! {

/// ASCII whitespace: space, tab, line feed, form feed or carriage return.
pub open spec fn is_space(b: u8) -> bool {
    b == 0x20 || b == 0x09 || b == 0x0A || b == 0x0C || b == 0x0D
}

/// An ASCII decimal digit.
pub open spec fn is_digit(b: u8) -> bool {
    0x30 <= b <= 0x39
}

/// An ASCII letter of either case.
pub open spec fn is_letter(b: u8) -> bool {
    (0x41 <= b <= 0x5A) || (0x61 <= b <= 0x7A)
}

/// An ASCII letter or digit.
pub open spec fn is_alphanumeric(b: u8) -> bool {
    is_letter(b) || is_digit(b)
}

/// Whether `b` is ASCII whitespace.
pub fn space(b: u8) -> (r: bool)
    ensures
        r == is_space(b),
{
    b == 0x20 || b == 0x09 || b == 0x0A || b == 0x0C || b == 0x0D
}

/// Whether `b` is an ASCII decimal digit.
pub fn digit(b: u8) -> (r: bool)
    ensures
        r == is_digit(b),
{
    0x30 <= b && b <= 0x39
}

/// Whether `b` is an ASCII letter.
pub fn letter(b: u8) -> (r: bool)
    ensures
        r == is_letter(b),
{
    (0x41 <= b && b <= 0x5A) || (0x61 <= b && b <= 0x7A)
}

/// Whether `b` is an ASCII letter or digit.
pub fn alphanumeric(b: u8) -> (r: bool)
    ensures
        r == is_alphanumeric(b),
{
    letter(b) || digit(b)
}

/// The class of ASCII whitespace.
pub open spec fn spaces() -> spec_fn(u8) -> bool {
    |b: u8| is_space(b)
}

/// The class of ASCII decimal digits.
pub open spec fn digits() -> spec_fn(u8) -> bool {
    |b: u8| is_digit(b)
}

/// The class of ASCII letters and digits.
pub open spec fn alphanumerics() -> spec_fn(u8) -> bool {
    |b: u8| is_alphanumeric(b)
}

/// The class of every byte but the line feed.
pub open spec fn line_body() -> spec_fn(u8) -> bool {
    |b: u8| b != 0x0Au8
}

/// The number of bytes at the front of `s` that all satisfy `class`: the
/// length of the longest such prefix.
pub open spec fn run_len(s: Seq<u8>, class: spec_fn(u8) -> bool) -> nat
    decreases s.len(),
{
    if s.len() > 0 && class(s[0]) {
        1 + run_len(s.skip(1), class)
    } else {
        0
    }
}

/// `n` is where the leading run of `class` bytes of `s` ends: every byte
/// before `n` is in the class, and the byte at `n`, if there is one, is not.
pub open spec fn ends_run(s: Seq<u8>, class: spec_fn(u8) -> bool, n: int) -> bool {
    &&& 0 <= n <= s.len()
    &&& forall|i: int| 0 <= i < n ==> class(#[trigger] s[i])
    &&& n < s.len() ==> !class(s[n])
}

/// `run_len` is the one offset at which the leading run ends.
pub proof fn lemma_run_len(s: Seq<u8>, class: spec_fn(u8) -> bool)
    ensures
        ends_run(s, class, run_len(s, class) as int),
    decreases s.len(),
{
    if s.len() > 0 && class(s[0]) {
        let t = s.skip(1);
        lemma_run_len(t, class);
        let n = run_len(s, class) as int;
        assert forall|i: int| 0 <= i < n implies class(#[trigger] s[i]) by {
            if i > 0 {
                assert(s[i] == t[i - 1]);
            }
        }
    }
}

/// An offset at which the leading run ends is `run_len`.
pub proof fn lemma_run_len_unique(s: Seq<u8>, class: spec_fn(u8) -> bool, n: int)
    requires
        ends_run(s, class, n),
    ensures
        run_len(s, class) == n,
    decreases s.len(),
{
    if s.len() > 0 && class(s[0]) {
        lemma_run_len_unique(s.skip(1), class, n - 1);
    }
}

/// A run that ends inside `a` ends at the same place in `a + b`.
pub proof fn lemma_run_len_stops(a: Seq<u8>, b: Seq<u8>, class: spec_fn(u8) -> bool)
    requires
        run_len(a, class) < a.len(),
    ensures
        run_len(a + b, class) == run_len(a, class),
{
    lemma_run_len(a, class);
    lemma_run_len_unique(a + b, class, run_len(a, class) as int);
}

/// A run that takes all of `a` goes on in `b`.
pub proof fn lemma_run_len_goes_on(a: Seq<u8>, b: Seq<u8>, class: spec_fn(u8) -> bool)
    requires
        run_len(a, class) == a.len(),
    ensures
        run_len(a + b, class) == a.len() + run_len(b, class),
{
    lemma_run_len(a, class);
    lemma_run_len(b, class);
    lemma_run_len_unique(a + b, class, (a.len() + run_len(b, class)) as int);
}

/// `marker` stands in `s` at offset `i`.
pub open spec fn occurs_at(s: Seq<u8>, marker: Seq<u8>, i: int) -> bool {
    &&& 0 <= i
    &&& i + marker.len() <= s.len()
    &&& forall|k: int| 0 <= k < marker.len() ==> #[trigger] s[i + k] == marker[k]
}

/// Offset of the first occurrence of `marker` in `s`; `s.len()` where it
/// occurs at no offset below that.
pub open spec fn find(s: Seq<u8>, marker: Seq<u8>) -> nat
    decreases s.len(),
{
    if s.len() == 0 || occurs_at(s, marker, 0) {
        0
    } else {
        1 + find(s.skip(1), marker)
    }
}

/// `n` is where the search for `marker` in `s` stops: it occurs at no offset
/// before `n`, and at `n` unless `n` is the end of `s`.
pub open spec fn ends_search(s: Seq<u8>, marker: Seq<u8>, n: int) -> bool {
    &&& 0 <= n <= s.len()
    &&& forall|i: int| 0 <= i < n ==> !#[trigger] occurs_at(s, marker, i)
    &&& n < s.len() ==> occurs_at(s, marker, n)
}

/// An occurrence in `s.skip(1)` is an occurrence in `s`, one byte later.
pub proof fn lemma_occurs_shift(s: Seq<u8>, marker: Seq<u8>, i: int)
    requires
        s.len() > 0,
        0 <= i,
    ensures
        occurs_at(s.skip(1), marker, i) == occurs_at(s, marker, i + 1),
{
    let t = s.skip(1);
    if occurs_at(t, marker, i) {
        assert forall|k: int| 0 <= k < marker.len() implies #[trigger] s[i + 1 + k]
            == marker[k] by {
            assert(t[i + k] == s[i + k + 1]);
        }
    }
    if occurs_at(s, marker, i + 1) {
        assert forall|k: int| 0 <= k < marker.len() implies #[trigger] t[i + k] == marker[k] by {
            assert(s[i + 1 + k] == marker[k]);
        }
    }
}

/// `find` is the one offset at which the search stops.
pub proof fn lemma_find(s: Seq<u8>, marker: Seq<u8>)
    ensures
        ends_search(s, marker, find(s, marker) as int),
    decreases s.len(),
{
    if s.len() > 0 && !occurs_at(s, marker, 0) {
        let t = s.skip(1);
        lemma_find(t, marker);
        let n = find(s, marker) as int;
        assert forall|i: int| 0 <= i < n implies !#[trigger] occurs_at(s, marker, i) by {
            if i > 0 {
                lemma_occurs_shift(s, marker, i - 1);
            }
        }
        if n < s.len() {
            lemma_occurs_shift(s, marker, n - 1);
        }
    }
}

/// An offset at which the search stops is `find`.
pub proof fn lemma_find_unique(s: Seq<u8>, marker: Seq<u8>, n: int)
    requires
        ends_search(s, marker, n),
    ensures
        find(s, marker) == n,
    decreases s.len(),
{
    if s.len() > 0 && !occurs_at(s, marker, 0) {
        let t = s.skip(1);
        assert forall|i: int| 0 <= i < n - 1 implies !#[trigger] occurs_at(t, marker, i) by {
            lemma_occurs_shift(s, marker, i);
        }
        if n - 1 < t.len() {
            lemma_occurs_shift(s, marker, n - 1);
        }
        lemma_find_unique(t, marker, n - 1);
    }
}

/// Whether `marker` stands in `s` at offset `at`.
pub fn starts_with_at(s: &[u8], at: usize, marker: &[u8]) -> (r: bool)
    ensures
        r == occurs_at(s@, marker@, at as int),
{
    if at > s.len() || marker.len() > s.len() - at {
        return false;
    }
    let mut k: usize = 0;
    while k < marker.len()
        invariant
            at + marker@.len() <= s@.len() <= usize::MAX,
            k <= marker@.len(),
            forall|j: int| 0 <= j < k ==> #[trigger] s@[at + j] == marker@[j],
        decreases marker@.len() - k,
    {
        if s[at + k] != marker[k] {
            return false;
        }
        k += 1;
    }
    true
}

} // verus!
