//! Lines, comments and whitespace-separated tokens of a byte stream.
//!
//! A line runs up to the next newline byte or to the end of the input.
//! Whitespace is the ASCII whitespace: tab, newline, vertical tab, form feed,
//! carriage return and space.

use vstd::prelude::*;

verus! {

pub const NL: u8 = 10;

pub const CR: u8 = 13;

pub const SPACE: u8 = 32;

pub const HASH: u8 = 35;

pub open spec fn is_space(b: u8) -> bool {
    (9 <= b && b <= 13) || b == SPACE
}

/// Where the line that starts at `i` ends: the first newline at or after `i`,
/// or the length of the input where there is none.
pub open spec fn line_end(s: Seq<u8>, i: int) -> int
    decreases s.len() - i,
{
    if i >= s.len() {
        s.len() as int
    } else if s[i] == NL {
        i
    } else {
        line_end(s, i + 1)
    }
}

/// Where the line after the one that starts at `i` begins.
pub open spec fn next_line(s: Seq<u8>, i: int) -> int {
    if line_end(s, i) < s.len() {
        line_end(s, i) + 1
    } else {
        s.len() as int
    }
}

/// The text of the line `s[i..e]`, without the carriage return of a
/// carriage-return/newline pair.
pub open spec fn line_text(s: Seq<u8>, i: int, e: int) -> Seq<u8> {
    if e < s.len() && i < e && s[e - 1] == CR {
        s.subrange(i, e - 1)
    } else {
        s.subrange(i, e)
    }
}

/// The first byte of `s[i..e]` that is not whitespace, or `e`.
pub open spec fn first_non_space(s: Seq<u8>, i: int, e: int) -> int
    decreases e - i,
{
    if i >= e {
        e
    } else if is_space(s[i]) {
        first_non_space(s, i + 1, e)
    } else {
        i
    }
}

/// A comment line: its first byte that is not whitespace is `#`.
pub open spec fn is_comment(s: Seq<u8>, i: int, e: int) -> bool {
    first_non_space(s, i, e) < e && s[first_non_space(s, i, e)] == HASH
}

/// The pending token `s[start..k]`, as a sequence of zero or one tokens.
pub open spec fn pending(s: Seq<u8>, start: int, k: int) -> Seq<Seq<u8>> {
    if start < k {
        seq![s.subrange(start, k)]
    } else {
        seq![]
    }
}

/// The tokens of `s[k..e]` following the run `s[start..k]` of non-whitespace bytes.
pub open spec fn tokens_after(s: Seq<u8>, start: int, k: int, e: int) -> Seq<Seq<u8>>
    decreases e - k,
{
    if k >= e {
        pending(s, start, k)
    } else if is_space(s[k]) {
        pending(s, start, k) + tokens_after(s, k + 1, k + 1, e)
    } else {
        tokens_after(s, start, k + 1, e)
    }
}

/// The maximal runs of non-whitespace bytes in `s[i..e]`, in order.
pub open spec fn tokens(s: Seq<u8>, i: int, e: int) -> Seq<Seq<u8>> {
    tokens_after(s, i, i, e)
}

/// The byte strings that a list of spans of `s` cover.
pub open spec fn span_texts(s: Seq<u8>, spans: Seq<(usize, usize)>) -> Seq<Seq<u8>> {
    spans.map_values(|p: (usize, usize)| s.subrange(p.0 as int, p.1 as int))
}

pub proof fn lemma_line_end_bounds(s: Seq<u8>, i: int)
    ensures
        i <= s.len() ==> i <= line_end(s, i) <= s.len(),
        i < s.len() ==> i < next_line(s, i) <= s.len(),
        line_end(s, i) < s.len() ==> s[line_end(s, i)] == NL,
        forall|k: int| i <= k < line_end(s, i) ==> s[k] != NL,
    decreases s.len() - i,
{
    if i < s.len() && s[i] != NL {
        lemma_line_end_bounds(s, i + 1);
    }
}

/// A line ends at the first newline from where it starts.
pub proof fn lemma_line_end_at(s: Seq<u8>, i: int, j: int)
    requires
        0 <= i <= j <= s.len(),
        j < s.len() ==> s[j] == NL,
        forall|k: int| i <= k < j ==> s[k] != NL,
    ensures
        line_end(s, i) == j,
    decreases j - i,
{
    if i < j {
        lemma_line_end_at(s, i + 1, j);
    }
}

/// A run of non-whitespace bytes `s[start..j]`, ended by whitespace or by `e`,
/// is one token.
pub proof fn lemma_tokens_run(s: Seq<u8>, start: int, k: int, j: int, e: int)
    requires
        start <= k <= j <= e <= s.len(),
        0 <= start,
        start < j,
        forall|m: int| k <= m < j ==> !is_space(#[trigger] s[m]),
        j < e ==> is_space(s[j]),
    ensures
        tokens_after(s, start, k, e) == seq![s.subrange(start, j)] + (if j < e {
            tokens_after(s, j + 1, j + 1, e)
        } else {
            Seq::<Seq<u8>>::empty()
        }),
    decreases j - k,
{
    if k < j {
        lemma_tokens_run(s, start, k + 1, j, e);
    } else if j < e {
    } else {
        assert(pending(s, start, k) + Seq::<Seq<u8>>::empty() =~= pending(s, start, k));
    }
}

pub proof fn lemma_first_non_space_bounds(s: Seq<u8>, i: int, e: int)
    requires
        i <= e,
    ensures
        i <= first_non_space(s, i, e) <= e,
    decreases e - i,
{
    if i < e {
        lemma_first_non_space_bounds(s, i + 1, e);
    }
}

/// Two inputs that agree from `p1` and `p2` on have the same lines there.
pub proof fn lemma_line_end_shift(s1: Seq<u8>, p1: int, s2: Seq<u8>, p2: int, j: int)
    requires
        0 <= p1 <= s1.len(),
        0 <= p2 <= s2.len(),
        s1.skip(p1) == s2.skip(p2),
        0 <= j,
    ensures
        line_end(s1, p1 + j) - p1 == line_end(s2, p2 + j) - p2,
        next_line(s1, p1 + j) - p1 == next_line(s2, p2 + j) - p2,
    decreases s1.len() - p1 - j,
{
    assert(s1.len() - p1 == s2.len() - p2) by {
        assert(s1.skip(p1).len() == s1.len() - p1);
        assert(s2.skip(p2).len() == s2.len() - p2);
    }
    if p1 + j < s1.len() {
        assert(s1[p1 + j] == s1.skip(p1)[j]);
        assert(s2[p2 + j] == s2.skip(p2)[j]);
        lemma_line_end_shift(s1, p1, s2, p2, j + 1);
    }
}

/// Two inputs that agree on a window agree on its first non-whitespace byte.
pub proof fn lemma_first_non_space_shift(s1: Seq<u8>, p1: int, s2: Seq<u8>, p2: int, j: int, e: int)
    requires
        0 <= j <= e,
        forall|m: int| p1 + j <= m < p1 + e ==> #[trigger] s1[m] == s2[m - p1 + p2],
    ensures
        first_non_space(s1, p1 + j, p1 + e) - p1 == first_non_space(s2, p2 + j, p2 + e) - p2,
    decreases e - j,
{
    if j < e {
        assert(s1[p1 + j] == s2[p2 + j]);
        lemma_first_non_space_shift(s1, p1, s2, p2, j + 1, e);
    }
}

/// Two inputs that agree on a window have the same tokens there.
pub proof fn lemma_tokens_shift(
    s1: Seq<u8>,
    p1: int,
    s2: Seq<u8>,
    p2: int,
    a: int,
    k: int,
    e: int,
)
    requires
        0 <= a <= k <= e,
        0 <= p1,
        0 <= p2,
        p1 + e <= s1.len(),
        p2 + e <= s2.len(),
        forall|m: int| p1 + a <= m < p1 + e ==> #[trigger] s1[m] == s2[m - p1 + p2],
    ensures
        tokens_after(s1, p1 + a, p1 + k, p1 + e) == tokens_after(s2, p2 + a, p2 + k, p2 + e),
    decreases e - k,
{
    assert(s1.subrange(p1 + a, p1 + k) =~= s2.subrange(p2 + a, p2 + k));
    if k < e {
        assert(s1[p1 + k] == s2[p2 + k]);
        lemma_tokens_shift(s1, p1, s2, p2, k + 1, k + 1, e);
        lemma_tokens_shift(s1, p1, s2, p2, a, k + 1, e);
    }
}

/// Finds where the line that starts at `i` ends.
pub fn find_line_end(s: &[u8], i: usize) -> (e: usize)
    requires
        i <= s@.len(),
    ensures
        e as int == line_end(s@, i as int),
        i <= e <= s@.len(),
{
    let mut j = i;
    while j < s.len() && s[j] != NL
        invariant
            i <= j <= s@.len(),
            line_end(s@, i as int) == line_end(s@, j as int),
        decreases s@.len() - j,
    {
        j = j + 1;
    }
    j
}

/// Whether `s[i..e]` is a comment line.
pub fn is_comment_line(s: &[u8], i: usize, e: usize) -> (r: bool)
    requires
        i <= e <= s@.len(),
    ensures
        r == is_comment(s@, i as int, e as int),
{
    let mut k = i;
    while k < e && is_space_byte(s[k])
        invariant
            i <= k <= e <= s@.len(),
            first_non_space(s@, i as int, e as int) == first_non_space(s@, k as int, e as int),
        decreases e - k,
    {
        k = k + 1;
    }
    k < e && s[k] == HASH
}

pub fn is_space_byte(b: u8) -> (r: bool)
    ensures
        r == is_space(b),
{
    (9 <= b && b <= 13) || b == SPACE
}

/// The spans of the tokens of `s[i..e]`.
pub fn line_tokens(s: &[u8], i: usize, e: usize) -> (spans: Vec<(usize, usize)>)
    requires
        i <= e <= s@.len(),
    ensures
        span_texts(s@, spans@) == tokens(s@, i as int, e as int),
        forall|m: int|
            0 <= m < spans@.len() ==> i <= (#[trigger] spans@[m]).0 <= spans@[m].1 <= e,
{
    let mut spans: Vec<(usize, usize)> = Vec::new();
    let mut start = i;
    let mut k = i;
    while k < e
        invariant
            i <= start <= k <= e <= s@.len(),
            tokens(s@, i as int, e as int) == span_texts(s@, spans@) + tokens_after(
                s@,
                start as int,
                k as int,
                e as int,
            ),
            forall|m: int|
                0 <= m < spans@.len() ==> i <= (#[trigger] spans@[m]).0 <= spans@[m].1 <= e,
        decreases e - k,
    {
        if is_space_byte(s[k]) {
            let ghost before = spans@;
            if start < k {
                spans.push((start, k));
            }
            assert(span_texts(s@, spans@) =~= span_texts(s@, before) + pending(
                s@,
                start as int,
                k as int,
            ));
            assert(span_texts(s@, before) + (pending(s@, start as int, k as int) + tokens_after(
                s@,
                k + 1,
                k + 1,
                e as int,
            )) =~= span_texts(s@, spans@) + tokens_after(s@, k + 1, k + 1, e as int));
            k = k + 1;
            start = k;
        } else {
            k = k + 1;
        }
    }
    let ghost before = spans@;
    if start < k {
        spans.push((start, k));
    }
    assert(span_texts(s@, spans@) =~= span_texts(s@, before) + pending(
        s@,
        start as int,
        k as int,
    ));
    spans
}

} // verus!
