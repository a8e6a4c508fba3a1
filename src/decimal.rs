//! Unsigned decimal numbers as ASCII text: parsing with a bound, and formatting.

use vstd::prelude::*;

verus! {

pub const PLUS: u8 = 43;

pub const ZERO: u8 = 48;

pub open spec fn is_digit(b: u8) -> bool {
    ZERO <= b <= 57
}

/// The value of a string of decimal digits (most significant first).
pub open spec fn digits_value(d: Seq<u8>) -> nat
    decreases d.len(),
{
    if d.len() == 0 {
        0
    } else {
        digits_value(d.drop_last()) * 10 + (d.last() - ZERO) as nat
    }
}

pub open spec fn all_digits(d: Seq<u8>) -> bool {
    d.len() > 0 && forall|k: int| 0 <= k < d.len() ==> is_digit(#[trigger] d[k])
}

/// The digits of a token, after an optional leading `+`.
pub open spec fn unsigned_digits(t: Seq<u8>) -> Seq<u8> {
    if t.len() > 0 && t[0] == PLUS {
        t.drop_first()
    } else {
        t
    }
}

/// The value of a token read as an unsigned decimal number: an optional `+`
/// followed by one or more digits; anything else has no value.
pub open spec fn decimal_value(t: Seq<u8>) -> Option<nat> {
    if all_digits(unsigned_digits(t)) {
        Some(digits_value(unsigned_digits(t)))
    } else {
        None
    }
}

/// A token read as an unsigned number no greater than `max`.
pub open spec fn bounded_value(t: Seq<u8>, max: nat) -> Option<nat> {
    match decimal_value(t) {
        Some(v) => if v <= max {
            Some(v)
        } else {
            None
        },
        None => None,
    }
}

pub open spec fn parse_u32(t: Seq<u8>) -> Option<u32> {
    match bounded_value(t, u32::MAX as nat) {
        Some(v) => Some(v as u32),
        None => None,
    }
}

pub open spec fn parse_u8(t: Seq<u8>) -> Option<u8> {
    match bounded_value(t, u8::MAX as nat) {
        Some(v) => Some(v as u8),
        None => None,
    }
}

/// The shortest decimal text of `n`.
pub open spec fn decimal_text(n: nat) -> Seq<u8>
    decreases n,
{
    if n < 10 {
        seq![(ZERO + n) as u8]
    } else {
        decimal_text(n / 10).push((ZERO + n % 10) as u8)
    }
}

proof fn lemma_digits_value_grows(d: Seq<u8>, k: int)
    requires
        0 <= k <= d.len(),
    ensures
        digits_value(d.take(k)) <= digits_value(d),
    decreases d.len() - k,
{
    if k < d.len() {
        lemma_digits_value_grows(d, k + 1);
        assert(d.take(k + 1).drop_last() =~= d.take(k));
    } else {
        assert(d.take(k) =~= d);
    }
}

/// Reads `s[lo..hi]` as an unsigned decimal number no greater than `max`.
pub fn parse_bounded(s: &[u8], lo: usize, hi: usize, max: u32) -> (r: Option<u32>)
    requires
        lo <= hi <= s@.len(),
    ensures
        match bounded_value(s@.subrange(lo as int, hi as int), max as nat) {
            Some(v) => r == Some(v as u32),
            None => r.is_none(),
        },
{
    let ghost t = s@.subrange(lo as int, hi as int);
    let mut start = lo;
    if lo < hi && s[lo] == PLUS {
        start = lo + 1;
    }
    let ghost d = s@.subrange(start as int, hi as int);
    assert(d =~= unsigned_digits(t));
    if start == hi {
        assert(!all_digits(d));
        return None;
    }
    let mut acc: u32 = 0;
    let mut k = start;
    while k < hi
        invariant
            start <= k <= hi <= s@.len(),
            d == s@.subrange(start as int, hi as int),
            d == unsigned_digits(s@.subrange(lo as int, hi as int)),
            forall|j: int| 0 <= j < k - start ==> is_digit(#[trigger] d[j]),
            acc as nat == digits_value(d.take(k - start)),
            acc <= max,
        decreases hi - k,
    {
        let b = s[k];
        if b < ZERO || b > 57 {
            assert(!is_digit(d[k - start]));
            return None;
        }
        let digit = (b - ZERO) as u32;
        assert(d.take(k - start + 1).drop_last() =~= d.take(k - start));
        let next: u64 = acc as u64 * 10 + digit as u64;
        if next > max as u64 {
            proof {
                lemma_digits_value_grows(d, k - start + 1);
            }
            return None;
        }
        acc = next as u32;
        k = k + 1;
    }
    assert(d.take(d.len() as int) =~= d);
    Some(acc)
}

/// Appends the decimal text of `n`.
pub fn push_decimal(out: &mut Vec<u8>, n: u32)
    ensures
        final(out)@ == old(out)@ + decimal_text(n as nat),
    decreases n,
{
    if n >= 10 {
        push_decimal(out, n / 10);
    }
    out.push(ZERO + (n % 10) as u8);
    assert(final(out)@ =~= old(out)@ + decimal_text(n as nat));
}

pub proof fn lemma_decimal_text_digits(n: nat)
    ensures
        all_digits(decimal_text(n)),
        digits_value(decimal_text(n)) == n,
        decimal_text(n).len() >= 1,
    decreases n,
{
    if n >= 10 {
        lemma_decimal_text_digits(n / 10);
        let t = decimal_text(n);
        assert(t.drop_last() =~= decimal_text(n / 10));
        assert(t.last() - ZERO == n % 10);
        assert(digits_value(t) == digits_value(t.drop_last()) * 10 + (t.last() - ZERO) as nat);
        assert(n == (n / 10) * 10 + n % 10);
        assert forall|k: int| 0 <= k < t.len() implies is_digit(#[trigger] t[k]) by {
            if k < t.len() - 1 {
                assert(t[k] == decimal_text(n / 10)[k]);
            }
        }
    } else {
        let t = decimal_text(n);
        assert(t.drop_last() =~= Seq::<u8>::empty());
        assert(digits_value(t.drop_last()) == 0);
        assert(digits_value(t) == digits_value(t.drop_last()) * 10 + (t.last() - ZERO) as nat);
    }
}

/// Decimal text reads back as the number it was made from.
pub proof fn lemma_decimal_round_trip(n: nat)
    ensures
        decimal_value(decimal_text(n)) == Some(n),
        unsigned_digits(decimal_text(n)) == decimal_text(n),
{
    lemma_decimal_text_digits(n);
}

} // verus!
