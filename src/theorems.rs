//! What holds of the codec as a whole: round trips, comment lines, and the
//! rejection of unknown magic lines.

use crate::decimal::{
    decimal_text, decimal_value, is_digit, lemma_decimal_round_trip, lemma_decimal_text_digits,
    parse_u32, parse_u8,
};
use crate::ppm::{
    ascii_magic, ascii_text, binary_magic, decode, dims_of_line, encode, header_text,
    line_values, magic_for, max_of_line, next_content_line, pixel_line, read_header,
    ascii_values, PpmError, PpmHeaderView,
};
use crate::scan::{
    first_non_space, is_comment, is_space, lemma_first_non_space_bounds,
    lemma_first_non_space_shift, lemma_line_end_at,
    lemma_line_end_bounds, lemma_line_end_shift, lemma_tokens_run, lemma_tokens_shift, line_end,
    line_text, next_line, tokens, tokens_after, HASH, NL, SPACE,
};
use vstd::arithmetic::div_mod::lemma_mod_multiples_basic;
use vstd::prelude::*;

verus! {

proof fn lemma_tail_agree(s1: Seq<u8>, p1: int, s2: Seq<u8>, p2: int)
    requires
        0 <= p1 <= s1.len(),
        0 <= p2 <= s2.len(),
        s1.skip(p1) == s2.skip(p2),
    ensures
        s1.len() - p1 == s2.len() - p2,
        forall|m: int| p1 <= m < s1.len() ==> #[trigger] s1[m] == s2[m - p1 + p2],
{
    assert(s1.skip(p1).len() == s1.len() - p1);
    assert(s2.skip(p2).len() == s2.len() - p2);
    assert forall|m: int| p1 <= m < s1.len() implies #[trigger] s1[m] == s2[m - p1 + p2] by {
        assert(s1[m] == s1.skip(p1)[m - p1]);
        assert(s2[m - p1 + p2] == s2.skip(p2)[m - p1]);
    }
}

/// Lines that agree are comments alike and hold the same tokens.
proof fn lemma_line_shift(s1: Seq<u8>, p1: int, s2: Seq<u8>, p2: int, j: int)
    requires
        0 <= p1 <= s1.len(),
        0 <= p2 <= s2.len(),
        s1.skip(p1) == s2.skip(p2),
        0 <= j,
        p1 + j < s1.len(),
    ensures
        line_end(s1, p1 + j) - p1 == line_end(s2, p2 + j) - p2,
        next_line(s1, p1 + j) - p1 == next_line(s2, p2 + j) - p2,
        is_comment(s1, p1 + j, line_end(s1, p1 + j)) == is_comment(
            s2,
            p2 + j,
            line_end(s2, p2 + j),
        ),
        tokens(s1, p1 + j, line_end(s1, p1 + j)) == tokens(s2, p2 + j, line_end(s2, p2 + j)),
{
    lemma_tail_agree(s1, p1, s2, p2);
    lemma_line_end_shift(s1, p1, s2, p2, j);
    lemma_line_end_bounds(s1, p1 + j);
    lemma_line_end_bounds(s2, p2 + j);
    let e = line_end(s1, p1 + j) - p1;
    lemma_first_non_space_shift(s1, p1, s2, p2, j, e);
    let f1 = first_non_space(s1, p1 + j, p1 + e);
    lemma_first_non_space_bounds(s1, p1 + j, p1 + e);
    if f1 < p1 + e {
        assert(s1[f1] == s2[f1 - p1 + p2]);
    }
    lemma_tokens_shift(s1, p1, s2, p2, j, j, e);
}

proof fn lemma_next_content_line_shift(s1: Seq<u8>, p1: int, s2: Seq<u8>, p2: int, j: int)
    requires
        0 <= p1 <= s1.len(),
        0 <= p2 <= s2.len(),
        s1.skip(p1) == s2.skip(p2),
        0 <= j,
    ensures
        next_content_line(s1, p1 + j) - p1 == next_content_line(s2, p2 + j) - p2,
    decreases s1.len() - p1 - j,
{
    lemma_tail_agree(s1, p1, s2, p2);
    if p1 + j < s1.len() {
        lemma_line_shift(s1, p1, s2, p2, j);
        lemma_line_end_bounds(s1, p1 + j);
        let k = next_line(s1, p1 + j) - p1;
        lemma_next_content_line_shift(s1, p1, s2, p2, k);
    }
}

proof fn lemma_next_content_line_bounds(s: Seq<u8>, i: int)
    requires
        0 <= i <= s.len(),
    ensures
        i <= next_content_line(s, i) <= s.len(),
    decreases s.len() - i,
{
    if i < s.len() {
        lemma_line_end_bounds(s, i);
        lemma_next_content_line_bounds(s, next_line(s, i));
    }
}

proof fn lemma_ascii_values_shift(s1: Seq<u8>, p1: int, s2: Seq<u8>, p2: int, j: int)
    requires
        0 <= p1 <= s1.len(),
        0 <= p2 <= s2.len(),
        s1.skip(p1) == s2.skip(p2),
        0 <= j,
    ensures
        ascii_values(s1, p1 + j) == ascii_values(s2, p2 + j),
    decreases s1.len() - p1 - j,
{
    lemma_tail_agree(s1, p1, s2, p2);
    if p1 + j < s1.len() {
        lemma_line_shift(s1, p1, s2, p2, j);
        lemma_line_end_bounds(s1, p1 + j);
        let k = next_line(s1, p1 + j) - p1;
        lemma_ascii_values_shift(s1, p1, s2, p2, k);
    }
}

/// A stream whose magic line is neither `P3` nor `P6` fails to decode as a
/// malformed stream, whatever lines follow it.
pub proof fn lemma_unknown_magic_rejected(s: Seq<u8>)
    requires
        line_text(s, 0, line_end(s, 0)) != ascii_magic(),
        line_text(s, 0, line_end(s, 0)) != binary_magic(),
    ensures
        decode(s) matches Err(e) && e != PpmError::UnexpectedEof,
{
}

/// Both inputs agree after `p1` and `p2`, so they agree after any later
/// pair of matching positions.
proof fn lemma_tail_skip(s1: Seq<u8>, p1: int, s2: Seq<u8>, p2: int, j: int)
    requires
        0 <= p1 <= s1.len(),
        0 <= p2 <= s2.len(),
        s1.skip(p1) == s2.skip(p2),
        0 <= j <= s1.len() - p1,
    ensures
        s1.skip(p1 + j) == s2.skip(p2 + j),
{
    lemma_tail_agree(s1, p1, s2, p2);
    assert(s1.skip(p1 + j) =~= s2.skip(p2 + j));
}

/// A comment line between the magic line and the dimensions line changes
/// nothing that is decoded: header and raster come out the same.
pub proof fn lemma_comment_line_skipped(m: Seq<u8>, c: Seq<u8>, r: Seq<u8>)
    requires
        forall|k: int| 0 <= k < m.len() ==> m[k] != NL,
        forall|k: int| 0 <= k < c.len() ==> c[k] != NL,
        is_comment(c, 0, c.len() as int),
    ensures
        decode(m.push(NL) + c.push(NL) + r) == decode(m.push(NL) + r),
{
    let s1 = m.push(NL) + c.push(NL) + r;
    let s2 = m.push(NL) + r;
    let a: int = m.len() as int + 1;
    let d: int = c.len() as int + 1;
    let cl: int = c.len() as int;
    // the magic line
    assert forall|k: int| 0 <= k < m.len() implies s1[k] != NL && s2[k] != NL by {
        assert(s1[k] == m[k]);
        assert(s2[k] == m[k]);
    }
    assert(s1[m.len() as int] == NL);
    assert(s2[m.len() as int] == NL);
    lemma_line_end_at(s1, 0, m.len() as int);
    lemma_line_end_at(s2, 0, m.len() as int);
    assert(s1.subrange(0, m.len() as int) =~= m);
    assert(s2.subrange(0, m.len() as int) =~= m);
    if m.len() > 0 {
        assert(s1[m.len() - 1] == m[m.len() - 1]);
        assert(s2[m.len() - 1] == m[m.len() - 1]);
        assert(s1.subrange(0, m.len() - 1) =~= s2.subrange(0, m.len() - 1));
    }
    assert(line_text(s1, 0, line_end(s1, 0)) == line_text(s2, 0, line_end(s2, 0)));
    // the comment line
    assert forall|k: int| a <= k < a + cl implies #[trigger] s1[k] == c[k - a + 0] && s1[k]
        != NL by {
        assert(s1[k] == c[k - a]);
    }
    assert(s1[a + cl] == NL);
    lemma_line_end_at(s1, a, a + cl);
    lemma_first_non_space_shift(s1, a, c, 0, 0, c.len() as int);
    lemma_first_non_space_bounds(c, 0, c.len() as int);
    let f = first_non_space(c, 0, c.len() as int);
    assert(s1[f + a] == c[f]);
    assert(is_comment(s1, a, line_end(s1, a)));
    assert(next_content_line(s1, a) == next_content_line(s1, a + d));
    // the rest
    assert(s1.skip(a + d) =~= s2.skip(a));
    lemma_next_content_line_shift(s1, a + d, s2, a, 0);
    let i1 = next_content_line(s2, a);
    lemma_next_content_line_bounds(s2, a);
    lemma_tail_agree(s1, a + d, s2, a);
    if i1 < s2.len() {
        lemma_line_shift(s1, a + d, s2, a, i1 - a);
        let e1 = line_end(s2, i1);
        assert(dims_of_line(s1, i1 + d, line_end(s1, i1 + d)) == dims_of_line(s2, i1, e1));
        lemma_line_end_bounds(s2, i1);
        let n1 = next_line(s2, i1);
        lemma_next_content_line_shift(s1, a + d, s2, a, n1 - a);
        let i2 = next_content_line(s2, n1);
        lemma_next_content_line_bounds(s2, n1);
        if i2 < s2.len() {
            lemma_line_shift(s1, a + d, s2, a, i2 - a);
            assert(max_of_line(s1, i2 + d, line_end(s1, i2 + d)) == max_of_line(
                s2,
                i2,
                line_end(s2, i2),
            ));
            lemma_line_end_bounds(s2, i2);
            let n2 = next_line(s2, i2);
            lemma_tail_skip(s1, a + d, s2, a, n2 - a);
        }
    }
}

/// The decimal text of `n` standing at `o` in `s`, ended by whitespace or
/// by the end `e` of the line, is a token of that line.
proof fn lemma_number_at(s: Seq<u8>, o: int, n: nat, e: int)
    requires
        0 <= o,
        o + decimal_text(n).len() <= e <= s.len(),
        s.subrange(o, o + decimal_text(n).len()) == decimal_text(n),
        o + decimal_text(n).len() < e ==> is_space(s[o + decimal_text(n).len()]),
    ensures
        tokens_after(s, o, o, e) == seq![decimal_text(n)] + (if o + decimal_text(n).len() < e {
            tokens_after(
                s,
                o + decimal_text(n).len() + 1,
                o + decimal_text(n).len() + 1,
                e,
            )
        } else {
            Seq::<Seq<u8>>::empty()
        }),
        forall|k: int| o <= k < o + decimal_text(n).len() ==> !is_space(#[trigger] s[k]),
        s[o] != HASH,
        decimal_value(decimal_text(n)) == Some(n),
{
    let t = decimal_text(n);
    lemma_decimal_text_digits(n);
    lemma_decimal_round_trip(n);
    assert forall|k: int| o <= k < o + t.len() implies !is_space(#[trigger] s[k]) by {
        assert(s[k] == s.subrange(o, o + t.len())[k - o]);
        assert(is_digit(t[k - o]));
    }
    assert(s[o] == t[0]);
    assert(is_digit(t[0]));
    lemma_tokens_run(s, o, o, o + t.len(), e);
}

proof fn lemma_u8_text(v: u8)
    ensures
        parse_u8(decimal_text(v as nat)) == Some(v),
{
    lemma_decimal_round_trip(v as nat);
}

proof fn lemma_u32_text(v: u32)
    ensures
        parse_u32(decimal_text(v as nat)) == Some(v),
{
    lemma_decimal_round_trip(v as nat);
}

/// The ASCII text of a raster reads back as the raster.
proof fn lemma_ascii_text_read(d: Seq<u8>)
    requires
        d.len() % 3 == 0,
    ensures
        ascii_values(ascii_text(d), 0) == Ok::<Seq<u8>, PpmError>(d),
    decreases d.len(),
{
    if d.len() == 0 {
        assert(d =~= Seq::<u8>::empty());
    } else {
        let t = ascii_text(d);
        let ta = decimal_text(d[0] as nat);
        let tb = decimal_text(d[1] as nat);
        let tc = decimal_text(d[2] as nat);
        let line = pixel_line(d[0], d[1], d[2]);
        let rest = ascii_text(d.skip(3));
        assert(t == line + rest);
        let la = ta.len() as int;
        let lb = tb.len() as int;
        let lc = tc.len() as int;
        let ob = la + 1;
        let oc = ob + lb + 1;
        let e = oc + lc;
        assert(line.len() == e + 1);
        assert(t.subrange(0, la) =~= ta);
        assert(t.subrange(ob, ob + lb) =~= tb);
        assert(t.subrange(oc, oc + lc) =~= tc);
        assert(t[la] == SPACE);
        assert(t[ob + lb] == SPACE);
        assert(t[e] == NL);
        lemma_number_at(t, 0, d[0] as nat, e);
        lemma_number_at(t, ob, d[1] as nat, e);
        lemma_number_at(t, oc, d[2] as nat, e);
        lemma_line_end_at(t, 0, e);
        assert(tokens(t, 0, e) =~= seq![ta, tb, tc]);
        lemma_u8_text(d[0]);
        lemma_u8_text(d[1]);
        lemma_u8_text(d[2]);
        assert(line_values(seq![ta, tb, tc]) == Some(seq![d[0], d[1], d[2]])) by {
            let tt = seq![ta, tb, tc];
            assert(parse_u8(tt[0]) is Some);
            assert(parse_u8(tt[1]) is Some);
            assert(parse_u8(tt[2]) is Some);
            assert(tt.map_values(|x: Seq<u8>| parse_u8(x).unwrap()) =~= seq![d[0], d[1], d[2]]);
        }
        assert(!is_comment(t, 0, e));
        assert(next_line(t, 0) == e + 1);
        assert(t.skip(e + 1) =~= rest.skip(0));
        lemma_ascii_values_shift(t, e + 1, rest, 0, 0);
        lemma_ascii_text_read(d.skip(3));
        assert(seq![d[0], d[1], d[2]] + d.skip(3) =~= d);
    }
}

/// The header text reads back as the header it was written from, and the
/// body starts right after it.
proof fn lemma_header_text_read(
    width: u32,
    height: u32,
    max_color_val: u32,
    binary: bool,
    body: Seq<u8>,
)
    requires
        width > 0,
        height > 0,
    ensures
        read_header(header_text(width, height, max_color_val, binary) + body) == Ok::<
            (PpmHeaderView, int),
            PpmError,
        >(
            (
                PpmHeaderView {
                    magic_number: magic_for(binary),
                    width,
                    height,
                    max_color_val,
                },
                header_text(width, height, max_color_val, binary).len() as int,
            ),
        ),
{
    let h = header_text(width, height, max_color_val, binary);
    let s = h + body;
    let tw = decimal_text(width as nat);
    let th = decimal_text(height as nat);
    let tm = decimal_text(max_color_val as nat);
    let lw = tw.len() as int;
    let lh = th.len() as int;
    let lm = tm.len() as int;
    let oh = 4 + lw;
    let e1 = oh + lh;
    let om = e1 + 1;
    let e2 = om + lm;
    assert(h.len() == e2 + 1);
    assert(s[0] == 80);
    assert(s[1] != NL && s[1] != 13);
    assert(s[2] == NL);
    assert(s.subrange(3, 3 + lw) =~= tw);
    assert(s[3 + lw] == SPACE);
    assert(s.subrange(oh, oh + lh) =~= th);
    assert(s[e1] == NL);
    assert(s.subrange(om, om + lm) =~= tm);
    assert(s[e2] == NL);
    // the magic line
    lemma_line_end_at(s, 0, 2);
    assert(line_text(s, 0, 2) =~= magic_for(binary));
    assert(next_line(s, 0) == 3);
    // the dimensions line
    lemma_number_at(s, 3, width as nat, e1);
    lemma_number_at(s, oh, height as nat, e1);
    lemma_line_end_at(s, 3, e1);
    assert(!is_comment(s, 3, e1));
    assert(next_content_line(s, 3) == 3);
    assert(tokens(s, 3, e1) =~= seq![tw, th]);
    lemma_u32_text(width);
    lemma_u32_text(height);
    assert(dims_of_line(s, 3, e1) == Ok::<(u32, u32), PpmError>((width, height)));
    // the max color value line
    assert(next_line(s, 3) == om);
    lemma_number_at(s, om, max_color_val as nat, e2);
    lemma_line_end_at(s, om, e2);
    assert(!is_comment(s, om, e2));
    assert(next_content_line(s, om) == om);
    assert(tokens(s, om, e2) =~= seq![tm]);
    lemma_u32_text(max_color_val);
    assert(max_of_line(s, om, e2) == Ok::<u32, PpmError>(max_color_val));
    assert(next_line(s, om) == e2 + 1);
}

/// A raster written as a binary (`P6`) stream decodes to the same
/// dimensions, max color value and bytes.
pub proof fn lemma_binary_round_trip(width: u32, height: u32, max_color_val: u32, d: Seq<u8>)
    requires
        width > 0,
        height > 0,
        d.len() == 3 * width * height,
    ensures
        decode(encode(width, height, max_color_val, d, true)) == Ok::<
            (PpmHeaderView, Seq<u8>),
            PpmError,
        >(
            (
                PpmHeaderView {
                    magic_number: binary_magic(),
                    width,
                    height,
                    max_color_val,
                },
                d,
            ),
        ),
{
    let h = header_text(width, height, max_color_val, true);
    lemma_header_text_read(width, height, max_color_val, true, d);
    assert((h + d).skip(h.len() as int) =~= d);
    assert(d.take(3 * width * height) =~= d);
}

/// A raster written as an ASCII (`P3`) stream decodes to the same
/// dimensions, max color value and bytes.
pub proof fn lemma_ascii_round_trip(width: u32, height: u32, max_color_val: u32, d: Seq<u8>)
    requires
        width > 0,
        height > 0,
        d.len() == 3 * width * height,
    ensures
        decode(encode(width, height, max_color_val, d, false)) == Ok::<
            (PpmHeaderView, Seq<u8>),
            PpmError,
        >(
            (
                PpmHeaderView {
                    magic_number: ascii_magic(),
                    width,
                    height,
                    max_color_val,
                },
                d,
            ),
        ),
{
    let h = header_text(width, height, max_color_val, false);
    let t = ascii_text(d);
    lemma_header_text_read(width, height, max_color_val, false, t);
    assert((h + t).skip(h.len() as int) =~= t);
    let k: int = width * height;
    assert(3 * width * height == k * 3) by (nonlinear_arith)
        requires
            k == width * height,
    ;
    lemma_mod_multiples_basic(k, 3);
    lemma_ascii_text_read(d);
}

} // verus!
