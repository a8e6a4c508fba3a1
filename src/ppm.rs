//! The PPM header and body codec.
//!
//! A PPM stream is a magic line (`P3` for ASCII, `P6` for binary), then,
//! with comment lines allowed between them, a line `<width> <height>` and a
//! line `<max color value>`, then the pixel body: for `P3` decimal channel
//! values separated by whitespace, for `P6` exactly `3 * width * height` raw
//! bytes.

use crate::decimal::{decimal_text, parse_bounded, parse_u32, parse_u8, push_decimal};
use crate::raster::{pixel_count, Raster};
use crate::scan::{
    find_line_end, is_comment, is_comment_line, line_end, line_text, line_tokens, next_line,
    span_texts, tokens, lemma_line_end_bounds, CR, NL, SPACE,
};
use vstd::prelude::*;
use vstd::slice::{slice_subrange, slice_to_vec};

verus! {

/// Why a PPM stream could not be read.
#[derive(Clone, Copy, Debug, PartialEq, Eq, Structural)]
pub enum PpmError {
    /// The stream is empty.
    MissingMagicNumber,
    /// The stream ends before the dimensions line, or that line is blank.
    MissingWidth,
    /// The dimensions line holds a width but no height.
    MissingHeight,
    /// The stream ends before the max color value line.
    MissingMaxColorValue,
    /// The width is not a decimal number in `1..=u32::MAX`.
    InvalidWidth,
    /// The height is not a decimal number in `1..=u32::MAX`.
    InvalidHeight,
    /// The max color value line is not one decimal number in `0..=u32::MAX`.
    InvalidMaxColorValue,
    /// An ASCII body token is not a decimal number in `0..=255`.
    InvalidPixelValue,
    /// The magic line is neither `P3` nor `P6`.
    UnsupportedFormat,
    /// A binary body is shorter than `3 * width * height` bytes.
    UnexpectedEof,
}

impl PpmError {
    /// Whether the error is a malformed stream rather than a short one.
    pub fn is_format_error(&self) -> (r: bool)
        ensures
            r == !(*self is UnexpectedEof),
    {
        !matches!(self, PpmError::UnexpectedEof)
    }
}

/// The header of a PPM stream.
#[derive(Debug)]
pub struct PpmHeader {
    /// The magic line as it stands, without its line ending.
    pub magic_number: Vec<u8>,
    pub width: u32,
    pub height: u32,
    pub max_color_val: u32,
}

pub struct PpmHeaderView {
    pub magic_number: Seq<u8>,
    pub width: u32,
    pub height: u32,
    pub max_color_val: u32,
}

impl View for PpmHeader {
    type V = PpmHeaderView;

    open spec fn view(&self) -> PpmHeaderView {
        PpmHeaderView {
            magic_number: self.magic_number@,
            width: self.width,
            height: self.height,
            max_color_val: self.max_color_val,
        }
    }
}

/// The first line at or after `i` that is not a comment, or the end of input.
pub open spec fn next_content_line(s: Seq<u8>, i: int) -> int
    decreases s.len() - i,
{
    if i >= s.len() {
        s.len() as int
    } else if is_comment(s, i, line_end(s, i)) {
        proof {
            lemma_line_end_bounds(s, i);
        }
        next_content_line(s, next_line(s, i))
    } else {
        i
    }
}

/// Width and height from the dimensions line `s[i..e]`: its first two tokens,
/// each a nonzero `u32`; further tokens are ignored.
pub open spec fn dims_of_line(s: Seq<u8>, i: int, e: int) -> Result<(u32, u32), PpmError> {
    let t = tokens(s, i, e);
    if t.len() == 0 {
        Err(PpmError::MissingWidth)
    } else if (parse_u32(t[0]) is None) || parse_u32(t[0]) == Some(0u32) {
        Err(PpmError::InvalidWidth)
    } else if t.len() < 2 {
        Err(PpmError::MissingHeight)
    } else if (parse_u32(t[1]) is None) || parse_u32(t[1]) == Some(0u32) {
        Err(PpmError::InvalidHeight)
    } else {
        Ok((parse_u32(t[0]).unwrap(), parse_u32(t[1]).unwrap()))
    }
}

/// The max color value from the line `s[i..e]`, which must hold one `u32`
/// and nothing else but whitespace.
pub open spec fn max_of_line(s: Seq<u8>, i: int, e: int) -> Result<u32, PpmError> {
    let t = tokens(s, i, e);
    if t.len() == 1 && (parse_u32(t[0]) is Some) {
        Ok(parse_u32(t[0]).unwrap())
    } else {
        Err(PpmError::InvalidMaxColorValue)
    }
}

/// The header at the start of `s`, with the index where the body starts.
pub open spec fn read_header(s: Seq<u8>) -> Result<(PpmHeaderView, int), PpmError> {
    if s.len() == 0 {
        Err(PpmError::MissingMagicNumber)
    } else {
        let magic = line_text(s, 0, line_end(s, 0));
        let i1 = next_content_line(s, next_line(s, 0));
        if i1 >= s.len() {
            Err(PpmError::MissingWidth)
        } else {
            match dims_of_line(s, i1, line_end(s, i1)) {
                Err(e) => Err(e),
                Ok((w, h)) => {
                    let i2 = next_content_line(s, next_line(s, i1));
                    if i2 >= s.len() {
                        Err(PpmError::MissingMaxColorValue)
                    } else {
                        match max_of_line(s, i2, line_end(s, i2)) {
                            Err(e) => Err(e),
                            Ok(m) => Ok(
                                (
                                    PpmHeaderView {
                                        magic_number: magic,
                                        width: w,
                                        height: h,
                                        max_color_val: m,
                                    },
                                    next_line(s, i2),
                                ),
                            ),
                        }
                    }
                },
            }
        }
    }
}

/// Skips comment lines from `i` on.
fn skip_comment_lines(s: &[u8], i: usize) -> (r: usize)
    requires
        i <= s@.len(),
    ensures
        r as int == next_content_line(s@, i as int),
        i <= r <= s@.len(),
{
    let mut k = i;
    while k < s.len()
        invariant
            i <= k <= s@.len(),
            next_content_line(s@, i as int) == next_content_line(s@, k as int),
        decreases s@.len() - k,
    {
        let e = find_line_end(s, k);
        if !is_comment_line(s, k, e) {
            return k;
        }
        proof {
            lemma_line_end_bounds(s@, k as int);
        }
        k = if e < s.len() {
            e + 1
        } else {
            e
        };
    }
    k
}

fn line_after(s: &[u8], e: usize) -> (r: usize)
    requires
        e <= s@.len(),
    ensures
        r == (if e < s@.len() {
            e + 1
        } else {
            e as int
        }),
{
    if e < s.len() {
        e + 1
    } else {
        e
    }
}

fn read_dims(s: &[u8], i: usize, e: usize) -> (r: Result<(u32, u32), PpmError>)
    requires
        i <= e <= s@.len(),
    ensures
        r == dims_of_line(s@, i as int, e as int),
{
    let spans = line_tokens(s, i, e);
    let ghost t = tokens(s@, i as int, e as int);
    if spans.len() == 0 {
        return Err(PpmError::MissingWidth);
    }
    assert(t[0] == s@.subrange(spans@[0].0 as int, spans@[0].1 as int));
    let w = match parse_bounded(s, spans[0].0, spans[0].1, u32::MAX) {
        Some(w) if w > 0 => w,
        _ => {
            return Err(PpmError::InvalidWidth);
        },
    };
    if spans.len() < 2 {
        return Err(PpmError::MissingHeight);
    }
    assert(t[1] == s@.subrange(spans@[1].0 as int, spans@[1].1 as int));
    let h = match parse_bounded(s, spans[1].0, spans[1].1, u32::MAX) {
        Some(h) if h > 0 => h,
        _ => {
            return Err(PpmError::InvalidHeight);
        },
    };
    Ok((w, h))
}

fn read_max(s: &[u8], i: usize, e: usize) -> (r: Result<u32, PpmError>)
    requires
        i <= e <= s@.len(),
    ensures
        r == max_of_line(s@, i as int, e as int),
{
    let spans = line_tokens(s, i, e);
    let ghost t = tokens(s@, i as int, e as int);
    if spans.len() != 1 {
        return Err(PpmError::InvalidMaxColorValue);
    }
    assert(t[0] == s@.subrange(spans@[0].0 as int, spans@[0].1 as int));
    match parse_bounded(s, spans[0].0, spans[0].1, u32::MAX) {
        Some(m) => Ok(m),
        None => Err(PpmError::InvalidMaxColorValue),
    }
}

/// Reads the header at the start of `input`; on success also returns the
/// index where the pixel body starts, right after the max color value line.
pub fn read_ppm_header(input: &[u8]) -> (r: Result<(PpmHeader, usize), PpmError>)
    ensures
        match read_header(input@) {
            Ok((hv, n)) => r matches Ok((h, m)) && h@ == hv && m == n,
            Err(e) => r == Err::<(PpmHeader, usize), PpmError>(e),
        },
{
    if input.len() == 0 {
        return Err(PpmError::MissingMagicNumber);
    }
    let e0 = find_line_end(input, 0);
    let mut me = e0;
    if e0 < input.len() && e0 > 0 && input[e0 - 1] == CR {
        me = e0 - 1;
    }
    let magic_number = slice_to_vec(slice_subrange(input, 0, me));
    assert(magic_number@ == line_text(input@, 0, e0 as int));
    let i1 = skip_comment_lines(input, line_after(input, e0));
    if i1 >= input.len() {
        return Err(PpmError::MissingWidth);
    }
    let e1 = find_line_end(input, i1);
    let (width, height) = match read_dims(input, i1, e1) {
        Ok(d) => d,
        Err(err) => {
            return Err(err);
        },
    };
    let i2 = skip_comment_lines(input, line_after(input, e1));
    if i2 >= input.len() {
        return Err(PpmError::MissingMaxColorValue);
    }
    let e2 = find_line_end(input, i2);
    let max_color_val = match read_max(input, i2, e2) {
        Ok(m) => m,
        Err(err) => {
            return Err(err);
        },
    };
    Ok((PpmHeader { magic_number, width, height, max_color_val }, line_after(input, e2)))
}

pub open spec fn ascii_magic() -> Seq<u8> {
    seq![80u8, 51u8]
}

pub open spec fn binary_magic() -> Seq<u8> {
    seq![80u8, 54u8]
}

/// The channel values of the tokens of one line, if every token is one.
pub open spec fn line_values(t: Seq<Seq<u8>>) -> Option<Seq<u8>> {
    if forall|k: int| 0 <= k < t.len() ==> (#[trigger] parse_u8(t[k])) is Some {
        Some(t.map_values(|x: Seq<u8>| parse_u8(x).unwrap()))
    } else {
        None
    }
}

/// `acc` followed by what a decode of the rest gave.
pub open spec fn prepend(acc: Seq<u8>, r: Result<Seq<u8>, PpmError>) -> Result<Seq<u8>, PpmError> {
    match r {
        Ok(rest) => Ok(acc + rest),
        Err(e) => Err(e),
    }
}

/// The channel values of an ASCII body from `i` on: the tokens of every line
/// that is not a comment, in order, each a decimal number in `0..=255`.
pub open spec fn ascii_values(s: Seq<u8>, i: int) -> Result<Seq<u8>, PpmError>
    decreases s.len() - i,
{
    if i >= s.len() {
        Ok(Seq::empty())
    } else {
        proof {
            lemma_line_end_bounds(s, i);
        }
        let e = line_end(s, i);
        if is_comment(s, i, e) {
            ascii_values(s, next_line(s, i))
        } else {
            match line_values(tokens(s, i, e)) {
                Some(v) => prepend(v, ascii_values(s, next_line(s, i))),
                None => Err(PpmError::InvalidPixelValue),
            }
        }
    }
}

/// The raster that the body `b` holds under header `h`.
pub open spec fn body_raster(h: PpmHeaderView, b: Seq<u8>) -> Result<Seq<u8>, PpmError> {
    if h.magic_number == ascii_magic() {
        ascii_values(b, 0)
    } else if h.magic_number == binary_magic() {
        if 3 * h.width * h.height <= b.len() {
            Ok(b.take(3 * h.width * h.height))
        } else {
            Err(PpmError::UnexpectedEof)
        }
    } else {
        Err(PpmError::UnsupportedFormat)
    }
}

/// A whole PPM stream read as its header and raster.
pub open spec fn decode(s: Seq<u8>) -> Result<(PpmHeaderView, Seq<u8>), PpmError> {
    match read_header(s) {
        Err(e) => Err(e),
        Ok((h, n)) => match body_raster(h, s.skip(n)) {
            Err(e) => Err(e),
            Ok(d) => Ok((h, d)),
        },
    }
}

fn is_magic(m: &Vec<u8>, digit: u8) -> (r: bool)
    ensures
        r == (m@ == seq![80u8, digit]),
{
    let r = m.len() == 2 && m[0] == 80 && m[1] == digit;
    if r {
        assert(m@ =~= seq![80u8, digit]);
    }
    r
}

/// Appends the channel values of the line `s[i..e]`.
fn push_line_values(s: &[u8], i: usize, e: usize, out: &mut Vec<u8>) -> (ok: bool)
    requires
        i <= e <= s@.len(),
    ensures
        ok == (line_values(tokens(s@, i as int, e as int)) is Some),
        ok ==> final(out)@ == old(out)@ + line_values(tokens(s@, i as int, e as int)).unwrap(),
{
    let spans = line_tokens(s, i, e);
    let ghost t = tokens(s@, i as int, e as int);
    let ghost start = out@;
    let mut j: usize = 0;
    while j < spans.len()
        invariant
            j <= spans@.len(),
            span_texts(s@, spans@) == t,
            t == tokens(s@, i as int, e as int),
            forall|m: int|
                0 <= m < spans@.len() ==> i <= (#[trigger] spans@[m]).0 <= spans@[m].1 <= e,
            e <= s@.len(),
            forall|m: int| 0 <= m < j ==> (#[trigger] parse_u8(t[m])) is Some,
            out@ == start + t.take(j as int).map_values(|x: Seq<u8>| parse_u8(x).unwrap()),
        decreases spans@.len() - j,
    {
        let (a, b) = spans[j];
        assert(t[j as int] == s@.subrange(a as int, b as int));
        match parse_bounded(s, a, b, 255) {
            Some(v) => {
                out.push(v as u8);
                assert(t.take(j + 1).map_values(|x: Seq<u8>| parse_u8(x).unwrap()) =~= t.take(
                    j as int,
                ).map_values(|x: Seq<u8>| parse_u8(x).unwrap()).push(v as u8));
            },
            None => {
                assert(parse_u8(t[j as int]) is None);
                assert(!(line_values(t) is Some));
                return false;
            },
        }
        j = j + 1;
    }
    assert(t.take(j as int) =~= t);
    true
}

fn parse_ascii(s: &[u8]) -> (r: Result<Vec<u8>, PpmError>)
    ensures
        match ascii_values(s@, 0) {
            Ok(v) => r matches Ok(out) && out@ == v,
            Err(e) => r == Err::<Vec<u8>, PpmError>(e),
        },
{
    let mut out: Vec<u8> = Vec::new();
    let mut i: usize = 0;
    while i < s.len()
        invariant
            i <= s@.len(),
            ascii_values(s@, 0) == prepend(out@, ascii_values(s@, i as int)),
        decreases s@.len() - i,
    {
        proof {
            lemma_line_end_bounds(s@, i as int);
        }
        let e = find_line_end(s, i);
        let next = line_after(s, e);
        if !is_comment_line(s, i, e) {
            let ghost before = out@;
            if !push_line_values(s, i, e, &mut out) {
                return Err(PpmError::InvalidPixelValue);
            }
            proof {
                let v = line_values(tokens(s@, i as int, e as int)).unwrap();
                match ascii_values(s@, next as int) {
                    Ok(rest) => {
                        assert(before + (v + rest) =~= out@ + rest);
                    },
                    Err(_) => {},
                }
            }
        }
        i = next;
    }
    assert(out@ + Seq::<u8>::empty() =~= out@);
    Ok(out)
}

/// Decodes the pixel body `body` of a stream with header `header`: for `P3`
/// the decimal values of every line that is not a comment (however many
/// there are), for `P6` the first `3 * width * height` bytes.
pub fn parse_ppm(header: &PpmHeader, body: &[u8]) -> (r: Result<Vec<u8>, PpmError>)
    ensures
        match body_raster(header@, body@) {
            Ok(v) => r matches Ok(out) && out@ == v,
            Err(e) => r == Err::<Vec<u8>, PpmError>(e),
        },
{
    if is_magic(&header.magic_number, 51) {
        parse_ascii(body)
    } else if is_magic(&header.magic_number, 54) {
        let pixels = pixel_count(header.width, header.height);
        if pixels > (body.len() / 3) as u64 {
            assert(3 * pixels > body@.len());
            return Err(PpmError::UnexpectedEof);
        }
        let size = (pixels * 3) as usize;
        Ok(slice_to_vec(slice_subrange(body, 0, size)))
    } else {
        Err(PpmError::UnsupportedFormat)
    }
}

/// Decodes a whole PPM stream into its header and raster.
pub fn decode_ppm(input: &[u8]) -> (r: Result<(PpmHeader, Vec<u8>), PpmError>)
    ensures
        match decode(input@) {
            Ok((hv, d)) => r matches Ok((h, out)) && h@ == hv && out@ == d,
            Err(e) => r == Err::<(PpmHeader, Vec<u8>), PpmError>(e),
        },
{
    let (header, n) = match read_ppm_header(input) {
        Ok(x) => x,
        Err(e) => {
            return Err(e);
        },
    };
    proof {
        lemma_line_end_bounds(input@, 0);
    }
    assert(n <= input@.len());
    let body = slice_subrange(input, n, input.len());
    assert(body@ =~= input@.skip(n as int));
    match parse_ppm(&header, body) {
        Ok(data) => Ok((header, data)),
        Err(e) => Err(e),
    }
}

pub open spec fn magic_for(binary: bool) -> Seq<u8> {
    if binary {
        binary_magic()
    } else {
        ascii_magic()
    }
}

/// The three header lines: magic, `<width> <height>`, max color value.
pub open spec fn header_text(width: u32, height: u32, max_color_val: u32, binary: bool) -> Seq<u8> {
    magic_for(binary).push(NL) + decimal_text(width as nat).push(SPACE) + decimal_text(
        height as nat,
    ).push(NL) + decimal_text(max_color_val as nat).push(NL)
}

/// One pixel of an ASCII body: `<r> <g> <b>` and a newline.
pub open spec fn pixel_line(r: u8, g: u8, b: u8) -> Seq<u8> {
    decimal_text(r as nat).push(SPACE) + decimal_text(g as nat).push(SPACE) + decimal_text(
        b as nat,
    ).push(NL)
}

/// The ASCII body of a raster: one line per pixel, in raster order.
pub open spec fn ascii_text(d: Seq<u8>) -> Seq<u8>
    decreases d.len(),
{
    if d.len() < 3 {
        Seq::empty()
    } else {
        pixel_line(d[0], d[1], d[2]) + ascii_text(d.skip(3))
    }
}

/// The body of a raster: its bytes unchanged for `P6`, text for `P3`.
pub open spec fn body_text(d: Seq<u8>, binary: bool) -> Seq<u8> {
    if binary {
        d
    } else {
        ascii_text(d)
    }
}

/// A whole PPM stream for a raster.
pub open spec fn encode(
    width: u32,
    height: u32,
    max_color_val: u32,
    d: Seq<u8>,
    binary: bool,
) -> Seq<u8> {
    header_text(width, height, max_color_val, binary) + body_text(d, binary)
}

/// Appends the three header lines.
pub fn write_ppm_header(
    out: &mut Vec<u8>,
    width: u32,
    height: u32,
    max_color_val: u32,
    binary: bool,
)
    ensures
        final(out)@ == old(out)@ + header_text(width, height, max_color_val, binary),
{
    out.push(80);
    out.push(if binary {
        54
    } else {
        51
    });
    out.push(NL);
    assert(out@ =~= old(out)@ + magic_for(binary).push(NL));
    push_decimal(out, width);
    out.push(SPACE);
    push_decimal(out, height);
    out.push(NL);
    push_decimal(out, max_color_val);
    out.push(NL);
    assert(final(out)@ =~= old(out)@ + header_text(width, height, max_color_val, binary));
}

/// Appends the pixel body of `raster`.
pub fn write_ppm_data(out: &mut Vec<u8>, raster: &Raster, binary: bool)
    ensures
        final(out)@ == old(out)@ + body_text(raster.spec_data(), binary),
{
    let d = raster.data();
    let ghost start = out@;
    if binary {
        let mut k: usize = 0;
        while k < d.len()
            invariant
                k <= d@.len(),
                out@ == start + d@.take(k as int),
            decreases d@.len() - k,
        {
            out.push(d[k]);
            assert(d@.take(k + 1) =~= d@.take(k as int).push(d@[k as int]));
            k = k + 1;
        }
        assert(d@.take(k as int) =~= d@);
    } else {
        let len = d.len();
        let n = len / 3;
        let mut k: usize = 0;
        assert(d@.skip(0) =~= d@);
        while k < n
            invariant
                len == d@.len(),
                n == d@.len() / 3,
                k <= n,
                out@ + ascii_text(d@.skip(3 * k)) == start + ascii_text(d@),
            decreases n - k,
        {
            let ghost before = out@;
            let ghost rest = d@.skip(3 * k);
            assert(3 * k + 3 <= d@.len());
            let i = 3 * k;
            push_decimal(out, d[i] as u32);
            out.push(SPACE);
            push_decimal(out, d[i + 1] as u32);
            out.push(SPACE);
            push_decimal(out, d[i + 2] as u32);
            out.push(NL);
            assert(rest.skip(3) =~= d@.skip(3 * (k + 1)));
            assert(out@ =~= before + pixel_line(rest[0], rest[1], rest[2]));
            assert(out@ + ascii_text(d@.skip(3 * (k + 1))) =~= before + (pixel_line(
                rest[0],
                rest[1],
                rest[2],
            ) + ascii_text(rest.skip(3))));
            k = k + 1;
        }
        assert(ascii_text(d@.skip(3 * k)) =~= Seq::<u8>::empty());
        assert(out@ =~= out@ + ascii_text(d@.skip(3 * k)));
    }
}

/// A whole PPM stream for `raster`: header, then body.
pub fn encode_ppm(raster: &Raster, max_color_val: u32, binary: bool) -> (r: Vec<u8>)
    ensures
        r@ == encode(
            raster.spec_width(),
            raster.spec_height(),
            max_color_val,
            raster.spec_data(),
            binary,
        ),
{
    let mut out: Vec<u8> = Vec::new();
    write_ppm_header(&mut out, raster.width(), raster.height(), max_color_val, binary);
    write_ppm_data(&mut out, raster, binary);
    assert(out@ =~= encode(
        raster.spec_width(),
        raster.spec_height(),
        max_color_val,
        raster.spec_data(),
        binary,
    ));
    out
}

} // verus!
