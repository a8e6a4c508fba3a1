//! The command line's data, and the choice of conversion that follows from
//! the file names and the requested PPM format.

use vstd::prelude::*;
use vstd::string::StringSliceAdditionalSpecFns;

verus! {

/// Command line arguments for image conversion.
#[derive(Debug)]
pub struct Args {
    pub command: Commands,
}

#[derive(Debug)]
pub enum Commands {
    /// Convert from one image type to another.
    Convert(ConvertArgs),
}

#[derive(Debug)]
pub struct ConvertArgs {
    /// The input file.
    pub input: String,
    /// The output file.
    pub output: String,
    /// The PPM variant to write (`P3` or `P6`), where PPM is written from PNG or JPEG.
    pub format: Option<String>,
}

pub const DOT: u8 = 46;

/// The kind of image file that an extension names.
#[derive(Clone, Copy, Debug, PartialEq, Eq, Structural)]
pub enum ImageKind {
    Ppm,
    Png,
    Jpeg,
    Other,
}

/// A supported conversion.
#[derive(Clone, Copy, Debug, PartialEq, Eq, Structural)]
pub enum Conversion {
    PpmToPng,
    PngToPpm { binary: bool },
    PpmToJpeg,
    JpegToPpm { binary: bool },
}

#[derive(Clone, Copy, Debug, PartialEq, Eq, Structural)]
pub enum ConversionError {
    /// No conversion exists between the two file kinds.
    UnsupportedConversion,
    /// The PPM format is neither `P3` nor `P6`.
    InvalidPpmFormat,
}

/// What follows the last `.` of a file name; the whole name where it has no `.`.
pub open spec fn extension(p: Seq<u8>) -> Seq<u8>
    decreases p.len(),
{
    if p.len() == 0 {
        p
    } else if p.last() == DOT {
        Seq::empty()
    } else {
        extension(p.drop_last()).push(p.last())
    }
}

pub open spec fn kind_of(ext: Seq<u8>) -> ImageKind {
    if ext == seq![112u8, 112u8, 109u8] {
        ImageKind::Ppm
    } else if ext == seq![112u8, 110u8, 103u8] {
        ImageKind::Png
    } else if ext == seq![106u8, 112u8, 103u8] || ext == seq![106u8, 112u8, 101u8, 103u8] {
        ImageKind::Jpeg
    } else {
        ImageKind::Other
    }
}

/// `P3` asks for ASCII PPM, `P6` for binary; nothing else is a PPM format.
pub open spec fn ppm_format(f: Seq<u8>) -> Result<bool, ConversionError> {
    if f == seq![80u8, 51u8] {
        Ok(false)
    } else if f == seq![80u8, 54u8] {
        Ok(true)
    } else {
        Err(ConversionError::InvalidPpmFormat)
    }
}

/// The conversion from a file with extension `from` to one with extension
/// `to`, with the requested PPM format `format` (empty when none was given).
pub open spec fn plan(from: Seq<u8>, to: Seq<u8>, format: Seq<u8>) -> Result<
    Conversion,
    ConversionError,
> {
    match (kind_of(from), kind_of(to)) {
        (ImageKind::Ppm, ImageKind::Png) => Ok(Conversion::PpmToPng),
        (ImageKind::Png, ImageKind::Ppm) => match ppm_format(format) {
            Ok(binary) => Ok(Conversion::PngToPpm { binary }),
            Err(e) => Err(e),
        },
        (ImageKind::Ppm, ImageKind::Jpeg) => Ok(Conversion::PpmToJpeg),
        (ImageKind::Jpeg, ImageKind::Ppm) => match ppm_format(format) {
            Ok(binary) => Ok(Conversion::JpegToPpm { binary }),
            Err(e) => Err(e),
        },
        _ => Err(ConversionError::UnsupportedConversion),
    }
}

/// Where the extension of `p` starts.
fn extension_start(p: &[u8]) -> (k: usize)
    ensures
        k <= p@.len(),
        p@.subrange(k as int, p@.len() as int) == extension(p@),
{
    let mut k = p.len();
    assert(p@.take(p@.len() as int) =~= p@);
    while k > 0 && p[k - 1] != DOT
        invariant
            k <= p@.len(),
            extension(p@) == extension(p@.take(k as int)) + p@.subrange(k as int, p@.len() as int),
        decreases k,
    {
        let ghost q = p@.take(k as int);
        assert(q.drop_last() =~= p@.take(k - 1));
        assert(extension(p@.take(k - 1)) + p@.subrange(k - 1, p@.len() as int) =~= extension(
            p@.take(k as int),
        ) + p@.subrange(k as int, p@.len() as int));
        k = k - 1;
    }
    assert(extension(p@.take(k as int)) =~= Seq::<u8>::empty());
    assert(extension(p@) =~= p@.subrange(k as int, p@.len() as int));
    k
}

fn kind_of_extension(p: &[u8]) -> (r: ImageKind)
    ensures
        r == kind_of(extension(p@)),
{
    let k = extension_start(p);
    let n = p.len() - k;
    let ghost e = extension(p@);
    assert(e.len() == n);
    if n == 3 && p[k] == 112 && p[k + 1] == 112 && p[k + 2] == 109 {
        assert(e =~= seq![112u8, 112u8, 109u8]);
        ImageKind::Ppm
    } else if n == 3 && p[k] == 112 && p[k + 1] == 110 && p[k + 2] == 103 {
        assert(e =~= seq![112u8, 110u8, 103u8]);
        ImageKind::Png
    } else if n == 3 && p[k] == 106 && p[k + 1] == 112 && p[k + 2] == 103 {
        assert(e =~= seq![106u8, 112u8, 103u8]);
        ImageKind::Jpeg
    } else if n == 4 && p[k] == 106 && p[k + 1] == 112 && p[k + 2] == 101 && p[k + 3] == 103 {
        assert(e =~= seq![106u8, 112u8, 101u8, 103u8]);
        ImageKind::Jpeg
    } else {
        if n == 3 {
            assert(e[0] == p@[k as int] && e[1] == p@[k + 1] && e[2] == p@[k + 2]);
        }
        if n == 4 {
            assert(e[0] == p@[k as int] && e[1] == p@[k + 1] && e[2] == p@[k + 2] && e[3]
                == p@[k + 3]);
        }
        ImageKind::Other
    }
}

/// Reads a PPM format name: `P3` is ASCII (`false`), `P6` binary (`true`).
pub fn validate_ppm_format(format: &str) -> (r: Result<bool, ConversionError>)
    ensures
        r == ppm_format(format.spec_bytes()),
{
    let f = format.as_bytes();
    if f.len() == 2 && f[0] == 80 && (f[1] == 51 || f[1] == 54) {
        assert(f@ =~= seq![80u8, f@[1]]);
        Ok(f[1] == 54)
    } else {
        if f.len() == 2 {
            assert(f@[0] == f@[0] && f@[1] == f@[1]);
        }
        Err(ConversionError::InvalidPpmFormat)
    }
}

/// The conversion from PNG to PPM in the requested format.
pub fn handle_png_to_ppm(format: &str) -> (r: Result<Conversion, ConversionError>)
    ensures
        r == (match ppm_format(format.spec_bytes()) {
            Ok(binary) => Ok(Conversion::PngToPpm { binary }),
            Err(e) => Err(e),
        }),
{
    match validate_ppm_format(format) {
        Ok(binary) => Ok(Conversion::PngToPpm { binary }),
        Err(e) => Err(e),
    }
}

/// Chooses the conversion from the input and output file names and the
/// requested PPM format (none counts as empty).
pub fn handle_conversion(input: &str, output: &str, format: Option<&str>) -> (r: Result<
    Conversion,
    ConversionError,
>)
    ensures
        r == plan(
            extension(input.spec_bytes()),
            extension(output.spec_bytes()),
            match format {
                Some(f) => f.spec_bytes(),
                None => Seq::empty(),
            },
        ),
{
    let from = kind_of_extension(input.as_bytes());
    let to = kind_of_extension(output.as_bytes());
    match (from, to) {
        (ImageKind::Ppm, ImageKind::Png) => Ok(Conversion::PpmToPng),
        (ImageKind::Png, ImageKind::Ppm) => match format {
            Some(f) => handle_png_to_ppm(f),
            None => {
                assert(Seq::<u8>::empty().len() != seq![80u8, 51u8].len());
                assert(Seq::<u8>::empty().len() != seq![80u8, 54u8].len());
                Err(ConversionError::InvalidPpmFormat)
            },
        },
        (ImageKind::Ppm, ImageKind::Jpeg) => Ok(Conversion::PpmToJpeg),
        (ImageKind::Jpeg, ImageKind::Ppm) => match format {
            Some(f) => match validate_ppm_format(f) {
                Ok(binary) => Ok(Conversion::JpegToPpm { binary }),
                Err(e) => Err(e),
            },
            None => {
                assert(Seq::<u8>::empty().len() != seq![80u8, 51u8].len());
                assert(Seq::<u8>::empty().len() != seq![80u8, 54u8].len());
                Err(ConversionError::InvalidPpmFormat)
            },
        },
        _ => Err(ConversionError::UnsupportedConversion),
    }
}

} // verus!
