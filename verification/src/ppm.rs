//! In-memory image document and the error taxonomy of the decoder.

use vstd::prelude::*;

verus! {

/// One decoded pixel: three channel values, each stored wide enough to hold
/// the 16-bit case, so 8-bit values are zero-extended, never rescaled.
#[derive(Clone, Copy, PartialEq, Eq, Structural, Debug)]
pub struct Pixel {
    pub r: u16,
    pub g: u16,
    pub b: u16,
}

/// Which numeric header field a malformed token was destined for.
#[derive(Clone, Copy, PartialEq, Eq, Structural, Debug)]
pub enum NumericField {
    Width,
    Height,
    MaxChannelValue,
}

/// Every way a decode can fail. Each error is terminal for the current
/// invocation: no partial result is ever returned alongside one.
#[derive(Clone, Copy, PartialEq, Eq, Structural, Debug)]
pub enum ImageError {
    /// The input ended before all four header fields were assigned.
    TruncatedHeader,
    /// A token expected to be a numeric header field failed integer parsing.
    MalformedNumericField(NumericField),
    /// The input ended before a complete per-pixel binary record could be read.
    TruncatedPayload,
    /// The maximum channel value is neither 255 nor 65535.
    UnsupportedBitDepth,
}

impl ImageError {
    /// A short diagnostic naming the failure category.
    pub fn describe(&self) -> (r: &'static str)
        ensures
            r@ == self.describe_spec(),
    {
        match self {
            ImageError::TruncatedHeader => "input ended before all header fields were read",
            ImageError::MalformedNumericField(NumericField::Width) => "header field for width failed to parse",
            ImageError::MalformedNumericField(NumericField::Height) => "header field for height failed to parse",
            ImageError::MalformedNumericField(NumericField::MaxChannelValue) => "header field for max channel value failed to parse",
            ImageError::TruncatedPayload => "input ended before all pixel data was read",
            ImageError::UnsupportedBitDepth => "unsupported max channel value for pixel data",
        }
    }

    /// The text of each diagnostic.
    pub open spec fn describe_spec(&self) -> Seq<char> {
        match self {
            ImageError::TruncatedHeader => "input ended before all header fields were read"@,
            ImageError::MalformedNumericField(NumericField::Width) => "header field for width failed to parse"@,
            ImageError::MalformedNumericField(NumericField::Height) => "header field for height failed to parse"@,
            ImageError::MalformedNumericField(NumericField::MaxChannelValue) => "header field for max channel value failed to parse"@,
            ImageError::TruncatedPayload => "input ended before all pixel data was read"@,
            ImageError::UnsupportedBitDepth => "unsupported max channel value for pixel data"@,
        }
    }
}

/// The image document: four header fields and the decoded pixels.
///
/// The format tag is kept as the raw bytes of its header token (the header is
/// ASCII text). `pixels` is only ever fully populated or empty: a decode
/// error never leaves a partial pixel sequence behind.
pub struct Ppm {
    pub magic: Vec<u8>,
    pub width: u32,
    pub height: u32,
    pub maxc: u32,
    pub pixels: Vec<Pixel>,
}

impl Ppm {
    /// A fresh document with empty tag, zero dimensions and no pixels.
    pub fn new() -> (r: Ppm)
        ensures
            r.magic@ == Seq::<u8>::empty(),
            r.width == 0,
            r.height == 0,
            r.maxc == 0,
            r.pixels@ == Seq::<Pixel>::empty(),
    {
        Ppm { magic: Vec::new(), width: 0, height: 0, maxc: 0, pixels: Vec::new() }
    }

    /// How many pixels the declared dimensions call for.
    pub fn pixel_count(&self) -> (n: u64)
        ensures
            n == self.width as u64 * self.height as u64,
    {
        proof {
            assert(self.width as int * self.height as int <= 0xffff_ffff * 0xffff_ffff)
                by (nonlinear_arith)
                requires
                    self.width <= 0xffff_ffffu32,
                    self.height <= 0xffff_ffffu32,
            ;
        }
        self.width as u64 * self.height as u64
    }

    /// The bit-depth label derived purely from the maximum channel value.
    pub fn bit_depth_label(&self) -> (r: &'static str)
        ensures
            self.maxc == 255 ==> r@ == "8-bit"@,
            self.maxc == 65535 ==> r@ == "16-bit"@,
            self.maxc != 255 && self.maxc != 65535 ==> r@ == "Unknown"@,
    {
        if self.maxc == 255 {
            "8-bit"
        } else if self.maxc == 65535 {
            "16-bit"
        } else {
            "Unknown"
        }
    }
}

} // verus!
