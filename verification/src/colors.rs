//! The colour types, bit depths and alpha rewrites of a PNG image.

use vstd::prelude::*;

verus! {

/// How the samples of a pixel are to be read.
#[derive(Clone, Copy, Debug, PartialEq, Eq, Structural)]
pub enum ColorType {
    /// One grey sample per pixel
    Grayscale,
    /// Red, green and blue samples
    RGB,
    /// One index into the palette
    Indexed,
    /// A grey and an alpha sample
    GrayscaleAlpha,
    /// Red, green, blue and alpha samples
    RGBA,
}

impl ColorType {
    /// The number of samples in a pixel.
    pub open spec fn channels(self) -> u8 {
        match self {
            ColorType::Grayscale | ColorType::Indexed => 1,
            ColorType::GrayscaleAlpha => 2,
            ColorType::RGB => 3,
            ColorType::RGBA => 4,
        }
    }

    /// The code that stands for the colour type in an IHDR chunk.
    pub open spec fn code(self) -> u8 {
        match self {
            ColorType::Grayscale => 0,
            ColorType::RGB => 2,
            ColorType::Indexed => 3,
            ColorType::GrayscaleAlpha => 4,
            ColorType::RGBA => 6,
        }
    }

    /// Whether a pixel of this type ends in an alpha sample.
    pub open spec fn has_alpha(self) -> bool {
        self is GrayscaleAlpha || self is RGBA
    }

    /// The number of samples in a pixel.
    pub fn channels_per_pixel(&self) -> (channels: u8)
        ensures
            channels == self.channels(),
            1 <= channels <= 4,
    {
        match self {
            ColorType::Grayscale | ColorType::Indexed => 1,
            ColorType::GrayscaleAlpha => 2,
            ColorType::RGB => 3,
            ColorType::RGBA => 4,
        }
    }

    /// The code used by the PNG format for the colour type.
    pub fn png_header_code(&self) -> (code: u8)
        ensures
            code == self.code(),
    {
        match self {
            ColorType::Grayscale => 0,
            ColorType::RGB => 2,
            ColorType::Indexed => 3,
            ColorType::GrayscaleAlpha => 4,
            ColorType::RGBA => 6,
        }
    }
}

/// The number of bits in a sample.
#[derive(Clone, Copy, Debug, PartialEq, Eq, Structural)]
pub enum BitDepth {
    One,
    Two,
    Four,
    Eight,
    Sixteen,
}

impl BitDepth {
    /// The number of bits.
    pub open spec fn bits(self) -> u8 {
        match self {
            BitDepth::One => 1,
            BitDepth::Two => 2,
            BitDepth::Four => 4,
            BitDepth::Eight => 8,
            BitDepth::Sixteen => 16,
        }
    }

    /// The number of bits as an integer.
    pub fn as_u8(&self) -> (bits: u8)
        ensures
            bits == self.bits(),
    {
        match self {
            BitDepth::One => 1,
            BitDepth::Two => 2,
            BitDepth::Four => 4,
            BitDepth::Eight => 8,
            BitDepth::Sixteen => 16,
        }
    }
}

/// What to write into the colour samples of fully transparent pixels.
#[derive(Clone, Copy, Debug, PartialEq, Eq, Structural)]
pub enum AlphaOptim {
    /// Leave them alone
    NoOp,
    /// Zero
    Black,
    /// The largest sample
    White,
    /// The bytes of the line below, counted from its filter byte, so that they stand one byte to
    /// the left of those that they go into; zeros in the last line
    Up,
    /// The bytes of all raw data above, counted from its start, filter bytes included; zeros in the
    /// first line
    Down,
    /// The samples to the right
    Left,
    /// The samples to the left
    Right,
}

} // verus!
