//! The IHDR chunk of a PNG file: the size of the image and the form of its pixels.

use vstd::prelude::*;
use crate::bytes::{be_bytes, be_bytes_round_trip, be_number, read_u32_be};
use crate::colors::{BitDepth, ColorType};
use crate::error::PngError;
use crate::outside::{write_u32_be, write_u8};

verus! {

/// What the IHDR chunk says of the image.
#[derive(Clone, Copy, Debug, PartialEq, Eq, Structural)]
pub struct IhdrData {
    /// The width of the image in pixels
    pub width: u32,
    /// The height of the image in pixels
    pub height: u32,
    /// How the samples of a pixel are to be read
    pub color_type: ColorType,
    /// The number of bits in a sample
    pub bit_depth: BitDepth,
    /// 1 if the image is stored in the seven Adam7 passes
    pub interlaced: u8,
}

impl IhdrData {
    /// The number of bits in a pixel.
    pub open spec fn bits_per_pixel(self) -> nat {
        (self.bit_depth.bits() * self.color_type.channels()) as nat
    }

    /// The distance, in bytes, between a byte and the byte of the pixel to its left that the
    /// filters compare it with: the size of a pixel, rounded up to whole bytes.
    pub open spec fn filter_distance(self) -> nat {
        (self.bits_per_pixel() + 7) / 8
    }

    /// A pixel has at least one and at most 64 bits.
    pub proof fn lemma_pixel_size(self)
        ensures
            1 <= self.bits_per_pixel() <= 64,
            1 <= self.filter_distance() <= 8,
    {
        let (depth, channels) = (self.bit_depth.bits(), self.color_type.channels());
        assert(1 <= depth * channels <= 64) by (nonlinear_arith)
            requires
                1 <= depth <= 16,
                1 <= channels <= 4,
        ;
    }
}

/// The colour type that a code stands for.
pub open spec fn color_type_of(code: u8) -> Option<ColorType> {
    match code {
        0 => Some(ColorType::Grayscale),
        2 => Some(ColorType::RGB),
        3 => Some(ColorType::Indexed),
        4 => Some(ColorType::GrayscaleAlpha),
        6 => Some(ColorType::RGBA),
        _ => None,
    }
}

/// The bit depth of so many bits.
pub open spec fn bit_depth_of(bits: u8) -> Option<BitDepth> {
    match bits {
        1 => Some(BitDepth::One),
        2 => Some(BitDepth::Two),
        4 => Some(BitDepth::Four),
        8 => Some(BitDepth::Eight),
        16 => Some(BitDepth::Sixteen),
        _ => None,
    }
}

/// The content of an IHDR chunk: width, height, bit depth, colour type, compression method 0,
/// filter method 0, and whether the image is interlaced.
pub open spec fn ihdr_bytes(ihdr: IhdrData) -> Seq<u8> {
    be_bytes(ihdr.width) + be_bytes(ihdr.height) + seq![
        ihdr.bit_depth.bits(),
        ihdr.color_type.code(),
        0,
        0,
        ihdr.interlaced,
    ]
}

/// What the content of an IHDR chunk says, or what is wrong with it.
pub open spec fn ihdr_read(content: Seq<u8>) -> Result<IhdrData, Seq<char>> {
    if content.len() < 13 {
        Err("Image header data was too short"@)
    } else if color_type_of(content[9]) is None {
        Err("Unexpected color type in header"@)
    } else if bit_depth_of(content[8]) is None {
        Err("Unexpected bit depth in header"@)
    } else {
        Ok(
            IhdrData {
                width: be_number(content.subrange(0, 4)),
                height: be_number(content.subrange(4, 8)),
                color_type: color_type_of(content[9])->0,
                bit_depth: bit_depth_of(content[8])->0,
                interlaced: content[12],
            },
        )
    }
}

/// Headers that were written are read back.
pub proof fn ihdr_round_trip(ihdr: IhdrData)
    ensures
        ihdr_read(ihdr_bytes(ihdr)) == Ok::<IhdrData, Seq<char>>(ihdr),
{
    let content = ihdr_bytes(ihdr);
    be_bytes_round_trip(ihdr.width);
    be_bytes_round_trip(ihdr.height);
    assert(content.subrange(0, 4) =~= be_bytes(ihdr.width));
    assert(content.subrange(4, 8) =~= be_bytes(ihdr.height));
}

/// Reads the content of an IHDR chunk.
pub fn parse_ihdr_header(byte_data: &[u8]) -> (ihdr: Result<IhdrData, PngError>)
    ensures
        match ihdr_read(byte_data@) {
            Ok(read) => ihdr matches Ok(i) && i == read,
            Err(words) => ihdr matches Err(e) && e@ == words,
        },
{
    if byte_data.len() < 13 {
        return Err(PngError::new("Image header data was too short"));
    }
    let color_type: ColorType = match byte_data[9] {
        0 => ColorType::Grayscale,
        2 => ColorType::RGB,
        3 => ColorType::Indexed,
        4 => ColorType::GrayscaleAlpha,
        6 => ColorType::RGBA,
        _ => {
            return Err(PngError::new("Unexpected color type in header"));
        },
    };
    let bit_depth: BitDepth = match byte_data[8] {
        1 => BitDepth::One,
        2 => BitDepth::Two,
        4 => BitDepth::Four,
        8 => BitDepth::Eight,
        16 => BitDepth::Sixteen,
        _ => {
            return Err(PngError::new("Unexpected bit depth in header"));
        },
    };
    Ok(
        IhdrData {
            width: read_u32_be(byte_data, 0),
            height: read_u32_be(byte_data, 4),
            color_type,
            bit_depth,
            interlaced: byte_data[12],
        },
    )
}

/// The content of an IHDR chunk.
pub(crate) fn format_ihdr_header(ihdr: &IhdrData) -> (content: Vec<u8>)
    ensures
        content@ == ihdr_bytes(*ihdr),
{
    let mut content: Vec<u8> = Vec::with_capacity(13);
    write_u32_be(&mut content, ihdr.width);
    write_u32_be(&mut content, ihdr.height);
    write_u8(&mut content, ihdr.bit_depth.as_u8());
    write_u8(&mut content, ihdr.color_type.png_header_code());
    write_u8(&mut content, 0);  // Compression -- deflate
    write_u8(&mut content, 0);  // Filter method -- 5-way adaptive filtering
    write_u8(&mut content, ihdr.interlaced);
    assert(content@ =~= ihdr_bytes(*ihdr));
    content
}

} // verus!
