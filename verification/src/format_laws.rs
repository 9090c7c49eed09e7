//! What the bytes of a PNG file mean.

use vstd::prelude::*;
use vstd::utf8::{
    decode_utf8, decode_utf8_encode_utf8, encode_utf8, encode_utf8_decode_utf8,
    encode_utf8_valid_utf8, valid_utf8,
};
use crate::bytes::{be_bytes, be_number};
use crate::chunks::{chunk_at, chunk_bytes, ChunkAt};
use crate::colors::{BitDepth, ColorType};
use crate::headers::{ihdr_bytes, ihdr_read, IhdrData};
use crate::outside::crc32_ieee;

verus! {

/// The pixels of a colour type have red, green and blue samples, or stand for such.
pub open spec fn has_color(color_type: ColorType) -> bool {
    color_type == ColorType::RGB || color_type == ColorType::RGBA || color_type
        == ColorType::Indexed
}

/// The code of a colour type is the sum of 1 if there is a palette, 2 if the pixels have colour, and
/// 4 if they have an alpha sample.
pub proof fn color_type_code_is_a_sum(color_type: ColorType)
    ensures
        color_type.code() == (if color_type == ColorType::Indexed {
            1int
        } else {
            0
        }) + (if has_color(color_type) {
            2int
        } else {
            0
        }) + (if color_type == ColorType::GrayscaleAlpha || color_type == ColorType::RGBA {
            4int
        } else {
            0
        }),
{
}

/// A pixel has three samples if it has colour of its own, one otherwise, and one more for alpha.
pub proof fn channels_are_colours_and_alpha(color_type: ColorType)
    ensures
        color_type.channels() == (if color_type == ColorType::RGB || color_type == ColorType::RGBA {
            3int
        } else {
            1
        }) + (if color_type == ColorType::GrayscaleAlpha || color_type == ColorType::RGBA {
            1int
        } else {
            0
        }),
        color_type.has_alpha() <==> color_type == ColorType::GrayscaleAlpha || color_type
            == ColorType::RGBA,
{
}

/// The bit depths are the first five powers of two, each twice the one before.
pub proof fn bit_depths_double()
    ensures
        BitDepth::One.bits() == 1,
        BitDepth::Two.bits() == 2 * BitDepth::One.bits(),
        BitDepth::Four.bits() == 2 * BitDepth::Two.bits(),
        BitDepth::Eight.bits() == 2 * BitDepth::Four.bits(),
        BitDepth::Sixteen.bits() == 2 * BitDepth::Eight.bits(),
{
}

/// The number that four bytes from `at` on spell, the most significant one first.
pub open spec fn number_at(bytes: Seq<u8>, at: int) -> int {
    bytes[at] * 256 * 256 * 256 + bytes[at + 1] * 256 * 256 + bytes[at + 2] * 256 + bytes[at + 3]
}

/// Numbers are spelled by four bytes, the most significant one first.
pub proof fn numbers_are_big_endian(n: u32)
    ensures
        be_bytes(n).len() == 4,
        number_at(be_bytes(n), 0) == n,
{
}

/// Four bytes are read as the number that they spell.
pub proof fn read_numbers_are_big_endian(bytes: Seq<u8>)
    requires
        bytes.len() >= 4,
    ensures
        be_number(bytes) == number_at(bytes, 0),
{
}

/// The content of an IHDR chunk says what the headers say: the width and height as numbers of four
/// bytes, the number of bits in a sample, the code of the colour type, the methods 0 and 0, and the
/// interlacing mode.
pub open spec fn header_says(content: Seq<u8>, ihdr: IhdrData) -> bool {
    &&& number_at(content, 0) == ihdr.width
    &&& number_at(content, 4) == ihdr.height
    &&& match ihdr.bit_depth {
        BitDepth::One => content[8] == 1,
        BitDepth::Two => content[8] == 2,
        BitDepth::Four => content[8] == 4,
        BitDepth::Eight => content[8] == 8,
        BitDepth::Sixteen => content[8] == 16,
    }
    &&& match ihdr.color_type {
        ColorType::Grayscale => content[9] == 0,
        ColorType::RGB => content[9] == 2,
        ColorType::Indexed => content[9] == 3,
        ColorType::GrayscaleAlpha => content[9] == 4,
        ColorType::RGBA => content[9] == 6,
    }
    &&& content[12] == ihdr.interlaced
}

/// The written IHDR chunk says what the headers say.
pub proof fn written_headers_say_what_they_should(ihdr: IhdrData)
    ensures
        ihdr_bytes(ihdr).len() == 13,
        header_says(ihdr_bytes(ihdr), ihdr),
        ihdr_bytes(ihdr)[10] == 0,
        ihdr_bytes(ihdr)[11] == 0,
{
    let content = ihdr_bytes(ihdr);
    let (w, h) = (be_bytes(ihdr.width), be_bytes(ihdr.height));
    numbers_are_big_endian(ihdr.width);
    numbers_are_big_endian(ihdr.height);
    assert(content[0] == w[0] && content[1] == w[1] && content[2] == w[2] && content[3] == w[3]);
    assert(content[4] == h[0] && content[5] == h[1] && content[6] == h[2] && content[7] == h[3]);
}

/// The content of an IHDR chunk is read as the headers that it says, and as an error if it says
/// none: if it is too short, or has no colour type or no bit depth.
pub proof fn read_headers_are_what_the_chunk_says(content: Seq<u8>)
    ensures
        match ihdr_read(content) {
            Ok(ihdr) => content.len() >= 13 && header_says(content, ihdr),
            Err(words) => {
                ||| content.len() < 13 && words == "Image header data was too short"@
                ||| content.len() >= 13 && content[9] != 0 && content[9] != 2 && content[9] != 3
                    && content[9] != 4 && content[9] != 6 && words
                    == "Unexpected color type in header"@
                ||| content.len() >= 13 && content[8] != 1 && content[8] != 2 && content[8] != 4
                    && content[8] != 8 && content[8] != 16 && words
                    == "Unexpected bit depth in header"@
            },
        },
{
    if content.len() >= 13 {
        let (w, h) = (content.subrange(0, 4), content.subrange(4, 8));
        read_numbers_are_big_endian(w);
        read_numbers_are_big_endian(h);
        assert(w[0] == content[0] && w[1] == content[1] && w[2] == content[2] && w[3]
            == content[3]);
        assert(h[0] == content[4] && h[1] == content[5] && h[2] == content[6] && h[3]
            == content[7]);
    }
}

/// A chunk stands at `offset`: four bytes that spell the length of its content, four bytes that are
/// its name, its content, and four bytes for a checksum.
pub open spec fn chunk_stands_at(
    data: Seq<u8>,
    offset: int,
    name: Seq<u8>,
    content: Seq<u8>,
) -> bool {
    &&& offset + 12 + content.len() <= data.len()
    &&& number_at(data, offset) == content.len()
    &&& data.subrange(offset + 4, offset + 8) == name
    &&& data.subrange(offset + 8, offset + 8 + content.len()) == content
}

/// The four bytes behind a chunk spell the checksum of its name and content.
pub open spec fn checksum_stands_at(
    data: Seq<u8>,
    offset: int,
    name: Seq<u8>,
    content: Seq<u8>,
) -> bool {
    number_at(data, offset + 8 + content.len()) == crc32_ieee(name + content)
}

/// Where a chunk is written, it stands, with its checksum.
pub proof fn written_chunks_stand(
    before: Seq<u8>,
    name: Seq<u8>,
    content: Seq<u8>,
    after: Seq<u8>,
)
    requires
        name.len() == 4,
        content.len() + 4 <= u32::MAX,
    ensures
        ({
            let data = before + chunk_bytes(name, content) + after;
            &&& chunk_stands_at(data, before.len() as int, name, content)
            &&& checksum_stands_at(data, before.len() as int, name, content)
        }),
        chunk_bytes(name, content).len() == content.len() + 12,
{
    let chunk = chunk_bytes(name, content);
    let data = before + chunk + after;
    let at = before.len() as int;
    let length = content.len() as u32;
    let crc = crc32_ieee(name + content);
    let (l, c) = (be_bytes(length), be_bytes(crc));
    assert((name.len() + content.len()) as u32 - 4 == length);
    assert(chunk =~= l + (name + content) + c);
    numbers_are_big_endian(length);
    numbers_are_big_endian(crc);
    let end = at + 8 + content.len();
    assert(data[at] == l[0] && data[at + 1] == l[1] && data[at + 2] == l[2] && data[at + 3]
        == l[3]);
    assert(data[end] == c[0] && data[end + 1] == c[1] && data[end + 2] == c[2] && data[end + 3]
        == c[3]);
    assert(data.subrange(at + 4, at + 8) =~= name);
    assert(data.subrange(at + 8, at + 8 + content.len()) =~= content);
}

/// A number that is read from four bytes is the one that they spell.
proof fn lemma_number_at(data: Seq<u8>, at: int)
    requires
        0 <= at,
        at + 4 <= data.len(),
    ensures
        be_number(data.subrange(at, at + 4)) == number_at(data, at),
{
    let bytes = data.subrange(at, at + 4);
    read_numbers_are_big_endian(bytes);
    assert(bytes[0] == data[at] && bytes[1] == data[at + 1] && bytes[2] == data[at + 2] && bytes[3]
        == data[at + 3]);
}

/// What is read at a place stands there: a chunk, with its checksum unless errors are fixed, or the
/// name of the chunk that ends a file. A chunk is called corrupt only where one stands.
pub proof fn read_chunks_stand(data: Seq<u8>, offset: int, fix_errors: bool)
    requires
        0 <= offset <= data.len(),
    ensures
        match chunk_at(data, offset, fix_errors) {
            ChunkAt::Chunk(name, content, end) => {
                &&& chunk_stands_at(data, offset, encode_utf8(name), content)
                &&& !fix_errors ==> checksum_stands_at(data, offset, encode_utf8(name), content)
                &&& end == offset + 12 + content.len()
                &&& name != "IEND"@
            },
            ChunkAt::End => offset + 8 <= data.len() && data.subrange(offset + 4, offset + 8)
                == encode_utf8("IEND"@),
            ChunkAt::Bad(words) => {
                ||| words == "Invalid data found; unable to read PNG file"@
                ||| words == "Corrupt data chunk found--CRC Mismatch"@ && !fix_errors && exists|
                    name: Seq<char>,
                    content: Seq<u8>,
                | #[trigger]
                    chunk_stands_at(data, offset, encode_utf8(name), content)
                        && !checksum_stands_at(data, offset, encode_utf8(name), content)
            },
        },
{
    broadcast use decode_utf8_encode_utf8;

    if data.len() - offset >= 8 {
        let key = data.subrange(offset + 4, offset + 8);
        let length = be_number(data.subrange(offset, offset + 4)) as int;
        let end = offset + 8 + length + 4;
        lemma_number_at(data, offset);
        if valid_utf8(key) && end <= data.len() {
            let name = decode_utf8(key);
            let content = data.subrange(offset + 8, end - 4);
            lemma_number_at(data, end - 4);
            assert(encode_utf8(name) == key);
            assert(data.subrange(offset + 4, end - 4) =~= key + content);
            assert(data.subrange(end - 4, end) =~= data.subrange(end - 4, end - 4 + 4));
            assert(chunk_stands_at(data, offset, encode_utf8(name), content));
        }
    }
}

/// A chunk that stands is read, with its checksum or with errors fixed; without either it is called
/// corrupt.
pub proof fn standing_chunks_are_read(
    data: Seq<u8>,
    offset: int,
    name: Seq<char>,
    content: Seq<u8>,
    fix_errors: bool,
)
    requires
        0 <= offset,
        name != "IEND"@,
        chunk_stands_at(data, offset, encode_utf8(name), content),
    ensures
        chunk_at(data, offset, fix_errors) == if fix_errors || checksum_stands_at(
            data,
            offset,
            encode_utf8(name),
            content,
        ) {
            ChunkAt::Chunk(name, content, offset + 12 + content.len())
        } else {
            ChunkAt::Bad("Corrupt data chunk found--CRC Mismatch"@)
        },
{
    broadcast use {encode_utf8_decode_utf8, encode_utf8_valid_utf8};

    let key = data.subrange(offset + 4, offset + 8);
    let end = offset + 12 + content.len();
    lemma_number_at(data, offset);
    lemma_number_at(data, end - 4);
    assert(data.subrange(offset + 4, end - 4) =~= key + content);
    assert(data.subrange(end - 4, end) =~= data.subrange(end - 4, end - 4 + 4));
}

/// The name of the chunk that ends a file is enough to end it.
pub proof fn the_end_is_read(data: Seq<u8>, offset: int, fix_errors: bool)
    requires
        0 <= offset,
        offset + 8 <= data.len(),
        data.subrange(offset + 4, offset + 8) == encode_utf8("IEND"@),
    ensures
        chunk_at(data, offset, fix_errors) == ChunkAt::End,
{
    broadcast use {encode_utf8_decode_utf8, encode_utf8_valid_utf8};

}

} // verus!
