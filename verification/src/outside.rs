//! The calls into other crates, and what is believed of them without proof.

use bit_vec::BitVec;
use byteorder::{BigEndian, WriteBytesExt};
use crc::crc32;
use itertools::Itertools;
use miniz_oxide::inflate::decompress_to_vec_zlib;
use miniz_oxide::inflate::DecompressError;
use std::cmp::Ordering;
use vstd::prelude::*;
use vstd::utf8::{encode_utf8, valid_utf8};
use crate::bytes::{append_bytes, be_bytes};

verus! {

/// A vector of bits.
#[verifier::external_type_specification]
#[verifier::external_body]
#[verifier::reject_recursive_types(B)]
pub struct ExBitVec<B>(bit_vec::BitVec<B>);

/// The bits that a bit vector holds, in order.
pub uninterp spec fn bits_of(bits: BitVec<u32>) -> Seq<bool>;

/// Bit `k` of a byte, counted from the most significant bit.
pub open spec fn bit_at(byte: u8, k: int) -> bool {
    byte & (0x80u8 >> k as u8) != 0
}

/// `bit_vec::BitVec::from_bytes`: each byte becomes eight bits, the most significant one first. It
/// panics where the number of bits does not fit in a `usize`.
#[verifier::external_body]
pub(crate) fn bits_from_bytes(bytes: &[u8]) -> (bits: BitVec<u32>)
    requires
        bytes@.len() * 8 <= usize::MAX,
    ensures
        bits_of(bits) == Seq::new(
            bytes@.len() * 8,
            |i: int| bit_at(bytes@[i / 8], i % 8),
        ),
{
    BitVec::from_bytes(bytes)
}

/// `bit_vec::BitVec::iter`: hands out the bits in order.
#[verifier::external_body]
pub(crate) fn bit_list(bits: &BitVec<u32>) -> (list: Vec<bool>)
    ensures
        list@ == bits_of(*bits),
{
    bits.iter().collect()
}

/// Orders two bytes, the greater one first.
fn descending(a: &u8, b: &u8) -> (order: Ordering)
    ensures
        (*a > *b) == (order is Less),
        (*a == *b) == (order is Equal),
        (*a < *b) == (order is Greater),
{
    if *a > *b {
        Ordering::Less
    } else if *a == *b {
        Ordering::Equal
    } else {
        Ordering::Greater
    }
}

/// `itertools::Itertools::sorted_by`, with the order in which the greater byte comes first: a
/// vector of the same bytes, each as often as before, none of them greater than one before it.
#[verifier::external_body]
pub(crate) fn sorted_descending(bytes: &[u8]) -> (sorted: Vec<u8>)
    ensures
        sorted@.to_multiset() == bytes@.to_multiset(),
        forall|i: int, j: int| 0 <= i < j < sorted@.len() ==> sorted@[i] >= sorted@[j],
{
    bytes.iter().cloned().sorted_by(|a, b| descending(a, b))
}

/// `byteorder::WriteBytesExt::write_u32` with `BigEndian`, on a vector, where it cannot fail:
/// appends the four bytes of the number, the most significant one first.
#[verifier::external_body]
pub(crate) fn write_u32_be(out: &mut Vec<u8>, n: u32)
    ensures
        final(out)@ == old(out)@ + be_bytes(n),
{
    let _ = out.write_u32::<BigEndian>(n);
}

/// `byteorder::WriteBytesExt::write_u8` on a vector, where it cannot fail: appends the byte.
#[verifier::external_body]
pub(crate) fn write_u8(out: &mut Vec<u8>, n: u8)
    ensures
        final(out)@ == old(out)@.push(n),
{
    let _ = WriteBytesExt::write_u8(out, n);
}

/// The remainder of a value after `count` more bits, by the IEEE polynomial, whose bits stand in
/// reversed order.
pub open spec fn crc32_bits(value: u32, count: nat) -> u32
    decreases count,
{
    if count == 0 {
        value
    } else {
        let before = crc32_bits(value, (count - 1) as nat);
        if before & 1 == 1 {
            (before >> 1) ^ 0xEDB8_8320
        } else {
            before >> 1
        }
    }
}

/// The remainder of some bytes, from all bits set.
pub open spec fn crc32_remainder(bytes: Seq<u8>) -> u32
    decreases bytes.len(),
{
    if bytes.len() == 0 {
        0xFFFF_FFFF
    } else {
        let before = crc32_remainder(bytes.drop_last());
        crc32_bits((before & 0xFF) ^ (bytes.last() as u32), 8) ^ (before >> 8)
    }
}

/// The CRC-32 checksum of some bytes, with the IEEE polynomial: the remainder with all its bits
/// inverted.
pub open spec fn crc32_ieee(bytes: Seq<u8>) -> u32 {
    !crc32_remainder(bytes)
}

/// `crc::crc32::checksum_ieee`: the CRC-32 checksum of the bytes, with the IEEE polynomial.
#[verifier::external_body]
pub(crate) fn checksum_ieee(bytes: &[u8]) -> (crc: u32)
    ensures
        crc == crc32_ieee(bytes@),
{
    crc32::checksum_ieee(bytes)
}

/// `String::from_utf8` of the standard library: a string where the bytes are valid UTF-8, with
/// those bytes as its encoding.
#[verifier::external_body]
pub(crate) fn string_from_utf8(bytes: Vec<u8>) -> (string: Option<String>)
    ensures
        string is Some == valid_utf8(bytes@),
        string matches Some(s) ==> encode_utf8(s@) == bytes@,
{
    String::from_utf8(bytes).ok()
}

/// Why a zlib stream could not be decompressed.
#[verifier::external_type_specification]
#[verifier::external_body]
pub struct ExDecompressError(miniz_oxide::inflate::DecompressError);

/// What a zlib stream decompresses to, if it is valid.
pub uninterp spec fn zlib_inflate(data: Seq<u8>) -> Option<Seq<u8>>;

/// `miniz_oxide::inflate::decompress_to_vec_zlib`: the decompressed data, or an error, as the bytes
/// of the stream alone decide. Its buffer grows by doubling from twice the length of the stream, so
/// an empty stream is left out. Which bytes come out is left unsaid.
#[verifier::external_body]
pub(crate) fn inflate_zlib(data: &[u8]) -> (inflated: Result<Vec<u8>, DecompressError>)
    requires
        data@.len() > 0,
    ensures
        match inflated {
            Ok(raw) => zlib_inflate(data@) == Some(raw@),
            Err(_) => zlib_inflate(data@) is None,
        },
{
    decompress_to_vec_zlib(data)
}

/// The zlib stream that some data is compressed to, with the given compression level, strategy
/// and window size.
pub uninterp spec fn zlib_deflate(data: Seq<u8>, level: u8, strategy: u8, window: u8) -> Seq<u8>;

/// `miniz_oxide::deflate::core::compress_to_output`, with the flags that
/// `create_comp_flags_from_zip_params` makes of the settings: hands out a stream that the data and
/// the settings alone decide. Which bytes it has is left unsaid.
#[verifier::external_body]
pub(crate) fn deflate_zlib(data: &[u8], level: u8, strategy: u8, window: u8) -> (deflated: Vec<u8>)
    ensures
        deflated@ == zlib_deflate(data@, level, strategy, window),
{
    let mut deflated: Vec<u8> = Vec::new();
    let flags: u32 = miniz_oxide::deflate::core::create_comp_flags_from_zip_params(
        level.into(),
        window.into(),
        strategy.into(),
    );
    let mut compressor = miniz_oxide::deflate::core::CompressorOxide::new(flags);
    let _ = miniz_oxide::deflate::core::compress_to_output(
        &mut compressor,
        data,
        miniz_oxide::deflate::core::TDEFLFlush::Finish,
        |chunk| append_chunk(&mut deflated, chunk),
    );
    deflated
}

/// Takes up the next part of a stream, and asks for more.
fn append_chunk(out: &mut Vec<u8>, chunk: &[u8]) -> (go_on: bool)
    ensures
        final(out)@ == old(out)@ + chunk@,
        go_on,
{
    append_bytes(out, chunk);
    true
}

} // verus!
