//! The chunks that a PNG file is made of.

use vstd::prelude::*;
use vstd::slice::slice_subrange;
use vstd::utf8::{decode_utf8, encode_utf8, valid_utf8};
use crate::bytes::{append_bytes, be_bytes, be_number, copy_bytes, read_u32_be, same_bytes};
use crate::error::PngError;
use crate::outside::{checksum_ieee, crc32_ieee, string_from_utf8, write_u32_be};

verus! {

/// The eight bytes that every PNG file starts with.
pub open spec fn signature() -> Seq<u8> {
    seq![0x89u8, 0x50, 0x4E, 0x47, 0x0D, 0x0A, 0x1A, 0x0A]
}

/// The bytes of a chunk: the length of its content, its name, its content, and a checksum of name
/// and content. The length is that of name and content, cut to 32 bits, less four.
pub open spec fn chunk_bytes(name: Seq<u8>, content: Seq<u8>) -> Seq<u8> {
    be_bytes(((name.len() + content.len()) as u32 - 4) as u32) + (name + content) + be_bytes(
        crc32_ieee(name + content),
    )
}

/// The length of a chunk can be written.
pub open spec fn chunk_fits(name: Seq<u8>, content: Seq<u8>) -> bool {
    (name.len() + content.len()) as u32 >= 4
}

/// What stands at a place in a file.
#[verifier::ext_equal]
pub enum ChunkAt {
    /// Something that is no chunk, described in words
    Bad(Seq<char>),
    /// The chunk that ends the file
    End,
    /// A chunk with its name and content, and where it ends
    Chunk(Seq<char>, Seq<u8>, int),
}

/// Reads what stands at `offset`. A chunk whose checksum is wrong is bad unless errors are to be
/// fixed.
pub open spec fn chunk_at(data: Seq<u8>, offset: int, fix_errors: bool) -> ChunkAt {
    let name = data.subrange(offset + 4, offset + 8);
    let length = be_number(data.subrange(offset, offset + 4)) as int;
    let end = offset + 8 + length + 4;
    if data.len() - offset < 8 || !valid_utf8(name) {
        ChunkAt::Bad("Invalid data found; unable to read PNG file"@)
    } else if decode_utf8(name) == "IEND"@ {
        ChunkAt::End
    } else if data.len() < end {
        ChunkAt::Bad("Invalid data found; unable to read PNG file"@)
    } else if !fix_errors && crc32_ieee(data.subrange(offset + 4, end - 4)) != be_number(
        data.subrange(end - 4, end),
    ) {
        ChunkAt::Bad("Corrupt data chunk found--CRC Mismatch"@)
    } else {
        ChunkAt::Chunk(decode_utf8(name), data.subrange(offset + 8, end - 4), end)
    }
}

/// Whether the bytes are those that every PNG file starts with.
pub fn file_header_is_valid(bytes: &[u8]) -> (valid: bool)
    ensures
        valid == (bytes@ == signature()),
{
    let expected: [u8; 8] = [0x89, 0x50, 0x4E, 0x47, 0x0D, 0x0A, 0x1A, 0x0A];
    assert(expected@ =~= signature());
    same_bytes(bytes, expected.as_slice())
}

/// Whether a chunk has the given name.
pub(crate) fn is_named(name: &String, expected: &str) -> (same: bool)
    ensures
        same == (name@ == expected@),
{
    *name == expected.to_owned()
}

/// Reads the chunk at `byte_offset`, and moves the offset behind it. The chunk that ends the file
/// gives `None`.
pub fn parse_next_header(byte_data: &[u8], byte_offset: &mut usize, fix_errors: bool) -> (chunk:
    Result<Option<(String, Vec<u8>)>, PngError>)
    requires
        *old(byte_offset) <= byte_data@.len(),
    ensures
        match chunk_at(byte_data@, *old(byte_offset) as int, fix_errors) {
            ChunkAt::Bad(words) => chunk matches Err(e) && e@ == words && *final(byte_offset)
                == *old(byte_offset),
            ChunkAt::End => chunk matches Ok(None) && *final(byte_offset) == *old(byte_offset),
            ChunkAt::Chunk(name, content, end) => chunk matches Ok(Some((n, c))) && n@ == name
                && c@ == content && *final(byte_offset) == end,
        },
{
    broadcast use vstd::utf8::encode_utf8_decode_utf8;

    let offset: usize = *byte_offset;
    let available: usize = byte_data.len() - offset;
    if available < 8 {
        return Err(PngError::new("Invalid data found; unable to read PNG file"));
    }
    let length: usize = read_u32_be(byte_data, offset) as usize;
    let name_bytes: &[u8] = slice_subrange(byte_data, offset + 4, offset + 8);
    let name: String = match string_from_utf8(copy_bytes(name_bytes)) {
        Some(name) => name,
        None => {
            return Err(PngError::new("Invalid data found; unable to read PNG file"));
        },
    };
    assert(name@ == decode_utf8(name_bytes@));
    if is_named(&name, "IEND") {
        // End of data
        return Ok(None);
    }
    if available - 8 < length || available - 8 - length < 4 {
        return Err(PngError::new("Invalid data found; unable to read PNG file"));
    }
    let end: usize = offset + 8 + length + 4;
    let checked: &[u8] = slice_subrange(byte_data, offset + 4, end - 4);
    if !fix_errors && checksum_ieee(checked) != read_u32_be(byte_data, end - 4) {
        return Err(PngError::new("Corrupt data chunk found--CRC Mismatch"));
    }
    let content: Vec<u8> = copy_bytes(slice_subrange(byte_data, offset + 8, end - 4));
    *byte_offset = end;
    Ok(Some((name, content)))
}

/// Appends a chunk to a file.
pub fn write_png_block(key: &[u8], header: &[u8], output: &mut Vec<u8>)
    requires
        chunk_fits(key@, header@),
    ensures
        final(output)@ == old(output)@ + chunk_bytes(key@, header@),
{
    let mut header_data: Vec<u8> = Vec::new();
    append_bytes(&mut header_data, key);
    append_bytes(&mut header_data, header);
    assert(header_data@ =~= key@ + header@);
    let length: usize = header_data.len();
    write_u32_be(output, length as u32 - 4);
    let crc: u32 = checksum_ieee(header_data.as_slice());
    output.append(&mut header_data);
    write_u32_be(output, crc);
    assert(output@ =~= old(output)@ + chunk_bytes(key@, header@));
}

/// A chunk that was written is read back, wherever it stands in a file.
pub proof fn chunk_round_trip(
    before: Seq<u8>,
    name: Seq<char>,
    content: Seq<u8>,
    after: Seq<u8>,
    fix_errors: bool,
)
    requires
        encode_utf8(name).len() == 4,
        content.len() + 4 <= u32::MAX,
        name != "IEND"@,
    ensures
        chunk_fits(encode_utf8(name), content),
        chunk_at(
            before + chunk_bytes(encode_utf8(name), content) + after,
            before.len() as int,
            fix_errors,
        ) == ChunkAt::Chunk(
            name,
            content,
            (before.len() + chunk_bytes(encode_utf8(name), content).len()) as int,
        ),
{
    broadcast use {vstd::utf8::encode_utf8_decode_utf8, vstd::utf8::encode_utf8_valid_utf8};

    let key = encode_utf8(name);
    let data = before + chunk_bytes(key, content) + after;
    let offset = before.len() as int;
    let length = content.len() as u32;
    let crc = crc32_ieee(key + content);
    assert((key.len() + content.len()) as u32 - 4 == length);
    be_bytes_facts(length, crc);
    lemma_places(before, be_bytes(length), key, content, be_bytes(crc), after);
}

/// Where the parts of a chunk stand.
proof fn lemma_places(
    before: Seq<u8>,
    length: Seq<u8>,
    key: Seq<u8>,
    content: Seq<u8>,
    crc: Seq<u8>,
    after: Seq<u8>,
)
    requires
        length.len() == 4,
        key.len() == 4,
        crc.len() == 4,
    ensures
        ({
            let data = before + (length + (key + content) + crc) + after;
            let offset = before.len() as int;
            let end = offset + 8 + content.len() + 4;
            &&& end <= data.len()
            &&& data.subrange(offset, offset + 4) == length
            &&& data.subrange(offset + 4, offset + 8) == key
            &&& data.subrange(offset + 8, end - 4) == content
            &&& data.subrange(offset + 4, end - 4) == key + content
            &&& data.subrange(end - 4, end) == crc
        }),
{
    let data = before + (length + (key + content) + crc) + after;
    let offset = before.len() as int;
    let end = offset + 8 + content.len() + 4;
    assert(data.subrange(offset, offset + 4) =~= length);
    assert(data.subrange(offset + 4, offset + 8) =~= key);
    assert(data.subrange(offset + 8, end - 4) =~= content);
    assert(data.subrange(offset + 4, end - 4) =~= key + content);
    assert(data.subrange(end - 4, end) =~= crc);
}

proof fn be_bytes_facts(a: u32, b: u32)
    ensures
        be_number(be_bytes(a)) == a,
        be_number(be_bytes(b)) == b,
{
    crate::bytes::be_bytes_round_trip(a);
    crate::bytes::be_bytes_round_trip(b);
}

/// The names that have a meaning of their own are four bytes long and differ from each other.
pub proof fn lemma_known_names()
    ensures
        encode_utf8("IHDR"@).len() == 4,
        encode_utf8("PLTE"@).len() == 4,
        encode_utf8("tRNS"@).len() == 4,
        encode_utf8("IDAT"@).len() == 4,
        encode_utf8("IEND"@).len() == 4,
        "IHDR"@ != "PLTE"@,
        "IHDR"@ != "tRNS"@,
        "IHDR"@ != "IDAT"@,
        "IHDR"@ != "IEND"@,
        "PLTE"@ != "tRNS"@,
        "PLTE"@ != "IDAT"@,
        "PLTE"@ != "IEND"@,
        "tRNS"@ != "IDAT"@,
        "tRNS"@ != "IEND"@,
        "IDAT"@ != "IEND"@,
{
    reveal_strlit("IHDR");
    reveal_strlit("PLTE");
    reveal_strlit("tRNS");
    reveal_strlit("IDAT");
    reveal_strlit("IEND");
    assert("IHDR"@[0] == 'I' && "IHDR"@[1] == 'H');
    assert("PLTE"@[0] == 'P');
    assert("tRNS"@[0] == 't');
    assert("IDAT"@[0] == 'I' && "IDAT"@[1] == 'D');
    assert("IEND"@[0] == 'I' && "IEND"@[1] == 'E');
    vstd::utf8::is_ascii_chars_encode_utf8("IHDR"@);
    vstd::utf8::is_ascii_chars_encode_utf8("PLTE"@);
    vstd::utf8::is_ascii_chars_encode_utf8("tRNS"@);
    vstd::utf8::is_ascii_chars_encode_utf8("IDAT"@);
    vstd::utf8::is_ascii_chars_encode_utf8("IEND"@);
}

/// The chunk that ends a file is recognized, wherever it stands.
pub proof fn end_chunk_is_recognized(
    before: Seq<u8>,
    after: Seq<u8>,
    fix_errors: bool,
)
    ensures
        chunk_at(
            before + chunk_bytes(encode_utf8("IEND"@), Seq::empty()) + after,
            before.len() as int,
            fix_errors,
        ) == ChunkAt::End,
{
    broadcast use {vstd::utf8::encode_utf8_decode_utf8, vstd::utf8::encode_utf8_valid_utf8};

    let key = encode_utf8("IEND"@);
    lemma_known_names();
    let data = before + chunk_bytes(key, Seq::empty()) + after;
    let offset = before.len() as int;
    assert(data.subrange(offset + 4, offset + 8) =~= key);
}

} // verus!
