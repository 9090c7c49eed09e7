//! Reading an image from a PNG file.

use vstd::prelude::*;
use vstd::slice::slice_subrange;
use crate::chunks::{
    chunk_at, file_header_is_valid, is_named, parse_next_header, signature, ChunkAt,
};
use crate::colors::ColorType;
use crate::encode::NamedChunk;
use crate::error::PngError;
use crate::headers::{ihdr_read, parse_ihdr_header, IhdrData};
use crate::outside::{inflate_zlib, zlib_inflate};
use crate::png::{aux_view, Image, PngData};
use crate::scan::lines_are_readable;

verus! {

/// The chunks from `offset` up to the one that ends the file, or what is wrong with one of them.
pub open spec fn chunks_in(data: Seq<u8>, offset: int, fix_errors: bool) -> Result<
    Seq<NamedChunk>,
    Seq<char>,
>
    decreases data.len() - offset,
{
    match chunk_at(data, offset, fix_errors) {
        ChunkAt::Bad(words) => Err(words),
        ChunkAt::End => Ok(Seq::empty()),
        ChunkAt::Chunk(name, content, end) => match chunks_in(data, end, fix_errors) {
            Err(words) => Err(words),
            Ok(rest) => Ok(seq![(name, content)] + rest),
        },
    }
}

/// The contents of the IDAT chunks, one behind the other.
pub open spec fn idat_of(chunks: Seq<NamedChunk>) -> Seq<u8>
    decreases chunks.len(),
{
    if chunks.len() == 0 {
        Seq::empty()
    } else if chunks.last().0 == "IDAT"@ {
        idat_of(chunks.drop_last()) + chunks.last().1
    } else {
        idat_of(chunks.drop_last())
    }
}

/// The index of the first chunk with the given name from `from` on, or the length of the list.
pub open spec fn position(list: Seq<NamedChunk>, name: Seq<char>, from: int) -> int
    decreases list.len() - from,
{
    if from >= list.len() || list[from].0 == name {
        from
    } else {
        position(list, name, from + 1)
    }
}

/// Whether a list holds a chunk with the given name.
pub open spec fn holds(list: Seq<NamedChunk>, name: Seq<char>) -> bool {
    position(list, name, 0) < list.len()
}

/// The content of the chunk with the given name, if there is one.
pub open spec fn content_of(list: Seq<NamedChunk>, name: Seq<char>) -> Option<Seq<u8>> {
    if holds(list, name) {
        Some(list[position(list, name, 0)].1)
    } else {
        None
    }
}

/// The list without the chunk with the given name.
pub open spec fn without_chunk(list: Seq<NamedChunk>, name: Seq<char>) -> Seq<NamedChunk> {
    if holds(list, name) {
        list.remove(position(list, name, 0))
    } else {
        list
    }
}

/// The list with a chunk put in the place of the one of the same name, or at the end.
pub open spec fn with_chunk(
    list: Seq<NamedChunk>,
    name: Seq<char>,
    content: Seq<u8>,
) -> Seq<NamedChunk> {
    if holds(list, name) {
        list.update(position(list, name, 0), (name, content))
    } else {
        list.push((name, content))
    }
}

/// The chunks other than IDAT, of each name the last one.
pub open spec fn aux_of(chunks: Seq<NamedChunk>) -> Seq<NamedChunk>
    decreases chunks.len(),
{
    if chunks.len() == 0 {
        Seq::empty()
    } else if chunks.last().0 == "IDAT"@ {
        aux_of(chunks.drop_last())
    } else {
        with_chunk(aux_of(chunks.drop_last()), chunks.last().0, chunks.last().1)
    }
}

/// What a file holds before its image data is decompressed.
#[verifier::ext_equal]
pub struct Parts {
    pub idat: Seq<u8>,
    pub ihdr: IhdrData,
    pub aux: Seq<NamedChunk>,
}

/// The parts of a file with the given chunks, or what is missing or wrong.
pub open spec fn parts_of(chunks: Seq<NamedChunk>) -> Result<Parts, Seq<char>> {
    let idat = idat_of(chunks);
    let aux = aux_of(chunks);
    if idat.len() == 0 {
        Err("Image data was empty, skipping"@)
    } else if !holds(aux, "IHDR"@) {
        Err("Image header data was missing, skipping"@)
    } else {
        match ihdr_read(content_of(aux, "IHDR"@)->0) {
            Err(words) => Err(words),
            Ok(ihdr) => Ok(Parts { idat, ihdr, aux: without_chunk(aux, "IHDR"@) }),
        }
    }
}

/// The parts of a file, or why it cannot be read.
pub open spec fn parts_in(data: Seq<u8>, fix_errors: bool) -> Result<Parts, Seq<char>> {
    if data.len() < 8 || data.take(8) != signature() {
        Err("Invalid PNG header detected"@)
    } else {
        match chunks_in(data, 8, fix_errors) {
            Err(words) => Err(words),
            Ok(chunks) => parts_of(chunks),
        }
    }
}

impl Parts {
    /// The image with these parts and the given raw data, its filters not yet undone. What the
    /// transparency chunk means depends on the colour type.
    pub open spec fn filtered_image(self, raw: Seq<u8>) -> Image {
        let rest = without_chunk(self.aux, "PLTE"@);
        let indexed = self.ihdr.color_type == ColorType::Indexed;
        Image {
            idat: self.idat,
            ihdr: self.ihdr,
            raw,
            palette: content_of(self.aux, "PLTE"@),
            transparency_pixel: if indexed {
                None
            } else {
                content_of(rest, "tRNS"@)
            },
            transparency_palette: if indexed {
                content_of(rest, "tRNS"@)
            } else {
                None
            },
            aux: without_chunk(rest, "tRNS"@),
        }
    }

    /// The image with these parts and the given raw data, its filters undone.
    pub open spec fn image(self, raw: Seq<u8>) -> Image {
        let filtered = self.filtered_image(raw);
        Image { raw: filtered.unfiltered_raw(), ..filtered }
    }

    /// The raw data is made of whole lines with known filters.
    pub open spec fn raw_is_readable(self, raw: Seq<u8>) -> bool {
        self.filtered_image(raw).whole_lines() && self.filtered_image(raw).known_filters()
    }
}

/// The image in a file, or why it cannot be read.
pub open spec fn image_in(data: Seq<u8>, fix_errors: bool) -> Result<Image, Seq<char>> {
    match parts_in(data, fix_errors) {
        Err(words) => Err(words),
        Ok(parts) => match zlib_inflate(parts.idat) {
            None => Err("Image data could not be decompressed"@),
            Some(raw) => Ok(parts.image(raw)),
        },
    }
}

/// If the file gets as far as raw data, that is made of whole lines with known filters.
pub open spec fn raw_in_is_readable(data: Seq<u8>, fix_errors: bool) -> bool {
    parts_in(data, fix_errors) matches Ok(parts) ==> (zlib_inflate(parts.idat) matches Some(raw)
        ==> parts.raw_is_readable(raw))
}

/// What a file holds before its image data is decompressed.
#[derive(Debug, Clone)]
pub struct FileParts {
    /// The contents of the IDAT chunks, one behind the other
    pub idat_data: Vec<u8>,
    /// The headers stored in the IHDR chunk
    pub ihdr_data: IhdrData,
    /// All other chunks, each name once
    pub aux_headers: Vec<(String, Vec<u8>)>,
}

impl View for FileParts {
    type V = Parts;

    open spec fn view(&self) -> Parts {
        Parts { idat: self.idat_data@, ihdr: self.ihdr_data, aux: aux_view(self.aux_headers@) }
    }
}

/// The view of the parts of a file shows each of them.
pub proof fn part_views_show_every_part(parts: FileParts)
    ensures
        parts@.idat == parts.idat_data@,
        parts@.ihdr == parts.ihdr_data,
        parts@.aux.len() == parts.aux_headers@.len(),
        forall|i: int|
            0 <= i < parts@.aux.len() ==> (#[trigger] parts@.aux[i]).0 == parts.aux_headers@[i].0@
                && parts@.aux[i].1 == parts.aux_headers@[i].1@,
{
}

pub proof fn lemma_position(list: Seq<NamedChunk>, name: Seq<char>, from: int)
    requires
        0 <= from <= list.len(),
    ensures
        from <= position(list, name, from) <= list.len(),
        position(list, name, from) < list.len() ==> list[position(list, name, from)].0 == name,
        forall|i: int| from <= i < position(list, name, from) ==> (#[trigger] list[i]).0 != name,
    decreases list.len() - from,
{
    if from < list.len() && list[from].0 != name {
        lemma_position(list, name, from + 1);
    }
}

/// The index of the chunk with the given name, or the length of the list.
fn find_header(list: &Vec<(String, Vec<u8>)>, name: &str) -> (at: usize)
    ensures
        at == position(aux_view(list@), name@, 0),
        at <= list@.len(),
{
    let ghost view = aux_view(list@);
    let mut i: usize = 0;
    while i < list.len()
        invariant
            i <= list.len(),
            view == aux_view(list@),
            position(view, name@, i as int) == position(view, name@, 0),
        ensures
            i <= list.len(),
            i == position(view, name@, 0),
        decreases list.len() - i,
    {
        if is_named(&list[i].0, name) {
            assert(view[i as int].0 == name@);
            break;
        }
        assert(view[i as int].0 != name@);
        i = i + 1;
    }
    i
}

/// Takes the chunk with the given name out of the list.
fn take_header(list: &mut Vec<(String, Vec<u8>)>, name: &str) -> (content: Option<Vec<u8>>)
    ensures
        aux_view(final(list)@) == without_chunk(aux_view(old(list)@), name@),
        match content {
            Some(c) => content_of(aux_view(old(list)@), name@) == Some(c@),
            None => content_of(aux_view(old(list)@), name@) is None,
        },
{
    let at: usize = find_header(list, name);
    if at < list.len() {
        let ghost before = aux_view(list@);
        let entry: (String, Vec<u8>) = list.remove(at);
        assert(aux_view(list@) =~= before.remove(at as int));
        Some(entry.1)
    } else {
        None
    }
}

/// Puts a chunk into the list, in the place of the one of the same name.
fn put_header(list: &mut Vec<(String, Vec<u8>)>, name: String, content: Vec<u8>)
    ensures
        aux_view(final(list)@) == with_chunk(aux_view(old(list)@), name@, content@),
{
    let at: usize = find_header(list, name.as_str());
    let ghost before = aux_view(list@);
    let ghost chunk = (name@, content@);
    if at < list.len() {
        list.set(at, (name, content));
        assert(aux_view(list@) =~= before.update(at as int, chunk));
    } else {
        list.push((name, content));
        assert(aux_view(list@) =~= before.push(chunk));
    }
}

/// Splits a file into its parts.
pub fn read_parts(byte_data: &[u8], fix_errors: bool) -> (parts: Result<FileParts, PngError>)
    ensures
        match parts_in(byte_data@, fix_errors) {
            Ok(read) => parts matches Ok(p) && p@ == read,
            Err(words) => parts matches Err(e) && e@ == words,
        },
{
    // Test that png header is valid
    if byte_data.len() < 8 {
        return Err(PngError::new("Invalid PNG header detected"));
    }
    assert(byte_data@.subrange(0, 8) =~= byte_data@.take(8));
    if !file_header_is_valid(slice_subrange(byte_data, 0, 8)) {
        return Err(PngError::new("Invalid PNG header detected"));
    }
    let mut byte_offset: usize = 8;
    // Read the data headers
    let mut aux_headers: Vec<(String, Vec<u8>)> = Vec::new();
    let mut idat_headers: Vec<u8> = Vec::new();
    let ghost all = chunks_in(byte_data@, 8, fix_errors);
    let ghost mut done: Seq<NamedChunk> = Seq::empty();
    proof {
        assert(aux_view(aux_headers@) =~= aux_of(done));
        if let Ok(rest) = all {
            assert(done + rest =~= rest);
        }
    }
    loop
        invariant
            byte_offset <= byte_data@.len(),
            all == (match chunks_in(byte_data@, byte_offset as int, fix_errors) {
                Err(words) => Err(words),
                Ok(rest) => Ok(done + rest),
            }),
            idat_headers@ == idat_of(done),
            aux_view(aux_headers@) == aux_of(done),
            parts_in(byte_data@, fix_errors) == (match all {
                Err(words) => Err(words),
                Ok(chunks) => parts_of(chunks),
            }),
        ensures
            all == Ok::<Seq<NamedChunk>, Seq<char>>(done),
        decreases byte_data@.len() - byte_offset,
    {
        let ghost before = byte_offset as int;
        match parse_next_header(byte_data, &mut byte_offset, fix_errors) {
            Err(error) => {
                return Err(error);
            },
            Ok(None) => {
                assert(done + Seq::<NamedChunk>::empty() =~= done);
                break;
            },
            Ok(Some((name, content))) => {
                let ghost chunk = (name@, content@);
                proof {
                    let longer = done.push(chunk);
                    assert(longer.drop_last() =~= done);
                    if let Ok(rest) = chunks_in(byte_data@, byte_offset as int, fix_errors) {
                        assert(done + (seq![chunk] + rest) =~= longer + rest);
                    }
                    done = longer;
                }
                if is_named(&name, "IDAT") {
                    crate::bytes::append_bytes(&mut idat_headers, content.as_slice());
                } else {
                    put_header(&mut aux_headers, name, content);
                }
            },
        }
    }
    // Parse the headers into the parts
    if idat_headers.len() == 0 {
        return Err(PngError::new("Image data was empty, skipping"));
    }
    match take_header(&mut aux_headers, "IHDR") {
        None => Err(PngError::new("Image header data was missing, skipping")),
        Some(ihdr_header) => match parse_ihdr_header(ihdr_header.as_slice()) {
            Err(error) => Err(error),
            Ok(ihdr_data) => Ok(FileParts { idat_data: idat_headers, ihdr_data, aux_headers }),
        },
    }
}

/// Decompresses image data.
fn inflate(data: &[u8]) -> (raw: Result<Vec<u8>, PngError>)
    requires
        data@.len() > 0,
    ensures
        match zlib_inflate(data@) {
            Some(inflated) => raw matches Ok(r) && r@ == inflated,
            None => raw matches Err(e) && e@ == "Image data could not be decompressed"@,
        },
{
    match inflate_zlib(data) {
        Ok(raw) => Ok(raw),
        Err(_) => Err(PngError::new("Image data could not be decompressed")),
    }
}

proof fn lemma_parts_have_data(data: Seq<u8>, fix_errors: bool)
    ensures
        parts_in(data, fix_errors) matches Ok(parts) ==> parts.idat.len() > 0,
{
}

impl PngData {
    /// Create a new `PngData` struct from the parts of a file and its decompressed image data
    pub fn from_parts(parts: FileParts, raw_data: Vec<u8>) -> (png: PngData)
        requires
            parts@.raw_is_readable(raw_data@),
        ensures
            png@ == parts@.image(raw_data@),
    {
        let ghost whole = parts@;
        let mut aux_headers: Vec<(String, Vec<u8>)> = parts.aux_headers;
        let palette: Option<Vec<u8>> = take_header(&mut aux_headers, "PLTE");
        // Handle transparency header
        let transparency: Option<Vec<u8>> = take_header(&mut aux_headers, "tRNS");
        let (transparency_palette, transparency_pixel): (Option<Vec<u8>>, Option<Vec<u8>>) =
            if parts.ihdr_data.color_type == ColorType::Indexed {
            (transparency, None)
        } else {
            (None, transparency)
        };
        let mut png_data = PngData {
            idat_data: parts.idat_data,
            ihdr_data: parts.ihdr_data,
            raw_data,
            palette,
            transparency_pixel,
            transparency_palette,
            aux_headers,
        };
        assert(png_data@ =~= whole.filtered_image(raw_data@));
        let unfiltered: Vec<u8> = png_data.unfilter_image();
        png_data.raw_data = unfiltered;
        assert(png_data@ =~= whole.image(raw_data@));
        png_data
    }

    /// Create a new `PngData` struct by reading a slice
    pub fn from_slice(byte_data: &[u8], fix_errors: bool) -> (png: Result<PngData, PngError>)
        requires
            raw_in_is_readable(byte_data@, fix_errors),
        ensures
            match image_in(byte_data@, fix_errors) {
                Ok(image) => png matches Ok(p) && p@ == image,
                Err(words) => png matches Err(e) && e@ == words,
            },
    {
        proof {
            lemma_parts_have_data(byte_data@, fix_errors);
        }
        match read_parts(byte_data, fix_errors) {
            Err(error) => Err(error),
            Ok(parts) => match inflate(parts.idat_data.as_slice()) {
                Err(error) => Err(error),
                Ok(raw_data) => Ok(PngData::from_parts(parts, raw_data)),
            },
        }
    }

    /// Create a new `PngData` struct by reading a slice, or give `None` if its decompressed image
    /// data is not made of whole scan lines with known filters
    pub fn try_from_slice(byte_data: &[u8], fix_errors: bool) -> (png: Option<
        Result<PngData, PngError>,
    >)
        ensures
            png is None <==> !raw_in_is_readable(byte_data@, fix_errors),
            png matches Some(result) ==> match image_in(byte_data@, fix_errors) {
                Ok(image) => result matches Ok(p) && p@ == image,
                Err(words) => result matches Err(e) && e@ == words,
            },
    {
        proof {
            lemma_parts_have_data(byte_data@, fix_errors);
        }
        let readable: bool = match read_parts(byte_data, fix_errors) {
            Err(_) => true,
            Ok(parts) => match inflate(parts.idat_data.as_slice()) {
                Err(_) => true,
                Ok(raw_data) => lines_are_readable(parts.ihdr_data, raw_data.as_slice()),
            },
        };
        if readable {
            Some(PngData::from_slice(byte_data, fix_errors))
        } else {
            None
        }
    }
}

} // verus!
