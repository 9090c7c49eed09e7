//! A PNG image in memory.

use vstd::prelude::*;
use crate::bytes::copy_bytes;
use crate::headers::IhdrData;
use crate::scan::{fits, lines_are_whole, lines_from, Line, ScanLines};

verus! {

/// All data of a PNG image.
#[derive(Debug)]
pub struct PngData {
    /// The filtered and compressed data of the IDAT chunk
    pub idat_data: Vec<u8>,
    /// The headers stored in the IHDR chunk
    pub ihdr_data: IhdrData,
    /// The uncompressed, optionally filtered data from the IDAT chunk
    pub raw_data: Vec<u8>,
    /// The palette containing colors used in an Indexed image
    /// Contains 3 bytes per color (R+G+B), up to 768
    pub palette: Option<Vec<u8>>,
    /// The pixel value that should be rendered as transparent
    pub transparency_pixel: Option<Vec<u8>>,
    /// A map of how transparent each color in the palette should be
    pub transparency_palette: Option<Vec<u8>>,
    /// All non-critical headers from the PNG, each name once, in the order in which they were
    /// first met
    pub aux_headers: Vec<(String, Vec<u8>)>,
}

/// The mathematical content of a `PngData`.
#[verifier::ext_equal]
pub struct Image {
    pub idat: Seq<u8>,
    pub ihdr: IhdrData,
    pub raw: Seq<u8>,
    pub palette: Option<Seq<u8>>,
    pub transparency_pixel: Option<Seq<u8>>,
    pub transparency_palette: Option<Seq<u8>>,
    pub aux: Seq<(Seq<char>, Seq<u8>)>,
}

/// The bytes of an optional vector.
pub open spec fn opt_bytes(bytes: Option<Vec<u8>>) -> Option<Seq<u8>> {
    match bytes {
        Some(v) => Some(v@),
        None => None,
    }
}

/// The names and contents of a list of chunks.
pub open spec fn aux_view(headers: Seq<(String, Vec<u8>)>) -> Seq<(Seq<char>, Seq<u8>)> {
    Seq::new(headers.len(), |i: int| (headers[i].0@, headers[i].1@))
}

impl View for PngData {
    type V = Image;

    open spec fn view(&self) -> Image {
        Image {
            idat: self.idat_data@,
            ihdr: self.ihdr_data,
            raw: self.raw_data@,
            palette: opt_bytes(self.palette),
            transparency_pixel: opt_bytes(self.transparency_pixel),
            transparency_palette: opt_bytes(self.transparency_palette),
            aux: aux_view(self.aux_headers@),
        }
    }
}

/// The view of an image shows each of its fields.
pub proof fn views_show_every_field(png: PngData)
    ensures
        png@.idat == png.idat_data@,
        png@.ihdr == png.ihdr_data,
        png@.raw == png.raw_data@,
        png@.palette is Some <==> png.palette is Some,
        png@.palette matches Some(bytes) ==> bytes == png.palette->0@,
        png@.transparency_pixel is Some <==> png.transparency_pixel is Some,
        png@.transparency_pixel matches Some(bytes) ==> bytes == png.transparency_pixel->0@,
        png@.transparency_palette is Some <==> png.transparency_palette is Some,
        png@.transparency_palette matches Some(bytes) ==> bytes == png.transparency_palette->0@,
        png@.aux.len() == png.aux_headers@.len(),
        forall|i: int|
            0 <= i < png@.aux.len() ==> (#[trigger] png@.aux[i]).0 == png.aux_headers@[i].0@
                && png@.aux[i].1 == png.aux_headers@[i].1@,
{
}

impl Image {
    /// The scan lines of the image.
    pub open spec fn lines(self) -> Seq<Line> {
        lines_from(self.ihdr, self.raw, 0, None)
    }

    /// The raw data ends where a scan line ends, and holds no line after the last pass.
    pub open spec fn whole_lines(self) -> bool {
        fits(self.ihdr, self.raw.len() as int, 0, None)
    }
}

/// Copies an optional vector.
fn copy_option(bytes: &Option<Vec<u8>>) -> (copy: Option<Vec<u8>>)
    ensures
        opt_bytes(copy) == opt_bytes(*bytes),
{
    match bytes {
        Some(v) => Some(copy_bytes(v.as_slice())),
        None => None,
    }
}

/// Copies a list of chunks.
fn copy_headers(headers: &Vec<(String, Vec<u8>)>) -> (copy: Vec<(String, Vec<u8>)>)
    ensures
        aux_view(copy@) == aux_view(headers@),
{
    let mut copy: Vec<(String, Vec<u8>)> = Vec::with_capacity(headers.len());
    let mut i: usize = 0;
    while i < headers.len()
        invariant
            i <= headers.len(),
            aux_view(copy@) =~= aux_view(headers@).take(i as int),
        decreases headers.len() - i,
    {
        let ghost before = copy@;
        copy.push((headers[i].0.as_str().to_owned(), copy_bytes(headers[i].1.as_slice())));
        assert(aux_view(copy@) =~= aux_view(before).push(aux_view(headers@)[i as int]));
        i = i + 1;
    }
    copy
}

impl Clone for PngData {
    fn clone(&self) -> (copy: PngData)
        ensures
            copy@ == self@,
            copy.idat_data@ == self.idat_data@,
            copy.ihdr_data == self.ihdr_data,
            copy.raw_data@ == self.raw_data@,
            opt_bytes(copy.palette) == opt_bytes(self.palette),
            opt_bytes(copy.transparency_pixel) == opt_bytes(self.transparency_pixel),
            opt_bytes(copy.transparency_palette) == opt_bytes(self.transparency_palette),
            aux_view(copy.aux_headers@) == aux_view(self.aux_headers@),
    {
        PngData {
            idat_data: copy_bytes(self.idat_data.as_slice()),
            ihdr_data: self.ihdr_data,
            raw_data: copy_bytes(self.raw_data.as_slice()),
            palette: copy_option(&self.palette),
            transparency_pixel: copy_option(&self.transparency_pixel),
            transparency_palette: copy_option(&self.transparency_palette),
            aux_headers: copy_headers(&self.aux_headers),
        }
    }
}

impl PngData {
    /// Reset an image to the data of another one
    pub fn reset_from_original(&mut self, original: &PngData)
        ensures
            final(self)@ == original@,
            final(self).idat_data@ == original.idat_data@,
            final(self).ihdr_data == original.ihdr_data,
            final(self).raw_data@ == original.raw_data@,
            opt_bytes(final(self).palette) == opt_bytes(original.palette),
            opt_bytes(final(self).transparency_pixel) == opt_bytes(original.transparency_pixel),
            opt_bytes(final(self).transparency_palette) == opt_bytes(original.transparency_palette),
            aux_view(final(self).aux_headers@) == aux_view(original.aux_headers@),
    {
        self.idat_data = copy_bytes(original.idat_data.as_slice());
        self.ihdr_data = original.ihdr_data;
        self.raw_data = copy_bytes(original.raw_data.as_slice());
        self.palette = copy_option(&original.palette);
        self.transparency_pixel = copy_option(&original.transparency_pixel);
        self.transparency_palette = copy_option(&original.transparency_palette);
        self.aux_headers = copy_headers(&original.aux_headers);
    }

    /// Return the number of channels in the image, based on color type
    #[inline]
    pub fn channels_per_pixel(&self) -> (channels: u8)
        ensures
            channels == self@.ihdr.color_type.channels(),
            1 <= channels <= 4,
    {
        self.ihdr_data.color_type.channels_per_pixel()
    }

    /// Whether the raw data ends where a scan line ends, and holds no line after the last pass
    pub fn has_whole_lines(&self) -> (whole: bool)
        ensures
            whole == self@.whole_lines(),
    {
        lines_are_whole(self.ihdr_data, self.raw_data.len())
    }

    /// Return an iterator over the scanlines of the image
    #[inline]
    pub fn scan_lines<'a>(&'a self) -> (lines: ScanLines<'a>)
        ensures
            lines.source() == *self,
            lines.remaining() == self@.lines(),
            lines.bytes_left() == self@.raw.len(),
            self@.whole_lines() ==> lines.wf(),
    {
        ScanLines::new(self)
    }
}

} // verus!
