//! The scan lines of an image.

use vstd::arithmetic::div_mod::lemma_mod_multiples_basic;
use vstd::prelude::*;
use vstd::slice::{slice_subrange, slice_to_vec};
use crate::headers::IhdrData;
use crate::png::PngData;

verus! {

/// A scan line in a PNG image
#[derive(Debug, Clone)]
pub struct ScanLine {
    /// The filter type used to encode the current scan line (0-4)
    pub filter: u8,
    /// The byte data for the current scan line, encoded with the filter specified in the `filter` field
    pub data: Vec<u8>,
    /// The current pass if the image is interlaced
    pub pass: Option<u8>,
}

/// The mathematical content of a `ScanLine`.
#[verifier::ext_equal]
pub struct Line {
    pub filter: u8,
    pub data: Seq<u8>,
    pub pass: Option<u8>,
}

impl View for ScanLine {
    type V = Line;

    open spec fn view(&self) -> Line {
        Line { filter: self.filter, data: self.data@, pass: self.pass }
    }
}

/// The leftmost column that an Adam7 pass draws.
pub open spec fn first_column(pass: u8) -> nat {
    match pass {
        2 => 4,
        4 => 2,
        6 => 1,
        _ => 0,
    }
}

/// The distance between two neighbouring columns of an Adam7 pass.
pub open spec fn column_step(pass: u8) -> nat {
    match pass {
        1 | 2 => 8,
        3 | 4 => 4,
        5 | 6 => 2,
        _ => 1,
    }
}

/// The topmost row that an Adam7 pass draws.
pub open spec fn first_row(pass: u8) -> nat {
    match pass {
        3 => 4,
        5 => 2,
        7 => 1,
        _ => 0,
    }
}

/// The distance between two neighbouring rows of an Adam7 pass.
pub open spec fn row_step(pass: u8) -> nat {
    match pass {
        1 | 2 | 3 => 8,
        4 | 5 => 4,
        _ => 2,
    }
}

/// The number of columns that an Adam7 pass draws of an image of the given width.
pub open spec fn pass_columns(width: nat, pass: u8) -> nat {
    let first = first_column(pass);
    let step = column_step(pass);
    if width <= first {
        0
    } else {
        ((width - first + step - 1) / step as int) as nat
    }
}

/// The given pass and row, or else the start of the first pass after it, from which on something of
/// the image is drawn: passes without columns or rows in the image are stepped over. Where nothing
/// is left, that is the eighth pass.
pub open spec fn drawn_from(ihdr: IhdrData, current: (u8, u32)) -> (u8, u32)
    decreases 8 - current.0,
{
    let (number, row) = current;
    if number <= 7 && (pass_columns(ihdr.width as nat, number) == 0 || row >= ihdr.height) {
        drawn_from(ihdr, ((number + 1) as u8, first_row((number + 1) as u8) as u32))
    } else {
        current
    }
}

/// The pass and row of the next line of an interlaced image.
pub open spec fn effective_pass(ihdr: IhdrData, pass: Option<(u8, u32)>) -> (u8, u32) {
    drawn_from(
        ihdr,
        match pass {
            None => (1u8, 0u32),
            Some(p) => p,
        },
    )
}

/// Which passes are stepped over depends on the size of the image alone.
pub proof fn lemma_drawn_from_size(a: IhdrData, b: IhdrData, current: (u8, u32))
    requires
        a.width == b.width,
        a.height == b.height,
    ensures
        drawn_from(a, current) == drawn_from(b, current),
    decreases 8 - current.0,
{
    if current.0 <= 7 {
        let number = (current.0 + 1) as u8;
        lemma_drawn_from_size(a, b, (number, first_row(number) as u32));
    }
}

/// The first line of an interlaced image belongs to the first pass, if there is any line.
pub proof fn lemma_first_pass(ihdr: IhdrData)
    requires
        effective_pass(ihdr, None).0 <= 7,
    ensures
        effective_pass(ihdr, None) == (1u8, 0u32),
        ihdr.width > 0,
        ihdr.height > 0,
{
    lemma_drawn_columns(ihdr, (1u8, 0u32));
    assert(ihdr.width > 0 && ihdr.height > 0);
    assert(pass_columns(ihdr.width as nat, 1) == (ihdr.width + 7) / 8);
}

/// The pass number that a line carries.
pub open spec fn line_pass(ihdr: IhdrData, pass: Option<(u8, u32)>) -> Option<u8> {
    if ihdr.interlaced == 1 {
        Some(effective_pass(ihdr, pass).0)
    } else {
        None
    }
}

/// The number of pixels in the next line.
pub open spec fn line_pixels(ihdr: IhdrData, pass: Option<(u8, u32)>) -> nat {
    if ihdr.interlaced == 1 {
        pass_columns(ihdr.width as nat, effective_pass(ihdr, pass).0)
    } else {
        ihdr.width as nat
    }
}

/// The number of bytes in the next line, its filter byte not counted.
pub open spec fn line_bytes(ihdr: IhdrData, pass: Option<(u8, u32)>) -> nat {
    (line_pixels(ihdr, pass) * ihdr.bits_per_pixel() + 7) / 8
}

/// The pass and row after the next line.
pub open spec fn pass_after(ihdr: IhdrData, pass: Option<(u8, u32)>) -> Option<(u8, u32)> {
    if ihdr.interlaced == 1 {
        let (number, row) = effective_pass(ihdr, pass);
        if row + row_step(number) >= ihdr.height {
            Some(((number + 1) as u8, first_row((number + 1) as u8) as u32))
        } else {
            Some((number, (row + row_step(number)) as u32))
        }
    } else {
        pass
    }
}

/// The next line is one of the seven passes, if the image is interlaced, and of `len` bytes enough
/// are left for it from `pos` on.
pub open spec fn line_fits(ihdr: IhdrData, len: int, pos: int, pass: Option<(u8, u32)>) -> bool {
    &&& 0 <= pos
    &&& ihdr.interlaced == 1 ==> 1 <= effective_pass(ihdr, pass).0 <= 7
    &&& pos + 1 + line_bytes(ihdr, pass) <= len
}

/// From `pos` on, `len` bytes are made of whole lines, none of them after the seventh pass.
pub open spec fn fits(ihdr: IhdrData, len: int, pos: int, pass: Option<(u8, u32)>) -> bool
    decreases len - pos,
{
    pos == len || {
        &&& line_fits(ihdr, len, pos, pass)
        &&& fits(ihdr, len, pos + 1 + line_bytes(ihdr, pass), pass_after(ihdr, pass))
    }
}

/// The lines that `raw` holds from `pos` on, as far as they are whole.
pub open spec fn lines_from(
    ihdr: IhdrData,
    raw: Seq<u8>,
    pos: int,
    pass: Option<(u8, u32)>,
) -> Seq<Line>
    decreases raw.len() - pos,
{
    let end = pos + 1 + line_bytes(ihdr, pass);
    if !line_fits(ihdr, raw.len() as int, pos, pass) {
        Seq::empty()
    } else {
        seq![
            Line {
                filter: raw[pos],
                data: raw.subrange(pos + 1, end),
                pass: line_pass(ihdr, pass),
            },
        ] + lines_from(ihdr, raw, end, pass_after(ihdr, pass))
    }
}

/// The raw data that a sequence of lines makes up: of each line its filter byte, then its data.
pub open spec fn join(lines: Seq<Line>) -> Seq<u8>
    decreases lines.len(),
{
    if lines.len() == 0 {
        Seq::empty()
    } else {
        seq![lines[0].filter] + lines[0].data + join(lines.drop_first())
    }
}

/// Two sequences of lines have the same shape: as many lines, of the same lengths, in the same
/// passes.
pub open spec fn same_shape(a: Seq<Line>, b: Seq<Line>) -> bool {
    &&& a.len() == b.len()
    &&& forall|i: int|
        #![trigger a[i]]
        #![trigger b[i]]
        0 <= i < a.len() ==> a[i].data.len() == b[i].data.len() && a[i].pass == b[i].pass
}

/// The number of pixels in a line and their size bound the number of bytes.
pub proof fn lemma_line_bytes_bound(ihdr: IhdrData, pass: Option<(u8, u32)>)
    ensures
        line_bytes(ihdr, pass) <= 0x8_0000_0000,
{
    let pixels = line_pixels(ihdr, pass);
    let bits = ihdr.bits_per_pixel();
    let number = effective_pass(ihdr, pass).0;
    let (first, step) = (first_column(number), column_step(number));
    assert(step == 1 || step == 2 || step == 4 || step == 8);
    if ihdr.width > first {
        let span = ihdr.width - first + step - 1;
        assert(step == 1 ==> span / 1 <= 0xffff_ffff);
        assert(step == 2 ==> span / 2 <= 0xffff_ffff);
        assert(step == 4 ==> span / 4 <= 0xffff_ffff);
        assert(step == 8 ==> span / 8 <= 0xffff_ffff);
    }
    assert(pixels <= 0xffff_ffff);
    ihdr.lemma_pixel_size();
    assert(pixels * bits <= 0xffff_ffff * 64) by (nonlinear_arith)
        requires
            pixels <= 0xffff_ffff,
            bits <= 64,
    ;
}

/// The number of bytes in a line of pixels of `size` bytes.
pub proof fn lemma_bytes_of_pixels(ihdr: IhdrData, pass: Option<(u8, u32)>, size: nat)
    requires
        ihdr.bits_per_pixel() == 8 * size,
        size > 0,
    ensures
        line_bytes(ihdr, pass) == size * line_pixels(ihdr, pass),
        line_bytes(ihdr, pass) % size == 0,
{
    let pixels = line_pixels(ihdr, pass);
    let bits = ihdr.bits_per_pixel();
    let bytes = size * pixels;
    assert(pixels * bits == 8 * bytes) by (nonlinear_arith)
        requires
            bits == 8 * size,
            bytes == size * pixels,
    ;
    assert(size * pixels == pixels * size) by (nonlinear_arith);
    lemma_mod_multiples_basic(pixels as int, size as int);
}

/// No line of an image is longer than 2^35 bytes.
pub proof fn lemma_line_sizes(ihdr: IhdrData, raw: Seq<u8>, pos: int, pass: Option<(u8, u32)>)
    ensures
        forall|i: int|
            0 <= i < lines_from(ihdr, raw, pos, pass).len() ==> (#[trigger] lines_from(
                ihdr,
                raw,
                pos,
                pass,
            )[i]).data.len() <= 0x8_0000_0000,
    decreases raw.len() - pos,
{
    let end = pos + 1 + line_bytes(ihdr, pass);
    lemma_line_bytes_bound(ihdr, pass);
    if line_fits(ihdr, raw.len() as int, pos, pass) {
        lemma_line_sizes(ihdr, raw, end, pass_after(ihdr, pass));
        let rest = lines_from(ihdr, raw, end, pass_after(ihdr, pass));
        let lines = lines_from(ihdr, raw, pos, pass);
        assert forall|i: int| 0 <= i < lines.len() implies (#[trigger] lines[i]).data.len()
            <= 0x8_0000_0000 by {
            if i > 0 {
                assert(lines[i] == rest[i - 1]);
            }
        }
    }
}

/// Lines of the shape that an image has, put in the place of its own from `pos` on, are found
/// there again.
pub proof fn lemma_relayout(
    ihdr: IhdrData,
    raw: Seq<u8>,
    pos: int,
    pass: Option<(u8, u32)>,
    new_raw: Seq<u8>,
    lines: Seq<Line>,
)
    requires
        0 <= pos <= raw.len(),
        fits(ihdr, raw.len() as int, pos, pass),
        same_shape(lines_from(ihdr, raw, pos, pass), lines),
        pos <= new_raw.len(),
        new_raw.skip(pos) == join(lines),
    ensures
        new_raw.len() == raw.len(),
        lines_from(ihdr, new_raw, pos, pass) == lines,
    decreases raw.len() - pos,
{
    let end = pos + 1 + line_bytes(ihdr, pass);
    let own = lines_from(ihdr, raw, pos, pass);
    if pos == raw.len() {
        assert(lines.len() == 0);
        assert(new_raw.skip(pos).len() == 0);
        assert(lines_from(ihdr, new_raw, pos, pass) =~= lines);
    } else {
        let next = pass_after(ihdr, pass);
        let own_rest = lines_from(ihdr, raw, end, next);
        let rest = lines.drop_first();
        assert(own =~= seq![own[0]] + own_rest);
        assert(own[0].data.len() == lines[0].data.len());
        assert(own[0].pass == lines[0].pass);
        assert forall|i: int| 0 <= i < own_rest.len() implies own_rest[i].data.len()
            == rest[i].data.len() && own_rest[i].pass == rest[i].pass by {
            assert(own_rest[i] == own[i + 1]);
            assert(own[i + 1].data.len() == lines[i + 1].data.len());
        }
        assert(lines[0].data.len() == end - pos - 1);
        let tail = new_raw.skip(pos);
        assert(tail.len() == new_raw.len() - pos);
        assert(tail.len() == 1 + lines[0].data.len() + join(rest).len());
        assert(new_raw.skip(end) =~= tail.skip(end - pos));
        assert(tail.skip(end - pos) =~= join(rest));
        lemma_relayout(ihdr, raw, end, next, new_raw, rest);
        assert(new_raw[pos] == tail[0]);
        assert(new_raw.subrange(pos + 1, end) =~= tail.subrange(1, end - pos));
        assert(tail.subrange(1, end - pos) =~= lines[0].data);
        assert(lines_from(ihdr, new_raw, pos, pass) =~= lines);
    }
}

/// The lines of an image, put together again, are its raw data.
pub proof fn lines_make_up_raw_data(
    ihdr: IhdrData,
    raw: Seq<u8>,
    pos: int,
    pass: Option<(u8, u32)>,
)
    requires
        0 <= pos <= raw.len(),
        fits(ihdr, raw.len() as int, pos, pass),
    ensures
        join(lines_from(ihdr, raw, pos, pass)) == raw.skip(pos),
    decreases raw.len() - pos,
{
    let end = pos + 1 + line_bytes(ihdr, pass);
    let lines = lines_from(ihdr, raw, pos, pass);
    if pos == raw.len() {
        assert(join(lines) =~= raw.skip(pos));
    } else {
        let next = pass_after(ihdr, pass);
        lines_make_up_raw_data(ihdr, raw, end, next);
        assert(lines.drop_first() =~= lines_from(ihdr, raw, end, next));
        assert(join(lines) =~= raw.skip(pos));
    }
}

/// The number of columns that an Adam7 pass draws of an image of the given width.
fn columns_of_pass(width: u32, pass: u8) -> (columns: u32)
    ensures
        columns == pass_columns(width as nat, pass),
{
    let pixels_factor: u32 = match pass {
        1 | 2 => 8,
        3 | 4 => 4,
        5 | 6 => 2,
        _ => 1,
    };
    let pixels: u32 = width / pixels_factor;
    // Determine whether to add pixels if there is a final, incomplete 8x8 block
    let gap: u32 = width % pixels_factor;
    assert(pixels_factor == 1 || pixels_factor == 2 || pixels_factor == 4 || pixels_factor == 8);
    assert(gap > 0 ==> pixels <= 0x7fff_ffff);
    let extra: bool = match pass {
        1 | 3 | 5 => gap >= 1,
        2 => gap >= 5,
        4 => gap >= 3,
        6 => gap >= 2,
        _ => false,
    };
    if extra {
        pixels + 1
    } else {
        pixels
    }
}

/// The topmost row that an Adam7 pass draws.
fn first_row_of_pass(pass: u8) -> (row: u32)
    ensures
        row == first_row(pass),
{
    match pass {
        3 => 4,
        5 => 2,
        7 => 1,
        _ => 0,
    }
}

/// Each line of an interlaced image holds at least one pixel: passes without pixels have no lines.
pub proof fn interlaced_lines_hold_pixels(
    ihdr: IhdrData,
    raw: Seq<u8>,
    pos: int,
    pass: Option<(u8, u32)>,
    i: int,
)
    requires
        ihdr.interlaced == 1,
        0 <= i < lines_from(ihdr, raw, pos, pass).len(),
    ensures
        lines_from(ihdr, raw, pos, pass)[i].data.len() > 0,
    decreases raw.len() - pos,
{
    let end = pos + 1 + line_bytes(ihdr, pass);
    let next = pass_after(ihdr, pass);
    if i > 0 {
        interlaced_lines_hold_pixels(ihdr, raw, end, next, i - 1);
        assert(lines_from(ihdr, raw, pos, pass)[i] == lines_from(ihdr, raw, end, next)[i - 1]);
    } else {
        lemma_drawn_columns(
            ihdr,
            match pass {
                None => (1u8, 0u32),
                Some(p) => p,
            },
        );
        ihdr.lemma_pixel_size();
        let (pixels, bits) = (line_pixels(ihdr, pass), ihdr.bits_per_pixel());
        assert(pixels * bits >= 1) by (nonlinear_arith)
            requires
                pixels >= 1,
                bits >= 1,
        ;
    }
}

/// Where something is drawn, there are columns and rows.
pub proof fn lemma_drawn_columns(ihdr: IhdrData, current: (u8, u32))
    ensures
        ({
            let (number, row) = drawn_from(ihdr, current);
            number <= 7 ==> pass_columns(ihdr.width as nat, number) > 0 && row < ihdr.height
        }),
    decreases 8 - current.0,
{
    if current.0 <= 7 {
        let next = (current.0 + 1) as u8;
        lemma_drawn_columns(ihdr, (next, first_row(next) as u32));
    }
}

/// The pass and row of the next line of an interlaced image.
fn current_pass(ihdr: IhdrData, pass: Option<(u8, u32)>) -> (current: (u8, u32))
    ensures
        current == effective_pass(ihdr, pass),
{
    let mut current: (u8, u32) = match pass {
        None => (1, 0),
        Some(p) => p,
    };
    // Step over the passes that small images do not have
    while current.0 <= 7 && (columns_of_pass(ihdr.width, current.0) == 0 || current.1
        >= ihdr.height)
        invariant
            drawn_from(ihdr, current) == effective_pass(ihdr, pass),
        decreases 8 - current.0,
    {
        let number: u8 = current.0 + 1;
        current = (number, first_row_of_pass(number));
    }
    current
}

/// The number of bytes in the next line, the pass number that it carries, and the pass and row
/// after it.
fn line_layout(ihdr: IhdrData, pass: Option<(u8, u32)>) -> (layout: (
    u64,
    Option<u8>,
    Option<(u8, u32)>,
))
    requires
        ihdr.interlaced == 1 ==> 1 <= effective_pass(ihdr, pass).0 <= 7,
    ensures
        layout.0 == line_bytes(ihdr, pass),
        layout.1 == line_pass(ihdr, pass),
        layout.2 == pass_after(ihdr, pass),
        layout.0 <= 0x8_0000_0000,
{
    let pixels_per_line: u32;
    let line_pass: Option<u8>;
    let next_pass: Option<(u8, u32)>;
    if ihdr.interlaced == 1 {
        // Scanlines for interlaced PNG files
        let current: (u8, u32) = current_pass(ihdr, pass);
        let y_steps: u32 = match current.0 {
            1 | 2 | 3 => 8,
            4 | 5 => 4,
            _ => 2,
        };
        pixels_per_line = columns_of_pass(ihdr.width, current.0);
        line_pass = Some(current.0);
        let row: u64 = current.1 as u64 + y_steps as u64;
        next_pass = if row >= ihdr.height as u64 {
            let number: u8 = current.0 + 1;
            Some((number, first_row_of_pass(number)))
        } else {
            Some((current.0, row as u32))
        };
    } else {
        // Standard, non-interlaced PNG scanlines
        pixels_per_line = ihdr.width;
        line_pass = None;
        next_pass = pass;
    }
    assert(pixels_per_line == line_pixels(ihdr, pass));
    proof {
        ihdr.lemma_pixel_size();
        lemma_line_bytes_bound(ihdr, pass);
    }
    let bits_per_pixel: u64 = (ihdr.bit_depth.as_u8() * ihdr.color_type.channels_per_pixel()) as u64;
    assert(0 <= pixels_per_line * bits_per_pixel <= 0xffff_ffff * 64) by (nonlinear_arith)
        requires
            0 <= pixels_per_line <= 0xffff_ffff,
            0 <= bits_per_pixel <= 64,
    ;
    let bytes: u64 = (pixels_per_line as u64 * bits_per_pixel + 7) / 8;
    (bytes, line_pass, next_pass)
}

/// Whether so many bytes of raw data are made of whole lines, none of them after the seventh pass.
pub(crate) fn lines_are_whole(ihdr: IhdrData, len: usize) -> (whole: bool)
    ensures
        whole == fits(ihdr, len as int, 0, None),
{
    let mut pos: usize = 0;
    let mut pass: Option<(u8, u32)> = None;
    while pos < len
        invariant
            pos <= len,
            fits(ihdr, len as int, 0, None) == fits(ihdr, len as int, pos as int, pass),
        decreases len - pos,
    {
        if ihdr.interlaced == 1 {
            let current: (u8, u32) = current_pass(ihdr, pass);
            if current.0 < 1 || current.0 > 7 {
                return false;
            }
        }
        let (bytes, _, next): (u64, Option<u8>, Option<(u8, u32)>) = line_layout(ihdr, pass);
        if bytes + 1 > (len - pos) as u64 {
            return false;
        }
        pos = pos + 1 + bytes as usize;
        pass = next;
    }
    true
}

/// Whether raw data is made of whole lines, none of them after the seventh pass, each of which
/// names one of the five filters.
pub(crate) fn lines_are_readable(ihdr: IhdrData, raw: &[u8]) -> (readable: bool)
    ensures
        readable == (fits(ihdr, raw@.len() as int, 0, None) && forall|i: int|
            0 <= i < lines_from(ihdr, raw@, 0, None).len() ==> (#[trigger] lines_from(
                ihdr,
                raw@,
                0,
                None,
            )[i]).filter <= 4),
{
    let mut pos: usize = 0;
    let mut pass: Option<(u8, u32)> = None;
    let ghost lines = lines_from(ihdr, raw@, 0, None);
    let ghost mut done: int = 0;
    assert(lines.skip(0) =~= lines);
    while pos < raw.len()
        invariant
            pos <= raw.len(),
            lines == lines_from(ihdr, raw@, 0, None),
            fits(ihdr, raw@.len() as int, 0, None) == fits(
                ihdr,
                raw@.len() as int,
                pos as int,
                pass,
            ),
            0 <= done <= lines.len(),
            lines.skip(done) == lines_from(ihdr, raw@, pos as int, pass),
            forall|i: int| 0 <= i < done ==> (#[trigger] lines[i]).filter <= 4,
        ensures
            pos == raw.len(),
        decreases raw.len() - pos,
    {
        if ihdr.interlaced == 1 {
            let current: (u8, u32) = current_pass(ihdr, pass);
            if current.0 < 1 || current.0 > 7 {
                return false;
            }
        }
        let (bytes, _, next): (u64, Option<u8>, Option<(u8, u32)>) = line_layout(ihdr, pass);
        if bytes + 1 > (raw.len() - pos) as u64 {
            return false;
        }
        let ghost rest = lines_from(ihdr, raw@, pos as int, pass);
        assert(rest.len() > 0 && rest.drop_first() =~= lines_from(
            ihdr,
            raw@,
            pos + 1 + line_bytes(ihdr, pass),
            next,
        ));
        assert(lines.skip(done).len() == lines.len() - done);
        assert(rest[0] == lines[done]);
        assert(rest[0].filter == raw@[pos as int]);
        if raw[pos] > 4 {
            return false;
        }
        proof {
            assert(lines.skip(done + 1) =~= rest.drop_first());
            done = done + 1;
        }
        pos = pos + 1 + bytes as usize;
        pass = next;
    }
    assert(lines.skip(done).len() == 0);
    true
}

/// An iterator over the scan lines of a PNG image
#[derive(Debug, Clone)]
pub struct ScanLines<'a> {
    /// A reference to the PNG image being iterated upon
    pub png: &'a PngData,
    start: usize,
    end: usize,
    /// Current pass number, and 0-indexed row within the pass
    pass: Option<(u8, u32)>,
}

impl<'a> ScanLines<'a> {
    /// The image whose lines these are.
    pub closed spec fn source(self) -> PngData {
        *self.png
    }

    /// The lines still to come, as far as they are whole.
    pub closed spec fn remaining(self) -> Seq<Line> {
        lines_from(self.png@.ihdr, self.png@.raw, self.end as int, self.pass)
    }

    /// The number of bytes of raw data that no line has used yet.
    pub closed spec fn bytes_left(self) -> int {
        self.png@.raw.len() - self.end
    }

    /// The lines still to come use up the raw data of the image.
    pub closed spec fn wf(self) -> bool {
        &&& self.end <= self.png@.raw.len()
        &&& fits(self.png@.ihdr, self.png@.raw.len() as int, self.end as int, self.pass)
    }

    /// The raw data is used up, or a whole line comes next.
    pub open spec fn ready(self) -> bool {
        self.wf() || self.remaining().len() > 0 || self.bytes_left() == 0
    }

    /// Starts at the first line of the image.
    pub(crate) fn new(png: &'a PngData) -> (lines: ScanLines<'a>)
        ensures
            lines.source() == *png,
            lines.remaining() == png@.lines(),
            lines.bytes_left() == png@.raw.len(),
            png@.whole_lines() ==> lines.wf(),
    {
        ScanLines { png, start: 0, end: 0, pass: None }
    }

    /// Whether the raw data is used up, or a whole line comes next.
    pub fn is_ready(&self) -> (ready: bool)
        ensures
            ready == self.ready(),
    {
        let ihdr = self.png.ihdr_data;
        let len: usize = self.png.raw_data.len();
        if self.end >= len {
            return self.end == len;
        }
        if ihdr.interlaced == 1 {
            let current: (u8, u32) = current_pass(ihdr, self.pass);
            if current.0 < 1 || current.0 > 7 {
                return false;
            }
        }
        let (bytes, _, _): (u64, Option<u8>, Option<(u8, u32)>) = line_layout(ihdr, self.pass);
        bytes + 1 <= (len - self.end) as u64
    }

    /// The next scan line, or `None` at the end of the raw data.
    pub fn next(&mut self) -> (line: Option<ScanLine>)
        requires
            old(self).ready(),
        ensures
            final(self).source() == old(self).source(),
            old(self).wf() ==> final(self).wf(),
            old(self).remaining().len() == 0 <==> line is None,
            line is None ==> final(self).remaining() == old(self).remaining()
                && final(self).bytes_left() == old(self).bytes_left(),
            line matches Some(l) ==> {
                &&& l@ == old(self).remaining()[0]
                &&& final(self).remaining() == old(self).remaining().drop_first()
                &&& final(self).bytes_left() == old(self).bytes_left() - 1 - l@.data.len()
            },
    {
        if self.end == self.png.raw_data.len() {
            return None;
        }
        let ihdr = self.png.ihdr_data;
        let ghost before = *self;
        let (bytes, current_pass, next_pass): (u64, Option<u8>, Option<(u8, u32)>) = line_layout(
            ihdr,
            self.pass,
        );
        let bytes_per_line: usize = bytes as usize;
        let start: usize = self.end;
        let end: usize = start + bytes_per_line + 1;
        let line = ScanLine {
            filter: self.png.raw_data[start],
            data: slice_to_vec(slice_subrange(self.png.raw_data.as_slice(), start + 1, end)),
            pass: current_pass,
        };
        self.start = start;
        self.end = end;
        self.pass = next_pass;
        proof {
            let old_lines = before.remaining();
            assert(old_lines[0] == line@);
            assert(old_lines.drop_first() =~= self.remaining());
        }
        Some(line)
    }
}

} // verus!
