//! Rewriting the colours of fully transparent pixels.

use vstd::prelude::*;
use vstd::slice::slice_subrange;
use crate::bytes::{append_bytes, copy_bytes};
use crate::colors::{AlphaOptim, ColorType};
use crate::headers::IhdrData;
use crate::png::{Image, PngData};
use crate::scan::{
    join, lemma_bytes_of_pixels, line_bytes, line_fits, lines_from, pass_after, Line, ScanLine,
};

verus! {

/// The form of a pixel with an alpha sample: `size` bytes, the last `alpha` of which are the
/// alpha sample.
pub struct PixelForm {
    pub alpha: nat,
    pub size: nat,
}

impl PixelForm {
    /// One or three colour samples and an alpha sample, of one or two bytes each.
    pub open spec fn valid(self) -> bool {
        (self.alpha == 1 || self.alpha == 2) && (self.size == 2 * self.alpha || self.size == 4
            * self.alpha)
    }

    /// Byte `i` of a line belongs to a colour sample.
    pub open spec fn in_color(self, i: int) -> bool {
        i % (self.size as int) < self.size - self.alpha
    }

    /// The alpha sample of the pixel that byte `i` of a line belongs to is zero.
    pub open spec fn transparent(self, data: Seq<u8>, i: int) -> bool {
        let start = i - i % (self.size as int);
        forall|j: int|
            start + self.size - self.alpha <= j < start + self.size ==> #[trigger] data[j] == 0
    }

    /// So many bytes of a line are reached when its pixels are paired with those of another line
    /// with `other` bytes, the last of which may be cut short.
    pub open spec fn reached(self, len: nat, other: nat) -> nat {
        if len <= other {
            len
        } else if other % self.size == 0 {
            other
        } else {
            (other - other % self.size + self.size) as nat
        }
    }

    /// The line with the colours of its transparent pixels taken from `fill`.
    pub open spec fn recolored(self, data: Seq<u8>, fill: Seq<u8>) -> Seq<u8> {
        Seq::new(
            self.reached(data.len(), fill.len()),
            |i: int|
                if self.transparent(data, i) && self.in_color(i) {
                    fill[i]
                } else {
                    data[i]
                },
        )
    }

    /// There is a fill for each colour sample that is taken from there.
    pub open spec fn covered(self, data: Seq<u8>, fill: Seq<u8>) -> bool {
        forall|i: int|
            #![trigger fill[i]]
            0 <= i < self.reached(data.len(), fill.len()) && self.transparent(data, i)
                && self.in_color(i) ==> i < fill.len()
    }

    pub open spec fn recolored_line(self, line: Line, fill: Seq<u8>) -> Line {
        Line { filter: line.filter, data: self.recolored(line.data, fill), pass: line.pass }
    }

    /// The fill that a line gets from itself: black, white, the line one pixel to the left, or the
    /// line one pixel to the right.
    pub open spec fn own_fill(self, optim: AlphaOptim, data: Seq<u8>) -> Seq<u8> {
        Seq::new(
            data.len(),
            |i: int|
                match optim {
                    AlphaOptim::White => 255u8,
                    AlphaOptim::Left if i + self.size < data.len() => data[i + self.size],
                    AlphaOptim::Right if i >= self.size => data[i - self.size],
                    _ => 0u8,
                },
        )
    }

    /// The lines, each filled from itself.
    pub open spec fn within_lines(self, lines: Seq<Line>, optim: AlphaOptim) -> Seq<Line> {
        Seq::new(
            lines.len(),
            |i: int| self.recolored_line(lines[i], self.own_fill(optim, lines[i].data)),
        )
    }

    /// The lines, each filled from all that stands before it: the first from `fill`, the others
    /// from the raw data of the lines so far, which starts with `before`.
    pub open spec fn downwards(
        self,
        lines: Seq<Line>,
        fill: Seq<u8>,
        before: Seq<u8>,
    ) -> Seq<Line>
        decreases lines.len(),
    {
        if lines.len() == 0 {
            Seq::empty()
        } else {
            let line = self.recolored_line(lines[0], fill);
            let so_far = before + line_bytes_of(line);
            seq![line] + self.downwards(lines.drop_first(), so_far, so_far)
        }
    }

    pub open spec fn downwards_covered(
        self,
        lines: Seq<Line>,
        fill: Seq<u8>,
        before: Seq<u8>,
    ) -> bool
        decreases lines.len(),
    {
        lines.len() == 0 || {
            let so_far = before + line_bytes_of(self.recolored_line(lines[0], fill));
            self.covered(lines[0].data, fill) && self.downwards_covered(
                lines.drop_first(),
                so_far,
                so_far,
            )
        }
    }

    /// What the line above the given ones is filled from: the raw data of the first of them, or
    /// `start` if there is none.
    pub open spec fn fill_below(self, lines: Seq<Line>, start: Seq<u8>) -> Seq<u8> {
        if lines.len() == 0 {
            start
        } else {
            line_bytes_of(lines[0])
        }
    }

    /// The lines, each filled from the raw data of the line below it, the last from `start`.
    pub open spec fn upwards(self, lines: Seq<Line>, start: Seq<u8>) -> Seq<Line>
        decreases lines.len(),
    {
        if lines.len() == 0 {
            Seq::empty()
        } else {
            let below = self.upwards(lines.drop_first(), start);
            seq![self.recolored_line(lines[0], self.fill_below(below, start))] + below
        }
    }

    pub open spec fn upwards_covered(self, lines: Seq<Line>, start: Seq<u8>) -> bool
        decreases lines.len(),
    {
        lines.len() == 0 || {
            let below = self.upwards(lines.drop_first(), start);
            self.covered(lines[0].data, self.fill_below(below, start)) && self.upwards_covered(
                lines.drop_first(),
                start,
            )
        }
    }
}

/// The raw data of a line: its filter byte, then its data.
pub open spec fn line_bytes_of(line: Line) -> Seq<u8> {
    seq![line.filter] + line.data
}

/// So many zeros.
pub open spec fn zeros(len: nat) -> Seq<u8> {
    Seq::new(len, |i: int| 0u8)
}

/// The remainders of the bytes of a pixel that starts at `start`.
pub proof fn lemma_pixel(form: PixelForm, start: int, o: int)
    requires
        form.valid(),
        0 <= start,
        start % (form.size as int) == 0,
        0 <= o < form.size,
    ensures
        (start + o) % (form.size as int) == o,
        (start + form.size) % (form.size as int) == 0,
{
    assert(form.size == 2 || form.size == 4 || form.size == 8);
    if form.size == 2 {
        assert(start % 2 == 0 ==> (start + o) % 2 == o && (start + 2) % 2 == 0);
    } else if form.size == 4 {
        assert(start % 4 == 0 ==> (start + o) % 4 == o && (start + 4) % 4 == 0);
    } else {
        assert(start % 8 == 0 ==> (start + o) % 8 == o && (start + 8) % 8 == 0);
    }
}

/// Where whole pixels end, the next one ends no later than the bytes up to `b` do, rounded up.
proof fn lemma_next_pixel(size: nat, a: nat, b: nat)
    requires
        size == 2 || size == 4 || size == 8,
        a % size == 0,
        a < b,
    ensures
        b % size == 0 ==> a + size <= b,
        a <= b - b % size,
        b % size < size,
{
    if size == 2 {
        assert(a % 2 == 0 ==> (b % 2 == 0 ==> a + 2 <= b) && a <= b - b % 2);
    } else if size == 4 {
        assert(a % 4 == 0 ==> (b % 4 == 0 ==> a + 4 <= b) && a <= b - b % 4);
    } else {
        assert(a % 8 == 0 ==> (b % 8 == 0 ==> a + 8 <= b) && a <= b - b % 8);
    }
}

/// Pairing pixel by pixel ends where one of the two lines ends.
pub proof fn lemma_reached(form: PixelForm, len: nat, other: nat, start: nat)
    requires
        form.valid(),
        len % form.size == 0,
        start % form.size == 0,
        start <= form.reached(len, other),
    ensures
        start < len && start < other ==> start + form.size <= form.reached(len, other),
        start >= len || start >= other ==> start == form.reached(len, other),
        other >= len ==> form.reached(len, other) == len,
        form.reached(len, other) <= len,
{
    let size = form.size;
    assert(size == 2 || size == 4 || size == 8);
    if other < len {
        lemma_rounded_up(size, other, len);
    }
    if start < len && start < other {
        if len <= other {
            lemma_next_pixel(size, start, len);
        } else {
            lemma_next_pixel(size, start, other);
        }
    } else if len > other && start > other && other % size != 0 {
        let end = form.reached(len, other);
        lemma_rounded_up(size, other, start);
        assert(start >= end);
    }
}

/// Whole pixels that go beyond `b` reach at least to `b`, rounded up.
proof fn lemma_rounded_up(size: nat, b: nat, a: nat)
    requires
        size == 2 || size == 4 || size == 8,
        a % size == 0,
        a > b,
    ensures
        a >= b - b % size + size,
{
    if size == 2 {
        assert(a % 2 == 0 && a > b ==> a >= b - b % 2 + 2);
    } else if size == 4 {
        assert(a % 4 == 0 && a > b ==> a >= b - b % 4 + 4);
    } else {
        assert(a % 8 == 0 && a > b ==> a >= b - b % 8 + 8);
    }
}

/// Whether all bytes are zero.
fn all_zero(bytes: &[u8]) -> (zero: bool)
    ensures
        zero == forall|i: int| 0 <= i < bytes@.len() ==> #[trigger] bytes@[i] == 0,
{
    let mut i: usize = 0;
    while i < bytes.len()
        invariant
            i <= bytes.len(),
            forall|j: int| 0 <= j < i ==> #[trigger] bytes@[j] == 0,
        decreases bytes.len() - i,
    {
        if bytes[i] != 0 {
            return false;
        }
        i = i + 1;
    }
    true
}

/// Takes the colours of the transparent pixels of a line from another one.
fn recolor(data: &[u8], fill: &[u8], bpc: usize, bpp: usize) -> (line: Vec<u8>)
    requires
        (PixelForm { alpha: bpc as nat, size: bpp as nat }).valid(),
        data@.len() % (bpp as nat) == 0,
        (PixelForm { alpha: bpc as nat, size: bpp as nat }).covered(data@, fill@),
    ensures
        line@ == (PixelForm { alpha: bpc as nat, size: bpp as nat }).recolored(data@, fill@),
{
    let ghost form = PixelForm { alpha: bpc as nat, size: bpp as nat };
    let ghost all = form.recolored(data@, fill@);
    let mut line: Vec<u8> = Vec::with_capacity(data.len());
    let mut start: usize = 0;
    while start < data.len() && start < fill.len()
        invariant
            form == (PixelForm { alpha: bpc as nat, size: bpp as nat }),
            form.valid(),
            data@.len() % (bpp as nat) == 0,
            form.covered(data@, fill@),
            all == form.recolored(data@, fill@),
            start as nat % form.size == 0,
            start <= form.reached(data@.len(), fill@.len()),
            start <= data@.len(),
            line@ =~= all.take(start as int),
        decreases data@.len() - start,
    {
        proof {
            lemma_reached(form, data@.len(), fill@.len(), start as nat);
        }
        let color: usize = bpp - bpc;
        let ghost first = start as int;
        let ghost before = line@;
        let pixel: &[u8] = slice_subrange(data, start, start + bpp);
        let alpha: &[u8] = slice_subrange(pixel, color, bpp);
        let transparent: bool = all_zero(alpha);
        proof {
            assert forall|o: int| 0 <= o < bpp implies {
                let i = #[trigger] (first + o);
                i % (form.size as int) == o && form.transparent(data@, i) == transparent
            } by {
                lemma_pixel(form, first, o);
                if transparent {
                    assert forall|j: int|
                        first + color <= j < first + bpp implies #[trigger] data@[j] == 0 by {
                        assert(alpha@[j - first - color] == 0);
                    }
                } else {
                    let k = choose|k: int| 0 <= k < alpha@.len() && alpha@[k] != 0;
                    assert(data@[first + color + k] != 0);
                }
            }
            lemma_pixel(form, first, 0);
        }
        if transparent {
            proof {
                let i = first + (color - 1);
                assert(i % (form.size as int) == color - 1);
                assert(form.in_color(i));
                let taken = fill@[i];
                assert(i < fill@.len());
            }
            append_bytes(&mut line, slice_subrange(fill, start, start + color));
            let mut n: usize = 0;
            while n < bpc
                invariant
                    n <= bpc,
                    line@ =~= before + fill@.subrange(first, first + color) + zeros(n as nat),
                decreases bpc - n,
            {
                line.push(0);
                n = n + 1;
            }
        } else {
            append_bytes(&mut line, pixel);
        }
        proof {
            assert forall|i: int| first <= i < first + bpp implies line@[i] == all[i] by {
                let o = i - first;
                assert(first + o == i);
                assert(i % (form.size as int) == o);
                if transparent && o >= color {
                    assert(alpha@[o - color] == 0);
                    assert(data@[i] == 0);
                }
            }
            assert(line@ =~= all.take(first + bpp));
        }
        start = start + bpp;
    }
    proof {
        lemma_reached(form, data@.len(), fill@.len(), start as nat);
        assert(line@ =~= all);
    }
    line
}

/// What a line is filled from that is filled from itself.
fn own_fill(optim: AlphaOptim, data: &[u8], bpp: usize) -> (fill: Vec<u8>)
    ensures
        forall|alpha: nat|
            fill@ == (#[trigger] (PixelForm { alpha, size: bpp as nat }).own_fill(optim, data@)),
{
    let ghost form = PixelForm { alpha: 0, size: bpp as nat };
    let ghost all = form.own_fill(optim, data@);
    let mut fill: Vec<u8> = Vec::with_capacity(data.len());
    let mut i: usize = 0;
    while i < data.len()
        invariant
            i <= data.len(),
            form == (PixelForm { alpha: 0, size: bpp as nat }),
            all == form.own_fill(optim, data@),
            fill@ =~= all.take(i as int),
        decreases data.len() - i,
    {
        let byte: u8 = match optim {
            AlphaOptim::White => 255,
            AlphaOptim::Left => if bpp < data.len() - i {
                data[i + bpp]
            } else {
                0
            },
            AlphaOptim::Right => if i >= bpp {
                data[i - bpp]
            } else {
                0
            },
            _ => 0,
        };
        fill.push(byte);
        i = i + 1;
    }
    proof {
        assert(fill@ =~= all);
        assert forall|alpha: nat|
            fill@ == (#[trigger] (PixelForm { alpha, size: bpp as nat }).own_fill(
                optim,
                data@,
            )) by {
            assert((PixelForm { alpha, size: bpp as nat }).own_fill(optim, data@) =~= all);
        }
    }
    fill
}

/// So many zeros.
fn zero_bytes(len: usize) -> (bytes: Vec<u8>)
    ensures
        bytes@ == zeros(len as nat),
{
    let mut bytes: Vec<u8> = Vec::with_capacity(len);
    let mut i: usize = 0;
    while i < len
        invariant
            i <= len,
            bytes@ =~= zeros(i as nat),
        decreases len - i,
    {
        bytes.push(0);
        i = i + 1;
    }
    bytes
}

impl Image {
    /// The form of the pixels.
    pub open spec fn pixel_form(self) -> PixelForm {
        let alpha = self.ihdr.bit_depth.bits() / 8;
        PixelForm { alpha: alpha as nat, size: (alpha * self.ihdr.color_type.channels()) as nat }
    }

    /// What the first line is filled from: zeros, as many as it has bytes.
    pub open spec fn first_fill(self) -> Seq<u8> {
        zeros(self.lines()[0].data.len())
    }

    /// The lines after rewriting the colours of the transparent pixels.
    pub open spec fn alpha_lines(self, optim: AlphaOptim) -> Seq<Line> {
        let form = self.pixel_form();
        match optim {
            AlphaOptim::NoOp => self.lines(),
            AlphaOptim::Up => form.upwards(self.lines(), self.first_fill()),
            AlphaOptim::Down => form.downwards(self.lines(), self.first_fill(), Seq::empty()),
            _ => form.within_lines(self.lines(), optim),
        }
    }

    /// An attempt to rewrite transparent pixels changes something.
    pub open spec fn alpha_applies(self, optim: AlphaOptim) -> bool {
        self.ihdr.color_type.has_alpha() && optim != AlphaOptim::NoOp
    }

    /// The image after rewriting the colours of the transparent pixels.
    pub open spec fn alpha_reduced(self, optim: AlphaOptim) -> Image {
        if self.alpha_applies(optim) {
            Image { raw: join(self.alpha_lines(optim)), ..self }
        } else {
            self
        }
    }

    /// Each sample has whole bytes, each line whole pixels, and each line a fill for the samples
    /// that are taken from there.
    pub open spec fn alpha_ready(self, optim: AlphaOptim) -> bool {
        self.alpha_applies(optim) ==> {
            &&& self.whole_lines()
            &&& self.lines().len() > 0 ==> self.ihdr.bit_depth.bits() >= 8
            &&& match optim {
                AlphaOptim::Up => self.lines().len() > 0 && self.pixel_form().upwards_covered(
                    self.lines(),
                    self.first_fill(),
                ),
                AlphaOptim::Down => self.lines().len() > 0 && self.pixel_form().downwards_covered(
                    self.lines(),
                    self.first_fill(),
                    Seq::empty(),
                ),
                _ => true,
            }
        }
    }
}

/// A pixel with an alpha sample has two or four samples of one or two bytes.
pub proof fn lemma_alpha_sizes(ihdr: IhdrData)
    requires
        ihdr.color_type.has_alpha(),
        ihdr.bit_depth.bits() >= 8,
    ensures
        ihdr.bit_depth.bits() == 8 || ihdr.bit_depth.bits() == 16,
        ihdr.bits_per_pixel() == 2 * ihdr.bit_depth.bits() || ihdr.bits_per_pixel() == 4
            * ihdr.bit_depth.bits(),
{
    let (bits, channels) = (ihdr.bit_depth.bits(), ihdr.color_type.channels());
    assert(channels == 2 || channels == 4);
}

/// A line is made of whole pixels.
proof fn lemma_whole_pixels(
    ihdr: IhdrData,
    raw: Seq<u8>,
    pos: int,
    pass: Option<(u8, u32)>,
    size: nat,
)
    requires
        ihdr.bits_per_pixel() == 8 * size,
        size > 0,
    ensures
        forall|i: int|
            0 <= i < lines_from(ihdr, raw, pos, pass).len() ==> (#[trigger] lines_from(
                ihdr,
                raw,
                pos,
                pass,
            )[i]).data.len() % size == 0,
    decreases raw.len() - pos,
{
    let end = pos + 1 + line_bytes(ihdr, pass);
    let lines = lines_from(ihdr, raw, pos, pass);
    lemma_bytes_of_pixels(ihdr, pass, size);
    if line_fits(ihdr, raw.len() as int, pos, pass) {
        let rest = lines_from(ihdr, raw, end, pass_after(ihdr, pass));
        lemma_whole_pixels(ihdr, raw, end, pass_after(ihdr, pass), size);
        assert forall|i: int| 0 <= i < lines.len() implies (#[trigger] lines[i]).data.len() % size
            == 0 by {
            if i > 0 {
                assert(lines[i] == rest[i - 1]);
            } else {
                assert(lines[0].data.len() == line_bytes(ihdr, pass));
            }
        }
    }
}

pub proof fn lemma_pixel_form(image: Image)
    requires
        image.ihdr.color_type.has_alpha(),
        image.ihdr.bit_depth.bits() >= 8,
    ensures
        image.pixel_form().valid(),
        image.ihdr.bits_per_pixel() == 8 * image.pixel_form().size,
        forall|i: int|
            0 <= i < image.lines().len() ==> (#[trigger] image.lines()[i]).data.len()
                % image.pixel_form().size == 0,
{
    lemma_alpha_sizes(image.ihdr);
    let channels = image.ihdr.color_type.channels();
    assert(channels == 2 || channels == 4);
    lemma_whole_pixels(image.ihdr, image.raw, 0, None, image.pixel_form().size);
}

impl PngData {
    /// Rewrite the colours of fully transparent pixels as `optim` says
    /// Returns true if that applies to the image, false otherwise
    pub fn reduce_alpha_channel(&mut self, optim: AlphaOptim) -> (applied: bool)
        requires
            old(self)@.alpha_ready(optim),
        ensures
            applied == old(self)@.alpha_applies(optim),
            final(self)@ == old(self)@.alpha_reduced(optim),
    {
        let (bpc, bpp): (usize, usize) = match self.ihdr_data.color_type {
            ColorType::RGBA | ColorType::GrayscaleAlpha => {
                let cpp: u8 = self.channels_per_pixel();
                let bpc: u8 = self.ihdr_data.bit_depth.as_u8() / 8;
                assert(bpc <= 2);
                assert(bpc * cpp <= 8) by (nonlinear_arith)
                    requires
                        0 <= bpc <= 2,
                        0 <= cpp <= 4,
                ;
                (bpc as usize, (bpc * cpp) as usize)
            },
            _ => {
                return false;
            },
        };
        proof {
            if self@.ihdr.bit_depth.bits() >= 8 {
                lemma_pixel_form(self@);
            }
        }
        let reduced: Vec<u8> = match optim {
            AlphaOptim::NoOp => {
                return false;
            },
            AlphaOptim::Up => self.reduce_alpha_to_up(bpc, bpp),
            AlphaOptim::Down => self.reduce_alpha_to_down(bpc, bpp),
            _ => self.reduce_alpha_within_lines(optim, bpc, bpp),
        };
        self.raw_data = reduced;
        true
    }

    /// Fills each line from itself.
    fn reduce_alpha_within_lines(&self, optim: AlphaOptim, bpc: usize, bpp: usize) -> (reduced: Vec<
        u8,
    >)
        requires
            self@.whole_lines(),
            self@.lines().len() > 0 ==> (PixelForm { alpha: bpc as nat, size: bpp as nat }).valid(),
            forall|i: int|
                0 <= i < self@.lines().len() ==> (#[trigger] self@.lines()[i]).data.len() % (
                bpp as nat) == 0,
        ensures
            reduced@ == join(
                (PixelForm { alpha: bpc as nat, size: bpp as nat }).within_lines(
                    self@.lines(),
                    optim,
                ),
            ),
    {
        let ghost form = PixelForm { alpha: bpc as nat, size: bpp as nat };
        let mut reduced: Vec<u8> = Vec::with_capacity(self.raw_data.len());
        let mut lines = self.scan_lines();
        let ghost all = join(form.within_lines(self@.lines(), optim));
        assert(reduced@ + all =~= all);
        loop
            invariant
                lines.wf(),
                form == (PixelForm { alpha: bpc as nat, size: bpp as nat }),
                lines.remaining().len() > 0 ==> form.valid(),
                forall|i: int|
                    0 <= i < lines.remaining().len() ==> (
                    #[trigger] lines.remaining()[i]).data.len() % (bpp as nat) == 0,
                reduced@ + join(form.within_lines(lines.remaining(), optim)) == all,
            ensures
                reduced@ == all,
            decreases lines.remaining().len(),
        {
            let ghost before = lines.remaining();
            let ghost so_far = reduced@;
            match lines.next() {
                None => {
                    assert(so_far + join(form.within_lines(before, optim)) =~= so_far);
                    break;
                },
                Some(line) => {
                    assert(before[0].data.len() % (bpp as nat) == 0);
                    let fill: Vec<u8> = own_fill(optim, line.data.as_slice(), bpp);
                    assert(fill@ == form.own_fill(optim, line.data@));
                    proof {
                        lemma_pixel(form, 0, 0);
                        lemma_reached(form, line.data@.len(), fill@.len(), 0);
                    }
                    let bytes: Vec<u8> = recolor(line.data.as_slice(), fill.as_slice(), bpc, bpp);
                    reduced.push(line.filter);
                    append_bytes(&mut reduced, bytes.as_slice());
                    proof {
                        let after = form.within_lines(before, optim);
                        let rest = form.within_lines(before.drop_first(), optim);
                        assert(after.drop_first() =~= rest);
                        assert(reduced@ + join(rest) =~= so_far + join(after));
                        assert forall|i: int| 0 <= i < lines.remaining().len() implies (
                        #[trigger] lines.remaining()[i]).data.len() % (bpp as nat) == 0 by {
                            assert(lines.remaining()[i] == before[i + 1]);
                        }
                    }
                },
            }
        }
        reduced
    }

    /// Fills each line from what stands before it.
    fn reduce_alpha_to_down(&self, bpc: usize, bpp: usize) -> (reduced: Vec<u8>)
        requires
            self@.whole_lines(),
            self@.lines().len() > 0,
            (PixelForm { alpha: bpc as nat, size: bpp as nat }).valid(),
            forall|i: int|
                0 <= i < self@.lines().len() ==> (#[trigger] self@.lines()[i]).data.len() % (
                bpp as nat) == 0,
            (PixelForm { alpha: bpc as nat, size: bpp as nat }).downwards_covered(
                self@.lines(),
                self@.first_fill(),
                Seq::empty(),
            ),
        ensures
            reduced@ == join(
                (PixelForm { alpha: bpc as nat, size: bpp as nat }).downwards(
                    self@.lines(),
                    self@.first_fill(),
                    Seq::empty(),
                ),
            ),
    {
        let ghost form = PixelForm { alpha: bpc as nat, size: bpp as nat };
        let mut reduced: Vec<u8> = Vec::with_capacity(self.raw_data.len());
        let first_len: usize = match self.scan_lines().next() {
            Some(line) => line.data.len(),
            None => 0,
        };
        let mut last_line: Vec<u8> = zero_bytes(first_len);
        let mut lines = self.scan_lines();
        let ghost all = join(form.downwards(self@.lines(), self@.first_fill(), Seq::empty()));
        assert(reduced@ + all =~= all);
        assert(reduced@ =~= Seq::<u8>::empty());
        loop
            invariant
                lines.wf(),
                form == (PixelForm { alpha: bpc as nat, size: bpp as nat }),
                form.valid(),
                forall|i: int|
                    0 <= i < lines.remaining().len() ==> (
                    #[trigger] lines.remaining()[i]).data.len() % (bpp as nat) == 0,
                form.downwards_covered(lines.remaining(), last_line@, reduced@),
                reduced@ + join(form.downwards(lines.remaining(), last_line@, reduced@)) == all,
            ensures
                reduced@ == all,
            decreases lines.remaining().len(),
        {
            let ghost before = lines.remaining();
            let ghost so_far = reduced@;
            match lines.next() {
                None => {
                    assert(so_far + join(form.downwards(before, last_line@, so_far)) =~= so_far);
                    break;
                },
                Some(line) => {
                    assert(before[0].data.len() % (bpp as nat) == 0);
                    let bytes: Vec<u8> = recolor(
                        line.data.as_slice(),
                        last_line.as_slice(),
                        bpc,
                        bpp,
                    );
                    reduced.push(line.filter);
                    append_bytes(&mut reduced, bytes.as_slice());
                    proof {
                        let after = form.downwards(before, last_line@, so_far);
                        assert(reduced@ =~= so_far + line_bytes_of(after[0]));
                        let rest = form.downwards(before.drop_first(), reduced@, reduced@);
                        assert(after.drop_first() =~= rest);
                        assert(reduced@ + join(rest) =~= so_far + join(after));
                        assert forall|i: int| 0 <= i < lines.remaining().len() implies (
                        #[trigger] lines.remaining()[i]).data.len() % (bpp as nat) == 0 by {
                            assert(lines.remaining()[i] == before[i + 1]);
                        }
                    }
                    last_line = copy_bytes(reduced.as_slice());
                },
            }
        }
        reduced
    }

    /// The scan lines of the image, as many as there are.
    fn all_lines(&self) -> (list: Vec<ScanLine>)
        requires
            self@.whole_lines(),
        ensures
            list@.len() == self@.lines().len(),
            forall|i: int| 0 <= i < list@.len() ==> (#[trigger] list@[i])@ == self@.lines()[i],
    {
        let mut list: Vec<ScanLine> = Vec::new();
        let mut lines = self.scan_lines();
        let ghost all = self@.lines();
        assert(all.skip(0) =~= all);
        loop
            invariant
                lines.wf(),
                list@.len() <= all.len(),
                lines.remaining() == all.skip(list@.len() as int),
                forall|i: int| 0 <= i < list@.len() ==> (#[trigger] list@[i])@ == all[i],
            ensures
                list@.len() == all.len(),
                forall|i: int| 0 <= i < list@.len() ==> (#[trigger] list@[i])@ == all[i],
            decreases lines.remaining().len(),
        {
            match lines.next() {
                None => {
                    break;
                },
                Some(line) => {
                    assert(all.skip(list@.len() as int + 1) =~= all.skip(
                        list@.len() as int,
                    ).drop_first());
                    list.push(line);
                },
            }
        }
        list
    }

    /// Fills each line from the one below it.
    fn reduce_alpha_to_up(&self, bpc: usize, bpp: usize) -> (reduced: Vec<u8>)
        requires
            self@.whole_lines(),
            self@.lines().len() > 0,
            (PixelForm { alpha: bpc as nat, size: bpp as nat }).valid(),
            forall|i: int|
                0 <= i < self@.lines().len() ==> (#[trigger] self@.lines()[i]).data.len() % (
                bpp as nat) == 0,
            (PixelForm { alpha: bpc as nat, size: bpp as nat }).upwards_covered(
                self@.lines(),
                self@.first_fill(),
            ),
        ensures
            reduced@ == join(
                (PixelForm { alpha: bpc as nat, size: bpp as nat }).upwards(
                    self@.lines(),
                    self@.first_fill(),
                ),
            ),
    {
        let ghost form = PixelForm { alpha: bpc as nat, size: bpp as nat };
        let ghost start = self@.first_fill();
        let ghost all = self@.lines();
        let scan_lines: Vec<ScanLine> = self.all_lines();
        let mut last_line: Vec<u8> = zero_bytes(scan_lines[0].data.len());
        let mut done: Vec<Vec<u8>> = Vec::new();
        let mut left: usize = scan_lines.len();
        proof {
            assert(all.skip(left as int) =~= Seq::<Line>::empty());
            lemma_upwards_covered_skip(form, all, start, left as int);
        }
        while left > 0
            invariant
                form == (PixelForm { alpha: bpc as nat, size: bpp as nat }),
                form.valid(),
                left <= all.len(),
                scan_lines@.len() == all.len(),
                forall|i: int|
                    0 <= i < scan_lines@.len() ==> (#[trigger] scan_lines@[i])@ == all[i],
                forall|i: int|
                    0 <= i < all.len() ==> (#[trigger] all[i]).data.len() % (bpp as nat) == 0,
                form.upwards_covered(all, start),
                last_line@ == form.fill_below(form.upwards(all.skip(left as int), start), start),
                done@.len() == all.len() - left,
                form.upwards(all.skip(left as int), start).len() == done@.len(),
                forall|k: int|
                    0 <= k < done@.len() ==> (#[trigger] done@[k])@ == line_bytes_of(
                        form.upwards(all.skip(left as int), start)[done@.len() - 1 - k],
                    ),
            decreases left,
        {
            let ghost below = form.upwards(all.skip(left as int), start);
            let ghost before = done@;
            left = left - 1;
            let line: &ScanLine = &scan_lines[left];
            proof {
                lemma_upwards_covered_skip(form, all, start, left as int);
                assert(all.skip(left as int).drop_first() =~= all.skip(left + 1));
                assert(all[left as int] == line@);
            }
            let mut current_line: Vec<u8> = vec![line.filter];
            let bytes: Vec<u8> = recolor(line.data.as_slice(), last_line.as_slice(), bpc, bpp);
            append_bytes(&mut current_line, bytes.as_slice());
            last_line = copy_bytes(current_line.as_slice());
            done.push(current_line);
            proof {
                let now = form.upwards(all.skip(left as int), start);
                assert(now =~= seq![now[0]] + below);
                assert(current_line@ =~= line_bytes_of(now[0]));
                assert forall|k: int| 0 <= k < done@.len() implies (#[trigger] done@[k])@
                    == line_bytes_of(now[done@.len() - 1 - k]) by {
                    if k < before.len() {
                        assert(done@[k] == before[k]);
                        assert(now[done@.len() - 1 - k] == below[before.len() - 1 - k]);
                    }
                }
            }
        }
        let ghost lines = form.upwards(all, start);
        let mut reduced: Vec<u8> = Vec::with_capacity(self.raw_data.len());
        let mut rest: usize = done.len();
        proof {
            assert(all.skip(0) =~= all);
            assert(lines.skip(0) =~= lines);
            assert(reduced@ + join(lines) =~= join(lines));
        }
        while rest > 0
            invariant
                rest <= done@.len(),
                done@.len() == lines.len(),
                forall|k: int|
                    0 <= k < done@.len() ==> (#[trigger] done@[k])@ == line_bytes_of(
                        lines[done@.len() - 1 - k],
                    ),
                reduced@ + join(lines.skip(done@.len() - rest)) == join(lines),
            decreases rest,
        {
            let ghost tail = lines.skip(done@.len() - rest);
            let ghost so_far = reduced@;
            rest = rest - 1;
            append_bytes(&mut reduced, done[rest].as_slice());
            proof {
                assert(tail.drop_first() =~= lines.skip(done@.len() - rest));
                assert(reduced@ + join(tail.drop_first()) =~= so_far + join(tail));
            }
        }
        assert(lines.skip(done@.len() as int) =~= Seq::<Line>::empty());
        assert(reduced@ + Seq::<u8>::empty() =~= reduced@);
        reduced
    }
}

/// Fills that cover all lines cover those from one of them on.
proof fn lemma_upwards_covered_skip(form: PixelForm, lines: Seq<Line>, start: Seq<u8>, from: int)
    requires
        form.upwards_covered(lines, start),
        0 <= from <= lines.len(),
    ensures
        form.upwards_covered(lines.skip(from), start),
    decreases from,
{
    if from == 0 {
        assert(lines.skip(0) =~= lines);
    } else {
        lemma_upwards_covered_skip(form, lines.drop_first(), start, from - 1);
        assert(lines.drop_first().skip(from - 1) =~= lines.skip(from));
    }
}

} // verus!
