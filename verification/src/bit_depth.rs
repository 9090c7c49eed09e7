//! Reducing the number of bits in a sample.

use vstd::prelude::*;
use crate::colors::{BitDepth, ColorType};
use crate::headers::IhdrData;
use crate::png::{Image, PngData};
use crate::scan::{
    effective_pass, fits, join, lemma_bytes_of_pixels, lemma_drawn_from_size, line_bytes, line_pass,
    line_pixels, lines_from, pass_after, Line,
};

verus! {

/// What came of an attempt to reduce the bit depth of an image.
#[derive(Clone, Copy, Debug, PartialEq, Eq, Structural)]
pub enum DepthReduction {
    /// The samples had 16 bits and now have 8
    Reduced,
    /// The samples need the bits that they have
    Kept,
    /// The samples have 8 bits or less, and a reduction to less than 8 bits is to be tried
    EightOrLess,
}

/// The two bytes of each sample are the same.
pub open spec fn samples_repeat(data: Seq<u8>) -> bool {
    forall|k: int| 0 <= k < data.len() / 2 ==> data[2 * k] == #[trigger] data[2 * k + 1]
}

/// The low byte of each sample.
pub open spec fn low_bytes(data: Seq<u8>) -> Seq<u8> {
    Seq::new(data.len() / 2, |k: int| data[2 * k + 1])
}

/// Each byte twice.
pub open spec fn doubled(data: Seq<u8>) -> Seq<u8> {
    Seq::new(2 * data.len(), |k: int| data[k / 2])
}

/// The lines with the low byte of each sample.
pub open spec fn low_lines(lines: Seq<Line>) -> Seq<Line> {
    Seq::new(
        lines.len(),
        |i: int| Line { filter: lines[i].filter, data: low_bytes(lines[i].data), pass: lines[i].pass },
    )
}

/// The two bytes of each sample of all lines are the same.
pub open spec fn all_samples_repeat(lines: Seq<Line>) -> bool {
    forall|i: int| 0 <= i < lines.len() ==> samples_repeat((#[trigger] lines[i]).data)
}

impl Image {
    /// The image and the outcome after an attempt to reduce the bit depth.
    pub open spec fn depth_reduced(self) -> (Image, DepthReduction) {
        if self.ihdr.bit_depth != BitDepth::Sixteen {
            if self.ihdr.color_type == ColorType::Indexed || self.ihdr.color_type
                == ColorType::Grayscale {
                (self, DepthReduction::EightOrLess)
            } else {
                (self, DepthReduction::Kept)
            }
        } else if all_samples_repeat(self.lines()) {
            (
                Image {
                    ihdr: IhdrData { bit_depth: BitDepth::Eight, ..self.ihdr },
                    raw: join(low_lines(self.lines())),
                    ..self
                },
                DepthReduction::Reduced,
            )
        } else {
            (self, DepthReduction::Kept)
        }
    }
}

/// The low bytes of the samples of a line, unless the two bytes of a sample differ.
fn halve_line(data: &[u8]) -> (halved: Option<Vec<u8>>)
    ensures
        halved is Some == samples_repeat(data@),
        halved matches Some(h) ==> h@ == low_bytes(data@),
{
    let mut halved: Vec<u8> = Vec::with_capacity(data.len() / 2);
    let mut k: usize = 0;
    while k < data.len() / 2
        invariant
            k <= data.len() / 2,
            halved@ =~= low_bytes(data@).take(k as int),
            forall|j: int| 0 <= j < k ==> data@[2 * j] == #[trigger] data@[2 * j + 1],
        decreases data.len() / 2 - k,
    {
        let high_byte: u8 = data[2 * k];
        let low_byte: u8 = data[2 * k + 1];
        if high_byte != low_byte {
            assert(data@[2 * k as int] != data@[2 * k as int + 1]);
            // Can't reduce, exit early
            return None;
        }
        halved.push(low_byte);
        k = k + 1;
    }
    Some(halved)
}

impl PngData {
    /// Attempt to reduce the bit depth of the image from 16 to 8 bits
    /// Where the samples have 8 bits or less already, say whether less is to be tried
    pub fn reduce_bit_depth(&mut self) -> (outcome: DepthReduction)
        requires
            old(self)@.ihdr.bit_depth == BitDepth::Sixteen ==> old(self)@.whole_lines(),
        ensures
            (final(self)@, outcome) == old(self)@.depth_reduced(),
    {
        if self.ihdr_data.bit_depth != BitDepth::Sixteen {
            if self.ihdr_data.color_type == ColorType::Indexed || self.ihdr_data.color_type
                == ColorType::Grayscale {
                return DepthReduction::EightOrLess;
            }
            return DepthReduction::Kept;
        }
        // Reduce from 16 to 8 bits per channel per pixel

        let mut reduced: Vec<u8> = Vec::with_capacity(self.raw_data.len() / 2);
        let mut lines = self.scan_lines();
        let ghost all = self@.lines();
        let ghost mut done: int = 0;
        proof {
            assert(all.skip(0) =~= all);
            assert(reduced@ + join(low_lines(all)) =~= join(low_lines(all)));
        }
        loop
            invariant
                lines.wf(),
                lines.source() == *self,
                self@ == old(self)@,
                self@.ihdr.bit_depth == BitDepth::Sixteen,
                all == self@.lines(),
                0 <= done <= all.len(),
                lines.remaining() == all.skip(done),
                forall|i: int| 0 <= i < done ==> samples_repeat((#[trigger] all[i]).data),
                reduced@ + join(low_lines(lines.remaining())) == join(low_lines(all)),
            ensures
                self@ == old(self)@,
                all == self@.lines(),
                all_samples_repeat(all),
                reduced@ == join(low_lines(all)),
            decreases lines.remaining().len(),
        {
            let ghost before = lines.remaining();
            let ghost so_far = reduced@;
            match lines.next() {
                None => {
                    assert(so_far + join(low_lines(before)) =~= so_far);
                    break;
                },
                Some(line) => {
                    assert(before[0] == all[done]);
                    match halve_line(line.data.as_slice()) {
                        None => {
                            return DepthReduction::Kept;
                        },
                        Some(mut halved) => {
                            reduced.push(line.filter);
                            let ghost low = halved@;
                            reduced.append(&mut halved);
                            proof {
                                assert(low_lines(before).drop_first() =~= low_lines(
                                    before.drop_first(),
                                ));
                                assert(reduced@ + join(low_lines(before.drop_first())) =~= so_far
                                    + join(low_lines(before)));
                                assert(all.skip(done + 1) =~= before.drop_first());
                                done = done + 1;
                            }
                        },
                    }
                },
            }
        }
        self.ihdr_data.bit_depth = BitDepth::Eight;
        self.raw_data = reduced;
        DepthReduction::Reduced
    }
}

/// The passes do not depend on the bit depth.
proof fn lemma_same_passes(ihdr: IhdrData, pass: Option<(u8, u32)>)
    ensures
        effective_pass(IhdrData { bit_depth: BitDepth::Eight, ..ihdr }, pass) == effective_pass(
            ihdr,
            pass,
        ),
{
    let low = IhdrData { bit_depth: BitDepth::Eight, ..ihdr };
    lemma_drawn_from_size(
        low,
        ihdr,
        match pass {
            None => (1u8, 0u32),
            Some(p) => p,
        },
    );
}

/// A line of 16-bit samples has twice as many bytes as one of 8-bit samples.
proof fn lemma_half_line(ihdr: IhdrData, pass: Option<(u8, u32)>)
    requires
        ihdr.bit_depth == BitDepth::Sixteen,
    ensures
        line_bytes(ihdr, pass) == 2 * line_bytes(
            IhdrData { bit_depth: BitDepth::Eight, ..ihdr },
            pass,
        ),
{
    let low = IhdrData { bit_depth: BitDepth::Eight, ..ihdr };
    let pixels = line_pixels(ihdr, pass);
    let channels = ihdr.color_type.channels() as nat;
    lemma_same_passes(ihdr, pass);
    assert(line_pixels(low, pass) == pixels);
    lemma_bytes_of_pixels(ihdr, pass, 2 * channels);
    lemma_bytes_of_pixels(low, pass, channels);
    assert((2 * channels) * pixels == 2 * (channels * pixels)) by (nonlinear_arith);
}

/// Lines of half the length are found where they were put.
proof fn lemma_half_layout(
    ihdr: IhdrData,
    raw: Seq<u8>,
    pos: int,
    pass: Option<(u8, u32)>,
    new_raw: Seq<u8>,
    new_pos: int,
)
    requires
        ihdr.bit_depth == BitDepth::Sixteen,
        0 <= pos <= raw.len(),
        fits(ihdr, raw.len() as int, pos, pass),
        0 <= new_pos <= new_raw.len(),
        new_raw.skip(new_pos) == join(low_lines(lines_from(ihdr, raw, pos, pass))),
    ensures
        ({
            let low = IhdrData { bit_depth: BitDepth::Eight, ..ihdr };
            &&& fits(low, new_raw.len() as int, new_pos, pass)
            &&& lines_from(low, new_raw, new_pos, pass) == low_lines(
                lines_from(ihdr, raw, pos, pass),
            )
        }),
        forall|i: int|
            0 <= i < lines_from(ihdr, raw, pos, pass).len() ==> (#[trigger] lines_from(
                ihdr,
                raw,
                pos,
                pass,
            )[i]).data.len() % 2 == 0,
    decreases raw.len() - pos,
{
    let low = IhdrData { bit_depth: BitDepth::Eight, ..ihdr };
    let own = lines_from(ihdr, raw, pos, pass);
    let lines = low_lines(own);
    let tail = new_raw.skip(new_pos);
    if pos == raw.len() {
        assert(tail.len() == 0);
        assert(lines_from(low, new_raw, new_pos, pass) =~= lines);
    } else {
        lemma_half_line(ihdr, pass);
        let end = pos + 1 + line_bytes(ihdr, pass);
        let new_end = new_pos + 1 + line_bytes(low, pass);
        let next = pass_after(ihdr, pass);
        lemma_same_passes(ihdr, pass);
        assert(pass_after(low, pass) == next);
        assert(line_pass(low, pass) == line_pass(ihdr, pass));
        let own_rest = lines_from(ihdr, raw, end, next);
        let rest = low_lines(own_rest);
        assert(own.drop_first() =~= own_rest);
        assert(lines.drop_first() =~= rest);
        assert(own[0].data.len() == line_bytes(ihdr, pass));
        assert(lines[0].data.len() == line_bytes(low, pass));
        assert(tail.len() == 1 + lines[0].data.len() + join(rest).len());
        assert(new_raw.skip(new_end) =~= tail.skip(new_end - new_pos));
        assert(tail.skip(new_end - new_pos) =~= join(rest));
        lemma_half_layout(ihdr, raw, end, next, new_raw, new_end);
        assert(new_raw[new_pos] == tail[0]);
        assert(new_raw.subrange(new_pos + 1, new_end) =~= tail.subrange(1, new_end - new_pos));
        assert(tail.subrange(1, new_end - new_pos) =~= lines[0].data);
        assert(lines_from(low, new_raw, new_pos, pass) =~= lines);
        assert forall|i: int| 0 <= i < own.len() implies (#[trigger] own[i]).data.len() % 2
            == 0 by {
            if i > 0 {
                assert(own[i] == own_rest[i - 1]);
            }
        }
    }
}

/// Reducing the bit depth loses nothing: an image that was reduced has whole lines, as many as
/// before, with the same filter bytes and passes, and writing each of their bytes twice gives
/// back the lines before.
pub proof fn depth_reduction_is_lossless(image: Image)
    requires
        image.whole_lines(),
        image.depth_reduced().1 == DepthReduction::Reduced,
    ensures
        ({
            let reduced = image.depth_reduced().0;
            &&& reduced.ihdr == IhdrData { bit_depth: BitDepth::Eight, ..image.ihdr }
            &&& reduced.whole_lines()
            &&& reduced.lines().len() == image.lines().len()
            &&& forall|i: int|
                0 <= i < image.lines().len() ==> {
                    let line = #[trigger] image.lines()[i];
                    let low = reduced.lines()[i];
                    low.filter == line.filter && low.pass == line.pass && doubled(low.data)
                        == line.data
                }
        }),
{
    let reduced = image.depth_reduced().0;
    assert(reduced.raw.skip(0) =~= reduced.raw);
    lemma_half_layout(image.ihdr, image.raw, 0, None, reduced.raw, 0);
    assert forall|i: int| 0 <= i < image.lines().len() implies {
        let line = #[trigger] image.lines()[i];
        let low = reduced.lines()[i];
        low.filter == line.filter && low.pass == line.pass && doubled(low.data) == line.data
    } by {
        let line = image.lines()[i];
        let low = reduced.lines()[i];
        assert(samples_repeat(line.data));
        assert forall|k: int| 0 <= k < line.data.len() implies #[trigger] doubled(low.data)[k]
            == line.data[k] by {
            let h = k / 2;
            assert(line.data[2 * h] == line.data[2 * h + 1]);
        }
        assert(doubled(low.data) =~= line.data);
    }
}

/// In each line, each byte at an odd place is the same as the one before it.
pub open spec fn byte_pairs_agree(image: Image) -> bool {
    forall|k: int, j: int|
        0 <= k < image.lines().len() && 0 <= j < image.lines()[k].data.len() && j % 2 == 1
            ==> #[trigger] image.lines()[k].data[j] == image.lines()[k].data[j - 1]
}

proof fn lemma_byte_pairs(image: Image)
    ensures
        byte_pairs_agree(image) <==> all_samples_repeat(image.lines()),
{
    let lines = image.lines();
    if byte_pairs_agree(image) {
        assert forall|i: int| 0 <= i < lines.len() implies samples_repeat(
            (#[trigger] lines[i]).data,
        ) by {
            assert forall|k: int| 0 <= k < lines[i].data.len() / 2 implies lines[i].data[2 * k]
                == #[trigger] lines[i].data[2 * k + 1] by {
                let j = 2 * k + 1;
                assert(image.lines()[i].data[j] == image.lines()[i].data[j - 1]);
            }
        }
    }
    if all_samples_repeat(lines) {
        assert forall|k: int, j: int|
            0 <= k < lines.len() && 0 <= j < lines[k].data.len() && j % 2
                == 1 implies #[trigger] lines[k].data[j] == lines[k].data[j - 1] by {
            let h = j / 2;
            assert(samples_repeat(lines[k].data));
            assert(j == 2 * h + 1);
            assert(lines[k].data[2 * h] == lines[k].data[2 * h + 1]);
        }
    }
}

/// Whatever its colour type, an image of 16-bit samples is reduced exactly if the two bytes of each
/// sample are the same. An image of fewer bits is left as it is, and a lower depth is to be tried
/// exactly if it has one sample per pixel and that is a grey value or an index.
pub proof fn depth_reduction_is_decided_by_the_samples(image: Image)
    ensures
        image.ihdr.bit_depth == BitDepth::Sixteen ==> image.depth_reduced().1 == (
        if byte_pairs_agree(image) {
            DepthReduction::Reduced
        } else {
            DepthReduction::Kept
        }),
        image.ihdr.bit_depth != BitDepth::Sixteen ==> image.depth_reduced().1 == (
        match image.ihdr.color_type {
            ColorType::Grayscale | ColorType::Indexed => DepthReduction::EightOrLess,
            ColorType::GrayscaleAlpha | ColorType::RGB | ColorType::RGBA => DepthReduction::Kept,
        }),
        image.depth_reduced().1 != DepthReduction::Reduced ==> image.depth_reduced().0 == image,
{
    lemma_byte_pairs(image);
}

/// An image that was reduced has 8-bit samples, each the one byte of which the sample before had two,
/// and keeps everything else.
pub proof fn reduced_samples_are_the_repeated_bytes(image: Image, k: int, j: int)
    requires
        image.whole_lines(),
        image.depth_reduced().1 == DepthReduction::Reduced,
        0 <= k < image.lines().len(),
        0 <= j < image.lines()[k].data.len(),
    ensures
        ({
            let reduced = image.depth_reduced().0;
            &&& reduced == Image {
                raw: reduced.raw,
                ihdr: IhdrData { bit_depth: BitDepth::Eight, ..image.ihdr },
                ..image
            }
            &&& reduced.whole_lines()
            &&& reduced.lines().len() == image.lines().len()
            &&& reduced.lines()[k].filter == image.lines()[k].filter
            &&& reduced.lines()[k].pass == image.lines()[k].pass
            &&& 2 * reduced.lines()[k].data.len() == image.lines()[k].data.len()
            &&& reduced.lines()[k].data[j / 2] == image.lines()[k].data[j]
        }),
{
    depth_reduction_is_lossless(image);
    let reduced = image.depth_reduced().0;
    let line = image.lines()[k];
    let low = reduced.lines()[k];
    assert(doubled(low.data) == line.data);
    assert(doubled(low.data)[j] == low.data[j / 2]);
    assert(reduced =~= Image {
        raw: reduced.raw,
        ihdr: IhdrData { bit_depth: BitDepth::Eight, ..image.ihdr },
        ..image
    });
}

} // verus!
