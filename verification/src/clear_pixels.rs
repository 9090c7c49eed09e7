//! What becomes of each byte when the colours of transparent pixels are rewritten.

use vstd::prelude::*;
use crate::alpha::{lemma_pixel_form, lemma_reached, line_bytes_of, PixelForm};
use crate::alpha_laws::{all_look_the_same, lemma_alpha_lines, looks_the_same};
use crate::colors::{AlphaOptim, BitDepth, ColorType};
use crate::headers::IhdrData;
use crate::png::Image;
use crate::scan::{join, lemma_relayout, same_shape, Line};
use crate::scan_laws::lemma_progressive_lines;

verus! {

/// The number of bytes in a sample of 8 or 16 bits.
pub open spec fn sample_bytes(ihdr: IhdrData) -> int {
    if ihdr.bit_depth == BitDepth::Sixteen {
        2
    } else {
        1
    }
}

/// The number of bytes in a pixel of a grey or of three colour samples, and an alpha sample.
pub open spec fn alpha_pixel_bytes(ihdr: IhdrData) -> int {
    if ihdr.color_type == ColorType::RGBA {
        4 * sample_bytes(ihdr)
    } else {
        2 * sample_bytes(ihdr)
    }
}

/// The image has pixels with an alpha sample, each of them of whole bytes.
pub open spec fn alpha_bytes(ihdr: IhdrData) -> bool {
    &&& ihdr.color_type == ColorType::RGBA || ihdr.color_type == ColorType::GrayscaleAlpha
    &&& ihdr.bit_depth == BitDepth::Eight || ihdr.bit_depth == BitDepth::Sixteen
}

/// Pixel `q` of a line is fully transparent: all bytes of its alpha sample, which are its last
/// ones, are zero.
pub open spec fn clear(ihdr: IhdrData, data: Seq<u8>, q: int) -> bool {
    let end = (q + 1) * alpha_pixel_bytes(ihdr);
    forall|j: int| end - sample_bytes(ihdr) <= j < end ==> #[trigger] data[j] == 0
}

/// Byte `c` of a pixel is one of a colour sample.
pub open spec fn color_byte(ihdr: IhdrData, c: int) -> bool {
    c < alpha_pixel_bytes(ihdr) - sample_bytes(ihdr)
}

/// The place of byte `c` of pixel `q` in a line.
pub open spec fn byte_place(ihdr: IhdrData, q: int, c: int) -> int {
    q * alpha_pixel_bytes(ihdr) + c
}

proof fn lemma_form(image: Image)
    requires
        alpha_bytes(image.ihdr),
    ensures
        image.pixel_form().valid(),
        image.pixel_form().size == alpha_pixel_bytes(image.ihdr),
        image.pixel_form().alpha == sample_bytes(image.ihdr),
        image.ihdr.color_type.has_alpha(),
        image.ihdr.bit_depth.bits() >= 8,
{
    lemma_pixel_form(image);
}

/// Where a byte stands in its pixel.
proof fn lemma_byte_place(form: PixelForm, q: int, c: int)
    requires
        form.valid(),
        0 <= q,
        0 <= c < form.size,
    ensures
        (q * form.size + c) % (form.size as int) == c,
        q * form.size + c >= 0,
{
    assert(form.size == 2 || form.size == 4 || form.size == 8);
    if form.size == 2 {
        assert((q * 2 + c) % 2 == c);
    } else if form.size == 4 {
        assert((q * 4 + c) % 4 == c);
    } else {
        assert((q * 8 + c) % 8 == c);
    }
}

/// The byte of a line that is recolored, in terms of pixels.
proof fn lemma_recolored_byte(image: Image, data: Seq<u8>, fill: Seq<u8>, q: int, c: int)
    requires
        alpha_bytes(image.ihdr),
        0 <= q,
        0 <= c < alpha_pixel_bytes(image.ihdr),
        byte_place(image.ihdr, q, c) < image.pixel_form().recolored(data, fill).len(),
    ensures
        ({
            let j = byte_place(image.ihdr, q, c);
            image.pixel_form().recolored(data, fill)[j] == if clear(image.ihdr, data, q)
                && color_byte(image.ihdr, c) {
                fill[j]
            } else {
                data[j]
            }
        }),
        ({
            let j = byte_place(image.ihdr, q, c);
            &&& image.pixel_form().transparent(data, j) == clear(image.ihdr, data, q)
            &&& image.pixel_form().in_color(j) == color_byte(image.ihdr, c)
        }),
{
    let form = image.pixel_form();
    let j = byte_place(image.ihdr, q, c);
    lemma_form(image);
    lemma_byte_place(form, q, c);
    let start = j - j % (form.size as int);
    let end = (q + 1) * alpha_pixel_bytes(image.ihdr);
    assert((q + 1) * form.size == q * form.size + form.size) by (nonlinear_arith);
    assert(start + form.size == end);
    assert(form.transparent(data, j) == clear(image.ihdr, data, q));
}

/// The lines after rewriting are found again in the raw data.
proof fn lemma_lines_found(image: Image, optim: AlphaOptim)
    requires
        image.whole_lines(),
        image.lines().len() > 0,
        alpha_bytes(image.ihdr),
        optim != AlphaOptim::NoOp,
        optim == AlphaOptim::Up ==> image.ihdr.interlaced != 1,
    ensures
        image.alpha_reduced(optim).lines() == image.alpha_lines(optim),
        image.alpha_reduced(optim).raw == join(image.alpha_lines(optim)),
        all_look_the_same(image.pixel_form(), image.lines(), image.alpha_lines(optim)),
        image.alpha_ready(optim),
{
    lemma_form(image);
    lemma_alpha_lines(image, optim);
    let lines = image.lines();
    let after = image.alpha_lines(optim);
    let raw = join(after);
    assert(same_shape(lines, after)) by {
        assert forall|i: int|
            #![trigger lines[i]]
            #![trigger after[i]]
            0 <= i < lines.len() implies lines[i].data.len() == after[i].data.len()
            && lines[i].pass == after[i].pass by {
            assert(looks_the_same(image.pixel_form(), lines[i], after[i]));
        }
    }
    assert(raw.skip(0) =~= raw);
    lemma_relayout(image.ihdr, image.raw, 0, None, raw, after);
}

/// What line `k` is filled from when lines are filled from below.
proof fn lemma_upwards_line(form: PixelForm, lines: Seq<Line>, start: Seq<u8>, k: int)
    requires
        0 <= k < lines.len(),
    ensures
        ({
            let after = form.upwards(lines, start);
            &&& after.len() == lines.len()
            &&& after[k] == form.recolored_line(
                lines[k],
                if k + 1 < lines.len() {
                    line_bytes_of(after[k + 1])
                } else {
                    start
                },
            )
        }),
    decreases lines.len(),
{
    let rest = lines.drop_first();
    let below = form.upwards(rest, start);
    let after = form.upwards(lines, start);
    lemma_upwards_len(form, rest, start);
    if k > 0 {
        lemma_upwards_line(form, rest, start, k - 1);
        assert(after[k] == below[k - 1]);
        assert(rest[k - 1] == lines[k]);
        if k + 1 < lines.len() {
            assert(after[k + 1] == below[k]);
        }
    } else if lines.len() > 1 {
        assert(after[1] == below[0]);
    }
}

proof fn lemma_upwards_len(form: PixelForm, lines: Seq<Line>, start: Seq<u8>)
    ensures
        form.upwards(lines, start).len() == lines.len(),
    decreases lines.len(),
{
    if lines.len() > 0 {
        lemma_upwards_len(form, lines.drop_first(), start);
    }
}

/// What line `k` is filled from when lines are filled from above.
proof fn lemma_downwards_line(
    form: PixelForm,
    lines: Seq<Line>,
    fill: Seq<u8>,
    before: Seq<u8>,
    k: int,
)
    requires
        0 <= k < lines.len(),
    ensures
        ({
            let after = form.downwards(lines, fill, before);
            &&& after.len() == lines.len()
            &&& after[k] == form.recolored_line(
                lines[k],
                if k > 0 {
                    before + join(after.take(k))
                } else {
                    fill
                },
            )
            &&& form.downwards_covered(lines, fill, before) ==> form.covered(
                lines[k].data,
                if k > 0 {
                    before + join(after.take(k))
                } else {
                    fill
                },
            )
        }),
    decreases lines.len(),
{
    let after = form.downwards(lines, fill, before);
    let so_far = before + line_bytes_of(after[0]);
    let rest = form.downwards(lines.drop_first(), so_far, so_far);
    lemma_downwards_len(form, lines.drop_first(), so_far, so_far);
    if k > 0 {
        lemma_downwards_line(form, lines.drop_first(), so_far, so_far, k - 1);
        assert(after[k] == rest[k - 1]);
        assert(lines.drop_first()[k - 1] == lines[k]);
        let head = after.take(k);
        assert(head.drop_first() =~= rest.take(k - 1));
        assert(before + join(head) =~= so_far + join(rest.take(k - 1)));
        if k == 1 {
            assert(rest.take(0) =~= Seq::<Line>::empty());
            assert(so_far + join(rest.take(0)) =~= so_far);
        }
    }
}

proof fn lemma_downwards_len(form: PixelForm, lines: Seq<Line>, fill: Seq<u8>, before: Seq<u8>)
    ensures
        form.downwards(lines, fill, before).len() == lines.len(),
    decreases lines.len(),
{
    if lines.len() > 0 {
        let so_far = before + line_bytes_of(form.recolored_line(lines[0], fill));
        lemma_downwards_len(form, lines.drop_first(), so_far, so_far);
    }
}

/// The raw data of the first lines starts the raw data of all.
proof fn lemma_join_prefix(lines: Seq<Line>, k: int)
    requires
        0 <= k <= lines.len(),
    ensures
        join(lines.take(k)).len() <= join(lines).len(),
        forall|j: int|
            0 <= j < join(lines.take(k)).len() ==> #[trigger] join(lines.take(k))[j] == join(
                lines,
            )[j],
    decreases k,
{
    let head = lines.take(k);
    if k > 0 {
        lemma_join_prefix(lines.drop_first(), k - 1);
        assert(head.drop_first() =~= lines.drop_first().take(k - 1));
    } else {
        assert(join(head).len() == 0);
    }
}

/// Byte `c` of pixel `q` of line `k` after the colours of transparent pixels are rewritten. All bytes
/// of pixels that are not fully transparent and all alpha samples stay. The colour samples of the
/// others become 0 or 255, or the samples of the pixel to the right or to the left, 0 where there is
/// none; or the byte as far into the line below, counted from its filter byte, 0 in the last line;
/// or the byte as far into the raw data, 0 in the first line. For the line below this is so unless
/// the image is interlaced.
pub proof fn clear_pixels_are_rewritten(image: Image, optim: AlphaOptim, k: int, q: int, c: int)
    requires
        image.whole_lines(),
        alpha_bytes(image.ihdr),
        optim != AlphaOptim::NoOp,
        optim == AlphaOptim::Up ==> image.ihdr.interlaced != 1,
        0 <= k < image.lines().len(),
        0 <= q,
        0 <= c < alpha_pixel_bytes(image.ihdr),
        byte_place(image.ihdr, q, c) < image.lines()[k].data.len(),
    ensures
        ({
            let before = image.lines()[k].data;
            let reduced = image.alpha_reduced(optim);
            let lines = reduced.lines();
            let size = alpha_pixel_bytes(image.ihdr);
            let j = byte_place(image.ihdr, q, c);
            &&& lines.len() == image.lines().len()
            &&& lines[k].filter == image.lines()[k].filter
            &&& lines[k].data.len() == before.len()
            &&& lines[k].data[j] == if !clear(image.ihdr, before, q) || !color_byte(
                image.ihdr,
                c,
            ) {
                before[j]
            } else {
                match optim {
                    AlphaOptim::White => 255u8,
                    AlphaOptim::Left if j + size < before.len() => before[j + size],
                    AlphaOptim::Right if q > 0 => before[j - size],
                    AlphaOptim::Up if k + 1 < lines.len() => if j == 0 {
                        lines[k + 1].filter
                    } else {
                        lines[k + 1].data[j - 1]
                    },
                    AlphaOptim::Down if k > 0 => reduced.raw[j],
                    _ => 0u8,
                }
            }
        }),
{
    let form = image.pixel_form();
    let own = image.lines();
    let before = own[k].data;
    let after = image.alpha_lines(optim);
    let reduced = image.alpha_reduced(optim);
    let size = alpha_pixel_bytes(image.ihdr);
    let j = byte_place(image.ihdr, q, c);
    lemma_form(image);
    lemma_pixel_form(image);
    lemma_lines_found(image, optim);
    lemma_byte_place(form, q, c);
    assert(looks_the_same(form, own[k], after[k]));
    assert(q > 0 ==> q * size >= size) by (nonlinear_arith)
        requires
            size >= 0,
    ;
    assert(q == 0 ==> q * size == 0) by (nonlinear_arith);
    let start = image.first_fill();
    match optim {
        AlphaOptim::Up => {
            lemma_upwards_line(form, own, start, k);
            let fill = if k + 1 < own.len() {
                line_bytes_of(after[k + 1])
            } else {
                start
            };
            lemma_progressive_lines(image.ihdr, image.raw, 0);
            assert(own[0].data.len() == own[k].data.len());
            if k + 1 < own.len() {
                assert(own[k + 1].data.len() == own[k].data.len());
                assert(looks_the_same(form, own[k + 1], after[k + 1]));
            }
            lemma_recolored_byte(image, before, fill, q, c);
        },
        AlphaOptim::Down => {
            lemma_downwards_line(form, own, start, Seq::empty(), k);
            let fill = if k > 0 {
                Seq::<u8>::empty() + join(after.take(k))
            } else {
                start
            };
            lemma_recolored_byte(image, before, fill, q, c);
            if k > 0 {
                assert(fill =~= join(after.take(k)));
                lemma_join_prefix(after, k);
                let taken = fill[j];
            }
        },
        _ => {
            let fill = form.own_fill(optim, before);
            lemma_recolored_byte(image, before, fill, q, c);
        },
    }
}

/// Rewriting applies to images with alpha samples, whenever there is something to write, and leaves
/// all others as they are. Where it applies, only the raw data changes.
pub proof fn rewriting_applies_to_alpha_samples(image: Image, optim: AlphaOptim)
    ensures
        image.alpha_applies(optim) <==> {
            &&& image.ihdr.color_type == ColorType::RGBA || image.ihdr.color_type
                == ColorType::GrayscaleAlpha
            &&& optim != AlphaOptim::NoOp
        },
        !image.alpha_applies(optim) ==> image.alpha_reduced(optim) == image,
        image.alpha_reduced(optim) == (Image { raw: image.alpha_reduced(optim).raw, ..image }),
{
}

/// The raw data of some lines, one behind the other, each with its filter byte first.
pub open spec fn raw_of(lines: Seq<Line>) -> Seq<u8>
    decreases lines.len(),
{
    if lines.len() == 0 {
        Seq::empty()
    } else {
        raw_of(lines.drop_last()).push(lines.last().filter) + lines.last().data
    }
}

proof fn lemma_raw_of(lines: Seq<Line>)
    ensures
        raw_of(lines) == join(lines),
    decreases lines.len(),
{
    if lines.len() > 0 {
        let last = lines.last();
        lemma_raw_of(lines.drop_last());
        lemma_join_push(lines.drop_last(), last);
        assert(lines.drop_last().push(last) =~= lines);
        assert(raw_of(lines) =~= join(lines));
    }
}

proof fn lemma_join_push(lines: Seq<Line>, line: Line)
    ensures
        join(lines.push(line)) == join(lines) + line_bytes_of(line),
    decreases lines.len(),
{
    let longer = lines.push(line);
    if lines.len() > 0 {
        lemma_join_push(lines.drop_first(), line);
        assert(longer.drop_first() =~= lines.drop_first().push(line));
        assert(longer[0] == lines[0]);
    } else {
        assert(longer.drop_first() =~= Seq::<Line>::empty());
        assert(join(longer.drop_first()) =~= Seq::<u8>::empty());
        assert(join(lines) =~= Seq::<u8>::empty());
        assert(longer[0] == line);
    }
    assert(join(longer) =~= join(lines) + line_bytes_of(line));
}

/// However the image is laid out, filling from below makes a line of each line, from the last to the
/// first. Each keeps its filter byte. Its pixels are paired with those of the line below, taken with
/// its filter byte, or of as many zeros as the first line has bytes; so far as that reaches, clear
/// pixels take their colours from there, and all else stays.
pub proof fn lines_are_filled_from_below(image: Image) -> (after: Seq<Line>)
    requires
        alpha_bytes(image.ihdr),
        image.alpha_ready(AlphaOptim::Up),
    ensures
        image.alpha_reduced(AlphaOptim::Up).raw == raw_of(after),
        after.len() == image.lines().len(),
        forall|k: int|
            0 <= k < after.len() ==> {
                let line = #[trigger] after[k];
                let below = if k + 1 < after.len() {
                    after[k + 1].data.len() + 1
                } else {
                    image.lines()[0].data.len()
                };
                let size = alpha_pixel_bytes(image.ihdr);
                &&& line.filter == image.lines()[k].filter
                &&& line.data.len() <= image.lines()[k].data.len()
                &&& line.data.len() % (size as nat) == 0
                &&& line.data.len() < below + size
                &&& line.data.len() == image.lines()[k].data.len() || line.data.len() >= below
            },
        forall|k: int, q: int, c: int|
            #![trigger after[k].data[byte_place(image.ihdr, q, c)]]
            0 <= k < after.len() && 0 <= q && 0 <= c < alpha_pixel_bytes(image.ihdr)
                && byte_place(image.ihdr, q, c) < after[k].data.len() ==> {
                let j = byte_place(image.ihdr, q, c);
                let before = image.lines()[k].data;
                after[k].data[j] == if !clear(image.ihdr, before, q) || !color_byte(
                    image.ihdr,
                    c,
                ) {
                    before[j]
                } else if k + 1 == after.len() {
                    0
                } else if j == 0 {
                    after[k + 1].filter
                } else {
                    after[k + 1].data[j - 1]
                }
            },
{
    let form = image.pixel_form();
    let own = image.lines();
    let start = image.first_fill();
    let after = form.upwards(own, start);
    let size = alpha_pixel_bytes(image.ihdr);
    lemma_form(image);
    lemma_pixel_form(image);
    lemma_raw_of(after);
    lemma_upwards_len(form, own, start);
    assert forall|k: int| 0 <= k < after.len() implies {
        let line = #[trigger] after[k];
        let below = if k + 1 < after.len() {
            after[k + 1].data.len() + 1
        } else {
            image.lines()[0].data.len()
        };
        &&& line.filter == own[k].filter
        &&& line.data.len() <= own[k].data.len()
        &&& line.data.len() % (size as nat) == 0
        &&& line.data.len() < below + size
        &&& line.data.len() == own[k].data.len() || line.data.len() >= below
    } by {
        lemma_upwards_line(form, own, start, k);
        let fill = if k + 1 < own.len() {
            line_bytes_of(after[k + 1])
        } else {
            start
        };
        assert(own[k].data.len() % form.size == 0);
        lemma_reached_bounds(form, own[k].data.len(), fill.len());
    }
    assert forall|k: int, q: int, c: int|
        #![trigger after[k].data[byte_place(image.ihdr, q, c)]]
        0 <= k < after.len() && 0 <= q && 0 <= c < alpha_pixel_bytes(image.ihdr) && byte_place(
            image.ihdr,
            q,
            c,
        ) < after[k].data.len() implies {
        let j = byte_place(image.ihdr, q, c);
        let before = own[k].data;
        after[k].data[j] == if !clear(image.ihdr, before, q) || !color_byte(image.ihdr, c) {
            before[j]
        } else if k + 1 == after.len() {
            0
        } else if j == 0 {
            after[k + 1].filter
        } else {
            after[k + 1].data[j - 1]
        }
    } by {
        let j = byte_place(image.ihdr, q, c);
        lemma_upwards_line(form, own, start, k);
        lemma_upwards_covered(form, own, start, k);
        let fill = if k + 1 < own.len() {
            line_bytes_of(after[k + 1])
        } else {
            start
        };
        lemma_byte_place(form, q, c);
        lemma_recolored_byte(image, own[k].data, fill, q, c);
        let taken = fill[j];
    }
    after
}

/// How far pairing pixels with those of another line reaches.
proof fn lemma_reached_bounds(form: PixelForm, len: nat, other: nat)
    requires
        form.valid(),
        len % form.size == 0,
    ensures
        form.reached(len, other) <= len,
        form.reached(len, other) % form.size == 0,
        form.reached(len, other) < other + form.size,
        form.reached(len, other) == len || form.reached(len, other) >= other,
{
    let size = form.size;
    assert(size == 2 || size == 4 || size == 8);
    assert(0nat % size == 0);
    lemma_reached(form, len, other, 0);
    if size == 2 {
        assert(other % 2 != 0 ==> (other - other % 2 + 2) % 2 == 0 && other - other % 2 + 2 >= other
            && 0 < other % 2 < 2);
    } else if size == 4 {
        assert(other % 4 != 0 ==> (other - other % 4 + 4) % 4 == 0 && other - other % 4 + 4 >= other
            && 0 < other % 4 < 4);
    } else {
        assert(other % 8 != 0 ==> (other - other % 8 + 8) % 8 == 0 && other - other % 8 + 8 >= other
            && 0 < other % 8 < 8);
    }
}

/// Each line that is filled from below is covered.
proof fn lemma_upwards_covered(form: PixelForm, lines: Seq<Line>, start: Seq<u8>, k: int)
    requires
        form.upwards_covered(lines, start),
        0 <= k < lines.len(),
    ensures
        ({
            let after = form.upwards(lines, start);
            form.covered(
                lines[k].data,
                if k + 1 < lines.len() {
                    line_bytes_of(after[k + 1])
                } else {
                    start
                },
            )
        }),
    decreases lines.len(),
{
    let rest = lines.drop_first();
    let below = form.upwards(rest, start);
    let after = form.upwards(lines, start);
    lemma_upwards_len(form, rest, start);
    if k > 0 {
        lemma_upwards_covered(form, rest, start, k - 1);
        assert(rest[k - 1] == lines[k]);
        if k + 1 < lines.len() {
            assert(after[k + 1] == below[k]);
        }
    } else if lines.len() > 1 {
        assert(after[1] == below[0]);
    }
}

} // verus!
