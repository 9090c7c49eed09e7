//! What rewriting the colours of transparent pixels leaves alone.

use vstd::prelude::*;
use crate::alpha::{lemma_pixel, lemma_pixel_form, lemma_reached, line_bytes_of, PixelForm};
use crate::colors::AlphaOptim;
use crate::headers::IhdrData;
use crate::png::Image;
use crate::scan::{
    drawn_from, effective_pass, first_row, fits, join, lemma_bytes_of_pixels, lemma_drawn_columns,
    lemma_first_pass, lemma_relayout, line_bytes, line_pixels, lines_from, pass_after,
    pass_columns, same_shape, Line,
};
use crate::scan_laws::lemma_progressive_lines;

verus! {

/// Two lines of pixels of the same form show the same: they have the same filter byte, pass and
/// length, and differ at most in colour samples of transparent pixels.
pub open spec fn looks_the_same(form: PixelForm, a: Line, b: Line) -> bool {
    &&& a.filter == b.filter
    &&& a.pass == b.pass
    &&& a.data.len() == b.data.len()
    &&& forall|i: int|
        0 <= i < a.data.len() && !(form.transparent(a.data, i) && form.in_color(i))
            ==> #[trigger] b.data[i] == a.data[i]
}

/// The lines of two images show the same, one by one.
pub open spec fn all_look_the_same(form: PixelForm, a: Seq<Line>, b: Seq<Line>) -> bool {
    &&& a.len() == b.len()
    &&& forall|i: int| 0 <= i < a.len() ==> looks_the_same(form, #[trigger] a[i], b[i])
}

/// A fill that is long enough covers a line and leaves what shows alone.
proof fn lemma_long_fill(form: PixelForm, line: Line, fill: Seq<u8>)
    requires
        form.valid(),
        line.data.len() % form.size == 0,
        line.data.len() <= fill.len(),
    ensures
        form.covered(line.data, fill),
        looks_the_same(form, line, form.recolored_line(line, fill)),
{
    assert(0nat % form.size == 0) by {
        lemma_pixel(form, 0, 0);
    }
    lemma_reached(form, line.data.len(), fill.len(), 0);
}

proof fn lemma_front(form: PixelForm, a: Seq<Line>, b: Seq<Line>)
    requires
        a.len() > 0,
        b.len() > 0,
        looks_the_same(form, a[0], b[0]),
        all_look_the_same(form, a.drop_first(), b.drop_first()),
    ensures
        all_look_the_same(form, a, b),
{
    assert forall|i: int| 0 <= i < a.len() implies looks_the_same(form, #[trigger] a[i], b[i]) by {
        if i > 0 {
            assert(a.drop_first()[i - 1] == a[i]);
            assert(b.drop_first()[i - 1] == b[i]);
        }
    }
}

proof fn lemma_upwards(form: PixelForm, lines: Seq<Line>, start: Seq<u8>, len: nat)
    requires
        form.valid(),
        len % form.size == 0,
        start.len() == len,
        forall|i: int| 0 <= i < lines.len() ==> (#[trigger] lines[i]).data.len() == len,
    ensures
        form.upwards_covered(lines, start),
        all_look_the_same(form, lines, form.upwards(lines, start)),
    decreases lines.len(),
{
    if lines.len() > 0 {
        let rest = lines.drop_first();
        assert forall|i: int| 0 <= i < rest.len() implies (#[trigger] rest[i]).data.len()
            == len by {
            assert(rest[i] == lines[i + 1]);
        }
        lemma_upwards(form, rest, start, len);
        let below = form.upwards(rest, start);
        if below.len() > 0 {
            assert(looks_the_same(form, rest[0], below[0]));
        }
        assert(lines[0].data.len() == len);
        lemma_long_fill(form, lines[0], form.fill_below(below, start));
        let after = form.upwards(lines, start);
        assert(after.drop_first() =~= below);
        lemma_front(form, lines, after);
    }
}

/// So many pixels of the passes before a pass are to be had when one of its lines is filled.
spec fn pixels_before_pass(width: nat, number: u8) -> nat {
    match number {
        1 | 2 => (width + 7) / 8,
        3 | 4 => (width + 3) / 4,
        5 | 6 => (width + 1) / 2,
        _ => width,
    }
}

/// So many pixels of the lines before are to be had when the next line is filled.
spec fn pixels_before(ihdr: IhdrData, pass: Option<(u8, u32)>) -> nat {
    if ihdr.interlaced == 1 {
        pixels_before_pass(ihdr.width as nat, effective_pass(ihdr, pass).0)
    } else {
        ihdr.width as nat
    }
}

/// Stepping over passes asks for no more pixels.
proof fn lemma_stepped_over(ihdr: IhdrData, current: (u8, u32))
    requires
        ihdr.height > 0,
        current.0 >= 1,
        current.1 < ihdr.height || current.1 == first_row(current.0),
    ensures
        pixels_before_pass(ihdr.width as nat, drawn_from(ihdr, current).0) <= pixels_before_pass(
            ihdr.width as nat,
            current.0,
        ),
    decreases 8 - current.0,
{
    let (number, row) = current;
    let width = ihdr.width as nat;
    if number <= 7 && (pass_columns(width, number) == 0 || row >= ihdr.height) {
        let next = (number + 1) as u8;
        lemma_stepped_over(ihdr, (next, first_row(next) as u32));
        lemma_pass_columns(width, number);
        assert(row >= ihdr.height ==> number == 3 || number == 5 || number == 7);
    }
}

/// The passes before a pass have at least as many pixels in a line as it has, and with it as the
/// passes before the next one.
proof fn lemma_pass_columns(width: nat, number: u8)
    requires
        1 <= number <= 7,
    ensures
        pass_columns(width, number) <= pixels_before_pass(width, number),
        pixels_before_pass(width, (number + 1) as u8) <= pixels_before_pass(width, number)
            + pass_columns(width, number),
        number == 1 ==> pixels_before_pass(width, 2) <= pass_columns(width, 1),
        number == 3 || number == 5 || number == 7 ==> pixels_before_pass(width, (number + 1) as u8)
            == pixels_before_pass(width, number),
{
}

/// The lines so far have at least as many pixels as the next line.
proof fn lemma_pixels_before(ihdr: IhdrData, pass: Option<(u8, u32)>)
    requires
        ihdr.interlaced == 1 ==> 1 <= effective_pass(ihdr, pass).0 <= 7,
    ensures
        line_pixels(ihdr, pass) <= pixels_before(ihdr, pass),
        pixels_before(ihdr, pass_after(ihdr, pass)) <= pixels_before(ihdr, pass) + line_pixels(
            ihdr,
            pass,
        ),
        ihdr.interlaced != 1 || effective_pass(ihdr, pass).0 == 1 ==> pixels_before(
            ihdr,
            pass_after(ihdr, pass),
        ) <= line_pixels(ihdr, pass),
{
    if ihdr.interlaced == 1 {
        let (number, row) = effective_pass(ihdr, pass);
        lemma_drawn_columns(
            ihdr,
            match pass {
                None => (1u8, 0u32),
                Some(p) => p,
            },
        );
        lemma_pass_columns(ihdr.width as nat, number);
        lemma_stepped_over(ihdr, pass_after(ihdr, pass)->0);
    }
}

proof fn lemma_downwards(
    form: PixelForm,
    ihdr: IhdrData,
    raw: Seq<u8>,
    pos: int,
    pass: Option<(u8, u32)>,
    fill: Seq<u8>,
    before: Seq<u8>,
)
    requires
        form.valid(),
        ihdr.bits_per_pixel() == 8 * form.size,
        0 <= pos <= raw.len(),
        fits(ihdr, raw.len() as int, pos, pass),
        pos < raw.len() ==> fill.len() >= form.size * pixels_before(ihdr, pass),
        pos < raw.len() ==> before.len() >= form.size * pixels_before(ihdr, pass)
            || ihdr.interlaced != 1 || effective_pass(ihdr, pass).0 == 1,
    ensures
        form.downwards_covered(lines_from(ihdr, raw, pos, pass), fill, before),
        all_look_the_same(
            form,
            lines_from(ihdr, raw, pos, pass),
            form.downwards(lines_from(ihdr, raw, pos, pass), fill, before),
        ),
    decreases raw.len() - pos,
{
    let lines = lines_from(ihdr, raw, pos, pass);
    if pos < raw.len() {
        let end = pos + 1 + line_bytes(ihdr, pass);
        let next = pass_after(ihdr, pass);
        let rest = lines_from(ihdr, raw, end, next);
        assert(lines.drop_first() =~= rest);
        assert(form.size == 2 || form.size == 4 || form.size == 8);
        lemma_bytes_of_pixels(ihdr, pass, form.size);
        lemma_pixels_before(ihdr, pass);
        assert(lines[0].data.len() == line_bytes(ihdr, pass));
        let (n, m, k) = (
            pixels_before(ihdr, pass),
            line_pixels(ihdr, pass),
            pixels_before(ihdr, next),
        );
        assert(form.size * m <= form.size * n) by (nonlinear_arith)
            requires
                m <= n,
        ;
        assert(k <= n + m ==> form.size * k <= form.size * n + form.size * m) by (nonlinear_arith);
        assert(k <= m ==> form.size * k <= form.size * m) by (nonlinear_arith);
        lemma_long_fill(form, lines[0], fill);
        let line = form.recolored_line(lines[0], fill);
        let so_far = before + line_bytes_of(line);
        assert(so_far.len() >= form.size * k);
        lemma_downwards(form, ihdr, raw, end, next, so_far, so_far);
        let after = form.downwards(lines, fill, before);
        assert(after.drop_first() =~= form.downwards(rest, so_far, so_far));
        lemma_front(form, lines, after);
    }
}

/// The lines after rewriting show the same as before, and the rewriting can be done.
pub proof fn lemma_alpha_lines(image: Image, optim: AlphaOptim)
    requires
        image.whole_lines(),
        image.lines().len() > 0,
        image.ihdr.color_type.has_alpha(),
        image.ihdr.bit_depth.bits() >= 8,
        optim == AlphaOptim::Up ==> image.ihdr.interlaced != 1,
    ensures
        image.alpha_ready(optim),
        all_look_the_same(image.pixel_form(), image.lines(), image.alpha_lines(optim)),
{
    let form = image.pixel_form();
    let lines = image.lines();
    lemma_pixel_form(image);
    match optim {
        AlphaOptim::NoOp => {},
        AlphaOptim::Up => {
            lemma_progressive_lines(image.ihdr, image.raw, 0);
            lemma_bytes_of_pixels(image.ihdr, None, form.size);
            assert(lines[0].data.len() == line_bytes(image.ihdr, None));
            lemma_upwards(form, lines, image.first_fill(), line_bytes(image.ihdr, None));
        },
        AlphaOptim::Down => {
            lemma_bytes_of_pixels(image.ihdr, None, form.size);
            assert(lines[0].data.len() == line_bytes(image.ihdr, None));
            if image.ihdr.interlaced == 1 {
                lemma_first_pass(image.ihdr);
            }
            assert(line_pixels(image.ihdr, None) == pixels_before(image.ihdr, None));
            lemma_downwards(
                form,
                image.ihdr,
                image.raw,
                0,
                None,
                image.first_fill(),
                Seq::empty(),
            );
        },
        _ => {
            let after = image.alpha_lines(optim);
            assert forall|i: int| 0 <= i < lines.len() implies looks_the_same(
                form,
                #[trigger] lines[i],
                after[i],
            ) by {
                lemma_long_fill(form, lines[i], form.own_fill(optim, lines[i].data));
            }
        },
    }
}

/// Rewriting the colours of transparent pixels can be done, and leaves alone what shows: the
/// image keeps whole lines, with their filter bytes, passes and lengths, their alpha samples, and
/// all samples of the pixels that are not fully transparent. For the colours of the line below
/// this is so unless the image is interlaced.
pub proof fn alpha_reduction_keeps_what_shows(image: Image, optim: AlphaOptim)
    requires
        image.whole_lines(),
        image.lines().len() > 0,
        image.ihdr.color_type.has_alpha(),
        image.ihdr.bit_depth.bits() >= 8,
        optim == AlphaOptim::Up ==> image.ihdr.interlaced != 1,
    ensures
        image.alpha_ready(optim),
        image.alpha_reduced(optim).whole_lines(),
        all_look_the_same(
            image.pixel_form(),
            image.lines(),
            image.alpha_reduced(optim).lines(),
        ),
{
    lemma_alpha_lines(image, optim);
    if optim != AlphaOptim::NoOp {
        let lines = image.lines();
        let after = image.alpha_lines(optim);
        let raw = join(after);
        assert(same_shape(lines, after)) by {
            assert forall|i: int|
                #![trigger lines[i]]
                #![trigger after[i]]
                0 <= i < lines.len() implies lines[i].data.len() == after[i].data.len()
                && lines[i].pass == after[i].pass by {
                assert(looks_the_same(image.pixel_form(), lines[i], after[i]));
            }
        }
        assert(raw.skip(0) =~= raw);
        lemma_relayout(image.ihdr, image.raw, 0, None, raw, after);
    }
}

} // verus!
