//! What the filters of an image mean, byte by byte.

use vstd::prelude::*;
use crate::decode::{image_in, parts_in, raw_in_is_readable};
use crate::filtering::{
    filter_lines, line_filter, magnitude, roughness, smoothest_filter_is_least, unfilter_lines,
};
use crate::filters::{
    byte_or_zero, filtered, lemma_unfiltered_len, paeth, predicted, unfilter_inverts_filter,
    unfiltered,
};
use crate::headers::IhdrData;
use crate::outside::zlib_inflate;
use crate::png::Image;
use crate::scan::{join, lemma_relayout, same_shape, Line};
use crate::scan_laws::lemma_progressive_lines;

verus! {

/// The byte at `i`, as a number, or 0 where the line has none.
pub open spec fn neighbour(line: Seq<u8>, i: int) -> int {
    if 0 <= i < line.len() {
        line[i] as int
    } else {
        0
    }
}

/// How far two numbers are apart.
pub open spec fn apart(a: int, b: int) -> int {
    if a <= b {
        b - a
    } else {
        a - b
    }
}

/// A number is what Paeth's rule picks: of the three neighbours the nearest to `left + above -
/// corner`, the left one before the upper one, and that before the one in the corner.
pub open spec fn paeth_pick(left: int, above: int, corner: int, pick: int) -> bool {
    let target = left + above - corner;
    &&& pick == left || pick == above || pick == corner
    &&& apart(target, pick) <= apart(target, left)
    &&& apart(target, pick) <= apart(target, above)
    &&& apart(target, pick) <= apart(target, corner)
    &&& apart(target, pick) == apart(target, left) ==> pick == left
    &&& apart(target, pick) == apart(target, above) && pick != left ==> pick == above
}

/// A byte is the filtered byte plus what its filter expects of the neighbours, modulo 256: nothing
/// for filter 0, the byte to the left for 1, the byte above for 2, the mean of both, rounded down,
/// for 3, and what Paeth's rule picks for 4.
pub open spec fn byte_restored(
    filter: u8,
    byte: u8,
    coded: u8,
    left: int,
    above: int,
    corner: int,
) -> bool {
    &&& filter == 0 ==> byte == coded
    &&& filter == 1 ==> byte == (coded + left) % 256
    &&& filter == 2 ==> byte == (coded + above) % 256
    &&& filter == 3 ==> byte == (coded + (left + above) / 2) % 256
    &&& filter == 4 ==> exists|pick: int| #[trigger]
        paeth_pick(left, above, corner, pick) && byte == (coded + pick) % 256
}

/// A line is the filtered line with its filter undone, below the line `above`, where a pixel has
/// `size` bytes.
pub open spec fn line_restored(
    filter: u8,
    size: int,
    line: Seq<u8>,
    coded: Seq<u8>,
    above: Seq<u8>,
) -> bool {
    &&& line.len() == coded.len()
    &&& forall|i: int|
        0 <= i < line.len() ==> byte_restored(
            filter,
            #[trigger] line[i],
            coded[i],
            neighbour(line, i - size),
            neighbour(above, i),
            neighbour(above, i - size),
        )
}

/// The data of the line before line `k`, or nothing before the first one.
pub open spec fn line_before(lines: Seq<Line>, k: int) -> Seq<u8> {
    if k > 0 {
        lines[k - 1].data
    } else {
        Seq::empty()
    }
}

/// So many bytes does the least whole number of bytes that holds a pixel have.
pub open spec fn whole_bytes(ihdr: IhdrData, size: int) -> bool {
    let bits = ihdr.bit_depth.bits() * ihdr.color_type.channels();
    8 * size >= bits && 8 * (size - 1) < bits
}

/// The filter distance is the size of a pixel in bytes, rounded up.
pub proof fn filter_distance_is_the_pixel_size(ihdr: IhdrData)
    ensures
        whole_bytes(ihdr, ihdr.filter_distance() as int),
        forall|size: int| #[trigger] whole_bytes(ihdr, size) ==> size == ihdr.filter_distance(),
{
    ihdr.lemma_pixel_size();
    let bits = (ihdr.bit_depth.bits() * ihdr.color_type.channels()) as nat;
    assert(ihdr.bits_per_pixel() == bits);
    assert forall|size: int| #[trigger] whole_bytes(ihdr, size) implies size
        == ihdr.filter_distance() by {
        assert(8 * size >= bits && 8 * (size - 1) < bits);
    }
}

proof fn lemma_paeth(left: u8, above: u8, corner: u8)
    ensures
        paeth_pick(
            left as int,
            above as int,
            corner as int,
            paeth(left, above, corner) as int,
        ),
{
}

/// What a filter adds to a coded byte restores it.
proof fn lemma_byte_restored(
    filter: u8,
    bpp: nat,
    coded: u8,
    line: Seq<u8>,
    last: Seq<u8>,
    i: int,
    byte: u8,
)
    requires
        filter <= 4,
        byte == (coded + predicted(filter, bpp, line, last, i)) % 256,
    ensures
        byte_restored(
            filter,
            byte,
            coded,
            neighbour(line, i - bpp),
            neighbour(last, i),
            neighbour(last, i - bpp),
        ),
{
    let (left, above, corner) = (
        byte_or_zero(line, i - bpp),
        byte_or_zero(last, i),
        byte_or_zero(last, i - bpp),
    );
    assert(left == neighbour(line, i - bpp));
    assert(above == neighbour(last, i));
    assert(corner == neighbour(last, i - bpp));
    if filter == 4 {
        lemma_paeth(left, above, corner);
        let pick = paeth(left, above, corner) as int;
        assert(paeth_pick(left as int, above as int, corner as int, pick));
    }
}

/// Undoing the filter of a line restores it.
pub proof fn unfiltered_line_is_restored(filter: u8, size: nat, coded: Seq<u8>, above: Seq<u8>)
    requires
        filter <= 4,
        size >= 1,
    ensures
        line_restored(
            filter,
            size as int,
            unfiltered(filter, size, coded, above),
            coded,
            above,
        ),
    decreases coded.len(),
{
    let line = unfiltered(filter, size, coded, above);
    lemma_unfiltered_len(filter, size, coded, above);
    if coded.len() > 0 {
        let n = coded.len() - 1;
        let head = unfiltered(filter, size, coded.drop_last(), above);
        lemma_unfiltered_len(filter, size, coded.drop_last(), above);
        unfiltered_line_is_restored(filter, size, coded.drop_last(), above);
        assert forall|i: int| 0 <= i < line.len() implies byte_restored(
            filter,
            #[trigger] line[i],
            coded[i],
            neighbour(line, i - size),
            neighbour(above, i),
            neighbour(above, i - size),
        ) by {
            assert(neighbour(line, i - size) == neighbour(head, i - size));
            if i < n {
                assert(line[i] == head[i]);
                assert(coded.drop_last()[i] == coded[i]);
            } else {
                lemma_byte_restored(filter, size, coded[n], head, above, n, line[n]);
            }
        }
    }
}

/// Each line of an image is the line of the filtered image with its filter undone, below the line
/// before it.
pub open spec fn lines_restored(ihdr: IhdrData, plain: Seq<Line>, coded: Seq<Line>) -> bool {
    &&& plain.len() == coded.len()
    &&& forall|k: int, size: int|
        0 <= k < plain.len() && whole_bytes(ihdr, size) ==> #[trigger] line_restored(
            coded[k].filter,
            size,
            plain[k].data,
            coded[k].data,
            line_before(plain, k),
        )
}

proof fn lemma_unfiltered_lines(lines: Seq<Line>, size: nat, last: Seq<u8>, k: int)
    requires
        size >= 1,
        0 <= k < lines.len(),
        lines[k].filter <= 4,
    ensures
        unfilter_lines(lines, size, last).len() == lines.len(),
        ({
            let plain = unfilter_lines(lines, size, last);
            &&& plain[k].filter == 0
            &&& plain[k].pass == lines[k].pass
            &&& line_restored(
                lines[k].filter,
                size as int,
                plain[k].data,
                lines[k].data,
                if k > 0 {
                    plain[k - 1].data
                } else {
                    last
                },
            )
        }),
    decreases lines.len(),
{
    let plain = unfilter_lines(lines, size, last);
    let data = unfiltered(lines[0].filter, size, lines[0].data, last);
    let rest = unfilter_lines(lines.drop_first(), size, data);
    lemma_unfilter_len(lines, size, last);
    if k > 0 {
        lemma_unfiltered_lines(lines.drop_first(), size, data, k - 1);
        assert(plain[k] == rest[k - 1]);
        assert(lines.drop_first()[k - 1] == lines[k]);
        if k > 1 {
            assert(plain[k - 1] == rest[k - 2]);
        }
    } else {
        unfiltered_line_is_restored(lines[0].filter, size, lines[0].data, last);
    }
}

proof fn lemma_unfilter_len(lines: Seq<Line>, size: nat, last: Seq<u8>)
    ensures
        unfilter_lines(lines, size, last).len() == lines.len(),
        same_shape(lines, unfilter_lines(lines, size, last)),
    decreases lines.len(),
{
    if lines.len() > 0 {
        let data = unfiltered(lines[0].filter, size, lines[0].data, last);
        lemma_unfilter_len(lines.drop_first(), size, data);
        lemma_unfiltered_len(lines[0].filter, size, lines[0].data, last);
        let plain = unfilter_lines(lines, size, last);
        let rest = unfilter_lines(lines.drop_first(), size, data);
        assert forall|i: int|
            #![trigger lines[i]]
            #![trigger plain[i]]
            0 <= i < lines.len() implies lines[i].data.len() == plain[i].data.len()
            && lines[i].pass == plain[i].pass by {
            if i > 0 {
                assert(plain[i] == rest[i - 1]);
                assert(lines[i] == lines.drop_first()[i - 1]);
            }
        }
    }
}

/// Undoing the filters of an image restores each of its lines from the line above and the bytes one
/// whole pixel back, and leaves filter byte 0.
pub proof fn unfiltered_image_is_restored(image: Image)
    requires
        image.whole_lines(),
        image.known_filters(),
    ensures
        ({
            let plain = Image { raw: image.unfiltered_raw(), ..image };
            &&& lines_restored(image.ihdr, plain.lines(), image.lines())
            &&& forall|k: int|
                0 <= k < plain.lines().len() ==> (#[trigger] plain.lines()[k]).filter == 0
                    && plain.lines()[k].pass == image.lines()[k].pass
        }),
{
    let size = image.ihdr.filter_distance();
    image.ihdr.lemma_pixel_size();
    filter_distance_is_the_pixel_size(image.ihdr);
    let lines = image.lines();
    let after = unfilter_lines(lines, size, Seq::empty());
    let raw = join(after);
    let plain = Image { raw: image.unfiltered_raw(), ..image };
    lemma_unfilter_len(lines, size, Seq::empty());
    assert(raw.skip(0) =~= raw);
    lemma_relayout(image.ihdr, image.raw, 0, None, raw, after);
    assert forall|k: int, s: int| 0 <= k < after.len() && whole_bytes(image.ihdr, s) implies
        #[trigger] line_restored(
        lines[k].filter,
        s,
        after[k].data,
        lines[k].data,
        line_before(after, k),
    ) by {
        assert(lines[k].filter <= 4);
        lemma_unfiltered_lines(lines, size, Seq::empty(), k);
    }
    assert forall|k: int| 0 <= k < after.len() implies (#[trigger] after[k]).filter == 0
        && after[k].pass == lines[k].pass by {
        assert(lines[k].filter <= 4);
        lemma_unfiltered_lines(lines, size, Seq::empty(), k);
    }
}

/// The image that is read from a file is what its image data decompresses to, each line restored
/// from the line above and the bytes one whole pixel back.
pub proof fn read_images_are_restored(data: Seq<u8>, fix_errors: bool)
    requires
        raw_in_is_readable(data, fix_errors),
        image_in(data, fix_errors) is Ok,
    ensures
        ({
            let image = image_in(data, fix_errors)->Ok_0;
            &&& zlib_inflate(image.idat) is Some
            &&& lines_restored(
                image.ihdr,
                image.lines(),
                (Image { raw: zlib_inflate(image.idat)->0, ..image }).lines(),
            )
        }),
{
    let parts = parts_in(data, fix_errors)->Ok_0;
    let raw = zlib_inflate(parts.idat)->0;
    unfiltered_image_is_restored(parts.filtered_image(raw));
}

/// Filtering a line gives a line that its filter restores.
pub proof fn filtered_line_is_restored(filter: u8, size: nat, line: Seq<u8>, above: Seq<u8>)
    requires
        filter <= 4,
        size >= 1,
    ensures
        line_restored(filter, size as int, line, filtered(filter, size, line, above), above),
{
    let coded = filtered(filter, size, line, above);
    unfilter_inverts_filter(filter, size, line, above);
    unfiltered_line_is_restored(filter, size, coded, above);
}

/// A line belongs to the same pass as the line before it. The first line of a progressive image has
/// nothing above it that belongs elsewhere.
pub open spec fn continues_pass(lines: Seq<Line>, k: int) -> bool {
    if k > 0 {
        lines[k].pass == lines[k - 1].pass
    } else {
        lines[k].pass is None
    }
}

/// The sum of the distances of bytes from zero, around the circle of 256.
pub open spec fn distance_sum(bytes: Seq<u8>) -> int
    decreases bytes.len(),
{
    if bytes.len() == 0 {
        0
    } else {
        distance_sum(bytes.drop_last()) + if bytes.last() <= 128 {
            bytes.last() as int
        } else {
            256 - bytes.last()
        }
    }
}

proof fn lemma_distance_sum(bytes: Seq<u8>)
    ensures
        roughness(bytes) == distance_sum(bytes),
    decreases bytes.len(),
{
    if bytes.len() > 0 {
        lemma_distance_sum(bytes.drop_last());
        assert(magnitude(bytes.last()) == if bytes.last() <= 128 {
            bytes.last() as int
        } else {
            256 - bytes.last()
        });
    }
}

/// Paeth's rule picks one number.
proof fn lemma_one_pick(left: int, above: int, corner: int, p: int, q: int)
    requires
        paeth_pick(left, above, corner, p),
        paeth_pick(left, above, corner, q),
    ensures
        p == q,
{
    let target = left + above - corner;
    assert(apart(target, p) <= apart(target, q) && apart(target, q) <= apart(target, p));
}

/// A filter can restore a byte from one byte only.
proof fn lemma_one_code(
    filter: u8,
    byte: u8,
    a: u8,
    b: u8,
    left: int,
    above: int,
    corner: int,
)
    requires
        filter <= 4,
        byte_restored(filter, byte, a, left, above, corner),
        byte_restored(filter, byte, b, left, above, corner),
    ensures
        a == b,
{
    if filter == 4 {
        let p = choose|p: int| #[trigger]
            paeth_pick(left, above, corner, p) && byte == (a + p) % 256;
        let q = choose|q: int| #[trigger]
            paeth_pick(left, above, corner, q) && byte == (b + q) % 256;
        lemma_one_pick(left, above, corner, p, q);
    }
}

/// A filter can restore a line from one line only.
pub proof fn restored_lines_have_one_code(
    filter: u8,
    size: int,
    line: Seq<u8>,
    above: Seq<u8>,
    a: Seq<u8>,
    b: Seq<u8>,
)
    requires
        filter <= 4,
        line_restored(filter, size, line, a, above),
        line_restored(filter, size, line, b, above),
    ensures
        a == b,
{
    assert forall|i: int| 0 <= i < a.len() implies a[i] == b[i] by {
        let (left, up, corner) = (
            neighbour(line, i - size),
            neighbour(above, i),
            neighbour(above, i - size),
        );
        lemma_one_code(filter, line[i], a[i], b[i], left, up, corner);
    }
    assert(a =~= b);
}

/// The filter of each line, where filter 5 was asked for: no other of the five filters, or of the
/// first two where the line begins a pass, codes the line with a smaller distance sum, and none
/// before it with the same.
pub open spec fn best_filter(
    filter: u8,
    count: u8,
    size: int,
    line: Seq<u8>,
    coded: Seq<u8>,
    above: Seq<u8>,
) -> bool {
    &&& filter < count
    &&& forall|other: u8, code: Seq<u8>|
        other < count && #[trigger] line_restored(other, size, line, code, above) ==> distance_sum(
            coded,
        ) <= distance_sum(code) && (other < filter ==> distance_sum(coded) < distance_sum(code))
}

proof fn lemma_filtered_lines(
    lines: Seq<Line>,
    filter: u8,
    size: nat,
    last: Seq<u8>,
    last_pass: Option<u8>,
    k: int,
)
    requires
        filter <= 5,
        size >= 1,
        0 <= k < lines.len(),
    ensures
        ({
            let after = filter_lines(lines, filter, size, last, last_pass);
            let above = if k > 0 {
                lines[k - 1].data
            } else {
                last
            };
            let same = if k > 0 {
                lines[k].pass == lines[k - 1].pass
            } else {
                lines[k].pass == last_pass
            };
            &&& after.len() == lines.len()
            &&& after[k].pass == lines[k].pass
            &&& after[k].filter <= 4
            &&& line_restored(
                after[k].filter,
                size as int,
                lines[k].data,
                after[k].data,
                above,
            )
            &&& filter <= 4 && (same || filter <= 1) ==> after[k].filter == filter
            &&& filter <= 4 && !same && filter > 1 ==> after[k].filter == 0
            &&& filter == 5 ==> best_filter(
                after[k].filter,
                if same {
                    5
                } else {
                    2
                },
                size as int,
                lines[k].data,
                after[k].data,
                above,
            )
        }),
    decreases lines.len(),
{
    let after = filter_lines(lines, filter, size, last, last_pass);
    let rest = filter_lines(lines.drop_first(), filter, size, lines[0].data, lines[0].pass);
    lemma_filter_len(lines, filter, size, last, last_pass);
    if k > 0 {
        lemma_filtered_lines(
            lines.drop_first(),
            filter,
            size,
            lines[0].data,
            lines[0].pass,
            k - 1,
        );
        assert(after[k] == rest[k - 1]);
        assert(lines.drop_first()[k - 1] == lines[k]);
        if k > 1 {
            assert(lines.drop_first()[k - 2] == lines[k - 1]);
        }
    } else {
        let line = lines[0].data;
        let used = line_filter(filter, size, lines[0], last, last_pass);
        let same = lines[0].pass == last_pass;
        let count: u8 = if same {
            5
        } else {
            2
        };
        smoothest_filter_is_least(size, line, last, count, 0);
        filtered_line_is_restored(used, size, line, last);
        if filter == 5 {
            lemma_distance_sum(filtered(used, size, line, last));
            assert forall|other: u8, code: Seq<u8>|
                other < count && #[trigger] line_restored(
                    other,
                    size as int,
                    line,
                    code,
                    last,
                ) implies distance_sum(after[0].data) <= distance_sum(code) && (other < used
                ==> distance_sum(after[0].data) < distance_sum(code)) by {
                filtered_line_is_restored(other, size, line, last);
                restored_lines_have_one_code(
                    other,
                    size as int,
                    line,
                    last,
                    code,
                    filtered(other, size, line, last),
                );
                smoothest_filter_is_least(size, line, last, count, other);
                lemma_distance_sum(code);
            }
        }
    }
}

proof fn lemma_filter_len(
    lines: Seq<Line>,
    filter: u8,
    size: nat,
    last: Seq<u8>,
    last_pass: Option<u8>,
)
    ensures
        same_shape(lines, filter_lines(lines, filter, size, last, last_pass)),
    decreases lines.len(),
{
    if lines.len() > 0 {
        let rest = filter_lines(lines.drop_first(), filter, size, lines[0].data, lines[0].pass);
        lemma_filter_len(lines.drop_first(), filter, size, lines[0].data, lines[0].pass);
        let after = filter_lines(lines, filter, size, last, last_pass);
        assert forall|i: int|
            #![trigger lines[i]]
            #![trigger after[i]]
            0 <= i < lines.len() implies lines[i].data.len() == after[i].data.len()
            && lines[i].pass == after[i].pass by {
            if i > 0 {
                assert(after[i] == rest[i - 1]);
                assert(lines[i] == lines.drop_first()[i - 1]);
            }
        }
    }
}

/// The filtered image, line by line.
proof fn lemma_filtered_image(image: Image, filter: u8)
    requires
        image.whole_lines(),
        filter <= 5,
    ensures
        ({
            let coded = Image { raw: image.filtered_raw(filter), ..image };
            coded.lines() == filter_lines(
                image.lines(),
                filter,
                image.ihdr.filter_distance(),
                Seq::empty(),
                None,
            ) && coded.lines().len() == image.lines().len() && coded.whole_lines()
        }),
{
    let size = image.ihdr.filter_distance();
    let after = filter_lines(image.lines(), filter, size, Seq::empty(), None);
    let raw = join(after);
    lemma_filter_len(image.lines(), filter, size, Seq::empty(), None);
    assert(raw.skip(0) =~= raw);
    lemma_relayout(image.ihdr, image.raw, 0, None, raw, after);
}

/// The lines of a filtered image are restored to the lines of the image, by the filters that they
/// name, and have their passes.
pub proof fn filtered_image_is_restored(image: Image, filter: u8)
    requires
        image.whole_lines(),
        filter <= 5,
    ensures
        ({
            let coded = Image { raw: image.filtered_raw(filter), ..image };
            &&& coded.whole_lines()
            &&& lines_restored(image.ihdr, image.lines(), coded.lines())
            &&& forall|k: int|
                0 <= k < coded.lines().len() ==> (#[trigger] coded.lines()[k]).filter <= 4
                    && coded.lines()[k].pass == image.lines()[k].pass
        }),
{
    let coded = Image { raw: image.filtered_raw(filter), ..image };
    let size = image.ihdr.filter_distance();
    let lines = image.lines();
    image.ihdr.lemma_pixel_size();
    filter_distance_is_the_pixel_size(image.ihdr);
    lemma_filtered_image(image, filter);
    assert forall|k: int, s: int| 0 <= k < lines.len() && whole_bytes(image.ihdr, s) implies
        #[trigger] line_restored(
        coded.lines()[k].filter,
        s,
        lines[k].data,
        coded.lines()[k].data,
        line_before(lines, k),
    ) by {
        lemma_filtered_lines(lines, filter, size, Seq::empty(), None, k);
    }
    assert forall|k: int| 0 <= k < lines.len() implies (#[trigger] coded.lines()[k]).filter <= 4
        && coded.lines()[k].pass == lines[k].pass by {
        lemma_filtered_lines(lines, filter, size, Seq::empty(), None, k);
    }
}

/// Each line of a filtered image names the filter that was asked for, if that is one of the five.
/// Only a line that begins a pass of an interlaced image gets no filter in place of one that looks
/// at the line above.
pub proof fn lines_name_the_filter_that_was_asked_for(image: Image, filter: u8, k: int)
    requires
        image.whole_lines(),
        filter <= 4,
        0 <= k < image.lines().len(),
    ensures
        ({
            let coded = (Image { raw: image.filtered_raw(filter), ..image }).lines();
            coded[k].filter == if filter <= 1 || continues_pass(image.lines(), k) {
                filter
            } else {
                0
            }
        }),
{
    let size = image.ihdr.filter_distance();
    image.ihdr.lemma_pixel_size();
    lemma_filtered_image(image, filter);
    lemma_filtered_lines(image.lines(), filter, size, Seq::empty(), None, k);
}

/// Each line of a progressive image names the filter that was asked for, if that is one of the
/// five.
pub proof fn progressive_lines_name_the_filter_that_was_asked_for(image: Image, filter: u8, k: int)
    requires
        image.whole_lines(),
        image.ihdr.interlaced != 1,
        filter <= 4,
        0 <= k < image.lines().len(),
    ensures
        (Image { raw: image.filtered_raw(filter), ..image }).lines()[k].filter == filter,
{
    lemma_progressive_lines(image.ihdr, image.raw, 0);
    assert(image.lines()[k].pass is None);
    if k > 0 {
        assert(image.lines()[k - 1].pass is None);
    }
    lines_name_the_filter_that_was_asked_for(image, filter, k);
}

/// Where filter 5 is asked for, each line gets the filter that codes it with the least distance
/// sum: of all five, or of the first two where it begins a pass.
pub proof fn lines_get_their_best_filter(image: Image, k: int, size: int)
    requires
        image.whole_lines(),
        0 <= k < image.lines().len(),
        whole_bytes(image.ihdr, size),
    ensures
        ({
            let coded = (Image { raw: image.filtered_raw(5), ..image }).lines();
            best_filter(
                coded[k].filter,
                if continues_pass(image.lines(), k) {
                    5
                } else {
                    2
                },
                size,
                image.lines()[k].data,
                coded[k].data,
                line_before(image.lines(), k),
            )
        }),
{
    let distance = image.ihdr.filter_distance();
    image.ihdr.lemma_pixel_size();
    filter_distance_is_the_pixel_size(image.ihdr);
    lemma_filtered_image(image, 5);
    lemma_filtered_lines(image.lines(), 5, distance, Seq::empty(), None, k);
}

} // verus!
