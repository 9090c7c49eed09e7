//! Filtering all lines of an image, and undoing it.

use vstd::prelude::*;
use crate::bytes::append_bytes;
use crate::filters::{
    filter_line, filtered, lemma_unfiltered_len, unfilter_inverts_filter, unfilter_line, unfiltered,
};
use crate::png::{Image, PngData};
use crate::scan::{join, lemma_line_sizes, lemma_relayout, same_shape, Line};

verus! {

/// The distance of a byte, read as a signed number, from zero.
pub open spec fn magnitude(byte: u8) -> nat {
    if byte < 128 {
        byte as nat
    } else {
        (256 - byte) as nat
    }
}

/// The sum of the magnitudes of the bytes of a filtered line: the heuristic by which one filter is
/// preferred to another.
pub open spec fn roughness(line: Seq<u8>) -> nat
    decreases line.len(),
{
    if line.len() == 0 {
        0
    } else {
        roughness(line.drop_last()) + magnitude(line.last())
    }
}

/// Of the filters below `count`, the first that leaves the line least rough.
pub open spec fn smoothest_filter(bpp: nat, line: Seq<u8>, last: Seq<u8>, count: u8) -> u8
    decreases count,
{
    if count <= 1 {
        0
    } else {
        let best = smoothest_filter(bpp, line, last, (count - 1) as u8);
        let other = (count - 1) as u8;
        if roughness(filtered(other, bpp, line, last)) < roughness(
            filtered(best, bpp, line, last),
        ) {
            other
        } else {
            best
        }
    }
}

/// No filter below `count` leaves the line less rough than the smoothest one, and no filter before
/// it leaves the line as smooth.
pub proof fn smoothest_filter_is_least(bpp: nat, line: Seq<u8>, last: Seq<u8>, count: u8, filter: u8)
    requires
        filter < count,
    ensures
        smoothest_filter(bpp, line, last, count) < count,
        roughness(filtered(smoothest_filter(bpp, line, last, count), bpp, line, last))
            <= roughness(filtered(filter, bpp, line, last)),
        filter < smoothest_filter(bpp, line, last, count) ==> roughness(
            filtered(smoothest_filter(bpp, line, last, count), bpp, line, last),
        ) < roughness(filtered(filter, bpp, line, last)),
    decreases count,
{
    if count > 1 {
        if filter < count - 1 {
            smoothest_filter_is_least(bpp, line, last, (count - 1) as u8, filter);
        } else {
            smoothest_filter_is_least(bpp, line, last, (count - 1) as u8, 0);
        }
    }
}

/// The filter that a line gets when `filter` is asked for: 0 to 4 ask for that filter, 5 for the
/// smoothest one. The filters that look at the line above are not used where that line belongs to
/// another interlacing pass.
pub open spec fn line_filter(
    filter: u8,
    bpp: nat,
    line: Line,
    last: Seq<u8>,
    last_pass: Option<u8>,
) -> u8 {
    if filter == 5 {
        smoothest_filter(
            bpp,
            line.data,
            last,
            if last_pass == line.pass {
                5
            } else {
                2
            },
        )
    } else if last_pass == line.pass || filter <= 1 {
        filter
    } else {
        0
    }
}

/// The lines after filtering, below a line with the data `last` in the pass `last_pass`.
pub open spec fn filter_lines(
    lines: Seq<Line>,
    filter: u8,
    bpp: nat,
    last: Seq<u8>,
    last_pass: Option<u8>,
) -> Seq<Line>
    decreases lines.len(),
{
    if lines.len() == 0 {
        Seq::empty()
    } else {
        let line = lines[0];
        let used = line_filter(filter, bpp, line, last, last_pass);
        seq![
            Line {
                filter: used,
                data: filtered(used, bpp, line.data, last),
                pass: line.pass,
            },
        ] + filter_lines(lines.drop_first(), filter, bpp, line.data, line.pass)
    }
}

/// The lines after undoing their filters, below a line with the unfiltered data `last`.
pub open spec fn unfilter_lines(lines: Seq<Line>, bpp: nat, last: Seq<u8>) -> Seq<Line>
    decreases lines.len(),
{
    if lines.len() == 0 {
        Seq::empty()
    } else {
        let line = lines[0];
        let data = unfiltered(line.filter, bpp, line.data, last);
        seq![Line { filter: 0, data, pass: line.pass }] + unfilter_lines(
            lines.drop_first(),
            bpp,
            data,
        )
    }
}

/// The same lines with filter byte 0.
pub open spec fn plain_lines(lines: Seq<Line>) -> Seq<Line> {
    Seq::new(
        lines.len(),
        |i: int| Line { filter: 0, data: lines[i].data, pass: lines[i].pass },
    )
}

impl Image {
    /// The raw data with `filter` applied to all lines.
    pub open spec fn filtered_raw(self, filter: u8) -> Seq<u8> {
        join(
            filter_lines(self.lines(), filter, self.ihdr.filter_distance(), Seq::empty(), None),
        )
    }

    /// The raw data with the filters of all lines undone.
    pub open spec fn unfiltered_raw(self) -> Seq<u8> {
        join(unfilter_lines(self.lines(), self.ihdr.filter_distance(), Seq::empty()))
    }

    /// All lines name one of the five filters.
    pub open spec fn known_filters(self) -> bool {
        forall|i: int| 0 <= i < self.lines().len() ==> (#[trigger] self.lines()[i]).filter <= 4
    }
}

proof fn lemma_filter_lines_shape(
    lines: Seq<Line>,
    filter: u8,
    bpp: nat,
    last: Seq<u8>,
    last_pass: Option<u8>,
)
    ensures
        same_shape(lines, filter_lines(lines, filter, bpp, last, last_pass)),
    decreases lines.len(),
{
    if lines.len() > 0 {
        let rest = lines.drop_first();
        lemma_filter_lines_shape(rest, filter, bpp, lines[0].data, lines[0].pass);
        let after = filter_lines(lines, filter, bpp, last, last_pass);
        let after_rest = filter_lines(rest, filter, bpp, lines[0].data, lines[0].pass);
        assert forall|i: int| 0 <= i < lines.len() implies lines[i].data.len()
            == after[i].data.len() && lines[i].pass == after[i].pass by {
            if i > 0 {
                assert(lines[i] == rest[i - 1]);
                assert(after[i] == after_rest[i - 1]);
                assert(rest[i - 1].data.len() == after_rest[i - 1].data.len());
            }
        }
    }
}

proof fn lemma_unfilter_lines_shape(lines: Seq<Line>, bpp: nat, last: Seq<u8>)
    ensures
        same_shape(lines, unfilter_lines(lines, bpp, last)),
        forall|i: int|
            0 <= i < lines.len() ==> (#[trigger] unfilter_lines(lines, bpp, last)[i]).filter == 0,
    decreases lines.len(),
{
    if lines.len() > 0 {
        let rest = lines.drop_first();
        let data = unfiltered(lines[0].filter, bpp, lines[0].data, last);
        lemma_unfiltered_len(lines[0].filter, bpp, lines[0].data, last);
        lemma_unfilter_lines_shape(rest, bpp, data);
        let after = unfilter_lines(lines, bpp, last);
        let after_rest = unfilter_lines(rest, bpp, data);
        assert forall|i: int|
            #![trigger lines[i]]
            #![trigger after[i]]
            0 <= i < lines.len() implies lines[i].data.len() == after[i].data.len()
            && lines[i].pass == after[i].pass && after[i].filter == 0 by {
            if i > 0 {
                assert(lines[i] == rest[i - 1]);
                assert(after[i] == after_rest[i - 1]);
            }
        }
    }
}

proof fn lemma_unfilter_filter_lines(
    lines: Seq<Line>,
    filter: u8,
    bpp: nat,
    last: Seq<u8>,
    last_pass: Option<u8>,
)
    requires
        bpp >= 1,
    ensures
        unfilter_lines(filter_lines(lines, filter, bpp, last, last_pass), bpp, last)
            == plain_lines(lines),
    decreases lines.len(),
{
    let after = filter_lines(lines, filter, bpp, last, last_pass);
    if lines.len() > 0 {
        let rest = lines.drop_first();
        let line = lines[0];
        lemma_unfilter_filter_lines(rest, filter, bpp, line.data, line.pass);
        unfilter_inverts_filter(after[0].filter, bpp, line.data, last);
        assert(after.drop_first() =~= filter_lines(rest, filter, bpp, line.data, line.pass));
        assert(plain_lines(lines) =~= seq![Line { filter: 0, data: line.data, pass: line.pass }]
            + plain_lines(rest));
    } else {
        assert(plain_lines(lines) =~= Seq::<Line>::empty());
    }
}

/// Filtering an image and undoing it gives back its lines, each with filter byte 0, whatever
/// filter was asked for.
pub proof fn unfilter_image_inverts_filter_image(image: Image, filter: u8)
    requires
        image.whole_lines(),
    ensures
        (Image { raw: image.filtered_raw(filter), ..image }).whole_lines(),
        (Image { raw: image.filtered_raw(filter), ..image }).unfiltered_raw() == join(
            plain_lines(image.lines()),
        ),
{
    let bpp = image.ihdr.filter_distance();
    image.ihdr.lemma_pixel_size();
    let after = filter_lines(image.lines(), filter, bpp, Seq::empty(), None);
    let raw = join(after);
    lemma_filter_lines_shape(image.lines(), filter, bpp, Seq::empty(), None);
    assert(raw.skip(0) =~= raw);
    lemma_relayout(image.ihdr, image.raw, 0, None, raw, after);
    lemma_unfilter_filter_lines(image.lines(), filter, bpp, Seq::empty(), None);
}

/// Undoing the filters of an image leaves it with whole lines, as many as before, each with filter
/// byte 0.
pub proof fn unfiltered_image_has_plain_lines(image: Image)
    requires
        image.whole_lines(),
    ensures
        ({
            let plain = Image { raw: image.unfiltered_raw(), ..image };
            &&& plain.whole_lines()
            &&& same_shape(image.lines(), plain.lines())
            &&& plain.lines() == plain_lines(plain.lines())
        }),
{
    let bpp = image.ihdr.filter_distance();
    let after = unfilter_lines(image.lines(), bpp, Seq::empty());
    let raw = join(after);
    lemma_unfilter_lines_shape(image.lines(), bpp, Seq::empty());
    assert(raw.skip(0) =~= raw);
    lemma_relayout(image.ihdr, image.raw, 0, None, raw, after);
    assert(after =~= plain_lines(after));
}

/// The filters that filtering leaves in an image are among the five known ones.
pub proof fn filtered_image_has_known_filters(image: Image, filter: u8)
    requires
        image.whole_lines(),
        filter <= 5,
    ensures
        (Image { raw: image.filtered_raw(filter), ..image }).known_filters(),
{
    let bpp = image.ihdr.filter_distance();
    let after = filter_lines(image.lines(), filter, bpp, Seq::empty(), None);
    let raw = join(after);
    lemma_filter_lines_shape(image.lines(), filter, bpp, Seq::empty(), None);
    assert(raw.skip(0) =~= raw);
    lemma_relayout(image.ihdr, image.raw, 0, None, raw, after);
    lemma_line_filters_known(image.lines(), filter, bpp, Seq::empty(), None);
}

proof fn lemma_line_filters_known(
    lines: Seq<Line>,
    filter: u8,
    bpp: nat,
    last: Seq<u8>,
    last_pass: Option<u8>,
)
    requires
        filter <= 5,
    ensures
        forall|i: int|
            0 <= i < filter_lines(lines, filter, bpp, last, last_pass).len() ==> (
            #[trigger] filter_lines(lines, filter, bpp, last, last_pass)[i]).filter <= 4,
    decreases lines.len(),
{
    if lines.len() > 0 {
        let after = filter_lines(lines, filter, bpp, last, last_pass);
        let rest = filter_lines(lines.drop_first(), filter, bpp, lines[0].data, lines[0].pass);
        lemma_line_filters_known(
            lines.drop_first(),
            filter,
            bpp,
            lines[0].data,
            lines[0].pass,
        );
        smoothest_filter_is_least(bpp, lines[0].data, last, 5, 0);
        smoothest_filter_is_least(bpp, lines[0].data, last, 2, 0);
        assert forall|i: int| 0 <= i < after.len() implies (#[trigger] after[i]).filter <= 4 by {
            if i > 0 {
                assert(after[i] == rest[i - 1]);
            }
        }
    }
}

/// The roughness of a filtered line.
fn line_roughness(line: &[u8]) -> (sum: u64)
    requires
        line@.len() <= 0x8_0000_0000,
    ensures
        sum == roughness(line@),
{
    let mut sum: u64 = 0;
    let mut i: usize = 0;
    assert(line@.take(0) =~= Seq::<u8>::empty());
    while i < line.len()
        invariant
            line@.len() <= 0x8_0000_0000,
            i <= line.len(),
            sum == roughness(line@.take(i as int)),
            sum <= 128 * i,
        decreases line.len() - i,
    {
        assert(line@.take(i + 1).drop_last() =~= line@.take(i as int));
        let byte: u8 = line[i];
        let distance: u64 = if byte < 128 {
            byte as u64
        } else {
            256 - byte as u64
        };
        sum = sum + distance;
        i = i + 1;
    }
    assert(line@.take(i as int) =~= line@);
    sum
}

/// The filter below `count` that leaves the line smoothest, and the line that it leaves.
fn pick_filter(bpp: usize, data: &[u8], last_line: &[u8], count: u8) -> (best: (u8, Vec<u8>))
    requires
        bpp >= 1,
        1 <= count <= 5,
        data@.len() <= 0x8_0000_0000,
    ensures
        best.0 == smoothest_filter(bpp as nat, data@, last_line@, count),
        best.1@ == filtered(best.0, bpp as nat, data@, last_line@),
{
    let mut best_filter: u8 = 0;
    let mut best_line: Vec<u8> = filter_line(0, bpp, data, last_line);
    let mut best_sum: u64 = line_roughness(best_line.as_slice());
    let mut filter: u8 = 1;
    while filter < count
        invariant
            bpp >= 1,
            1 <= filter <= count <= 5,
            data@.len() <= 0x8_0000_0000,
            best_filter == smoothest_filter(bpp as nat, data@, last_line@, filter),
            best_line@ == filtered(best_filter, bpp as nat, data@, last_line@),
            best_sum == roughness(best_line@),
        decreases count - filter,
    {
        let line: Vec<u8> = filter_line(filter, bpp, data, last_line);
        let sum: u64 = line_roughness(line.as_slice());
        if sum < best_sum {
            best_filter = filter;
            best_line = line;
            best_sum = sum;
        }
        filter = filter + 1;
    }
    (best_filter, best_line)
}

impl PngData {
    /// The distance between bytes that the filters compare: the size of a pixel in whole bytes.
    pub(crate) fn filter_distance(&self) -> (bpp: usize)
        ensures
            bpp == self@.ihdr.filter_distance(),
            1 <= bpp <= 8,
    {
        proof {
            self@.ihdr.lemma_pixel_size();
        }
        let bits: u8 = self.ihdr_data.bit_depth.as_u8() * self.channels_per_pixel();
        (bits as usize + 7) / 8
    }

    /// Reverse all filters applied on the image, returning an unfiltered IDAT bytestream
    pub fn unfilter_image(&self) -> (unfiltered: Vec<u8>)
        requires
            self@.whole_lines(),
            self@.known_filters(),
        ensures
            unfiltered@ == self@.unfiltered_raw(),
    {
        let mut unfiltered: Vec<u8> = Vec::with_capacity(self.raw_data.len());
        let bpp: usize = self.filter_distance();
        let mut last_line: Vec<u8> = Vec::new();
        let mut lines = self.scan_lines();
        let ghost all = self@.unfiltered_raw();
        assert(unfiltered@ + all =~= all);
        loop
            invariant
                lines.wf(),
                bpp >= 1,
                forall|i: int|
                    0 <= i < lines.remaining().len() ==> (#[trigger] lines.remaining()[i]).filter
                        <= 4,
                unfiltered@ + join(unfilter_lines(lines.remaining(), bpp as nat, last_line@))
                    == all,
            ensures
                unfiltered@ == all,
            decreases lines.remaining().len(),
        {
            let ghost before = lines.remaining();
            let ghost done = unfiltered@;
            match lines.next() {
                None => {
                    assert(done + join(unfilter_lines(before, bpp as nat, last_line@)) =~= done);
                    break;
                },
                Some(line) => {
                    assert(before[0].filter <= 4);
                    let unfiltered_line: Vec<u8> = unfilter_line(
                        line.filter,
                        bpp,
                        line.data.as_slice(),
                        last_line.as_slice(),
                    );
                    unfiltered.push(0);
                    append_bytes(&mut unfiltered, unfiltered_line.as_slice());
                    proof {
                        let after = unfilter_lines(before, bpp as nat, last_line@);
                        let rest = unfilter_lines(
                            before.drop_first(),
                            bpp as nat,
                            unfiltered_line@,
                        );
                        assert(after.drop_first() =~= rest);
                        assert(unfiltered@ + join(rest) =~= done + join(after));
                        assert forall|i: int| 0 <= i < lines.remaining().len() implies (
                        #[trigger] lines.remaining()[i]).filter <= 4 by {
                            assert(lines.remaining()[i] == before[i + 1]);
                        }
                    }
                    last_line = unfiltered_line;
                },
            }
        }
        unfiltered
    }

    /// Apply the specified filter type to all rows in the image
    /// 0: None
    /// 1: Sub
    /// 2: Up
    /// 3: Average
    /// 4: Paeth
    /// 5: All (heuristically pick the best filter for each line)
    pub fn filter_image(&self, filter: u8) -> (filtered: Vec<u8>)
        requires
            self@.whole_lines(),
            filter <= 5 || self@.raw.len() == 0,
        ensures
            filtered@ == self@.filtered_raw(filter),
    {
        let mut filtered: Vec<u8> = Vec::with_capacity(self.raw_data.len());
        let bpp: usize = self.filter_distance();
        let mut last_line: Vec<u8> = Vec::new();
        let mut last_pass: Option<u8> = None;
        let mut lines = self.scan_lines();
        let ghost all = self@.filtered_raw(filter);
        proof {
            assert(filtered@ + all =~= all);
            lemma_line_sizes(self@.ihdr, self@.raw, 0, None);
        }
        loop
            invariant
                lines.wf(),
                bpp >= 1,
                filter <= 5 || lines.remaining().len() == 0,
                forall|i: int|
                    0 <= i < lines.remaining().len() ==> (
                    #[trigger] lines.remaining()[i]).data.len() <= 0x8_0000_0000,
                filtered@ + join(
                    filter_lines(lines.remaining(), filter, bpp as nat, last_line@, last_pass),
                ) == all,
            ensures
                filtered@ == all,
            decreases lines.remaining().len(),
        {
            let ghost before = lines.remaining();
            let ghost done = filtered@;
            match lines.next() {
                None => {
                    assert(done + join(
                        filter_lines(before, filter, bpp as nat, last_line@, last_pass),
                    ) =~= done);
                    break;
                },
                Some(line) => {
                    assert(before[0].data.len() <= 0x8_0000_0000);
                    let same_pass: bool = same_option(last_pass, line.pass);
                    let (used, bytes): (u8, Vec<u8>) = if filter == 5 {
                        // Heuristically guess best filter per line
                        // Avoid vertical filtering on first line of each interlacing pass
                        let count: u8 = if same_pass {
                            5
                        } else {
                            2
                        };
                        pick_filter(bpp, line.data.as_slice(), last_line.as_slice(), count)
                    } else {
                        // Avoid vertical filtering on first line of each interlacing pass
                        let used: u8 = if same_pass || filter <= 1 {
                            filter
                        } else {
                            0
                        };
                        (
                            used,
                            filter_line(used, bpp, line.data.as_slice(), last_line.as_slice()),
                        )
                    };
                    filtered.push(used);
                    append_bytes(&mut filtered, bytes.as_slice());
                    proof {
                        let after = filter_lines(
                            before,
                            filter,
                            bpp as nat,
                            last_line@,
                            last_pass,
                        );
                        let rest = filter_lines(
                            before.drop_first(),
                            filter,
                            bpp as nat,
                            line.data@,
                            line.pass,
                        );
                        assert(after.drop_first() =~= rest);
                        assert(filtered@ + join(rest) =~= done + join(after));
                        assert forall|i: int| 0 <= i < lines.remaining().len() implies (
                        #[trigger] lines.remaining()[i]).data.len() <= 0x8_0000_0000 by {
                            assert(lines.remaining()[i] == before[i + 1]);
                        }
                    }
                    last_line = line.data;
                    last_pass = line.pass;
                },
            }
        }
        filtered
    }
}

/// Whether two optional pass numbers are the same.
fn same_option(a: Option<u8>, b: Option<u8>) -> (same: bool)
    ensures
        same == (a == b),
{
    match (a, b) {
        (None, None) => true,
        (Some(x), Some(y)) => x == y,
        _ => false,
    }
}

} // verus!
