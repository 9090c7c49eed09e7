//! What palette reduction does to the bytes of the palette, its opacities and the pixels.

use vstd::prelude::*;
use vstd::set_lib::{lemma_int_range, lemma_map_size, set_int_range};
use crate::colors::{BitDepth, ColorType};
use crate::palette::{
    first_like, indices_in, indices_in_byte, indices_in_line, lemma_entries_without,
    lemma_first_equal, lemma_first_is_no_repeat, lemma_lines_without, renumber_byte, repeated,
    repeats_of, trimmed, unpacked,
};
use crate::palette_laws::{
    lemma_image_index, lemma_indices_finite, palette_reduction_keeps_pixels,
    palette_reduction_reports_shrinking, palette_reduction_without_success_changes_nothing,
    reduced_palette_has_no_repeats, reduced_palette_is_used, reduced_palette_is_used_or_was_met,
    renumbering_renumbers_each_index,
};
use crate::png::Image;
use crate::renumber::{
    kept, lemma_kept_len, lemma_kept_source, lemma_moved_down, lemma_removed_below_mono, moved,
    stand_in,
};
use crate::scan::Line;

verus! {

/// The number of pixels in a byte of indices.
pub open spec fn pixels_in_byte(depth: BitDepth) -> int {
    match depth {
        BitDepth::Four => 2,
        BitDepth::Two => 4,
        _ => 1,
    }
}

/// The index of pixel `p` of a byte: its half or its quarter, counted from the most significant
/// one, or the byte itself.
pub open spec fn pixel_index(depth: BitDepth, byte: u8, p: int) -> int {
    match depth {
        BitDepth::Four => if p == 0 {
            byte as int / 16
        } else {
            byte as int % 16
        },
        BitDepth::Two => if p == 0 {
            byte as int / 64
        } else if p == 1 {
            byte as int / 16 % 4
        } else if p == 2 {
            byte as int / 4 % 4
        } else {
            byte as int % 4
        },
        _ => byte as int,
    }
}

/// The palette has three bytes for the index.
pub open spec fn in_palette(image: Image, index: int) -> bool {
    image.palette is Some && 0 <= index && 3 * index + 3 <= image.palette->0.len()
}

/// The opacity of an index: its byte in the list of opacities, or 255 where the list has none.
pub open spec fn opacity_byte(image: Image, index: int) -> int {
    if image.transparency_palette is Some && 0 <= index < image.transparency_palette->0.len() {
        image.transparency_palette->0[index] as int
    } else {
        255
    }
}

/// Two indices of two images stand for the same red, green, blue and opacity.
pub open spec fn same_entry(a: Image, i: int, b: Image, j: int) -> bool {
    &&& a.palette->0[3 * i] == b.palette->0[3 * j]
    &&& a.palette->0[3 * i + 1] == b.palette->0[3 * j + 1]
    &&& a.palette->0[3 * i + 2] == b.palette->0[3 * j + 2]
    &&& opacity_byte(a, i) == opacity_byte(b, j)
}

/// Index `s` of one image is the first that stands for what index `i` of the other stands for.
pub open spec fn first_same(a: Image, s: int, b: Image, i: int) -> bool {
    &&& in_palette(a, s)
    &&& same_entry(a, s, b, i)
    &&& forall|r: int| 0 <= r < s ==> !(#[trigger] same_entry(a, r, b, i))
}

/// A place in the raw data of an image that holds a pixel: line, byte and pixel in the byte.
pub open spec fn is_pixel(image: Image, k: int, i: int, p: int) -> bool {
    &&& 0 <= k < image.lines().len()
    &&& 0 <= i < image.lines()[k].data.len()
    &&& 0 <= p < pixels_in_byte(image.ihdr.bit_depth)
}

/// The index at a place in the raw data.
pub open spec fn index_at(image: Image, k: int, i: int, p: int) -> int {
    pixel_index(image.ihdr.bit_depth, image.lines()[k].data[i], p)
}

/// Each pixel has an entry in the palette.
pub open spec fn pixels_have_entries(image: Image) -> bool {
    forall|k: int, i: int, p: int|
        is_pixel(image, k, i, p) ==> in_palette(image, #[trigger] index_at(image, k, i, p))
}

/// Some pixel has the index.
pub open spec fn index_is_used(image: Image, index: int) -> bool {
    exists|k: int, i: int, p: int|
        is_pixel(image, k, i, p) && #[trigger] index_at(image, k, i, p) == index
}

/// No two entries of the palette are the same.
pub open spec fn entries_differ(image: Image) -> bool {
    forall|i: int, j: int|
        0 <= i < j && in_palette(image, j) ==> !(#[trigger] same_entry(image, i, image, j))
}

/// Bits and arithmetic agree on the indices in a byte.
proof fn lemma_unpacked(depth: BitDepth, byte: u8, p: int)
    requires
        0 <= p < pixels_in_byte(depth),
    ensures
        unpacked(depth, byte).len() == pixels_in_byte(depth),
        unpacked(depth, byte)[p] == pixel_index(depth, byte, p),
{
    assert(byte >> 4 == byte / 16 && byte & 15 == byte % 16 && byte >> 6 == byte / 64 && (byte >> 4)
        & 3 == (byte / 16) % 4 && (byte >> 2) & 3 == (byte / 4) % 4 && byte & 3 == byte % 4)
        by (bit_vector);
}

/// The entries in terms of bytes.
proof fn lemma_entry(image: Image, i: int)
    requires
        image.has_palette(),
        0 <= i < image.entries().len(),
    ensures
        in_palette(image, i),
        ({
            let entry = image.entries()[i];
            &&& entry.len() == if image.transparency_palette is Some {
                4int
            } else {
                3
            }
            &&& entry[0] == image.palette->0[3 * i]
            &&& entry[1] == image.palette->0[3 * i + 1]
            &&& entry[2] == image.palette->0[3 * i + 2]
            &&& image.transparency_palette is Some ==> entry[3] == opacity_byte(image, i)
        }),
{
}

proof fn lemma_entry_count(image: Image, i: int)
    requires
        image.has_palette(),
    ensures
        in_palette(image, i) <==> 0 <= i < image.entries().len(),
        3 * image.entries().len() == image.palette->0.len(),
{
}

/// Entries are equal exactly if they stand for the same bytes.
proof fn lemma_same_entry(a: Image, i: int, b: Image, j: int)
    requires
        a.has_palette(),
        b.has_palette(),
        a.transparency_palette is Some == b.transparency_palette is Some,
        0 <= i < a.entries().len(),
        0 <= j < b.entries().len(),
    ensures
        same_entry(a, i, b, j) <==> a.entries()[i] == b.entries()[j],
{
    lemma_entry(a, i);
    lemma_entry(b, j);
    let (x, y) = (a.entries()[i], b.entries()[j]);
    if same_entry(a, i, b, j) {
        assert(x =~= y);
    }
}

/// The image after palette reduction still has a palette and the kind of transparency that it had,
/// and all else but the raw data stays.
proof fn lemma_reduced_form(image: Image)
    requires
        image.ihdr.color_type == ColorType::Indexed,
        image.ihdr.bit_depth != BitDepth::One,
        image.palette_readable(),
    ensures
        ({
            let after = image.palette_reduced().0;
            &&& after.has_palette()
            &&& after.transparency_palette is Some == image.transparency_palette is Some
            &&& after == Image {
                raw: after.raw,
                palette: after.palette,
                transparency_palette: after.transparency_palette,
                ..image
            }
            &&& after.whole_lines()
            &&& after.lines().len() == image.lines().len()
            &&& forall|k: int|
                0 <= k < after.lines().len() ==> (#[trigger] after.lines()[k]).filter
                    == image.lines()[k].filter
        }),
{
    let entries = image.entries();
    let distinct = image.without_repeats();
    let after = image.palette_reduced().0;
    lemma_entries_without(image, repeated(entries), repeats_of(entries));
    lemma_lines_without(image, repeated(entries), repeats_of(entries));
    assert(distinct.lines().len() == image.lines().len());
    assert forall|k: int| 0 <= k < distinct.lines().len() implies (
    #[trigger] distinct.lines()[k]).filter == image.lines()[k].filter by {}
    lemma_entries_without(distinct, distinct.unused(), Map::empty());
    lemma_lines_without(distinct, distinct.unused(), Map::empty());
    assert(after =~= Image {
        raw: after.raw,
        palette: after.palette,
        transparency_palette: after.transparency_palette,
        ..image
    });
}

/// Palette reduction keeps, for each pixel, the three bytes of the palette and the byte of opacity
/// that its index stands for, and whether it stands for any.
pub proof fn reduced_pixels_keep_their_bytes(image: Image, k: int, i: int, p: int)
    requires
        image.ihdr.color_type == ColorType::Indexed,
        image.ihdr.bit_depth != BitDepth::One,
        image.palette_readable(),
        is_pixel(image, k, i, p),
    ensures
        ({
            let after = image.palette_reduced().0;
            let (old_index, new_index) = (index_at(image, k, i, p), index_at(after, k, i, p));
            &&& is_pixel(after, k, i, p)
            &&& after.lines()[k].filter == image.lines()[k].filter
            &&& after.lines()[k].data.len() == image.lines()[k].data.len()
            &&& in_palette(image, old_index) <==> in_palette(after, new_index)
            &&& in_palette(image, old_index) ==> same_entry(image, old_index, after, new_index)
        }),
{
    let after = image.palette_reduced().0;
    let depth = image.ihdr.bit_depth;
    palette_reduction_keeps_pixels(image);
    lemma_reduced_form(image);
    assert(image.lines()[k].data.len() == after.lines()[k].data.len());
    let (a, b) = (image.lines()[k].data[i], after.lines()[k].data[i]);
    lemma_unpacked(depth, a, p);
    lemma_unpacked(depth, b, p);
    let (x, y) = (unpacked(depth, a)[p], unpacked(depth, b)[p]);
    assert(image.looks(x) == after.looks(y));
    lemma_entry_count(image, x as int);
    lemma_entry_count(after, y as int);
    if x < image.entries().len() {
        lemma_same_entry(image, x as int, after, y as int);
    }
}

/// Taking entries out of the palette leaves an index behind its end alone.
proof fn lemma_index_behind_the_end(
    image: Image,
    removed: Set<int>,
    replaced: Map<u8, u8>,
    k: int,
    i: int,
    p: int,
)
    requires
        image.has_palette(),
        image.whole_lines(),
        is_pixel(image, k, i, p),
        index_at(image, k, i, p) >= image.entries().len(),
        forall|b: u8| #[trigger]
            replaced.contains_key(b) ==> b < image.entries().len() && replaced[b] < b,
    ensures
        is_pixel(image.without(removed, replaced), k, i, p),
        index_at(image.without(removed, replaced), k, i, p) == index_at(image, k, i, p),
{
    let depth = image.ihdr.bit_depth;
    let n = image.entries().len() as int;
    let map = moved(n, removed, replaced);
    let after = image.without(removed, replaced);
    let byte = image.lines()[k].data[i];
    lemma_lines_without(image, removed, replaced);
    assert forall|b: u8| #[trigger] stand_in(map, b) <= b by {
        lemma_moved_down(n, removed, replaced, b);
    }
    renumbering_renumbers_each_index(depth, map, byte);
    assert(after.lines()[k].data[i] == renumber_byte(depth, map, byte));
    lemma_unpacked(depth, byte, p);
    lemma_unpacked(depth, after.lines()[k].data[i], p);
    assert(!map.contains_key(unpacked(depth, byte)[p]));
}

/// A pixel without an entry in the palette keeps its index when the palette is reduced.
pub proof fn pixels_without_entries_keep_their_index(image: Image, k: int, i: int, p: int)
    requires
        image.ihdr.color_type == ColorType::Indexed,
        image.ihdr.bit_depth != BitDepth::One,
        image.palette_readable(),
        is_pixel(image, k, i, p),
        !in_palette(image, index_at(image, k, i, p)),
    ensures
        index_at(image.palette_reduced().0, k, i, p) == index_at(image, k, i, p),
{
    let entries = image.entries();
    let index = index_at(image, k, i, p);
    let distinct = image.without_repeats();
    lemma_unpacked(image.ihdr.bit_depth, image.lines()[k].data[i], p);
    lemma_entry_count(image, index);
    assert forall|b: u8| #[trigger] repeats_of(entries).contains_key(b) implies b < entries.len()
        && repeats_of(entries)[b] < b by {
        lemma_first_is_no_repeat(entries, b as int);
    }
    lemma_index_behind_the_end(image, repeated(entries), repeats_of(entries), k, i, p);
    lemma_entries_without(image, repeated(entries), repeats_of(entries));
    lemma_lines_without(image, repeated(entries), repeats_of(entries));
    lemma_kept_len(entries, repeated(entries), entries.len() as int);
    if !distinct.all_entries_met() {
        lemma_index_behind_the_end(distinct, distinct.unused(), Map::empty(), k, i, p);
    }
}

/// After palette reduction no two entries of the palette stand for the same bytes.
pub proof fn reduced_entries_differ(image: Image)
    requires
        image.ihdr.color_type == ColorType::Indexed,
        image.ihdr.bit_depth != BitDepth::One,
        image.palette_readable(),
    ensures
        entries_differ(image.palette_reduced().0),
{
    let after = image.palette_reduced().0;
    lemma_reduced_form(image);
    assert forall|i: int, j: int| 0 <= i < j && in_palette(after, j) implies !(
    #[trigger] same_entry(after, i, after, j)) by {
        lemma_entry_count(after, j);
        reduced_palette_has_no_repeats(image, i, j);
        lemma_same_entry(after, i, after, j);
    }
}

/// The pixel that a line has under an index.
proof fn lemma_index_in_line(depth: BitDepth, data: Seq<u8>, b: u8) -> (place: (int, int))
    requires
        indices_in_line(depth, data).contains(b),
    ensures
        0 <= place.0 < data.len(),
        0 <= place.1 < pixels_in_byte(depth),
        pixel_index(depth, data[place.0], place.1) == b,
    decreases data.len(),
{
    let byte = data.last();
    if data.len() > 0 && indices_in_byte(depth, byte).contains(b) {
        let indices = unpacked(depth, byte);
        let p = choose|p: int| 0 <= p < indices.len() && indices[p] == b;
        lemma_unpacked(depth, byte, 0);
        lemma_unpacked(depth, byte, p);
        (data.len() - 1, p)
    } else {
        lemma_index_in_line(depth, data.drop_last(), b)
    }
}

/// The pixel that an image has under an index.
proof fn lemma_index_in_lines(depth: BitDepth, lines: Seq<Line>, b: u8) -> (place: (int, int, int))
    requires
        indices_in(depth, lines).contains(b),
    ensures
        0 <= place.0 < lines.len(),
        0 <= place.1 < lines[place.0].data.len(),
        0 <= place.2 < pixels_in_byte(depth),
        pixel_index(depth, lines[place.0].data[place.1], place.2) == b,
    decreases lines.len(),
{
    if lines.len() > 0 && indices_in_line(depth, lines.last().data).contains(b) {
        let (i, p) = lemma_index_in_line(depth, lines.last().data, b);
        (lines.len() - 1, i, p)
    } else {
        lemma_index_in_lines(depth, lines.drop_last(), b)
    }
}

/// The indices that occur, in terms of bytes.
proof fn lemma_indices(image: Image, b: u8)
    ensures
        indices_in(image.ihdr.bit_depth, image.lines()).contains(b) <==> index_is_used(
            image,
            b as int,
        ),
{
    let depth = image.ihdr.bit_depth;
    if indices_in(depth, image.lines()).contains(b) {
        let (k, i, p) = lemma_index_in_lines(depth, image.lines(), b);
        assert(is_pixel(image, k, i, p) && index_at(image, k, i, p) == b);
    }
    if index_is_used(image, b as int) {
        let (k, i, p) = choose|k: int, i: int, p: int|
            is_pixel(image, k, i, p) && #[trigger] index_at(image, k, i, p) == b;
        lemma_unpacked(depth, image.lines()[k].data[i], p);
        lemma_image_index(depth, image.lines(), k, i, p);
    }
}

proof fn lemma_pixels_have_entries(image: Image)
    requires
        image.has_palette(),
        pixels_have_entries(image),
    ensures
        image.pixels_in_palette(),
{
    assert forall|b: u8| #[trigger] indices_in(image.ihdr.bit_depth, image.lines()).contains(
        b,
    ) implies b < image.entries().len() by {
        lemma_indices(image, b);
        let (k, i, p) = choose|k: int, i: int, p: int|
            is_pixel(image, k, i, p) && #[trigger] index_at(image, k, i, p) == b;
        lemma_entry_count(image, b as int);
    }
}

/// After palette reduction some pixel has each index of the palette, if each pixel had an entry
/// before.
pub proof fn reduced_entries_are_used(image: Image, index: int)
    requires
        image.ihdr.color_type == ColorType::Indexed,
        image.ihdr.bit_depth != BitDepth::One,
        image.palette_readable(),
        pixels_have_entries(image),
        in_palette(image.palette_reduced().0, index),
    ensures
        index_is_used(image.palette_reduced().0, index),
{
    let after = image.palette_reduced().0;
    lemma_reduced_form(image);
    lemma_pixels_have_entries(image);
    reduced_palette_is_used(image);
    lemma_entry_count(after, index);
    assert(indices_in(after.ihdr.bit_depth, after.lines()).contains(index as u8));
    lemma_indices(after, index as u8);
}

/// The place of an entry of the reduced palette in the palette before: the first one of its bytes.
proof fn lemma_source(image: Image, j: int) -> (s: int)
    requires
        image.ihdr.color_type == ColorType::Indexed,
        image.ihdr.bit_depth != BitDepth::One,
        image.palette_readable(),
        0 <= j < image.palette_reduced().0.entries().len(),
    ensures
        0 <= s < image.entries().len(),
        image.entries()[s] == image.palette_reduced().0.entries()[j],
        first_like(image.entries(), s) == s,
{
    let entries = image.entries();
    let removed = repeated(entries);
    let distinct = image.without_repeats();
    let after = image.palette_reduced().0;
    lemma_entries_without(image, removed, repeats_of(entries));
    lemma_entries_without(distinct, distinct.unused(), Map::empty());
    let i = if distinct.all_entries_met() {
        j
    } else {
        lemma_kept_source(
            distinct.entries(),
            distinct.unused(),
            distinct.entries().len() as int,
            j,
        )
    };
    assert(distinct.entries()[i] == after.entries()[j]);
    let s = if exists|r: int| removed.contains(r) {
        lemma_kept_source(entries, removed, entries.len() as int, i)
    } else {
        i
    };
    lemma_first_is_no_repeat(entries, s);
    assert(!removed.contains(s));
    s
}

/// Of two kept entries the one that comes first came first before.
proof fn lemma_source_order(image: Image, i: int, j: int)
    requires
        image.ihdr.color_type == ColorType::Indexed,
        image.ihdr.bit_depth != BitDepth::One,
        image.palette_readable(),
        0 <= i < j < image.palette_reduced().0.entries().len(),
    ensures
        exists|s: int, t: int|
            0 <= s < t < image.entries().len() && #[trigger] image.entries()[s]
                == image.palette_reduced().0.entries()[i] && #[trigger] image.entries()[t]
                == image.palette_reduced().0.entries()[j] && first_like(image.entries(), s) == s
                && first_like(image.entries(), t) == t,
{
    let entries = image.entries();
    let removed = repeated(entries);
    let distinct = image.without_repeats();
    let after = image.palette_reduced().0;
    let n = distinct.entries().len() as int;
    lemma_entries_without(image, removed, repeats_of(entries));
    lemma_entries_without(distinct, distinct.unused(), Map::empty());
    let (a, b) = if distinct.all_entries_met() {
        (i, j)
    } else {
        lemma_kept_pair(distinct.entries(), distinct.unused(), n, i, j)
    };
    assert(distinct.entries()[a] == after.entries()[i]);
    assert(distinct.entries()[b] == after.entries()[j]);
    let (s, t) = if exists|r: int| removed.contains(r) {
        lemma_kept_pair(entries, removed, entries.len() as int, a, b)
    } else {
        (a, b)
    };
    lemma_first_is_no_repeat(entries, s);
    lemma_first_is_no_repeat(entries, t);
    assert(!removed.contains(s) && !removed.contains(t));
    assert(entries[s] == after.entries()[i] && entries[t] == after.entries()[j]);
}

/// Two entries that stay keep their order.
proof fn lemma_kept_pair(
    list: Seq<Seq<u8>>,
    removed: Set<int>,
    count: int,
    i: int,
    j: int,
) -> (sources: (int, int))
    requires
        0 <= count <= list.len(),
        0 <= i < j < kept(list, removed, count).len(),
    ensures
        0 <= sources.0 < sources.1 < count,
        !removed.contains(sources.0),
        !removed.contains(sources.1),
        kept(list, removed, count)[i] == list[sources.0],
        kept(list, removed, count)[j] == list[sources.1],
{
    let a = lemma_kept_source(list, removed, count, i);
    let b = lemma_kept_source(list, removed, count, j);
    if b <= a {
        lemma_removed_below_mono(removed, b, a);
    }
    (a, b)
}

/// The entries of the reduced palette are entries of the palette before, each taken from the first
/// place of its bytes there, in the same order.
pub proof fn reduced_entries_keep_their_order(image: Image, i: int, j: int)
    requires
        image.ihdr.color_type == ColorType::Indexed,
        image.ihdr.bit_depth != BitDepth::One,
        image.palette_readable(),
        0 <= i < j,
        in_palette(image.palette_reduced().0, j),
    ensures
        exists|s: int, t: int|
            s < t && #[trigger] first_same(image, s, image.palette_reduced().0, i)
                && #[trigger] first_same(image, t, image.palette_reduced().0, j),
{
    let after = image.palette_reduced().0;
    let entries = image.entries();
    lemma_reduced_form(image);
    lemma_entry_count(after, j);
    lemma_source_order(image, i, j);
    let (s, t) = choose|s: int, t: int|
        0 <= s < t < entries.len() && #[trigger] entries[s] == after.entries()[i]
            && #[trigger] entries[t] == after.entries()[j] && first_like(entries, s) == s
            && first_like(entries, t) == t;
    lemma_entry_count(image, t);
    lemma_same_entry(image, s, after, i);
    lemma_same_entry(image, t, after, j);
    lemma_first_place(image, after, s, i);
    lemma_first_place(image, after, t, j);
    lemma_entry_count(image, s);
    assert(first_same(image, s, after, i) && first_same(image, t, after, j));
}

/// Each entry of the reduced palette is one of the palette before.
pub proof fn reduced_entries_are_old_entries(image: Image, j: int)
    requires
        image.ihdr.color_type == ColorType::Indexed,
        image.ihdr.bit_depth != BitDepth::One,
        image.palette_readable(),
        in_palette(image.palette_reduced().0, j),
    ensures
        exists|s: int|
            in_palette(image, s) && #[trigger] same_entry(image, s, image.palette_reduced().0, j),
{
    let after = image.palette_reduced().0;
    lemma_reduced_form(image);
    lemma_entry_count(after, j);
    let s = lemma_source(image, j);
    lemma_entry_count(image, s);
    lemma_same_entry(image, s, after, j);
}

/// An entry that is the first like it has no equal before it.
proof fn lemma_first_place(image: Image, after: Image, s: int, i: int)
    requires
        image.has_palette(),
        after.has_palette(),
        image.transparency_palette is Some == after.transparency_palette is Some,
        0 <= s < image.entries().len(),
        0 <= i < after.entries().len(),
        image.entries()[s] == after.entries()[i],
        first_like(image.entries(), s) == s,
    ensures
        forall|r: int| 0 <= r < s ==> !(#[trigger] same_entry(image, r, after, i)),
{
    assert forall|r: int| 0 <= r < s implies !(#[trigger] same_entry(image, r, after, i)) by {
        lemma_same_entry(image, r, after, i);
        lemma_first_equal(image.entries(), image.entries()[s], 0, s);
    }
}

/// A list of opacities that was trimmed does not end in 255.
proof fn lemma_trimmed_end(alphas: Seq<u8>)
    ensures
        trimmed(alphas).len() > 0 ==> trimmed(alphas).last() != 255,
    decreases alphas.len(),
{
    if alphas.len() > 0 && alphas.last() == 255 {
        lemma_trimmed_end(alphas.drop_last());
    }
}

/// Palette reduction reports a success exactly if the palette or the list of its opacities has become
/// shorter. The list then does not end in full opacity. Only the raw data, the palette and the list
/// change, and an image without a palette or with one bit per pixel stays as it is.
pub proof fn reduction_is_reported_in_bytes(image: Image)
    requires
        image.ihdr.color_type == ColorType::Indexed && image.ihdr.bit_depth != BitDepth::One
            ==> image.palette_readable(),
    ensures
        ({
            let (after, success) = image.palette_reduced();
            if image.ihdr.color_type == ColorType::Indexed && image.ihdr.bit_depth
                != BitDepth::One {
                &&& after == Image {
                    raw: after.raw,
                    palette: after.palette,
                    transparency_palette: after.transparency_palette,
                    ..image
                }
                &&& after.palette is Some
                &&& after.palette->0.len() % 3 == 0
                &&& after.transparency_palette is Some <==> image.transparency_palette is Some
                &&& success <==> after.palette->0.len() < image.palette->0.len() || (
                image.transparency_palette is Some && after.transparency_palette->0.len()
                    < image.transparency_palette->0.len())
                &&& success && after.transparency_palette is Some
                    && after.transparency_palette->0.len() > 0
                    ==> after.transparency_palette->0.last() != 255
                &&& !success ==> after == image
            } else {
                after == image && !success
            }
        }),
{
    let (after, success) = image.palette_reduced();
    if image.ihdr.color_type == ColorType::Indexed && image.ihdr.bit_depth != BitDepth::One {
        lemma_reduced_form(image);
        palette_reduction_reports_shrinking(image);
        lemma_entry_count(image, 0);
        lemma_entry_count(after, 0);
        if !success {
            palette_reduction_without_success_changes_nothing(image);
        }
        if let Some(alphas) = image.transparency_palette {
            let removed = repeated(image.entries());
            lemma_trimmed_end(kept(alphas, removed, alphas.len() as int));
            let distinct = image.without_repeats();
            let rest = distinct.transparency_palette->0;
            lemma_trimmed_end(
                kept(rest, distinct.unused(), rest.len() as int),
            );
        }
    }
}

/// A palette that is complete is kept: if each pixel has an entry, each entry a pixel, and no two
/// entries are the same, the image stays as it is.
pub proof fn complete_palettes_are_kept(image: Image)
    requires
        image.ihdr.color_type == ColorType::Indexed,
        image.ihdr.bit_depth != BitDepth::One,
        image.palette_readable(),
        image.lines().len() > 0,
        pixels_have_entries(image),
        entries_differ(image),
        forall|index: int| in_palette(image, index) ==> #[trigger] index_is_used(image, index),
    ensures
        image.palette_reduced() == (image, false),
{
    let entries = image.entries();
    let n = entries.len() as int;
    let depth = image.ihdr.bit_depth;
    assert forall|r: int| !repeated(entries).contains(r) by {
        if repeated(entries).contains(r) {
            let f = first_like(entries, r);
            lemma_first_is_no_repeat(entries, r);
            lemma_entry_count(image, r);
            lemma_same_entry(image, f, image, r);
        }
    }
    let lines = image.lines();
    let met = indices_in(depth, lines);
    lemma_indices_finite(depth, lines);
    lemma_pixels_have_entries(image);
    assert forall|b: u8| b < n implies #[trigger] met.contains(b) by {
        lemma_entry_count(image, b as int);
        assert(index_is_used(image, b as int));
        lemma_indices(image, b);
    }
    let numbers = met.map(|c: u8| c as int);
    let below = set_int_range(0, n);
    lemma_int_range(0, n);
    lemma_map_size(met, numbers, |c: u8| c as int);
    assert(numbers =~= below) by {
        assert forall|x: int| #[trigger] below.contains(x) implies numbers.contains(x) by {
            assert(met.contains(x as u8));
        }
    }
    assert(met.len() == n);
    let k = lines.len() as int;
    assert(lines.take(k) =~= lines);
    assert(image.all_entries_met());
}

/// The indices that the pixels of the first lines have.
pub open spec fn indices_of_first_lines(image: Image, count: int) -> Set<int> {
    Set::new(
        |index: int|
            exists|k: int, i: int, p: int|
                is_pixel(image, k, i, p) && k < count && #[trigger] index_at(image, k, i, p)
                    == index,
    )
}

proof fn lemma_first_lines(image: Image, count: int)
    requires
        0 <= count <= image.lines().len(),
    ensures
        indices_of_first_lines(image, count).len() == indices_in(
            image.ihdr.bit_depth,
            image.lines().take(count),
        ).len(),
{
    let depth = image.ihdr.bit_depth;
    let lines = image.lines().take(count);
    let met = indices_in(depth, lines);
    let numbers = met.map(|c: u8| c as int);
    let direct = indices_of_first_lines(image, count);
    lemma_indices_finite(depth, lines);
    lemma_map_size(met, numbers, |c: u8| c as int);
    assert forall|x: int| #[trigger] numbers.contains(x) <==> direct.contains(x) by {
        if numbers.contains(x) {
            let b = choose|b: u8| met.contains(b) && b as int == x;
            let (k, i, p) = lemma_index_in_lines(depth, lines, b);
            assert(lines[k] == image.lines()[k]);
            assert(is_pixel(image, k, i, p) && index_at(image, k, i, p) == x);
        }
        if direct.contains(x) {
            let (k, i, p) = choose|k: int, i: int, p: int|
                is_pixel(image, k, i, p) && k < count && #[trigger] index_at(image, k, i, p) == x;
            assert(lines[k] == image.lines()[k]);
            lemma_unpacked(depth, lines[k].data[i], p);
            lemma_image_index(depth, lines, k, i, p);
            let b = unpacked(depth, lines[k].data[i])[p];
            assert(met.contains(b) && b as int == x);
        }
    }
    assert(numbers =~= direct);
}

/// Whatever the pixels were before, after palette reduction either each entry of the palette has a
/// pixel and the list of opacities does not end in full opacity, or the pixels of some first lines
/// have as many different indices as there are entries.
pub proof fn reduced_palette_is_full_or_was_met(image: Image)
    requires
        image.ihdr.color_type == ColorType::Indexed,
        image.ihdr.bit_depth != BitDepth::One,
        image.palette_readable(),
    ensures
        ({
            let after = image.palette_reduced().0;
            ||| exists|count: int|
                1 <= count <= after.lines().len() && 3 * (#[trigger] indices_of_first_lines(
                    after,
                    count,
                )).len() == after.palette->0.len()
            ||| {
                &&& forall|index: int|
                    in_palette(after, index) ==> #[trigger] index_is_used(after, index)
                &&& after.transparency_palette is Some && after.transparency_palette->0.len() > 0
                    ==> after.transparency_palette->0.last() != 255
            }
        }),
{
    let after = image.palette_reduced().0;
    let depth = after.ihdr.bit_depth;
    lemma_reduced_form(image);
    lemma_entry_count(after, 0);
    reduced_palette_is_used_or_was_met(image);
    if after.all_entries_met() {
        let count = choose|count: int|
            1 <= count <= after.lines().len() && #[trigger] indices_in(
                depth,
                after.lines().take(count),
            ).len() == after.entries().len();
        lemma_first_lines(after, count);
        assert(3 * indices_of_first_lines(after, count).len() == after.palette->0.len());
    } else {
        assert forall|index: int| in_palette(after, index) implies #[trigger] index_is_used(
            after,
            index,
        ) by {
            lemma_entry_count(after, index);
            assert(indices_in(depth, after.lines()).contains(index as u8));
            lemma_indices(after, index as u8);
        }
        if let Some(alphas) = after.transparency_palette {
            lemma_trimmed_end(alphas);
        }
    }
}

} // verus!
