//! What palette reduction keeps.

use vstd::prelude::*;
use vstd::seq_lib::seq_to_set_is_finite;
use vstd::set_lib::{lemma_int_range, lemma_map_size, lemma_subset_equality, set_int_range};
use crate::colors::{BitDepth, ColorType};
use crate::palette::{
    first_like, indices_in, indices_in_byte, indices_in_line, lemma_entries_without,
    lemma_first_is_no_repeat, lemma_lines_without, lemma_without_nothing, renumber_byte,
    renumber_lines, repeated, repeats_of, trimmed, unpacked,
};
use crate::png::Image;
use crate::renumber::{
    kept, lemma_kept_index, lemma_kept_len, lemma_kept_source, lemma_moved_down,
    lemma_removed_below_bound, lemma_removed_below_mono, moved, new_index, removed_below, stand_in,
};
use crate::scan::{same_shape, Line};

verus! {

impl Image {
    /// What pixel value `index` looks like: the palette entry with its opacity, or nothing if the
    /// palette has no such entry.
    pub open spec fn looks(self, index: u8) -> Option<Seq<u8>> {
        if index < self.entries().len() {
            Some(self.entries()[index as int])
        } else {
            None
        }
    }
}

/// Renumbering a byte renumbers each of the indices in it, if no index becomes greater.
pub proof fn renumbering_renumbers_each_index(depth: BitDepth, map: Map<u8, u8>, byte: u8)
    requires
        forall|b: u8| #[trigger] stand_in(map, b) <= b,
    ensures
        unpacked(depth, renumber_byte(depth, map, byte)) == unpacked(depth, byte).map_values(
            |b: u8| stand_in(map, b),
        ),
{
    let old_indices = unpacked(depth, byte);
    let new_indices = old_indices.map_values(|b: u8| stand_in(map, b));
    match depth {
        BitDepth::Four => {
            let (x, y) = (stand_in(map, byte >> 4), stand_in(map, byte & 15));
            assert(x <= byte >> 4 && y <= byte & 15);
            assert(((x << 4) | y) >> 4 == x && ((x << 4) | y) & 15 == y) by (bit_vector)
                requires
                    x <= byte >> 4,
                    y <= byte & 15,
            ;
            assert(new_indices =~= seq![x, y]);
        },
        BitDepth::Two => {
            let (x, y) = (stand_in(map, byte >> 6), stand_in(map, (byte >> 4) & 3));
            let (z, w) = (stand_in(map, (byte >> 2) & 3), stand_in(map, byte & 3));
            let new_byte = (x << 6) | (y << 4) | (z << 2) | w;
            assert(x <= byte >> 6 && y <= (byte >> 4) & 3 && z <= (byte >> 2) & 3 && w <= byte & 3);
            assert(new_byte >> 6 == x && (new_byte >> 4) & 3 == y && (new_byte >> 2) & 3 == z
                && new_byte & 3 == w) by (bit_vector)
                requires
                    new_byte == (x << 6) | (y << 4) | (z << 2) | w,
                    x <= byte >> 6,
                    y <= (byte >> 4) & 3,
                    z <= (byte >> 2) & 3,
                    w <= byte & 3,
            ;
            assert(new_indices =~= seq![x, y, z, w]);
        },
        _ => {
            assert(new_indices =~= seq![stand_in(map, byte)]);
        },
    }
    assert(unpacked(depth, renumber_byte(depth, map, byte)) =~= new_indices);
}

/// Two images of the same bit depth look the same, pixel by pixel.
pub open spec fn same_pixels(a: Image, b: Image) -> bool {
    let depth = a.ihdr.bit_depth;
    &&& b.ihdr == a.ihdr
    &&& same_shape(a.lines(), b.lines())
    &&& forall|k: int, i: int, p: int|
        #![trigger unpacked(depth, a.lines()[k].data[i])[p]]
        0 <= k < a.lines().len() && 0 <= i < a.lines()[k].data.len() && 0 <= p < unpacked(
            depth,
            a.lines()[k].data[i],
        ).len() ==> a.looks(unpacked(depth, a.lines()[k].data[i])[p]) == b.looks(
            unpacked(depth, b.lines()[k].data[i])[p],
        )
}

proof fn lemma_line_index(depth: BitDepth, data: Seq<u8>, i: int, p: int)
    requires
        0 <= i < data.len(),
        0 <= p < unpacked(depth, data[i]).len(),
    ensures
        indices_in_line(depth, data).contains(unpacked(depth, data[i])[p]),
    decreases data.len(),
{
    if i < data.len() - 1 {
        lemma_line_index(depth, data.drop_last(), i, p);
        assert(data.drop_last()[i] == data[i]);
    } else {
        let indices = unpacked(depth, data[i]);
        assert(indices.contains(indices[p]));
        assert(indices_in_byte(depth, data[i]).contains(indices[p]));
    }
}

pub proof fn lemma_image_index(depth: BitDepth, lines: Seq<Line>, k: int, i: int, p: int)
    requires
        0 <= k < lines.len(),
        0 <= i < lines[k].data.len(),
        0 <= p < unpacked(depth, lines[k].data[i]).len(),
    ensures
        indices_in(depth, lines).contains(unpacked(depth, lines[k].data[i])[p]),
    decreases lines.len(),
{
    if k < lines.len() - 1 {
        lemma_image_index(depth, lines.drop_last(), k, i, p);
        assert(lines.drop_last()[k] == lines[k]);
    } else {
        lemma_line_index(depth, lines[k].data, i, p);
    }
}

/// Each pixel keeps its looks if each entry taken out is unused or replaced by one just like it.
proof fn lemma_without_keeps_pixels(image: Image, removed: Set<int>, replaced: Map<u8, u8>)
    requires
        image.palette_readable(),
        forall|r: int| #[trigger] removed.contains(r) ==> 0 <= r < image.entries().len(),
        forall|b: u8| #[trigger]
            replaced.contains_key(b) ==> {
                &&& removed.contains(b as int)
                &&& replaced[b] < b
                &&& !removed.contains(replaced[b] as int)
                &&& image.entries()[replaced[b] as int] == image.entries()[b as int]
            },
        forall|b: u8|
            removed.contains(b as int) && !replaced.contains_key(b) ==> !(#[trigger] indices_in(
                image.ihdr.bit_depth,
                image.lines(),
            ).contains(b)),
    ensures
        same_pixels(image, image.without(removed, replaced)),
{
    let n = image.entries().len() as int;
    let after = image.without(removed, replaced);
    let map = moved(n, removed, replaced);
    lemma_entries_without(image, removed, replaced);
    lemma_lines_without(image, removed, replaced);
    lemma_kept_len(image.entries(), removed, n);
    let lines = image.lines();
    let depth = image.ihdr.bit_depth;
    assert forall|b: u8| #[trigger] stand_in(map, b) <= b by {
        lemma_moved_down(n, removed, replaced, b);
    }
    assert forall|k: int, i: int, p: int|
        #![trigger unpacked(depth, lines[k].data[i])[p]]
        0 <= k < lines.len() && 0 <= i < lines[k].data.len() && 0 <= p < unpacked(
            depth,
            lines[k].data[i],
        ).len() implies image.looks(unpacked(depth, lines[k].data[i])[p]) == after.looks(
        unpacked(depth, after.lines()[k].data[i])[p],
    ) by {
        let byte = lines[k].data[i];
        let b = unpacked(depth, byte)[p];
        let new_b = unpacked(depth, after.lines()[k].data[i])[p];
        assert(after.lines()[k].data[i] == renumber_byte(depth, map, byte));
        renumbering_renumbers_each_index(depth, map, byte);
        assert(new_b == stand_in(map, b));
        lemma_image_index(depth, lines, k, i, p);
        let rep = stand_in(replaced, b) as int;
        if b < n {
            assert(!removed.contains(rep));
            lemma_kept_index(image.entries(), removed, n, rep);
            lemma_removed_below_bound(removed, rep);
            assert(new_b == new_index(removed, rep));
        } else {
            assert(!replaced.contains_key(b));
            assert(!map.contains_key(b));
        }
    }
}

proof fn lemma_same_pixels_trans(a: Image, b: Image, c: Image)
    requires
        same_pixels(a, b),
        same_pixels(b, c),
    ensures
        same_pixels(a, c),
{
    assert forall|k: int| 0 <= k < a.lines().len() implies (#[trigger] a.lines()[k]).data.len()
        == c.lines()[k].data.len() && a.lines()[k].pass == c.lines()[k].pass by {
        assert(a.lines()[k].data.len() == b.lines()[k].data.len());
        assert(b.lines()[k].data.len() == c.lines()[k].data.len());
    }
    let depth = a.ihdr.bit_depth;
    assert forall|k: int, i: int, p: int|
        #![trigger unpacked(depth, a.lines()[k].data[i])[p]]
        0 <= k < a.lines().len() && 0 <= i < a.lines()[k].data.len() && 0 <= p < unpacked(
            depth,
            a.lines()[k].data[i],
        ).len() implies a.looks(unpacked(depth, a.lines()[k].data[i])[p]) == c.looks(
        unpacked(depth, c.lines()[k].data[i])[p],
    ) by {
        assert(a.lines()[k].data.len() == b.lines()[k].data.len());
        assert(b.looks(unpacked(depth, b.lines()[k].data[i])[p]) == c.looks(
            unpacked(depth, c.lines()[k].data[i])[p],
        ));
    }
}

proof fn lemma_repeats_keep_pixels(image: Image)
    requires
        image.palette_readable(),
    ensures
        same_pixels(image, image.without_repeats()),
        image.without_repeats().palette_readable(),
        image.without_repeats().ihdr == image.ihdr,
{
    let entries = image.entries();
    let removed = repeated(entries);
    let replaced = repeats_of(entries);
    assert forall|b: u8| #[trigger] replaced.contains_key(b) implies removed.contains(b as int)
        && replaced[b] < b && !removed.contains(replaced[b] as int) && entries[replaced[b] as int]
        == entries[b as int] by {
        lemma_first_is_no_repeat(entries, b as int);
    }
    if exists|i: int| removed.contains(i) {
        assert forall|b: u8| removed.contains(b as int) implies replaced.contains_key(b) by {}
        lemma_without_keeps_pixels(image, removed, replaced);
        lemma_entries_without(image, removed, replaced);
        lemma_lines_without(image, removed, replaced);
    }
}

/// Reducing the palette changes the looks of no pixel.
pub proof fn palette_reduction_keeps_pixels(image: Image)
    requires
        image.ihdr.color_type == ColorType::Indexed,
        image.palette_readable(),
    ensures
        same_pixels(image, image.palette_reduced().0),
{
    let distinct = image.without_repeats();
    let unused = distinct.unused();
    lemma_repeats_keep_pixels(image);
    if !distinct.all_entries_met() {
        assert forall|b: u8| unused.contains(b as int) implies !(#[trigger] indices_in(
            distinct.ihdr.bit_depth,
            distinct.lines(),
        ).contains(b)) by {
            assert(unused.contains(b as int));
        }
        lemma_without_keeps_pixels(distinct, unused, Map::empty());
        lemma_same_pixels_trans(image, distinct, distinct.without(unused, Map::empty()));
    }
}

/// Where palette reduction reports no success, it has changed nothing.
pub proof fn palette_reduction_without_success_changes_nothing(image: Image)
    requires
        image.ihdr.color_type == ColorType::Indexed && image.ihdr.bit_depth != BitDepth::One
            ==> image.palette_readable(),
        !image.palette_reduced().1,
    ensures
        image.palette_reduced().0 == image,
{
    if image.ihdr.color_type == ColorType::Indexed && image.ihdr.bit_depth != BitDepth::One
        && !image.all_entries_met() {
        lemma_without_nothing(image, image.unused());
    }
}

proof fn lemma_without_shrinks(image: Image, removed: Set<int>, replaced: Map<u8, u8>)
    requires
        image.has_palette(),
        forall|r: int| #[trigger] removed.contains(r) ==> 0 <= r < image.entries().len(),
    ensures
        image.without(removed, replaced).entries().len() <= image.entries().len(),
        image.without(removed, replaced).entries().len() < image.entries().len() <==> exists|r: int|
            removed.contains(r),
{
    let n = image.entries().len() as int;
    lemma_entries_without(image, removed, replaced);
    lemma_kept_len(image.entries(), removed, n);
    if exists|r: int| removed.contains(r) {
        let r = choose|r: int| removed.contains(r);
        lemma_removed_below_mono(removed, r + 1, n);
    } else {
        crate::renumber::lemma_removed_none(removed, n);
    }
}

/// Palette reduction reports a success exactly where the palette or the list of its opacities has
/// become shorter, and never makes the palette longer.
pub proof fn palette_reduction_reports_shrinking(image: Image)
    requires
        image.ihdr.color_type == ColorType::Indexed && image.ihdr.bit_depth != BitDepth::One
            ==> image.palette_readable(),
    ensures
        image.palette_reduced().1 <==> {
            ||| image.palette_reduced().0.entries().len() < image.entries().len()
            ||| image.palette_reduced().0.listed_opacities() < image.listed_opacities()
        },
        image.palette_reduced().0.entries().len() <= image.entries().len(),
{
    if image.ihdr.color_type == ColorType::Indexed && image.ihdr.bit_depth != BitDepth::One {
        let distinct = image.without_repeats();
        lemma_without_shrinks(image, repeated(image.entries()), repeats_of(image.entries()));
        lemma_entries_without(image, repeated(image.entries()), repeats_of(image.entries()));
        lemma_without_shrinks(distinct, distinct.unused(), Map::empty());
        if forall|i: int| !distinct.unused().contains(i) {
            lemma_lines_without(image, repeated(image.entries()), repeats_of(image.entries()));
            lemma_without_nothing(distinct, distinct.unused());
        }
    }
}

/// After palette reduction no entry of the palette repeats another.
pub proof fn reduced_palette_has_no_repeats(image: Image, i: int, j: int)
    requires
        image.ihdr.color_type == ColorType::Indexed,
        image.ihdr.bit_depth != BitDepth::One,
        image.palette_readable(),
        0 <= i < j < image.palette_reduced().0.entries().len(),
    ensures
        image.palette_reduced().0.entries()[i] != image.palette_reduced().0.entries()[j],
{
    let entries = image.entries();
    let removed = repeated(entries);
    let replaced = repeats_of(entries);
    let distinct = image.without_repeats();
    lemma_entries_without(image, removed, replaced);
    assert forall|x: int, y: int| 0 <= x < y < distinct.entries().len() implies #[trigger] distinct.entries()[x]
        != #[trigger] distinct.entries()[y] by {
        if exists|r: int| removed.contains(r) {
            let n = entries.len() as int;
            let a = lemma_kept_source(entries, removed, n, x);
            let b = lemma_kept_source(entries, removed, n, y);
            lemma_first_is_no_repeat(entries, a);
            lemma_first_is_no_repeat(entries, b);
            assert(first_like(entries, a) == a);
            assert(first_like(entries, b) == b);
        } else {
            lemma_first_is_no_repeat(entries, x);
            lemma_first_is_no_repeat(entries, y);
            assert(!removed.contains(x));
            assert(!removed.contains(y));
        }
    }
    let unused = distinct.unused();
    if !distinct.all_entries_met() {
        let n = distinct.entries().len() as int;
        lemma_entries_without(distinct, unused, Map::empty());
        let a = lemma_kept_source(distinct.entries(), unused, n, i);
        let b = lemma_kept_source(distinct.entries(), unused, n, j);
        assert(distinct.entries()[a] != distinct.entries()[b]) by {
            if a < b {
            } else {
                assert(distinct.entries()[b] != distinct.entries()[a] || a == b);
            }
        }
    }
}

/// The indices in a line after renumbering are those before, renumbered.
proof fn lemma_line_renumbered(depth: BitDepth, map: Map<u8, u8>, data: Seq<u8>, b: u8)
    requires
        forall|c: u8| #[trigger] stand_in(map, c) <= c,
    ensures
        ({
            let after = data.map_values(|c: u8| renumber_byte(depth, map, c));
            &&& indices_in_line(depth, data).contains(b) ==> indices_in_line(
                depth,
                after,
            ).contains(stand_in(map, b))
            &&& indices_in_line(depth, after).contains(b) ==> exists|c: u8| #[trigger]
                indices_in_line(depth, data).contains(c) && stand_in(map, c) == b
        }),
    decreases data.len(),
{
    let renumbered = |c: u8| renumber_byte(depth, map, c);
    let after = data.map_values(renumbered);
    if data.len() > 0 {
        let head = data.drop_last();
        let byte = data.last();
        assert(after.drop_last() =~= head.map_values(renumbered));
        assert(after.last() == renumber_byte(depth, map, byte));
        lemma_line_renumbered(depth, map, head, b);
        renumbering_renumbers_each_index(depth, map, byte);
        let old_indices = unpacked(depth, byte);
        let new_indices = unpacked(depth, after.last());
        if indices_in_byte(depth, byte).contains(b) {
            let p = choose|p: int| 0 <= p < old_indices.len() && old_indices[p] == b;
            assert(new_indices[p] == stand_in(map, b));
            assert(new_indices.contains(stand_in(map, b)));
            assert(indices_in_byte(depth, after.last()).contains(stand_in(map, b)));
        }
        if indices_in_byte(depth, after.last()).contains(b) {
            let p = choose|p: int| 0 <= p < new_indices.len() && new_indices[p] == b;
            let c = old_indices[p];
            assert(old_indices.contains(c));
            assert(indices_in_byte(depth, byte).contains(c));
            assert(indices_in_line(depth, data).contains(c) && stand_in(map, c) == b);
        } else if indices_in_line(depth, after).contains(b) {
            let c = choose|c: u8| #[trigger]
                indices_in_line(depth, head).contains(c) && stand_in(map, c) == b;
            assert(indices_in_line(depth, data).contains(c) && stand_in(map, c) == b);
        }
    }
}

/// The indices in all lines after renumbering are those before, renumbered.
proof fn lemma_lines_renumbered(depth: BitDepth, map: Map<u8, u8>, lines: Seq<Line>, b: u8)
    requires
        forall|c: u8| #[trigger] stand_in(map, c) <= c,
    ensures
        ({
            let after = renumber_lines(depth, map, lines);
            &&& indices_in(depth, lines).contains(b) ==> indices_in(depth, after).contains(
                stand_in(map, b),
            )
            &&& indices_in(depth, after).contains(b) ==> exists|c: u8| #[trigger]
                indices_in(depth, lines).contains(c) && stand_in(map, c) == b
        }),
    decreases lines.len(),
{
    let after = renumber_lines(depth, map, lines);
    if lines.len() > 0 {
        let head = lines.drop_last();
        let data = lines.last().data;
        assert(after.drop_last() =~= renumber_lines(depth, map, head));
        lemma_lines_renumbered(depth, map, head, b);
        lemma_line_renumbered(depth, map, data, b);
        if indices_in(depth, after).contains(b) {
            if indices_in_line(depth, after.last().data).contains(b) {
                let c = choose|c: u8| #[trigger]
                    indices_in_line(depth, data).contains(c) && stand_in(map, c) == b;
                assert(indices_in(depth, lines).contains(c) && stand_in(map, c) == b);
            } else {
                let c = choose|c: u8| #[trigger]
                    indices_in(depth, head).contains(c) && stand_in(map, c) == b;
                assert(indices_in(depth, lines).contains(c) && stand_in(map, c) == b);
            }
        }
    }
}

/// The indices in some of the first lines are among those in all lines.
proof fn lemma_indices_in_first_lines(depth: BitDepth, lines: Seq<Line>, k: int, b: u8)
    requires
        0 <= k <= lines.len(),
        indices_in(depth, lines.take(k)).contains(b),
    ensures
        indices_in(depth, lines).contains(b),
    decreases lines.len() - k,
{
    if k < lines.len() {
        assert(lines.take(k + 1).drop_last() =~= lines.take(k));
        lemma_indices_in_first_lines(depth, lines, k + 1, b);
    } else {
        assert(lines.take(k) =~= lines);
    }
}

/// A set of `count` numbers below `count` holds all of them.
proof fn lemma_all_below(set: Set<u8>, count: nat, b: u8)
    requires
        set.finite(),
        set.len() == count,
        forall|c: u8| #[trigger] set.contains(c) ==> c < count,
        b < count,
    ensures
        set.contains(b),
{
    let numbers = set.map(|c: u8| c as int);
    let below = set_int_range(0, count as int);
    lemma_int_range(0, count as int);
    lemma_map_size(set, numbers, |c: u8| c as int);
    assert(numbers.subset_of(below));
    lemma_subset_equality(numbers, below);
    assert(numbers.contains(b as int));
}

proof fn lemma_line_indices_finite(depth: BitDepth, data: Seq<u8>)
    ensures
        indices_in_line(depth, data).finite(),
    decreases data.len(),
{
    if data.len() > 0 {
        lemma_line_indices_finite(depth, data.drop_last());
        seq_to_set_is_finite(unpacked(depth, data.last()));
    }
}

pub proof fn lemma_indices_finite(depth: BitDepth, lines: Seq<Line>)
    ensures
        indices_in(depth, lines).finite(),
    decreases lines.len(),
{
    if lines.len() > 0 {
        lemma_indices_finite(depth, lines.drop_last());
        lemma_line_indices_finite(depth, lines.last().data);
    }
}

impl Image {
    /// Each pixel has an entry in the palette.
    pub open spec fn pixels_in_palette(self) -> bool {
        forall|b: u8| #[trigger]
            indices_in(self.ihdr.bit_depth, self.lines()).contains(b) ==> b < self.entries().len()
    }

    /// Each entry of the palette has a pixel.
    pub open spec fn all_entries_used(self) -> bool {
        forall|i: int|
            0 <= i < self.entries().len() ==> #[trigger] indices_in(
                self.ihdr.bit_depth,
                self.lines(),
            ).contains(i as u8)
    }
}

/// Without its repeated entries, too, each pixel of an image has an entry.
proof fn lemma_pixels_stay_in_palette(image: Image)
    requires
        image.palette_readable(),
        image.pixels_in_palette(),
    ensures
        image.without_repeats().pixels_in_palette(),
        image.without_repeats().has_palette(),
        image.without_repeats().whole_lines(),
        image.without_repeats().ihdr == image.ihdr,
{
    let entries = image.entries();
    let n = entries.len() as int;
    let removed = repeated(entries);
    let replaced = repeats_of(entries);
    if exists|i: int| removed.contains(i) {
        let map = moved(n, removed, replaced);
        let depth = image.ihdr.bit_depth;
        let after = image.without(removed, replaced);
        lemma_entries_without(image, removed, replaced);
        lemma_lines_without(image, removed, replaced);
        assert forall|c: u8| #[trigger] stand_in(map, c) <= c by {
            if replaced.contains_key(c) {
                lemma_first_is_no_repeat(entries, c as int);
            }
            lemma_moved_down(n, removed, replaced, c);
        }
        assert forall|b: u8| #[trigger] indices_in(depth, after.lines()).contains(b) implies b
            < after.entries().len() by {
            lemma_lines_renumbered(depth, map, image.lines(), b);
            let c = choose|c: u8| #[trigger]
                indices_in(depth, image.lines()).contains(c) && stand_in(map, c) == b;
            lemma_first_is_no_repeat(entries, c as int);
            let rep = stand_in(replaced, c) as int;
            assert(!removed.contains(rep));
            lemma_kept_index(entries, removed, n, rep);
            lemma_removed_below_bound(removed, rep);
            assert(b == new_index(removed, rep));
        }
    }
}

/// After palette reduction each entry of the palette is used, whatever the pixels were before, unless
/// after some line as many indices had been met as there are entries. Where that was not so, the
/// list of opacities is trimmed.
pub proof fn reduced_palette_is_used_or_was_met(image: Image)
    requires
        image.ihdr.color_type == ColorType::Indexed,
        image.ihdr.bit_depth != BitDepth::One,
        image.palette_readable(),
    ensures
        ({
            let after = image.palette_reduced().0;
            ||| after.all_entries_met()
            ||| after.all_entries_used() && (after.transparency_palette matches Some(alphas)
                ==> alphas == trimmed(alphas))
        }),
{
    let distinct = image.without_repeats();
    lemma_repeats_keep_pixels(image);
    if !distinct.all_entries_met() {
        lemma_unused_are_gone(distinct);
        if let Some(alphas) = distinct.transparency_palette {
            lemma_trimmed_twice(kept(alphas, distinct.unused(), alphas.len() as int));
        }
    }
}

/// A list that was trimmed needs no trimming.
proof fn lemma_trimmed_twice(alphas: Seq<u8>)
    ensures
        trimmed(trimmed(alphas)) == trimmed(alphas),
    decreases alphas.len(),
{
    if alphas.len() > 0 && alphas.last() == 255 {
        lemma_trimmed_twice(alphas.drop_last());
    }
}

/// Without its unused entries, an image uses each entry.
proof fn lemma_unused_are_gone(distinct: Image)
    requires
        distinct.has_palette(),
        distinct.whole_lines(),
    ensures
        distinct.without(distinct.unused(), Map::empty()).all_entries_used(),
{
    let depth = distinct.ihdr.bit_depth;
    let n = distinct.entries().len() as int;
    let unused = distinct.unused();
    let map = moved(n, unused, Map::empty());
    let after = distinct.without(unused, Map::empty());
    lemma_entries_without(distinct, unused, Map::empty());
    lemma_lines_without(distinct, unused, Map::empty());
    assert forall|c: u8| #[trigger] stand_in(map, c) <= c by {
        lemma_moved_down(n, unused, Map::empty(), c);
    }
    assert forall|j: int| 0 <= j < after.entries().len() implies #[trigger] indices_in(
        depth,
        after.lines(),
    ).contains(j as u8) by {
        let i = lemma_kept_source(distinct.entries(), unused, n, j);
        assert(!unused.contains(i));
        assert(indices_in(depth, distinct.lines()).contains(i as u8));
        lemma_lines_renumbered(depth, map, distinct.lines(), i as u8);
        lemma_removed_below_bound(unused, i);
        assert(stand_in(map, i as u8) == j) by {
            if !map.contains_key(i as u8) {
                assert(removed_below(unused, i) == 0);
            }
        }
    }
}

/// After palette reduction each entry of the palette is used, if each pixel had an entry before.
pub proof fn reduced_palette_is_used(image: Image)
    requires
        image.ihdr.color_type == ColorType::Indexed,
        image.ihdr.bit_depth != BitDepth::One,
        image.palette_readable(),
        image.pixels_in_palette(),
    ensures
        image.palette_reduced().0.all_entries_used(),
{
    let depth = image.ihdr.bit_depth;
    let distinct = image.without_repeats();
    let n = distinct.entries().len() as int;
    lemma_pixels_stay_in_palette(image);
    if distinct.all_entries_met() {
        let k = choose|k: int|
            1 <= k <= distinct.lines().len() && #[trigger] indices_in(
                depth,
                distinct.lines().take(k),
            ).len() == distinct.entries().len();
        let met = indices_in(depth, distinct.lines().take(k));
        lemma_indices_finite(depth, distinct.lines().take(k));
        assert forall|b: u8| #[trigger] met.contains(b) implies b < n by {
            lemma_indices_in_first_lines(depth, distinct.lines(), k, b);
        }
        assert forall|i: int| 0 <= i < n implies #[trigger] indices_in(
            depth,
            distinct.lines(),
        ).contains(i as u8) by {
            lemma_all_below(met, n as nat, i as u8);
            lemma_indices_in_first_lines(depth, distinct.lines(), k, i as u8);
        }
    } else {
        lemma_unused_are_gone(distinct);
    }
}

} // verus!
