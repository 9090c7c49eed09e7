//! Taking colours out of the palette of an image.

use std::collections::{HashMap, HashSet};
use vstd::prelude::*;
use crate::bytes::same_bytes;
use crate::colors::{BitDepth, ColorType};
use crate::outside::{bit_at, bit_list, bits_from_bytes, sorted_descending};
use crate::png::{Image, PngData};
use crate::renumber::{
    kept, lemma_kept_all, lemma_kept_beyond, lemma_kept_index, lemma_kept_len, lemma_kept_remove,
    lemma_kept_source, lemma_moved_step, lemma_removed_above, lemma_removed_below_bound,
    lemma_removed_below_mono, lemma_removed_none, moved, new_index, removed_below, stand_in,
};
use crate::scan::{join, lemma_relayout, lines_make_up_raw_data, Line};

verus! {

/// A list of byte strings put one behind the other.
pub open spec fn flat(list: Seq<Seq<u8>>) -> Seq<u8>
    decreases list.len(),
{
    if list.len() == 0 {
        Seq::empty()
    } else {
        flat(list.drop_last()) + list.last()
    }
}

/// The contents of a vector of byte vectors.
pub open spec fn contents(list: Seq<Vec<u8>>) -> Seq<Seq<u8>> {
    Seq::new(list.len(), |i: int| list[i]@)
}

/// The opacity of palette entry `i`: full where the list ends before it.
pub open spec fn opacity(alphas: Seq<u8>, i: int) -> u8 {
    if 0 <= i < alphas.len() {
        alphas[i]
    } else {
        255
    }
}

/// A list of opacities without the full ones at its end.
pub open spec fn trimmed(alphas: Seq<u8>) -> Seq<u8>
    decreases alphas.len(),
{
    if alphas.len() > 0 && alphas.last() == 255 {
        trimmed(alphas.drop_last())
    } else {
        alphas
    }
}

/// The index of the first entry equal to `entry`, from `from` on.
pub open spec fn first_equal(entries: Seq<Seq<u8>>, entry: Seq<u8>, from: int) -> int
    decreases entries.len() - from,
{
    if from >= entries.len() || entries[from] == entry {
        from
    } else {
        first_equal(entries, entry, from + 1)
    }
}

/// The index of the first entry equal to entry `i`.
pub open spec fn first_like(entries: Seq<Seq<u8>>, i: int) -> int {
    first_equal(entries, entries[i], 0)
}

/// The entries that repeat an earlier one.
pub open spec fn repeated(entries: Seq<Seq<u8>>) -> Set<int> {
    Set::new(|i: int| 0 <= i < entries.len() && first_like(entries, i) < i)
}

/// The first entry like it, for each entry that repeats an earlier one.
pub open spec fn repeats_of(entries: Seq<Seq<u8>>) -> Map<u8, u8> {
    Map::new(
        |i: u8| i < entries.len() && first_like(entries, i as int) < i,
        |i: u8| first_like(entries, i as int) as u8,
    )
}

/// The indices in a list.
pub open spec fn index_set(indices: Seq<u8>) -> Set<int> {
    Set::new(|i: int| exists|k: int| 0 <= k < indices.len() && #[trigger] indices[k] == i)
}

/// The indices of the pixels that a byte of the given depth holds, from left to right.
pub open spec fn unpacked(depth: BitDepth, byte: u8) -> Seq<u8> {
    match depth {
        BitDepth::Four => seq![byte >> 4, byte & 15],
        BitDepth::Two => seq![byte >> 6, (byte >> 4) & 3, (byte >> 2) & 3, byte & 3],
        _ => seq![byte],
    }
}

/// The byte that holds the given indices, from left to right.
pub open spec fn packed(depth: BitDepth, indices: Seq<u8>) -> u8 {
    match depth {
        BitDepth::Four => (indices[0] << 4) | indices[1],
        BitDepth::Two => (indices[0] << 6) | (indices[1] << 4) | (indices[2] << 2) | indices[3],
        _ => indices[0],
    }
}

/// A byte with each of its indices renumbered.
pub open spec fn renumber_byte(depth: BitDepth, map: Map<u8, u8>, byte: u8) -> u8 {
    packed(depth, unpacked(depth, byte).map_values(|b: u8| stand_in(map, b)))
}

/// Lines with all their indices renumbered.
pub open spec fn renumber_lines(depth: BitDepth, map: Map<u8, u8>, lines: Seq<Line>) -> Seq<Line> {
    Seq::new(
        lines.len(),
        |i: int|
            Line {
                filter: lines[i].filter,
                data: lines[i].data.map_values(|b: u8| renumber_byte(depth, map, b)),
                pass: lines[i].pass,
            },
    )
}

/// The indices that a byte of the given depth holds.
pub open spec fn indices_in_byte(depth: BitDepth, byte: u8) -> Set<u8> {
    unpacked(depth, byte).to_set()
}

/// The indices that a line holds.
pub open spec fn indices_in_line(depth: BitDepth, data: Seq<u8>) -> Set<u8>
    decreases data.len(),
{
    if data.len() == 0 {
        Set::empty()
    } else {
        indices_in_line(depth, data.drop_last()) + indices_in_byte(depth, data.last())
    }
}

/// The indices that a sequence of lines holds.
pub open spec fn indices_in(depth: BitDepth, lines: Seq<Line>) -> Set<u8>
    decreases lines.len(),
{
    if lines.len() == 0 {
        Set::empty()
    } else {
        indices_in(depth, lines.drop_last()) + indices_in_line(depth, lines.last().data)
    }
}

impl Image {
    /// There is a palette, of three bytes for each of at most 256 colours.
    pub open spec fn has_palette(self) -> bool {
        self.palette matches Some(p) && p.len() % 3 == 0 && p.len() <= 768
    }

    /// The colours of the palette.
    pub open spec fn palette_colors(self) -> Seq<Seq<u8>> {
        let p = self.palette->0;
        Seq::new((p.len() / 3) as nat, |i: int| p.subrange(3 * i, 3 * i + 3))
    }

    /// The entries of the palette: a colour, and its opacity if the image lists opacities.
    pub open spec fn entries(self) -> Seq<Seq<u8>> {
        let colors = self.palette_colors();
        Seq::new(
            colors.len(),
            |i: int|
                match self.transparency_palette {
                    Some(alphas) => colors[i].push(opacity(alphas, i)),
                    None => colors[i],
                },
        )
    }

    /// The image with some entries taken out of its palette, and the indices in its data
    /// renumbered: one that `replaced` lists becomes the index of the entry listed there.
    pub open spec fn without(self, removed: Set<int>, replaced: Map<u8, u8>) -> Image {
        let colors = self.palette_colors();
        let map = moved(colors.len() as int, removed, replaced);
        Image {
            raw: join(renumber_lines(self.ihdr.bit_depth, map, self.lines())),
            palette: Some(flat(kept(colors, removed, colors.len() as int))),
            transparency_palette: match self.transparency_palette {
                Some(alphas) => Some(trimmed(kept(alphas, removed, alphas.len() as int))),
                None => None,
            },
            ..self
        }
    }

    /// The image with each repeated palette entry taken out.
    pub open spec fn without_repeats(self) -> Image {
        if exists|i: int| repeated(self.entries()).contains(i) {
            self.without(repeated(self.entries()), repeats_of(self.entries()))
        } else {
            self
        }
    }

    /// The number of opacities that are listed for the palette.
    pub open spec fn listed_opacities(self) -> nat {
        match self.transparency_palette {
            Some(alphas) => alphas.len(),
            None => 0,
        }
    }

    /// After some line, as many indices have been met as there are palette entries.
    pub open spec fn all_entries_met(self) -> bool {
        exists|k: int|
            1 <= k <= self.lines().len() && #[trigger] indices_in(
                self.ihdr.bit_depth,
                self.lines().take(k),
            ).len() == self.entries().len()
    }

    /// The palette entries that no pixel uses.
    pub open spec fn unused(self) -> Set<int> {
        Set::new(
            |i: int|
                0 <= i < self.entries().len() && !indices_in(
                    self.ihdr.bit_depth,
                    self.lines(),
                ).contains(i as u8),
        )
    }

    /// What palette reduction makes of the image, and whether the palette or the list of its
    /// opacities has become shorter.
    pub open spec fn palette_reduced(self) -> (Image, bool) {
        if self.ihdr.color_type != ColorType::Indexed || self.ihdr.bit_depth == BitDepth::One {
            (self, false)
        } else {
            let distinct = self.without_repeats();
            let had_repeats = exists|i: int| repeated(self.entries()).contains(i);
            if distinct.all_entries_met() {
                (distinct, had_repeats)
            } else {
                let after = distinct.without(distinct.unused(), Map::empty());
                (
                    after,
                    had_repeats || (exists|i: int| distinct.unused().contains(i))
                        || after.transparency_palette != distinct.transparency_palette,
                )
            }
        }
    }

    /// Palette reduction can read the image: it has a palette, whole lines, if any of 2, 4 or 8 bits
    /// per pixel, and of the packed ones no more bits in a line than can be counted.
    pub open spec fn palette_readable(self) -> bool {
        &&& self.has_palette()
        &&& self.whole_lines()
        &&& self.lines().len() > 0 ==> self.ihdr.bit_depth == BitDepth::Two || self.ihdr.bit_depth
            == BitDepth::Four || self.ihdr.bit_depth == BitDepth::Eight
        &&& self.ihdr.bit_depth != BitDepth::Eight ==> forall|i: int|
            0 <= i < self.lines().len() ==> (#[trigger] self.lines()[i]).data.len() * 8
                <= usize::MAX
    }
}

pub proof fn lemma_first_equal(entries: Seq<Seq<u8>>, entry: Seq<u8>, from: int, at: int)
    requires
        0 <= from <= at < entries.len(),
        entries[at] == entry,
    ensures
        from <= first_equal(entries, entry, from) <= at,
        entries[first_equal(entries, entry, from)] == entry,
        forall|j: int| from <= j < first_equal(entries, entry, from) ==> entries[j] != entry,
    decreases entries.len() - from,
{
    if entries[from] != entry {
        lemma_first_equal(entries, entry, from + 1, at);
    }
}

/// The first entry like a given one is no repeat.
pub proof fn lemma_first_is_no_repeat(entries: Seq<Seq<u8>>, i: int)
    requires
        0 <= i < entries.len(),
    ensures
        0 <= first_like(entries, i) <= i,
        entries[first_like(entries, i)] == entries[i],
        first_like(entries, first_like(entries, i)) == first_like(entries, i),
{
    lemma_first_equal(entries, entries[i], 0, i);
    lemma_first_equal(entries, entries[i], 0, first_like(entries, i));
}

proof fn lemma_flat(list: Seq<Seq<u8>>)
    requires
        forall|i: int| 0 <= i < list.len() ==> (#[trigger] list[i]).len() == 3,
    ensures
        flat(list).len() == 3 * list.len(),
        forall|i: int|
            0 <= i < list.len() ==> flat(list).subrange(3 * i, 3 * i + 3) == #[trigger] list[i],
    decreases list.len(),
{
    if list.len() > 0 {
        let head = list.drop_last();
        assert forall|i: int| 0 <= i < head.len() implies (#[trigger] head[i]).len() == 3 by {
            assert(head[i] == list[i]);
        }
        lemma_flat(head);
        assert(list.last() == list[list.len() - 1]);
        assert forall|i: int| 0 <= i < list.len() implies flat(list).subrange(3 * i, 3 * i + 3)
            == #[trigger] list[i] by {
            if i < head.len() {
                assert(head[i] == list[i]);
                assert(flat(list).subrange(3 * i, 3 * i + 3) =~= flat(head).subrange(
                    3 * i,
                    3 * i + 3,
                ));
            } else {
                assert(flat(list).subrange(3 * i, 3 * i + 3) =~= list.last());
            }
        }
    }
}

proof fn lemma_trimmed(alphas: Seq<u8>, i: int)
    ensures
        opacity(trimmed(alphas), i) == opacity(alphas, i),
    decreases alphas.len(),
{
    if alphas.len() > 0 && alphas.last() == 255 {
        lemma_trimmed(alphas.drop_last(), i);
    }
}

/// Trimming leaves a list as it is, or makes it shorter.
proof fn lemma_trimmed_len(alphas: Seq<u8>)
    ensures
        trimmed(alphas).len() <= alphas.len(),
        trimmed(alphas).len() == alphas.len() ==> trimmed(alphas) == alphas,
    decreases alphas.len(),
{
    if alphas.len() > 0 && alphas.last() == 255 {
        lemma_trimmed_len(alphas.drop_last());
    }
}

/// Packing the indices of a byte gives back the byte.
proof fn lemma_packed_unpacked(depth: BitDepth, byte: u8)
    ensures
        packed(depth, unpacked(depth, byte)) == byte,
{
    assert((byte >> 4) << 4 | (byte & 15) == byte) by (bit_vector);
    assert(((byte >> 6) << 6) | (((byte >> 4) & 3) << 4) | (((byte >> 2) & 3) << 2) | (byte & 3)
        == byte) by (bit_vector);
}

/// Taking no entry out trims the list of opacities, and leaves the rest of the image as it is.
pub proof fn lemma_without_nothing(image: Image, removed: Set<int>)
    requires
        image.has_palette(),
        image.whole_lines(),
        forall|r: int| !removed.contains(r),
    ensures
        image.without(removed, Map::empty()) == (Image {
            transparency_palette: match image.transparency_palette {
                Some(alphas) => Some(trimmed(alphas)),
                None => None,
            },
            ..image
        }),
        image.without(removed, Map::empty()).listed_opacities() <= image.listed_opacities(),
        image.without(removed, Map::empty()).transparency_palette != image.transparency_palette
            <==> image.without(removed, Map::empty()).listed_opacities() < image.listed_opacities(),
{
    let depth = image.ihdr.bit_depth;
    let colors = image.palette_colors();
    let n = colors.len() as int;
    let after = image.without(removed, Map::empty());
    let map = moved(n, removed, Map::empty());
    assert forall|b: u8| !map.contains_key(b) by {
        lemma_removed_none(removed, b as int);
    }
    let lines = image.lines();
    let new_lines = renumber_lines(depth, map, lines);
    assert forall|k: int| 0 <= k < lines.len() implies new_lines[k] == lines[k] by {
        let data = lines[k].data;
        assert(new_lines[k].data =~= data) by {
            assert forall|i: int| 0 <= i < data.len() implies new_lines[k].data[i] == data[i] by {
                let indices = unpacked(depth, data[i]);
                assert(indices.map_values(|b: u8| stand_in(map, b)) =~= indices);
                lemma_packed_unpacked(depth, data[i]);
            }
        }
    }
    assert(new_lines =~= lines);
    lines_make_up_raw_data(image.ihdr, image.raw, 0, None);
    assert(image.raw.skip(0) =~= image.raw);
    lemma_kept_all(colors, removed, n);
    assert(colors.take(n) =~= colors);
    assert forall|i: int| 0 <= i < colors.len() implies (#[trigger] colors[i]).len() == 3 by {}
    lemma_flat(colors);
    let palette = image.palette->0;
    assert(flat(colors) =~= palette) by {
        assert forall|k: int| 0 <= k < palette.len() implies flat(colors)[k] == palette[k] by {
            let i = k / 3;
            assert(flat(colors).subrange(3 * i, 3 * i + 3) == colors[i]);
            assert(flat(colors).subrange(3 * i, 3 * i + 3)[k - 3 * i] == flat(colors)[k]);
            assert(colors[i][k - 3 * i] == palette[k]);
        }
    }
    if let Some(alphas) = image.transparency_palette {
        lemma_kept_all(alphas, removed, alphas.len() as int);
        assert(alphas.take(alphas.len() as int) =~= alphas);
        lemma_trimmed_len(alphas);
    }
}

/// Opacities keep their place beside the colours that stay.
proof fn lemma_kept_opacity(alphas: Seq<u8>, removed: Set<int>, i: int)
    requires
        0 <= i,
        !removed.contains(i),
    ensures
        opacity(kept(alphas, removed, alphas.len() as int), new_index(removed, i)) == opacity(
            alphas,
            i,
        ),
{
    let n = alphas.len() as int;
    lemma_kept_len(alphas, removed, n);
    if i < n {
        lemma_kept_index(alphas, removed, n, i);
    } else {
        lemma_removed_below_mono(removed, n, i);
    }
}

/// The entries of the image with some taken out are those that stay.
pub proof fn lemma_entries_without(image: Image, removed: Set<int>, replaced: Map<u8, u8>)
    requires
        image.has_palette(),
    ensures
        image.without(removed, replaced).has_palette(),
        image.without(removed, replaced).entries() == kept(
            image.entries(),
            removed,
            image.entries().len() as int,
        ),
{
    let colors = image.palette_colors();
    let n = colors.len() as int;
    let after = image.without(removed, replaced);
    let stay = kept(colors, removed, n);
    let entries = kept(image.entries(), removed, n);
    lemma_kept_len(colors, removed, n);
    lemma_kept_len(image.entries(), removed, n);
    lemma_removed_below_bound(removed, n);
    assert forall|j: int| 0 <= j < stay.len() implies (#[trigger] stay[j]).len() == 3 by {
        let i = lemma_kept_source(colors, removed, n, j);
    }
    lemma_flat(stay);
    assert(after.palette_colors() =~= stay) by {
        assert forall|j: int| 0 <= j < stay.len() implies after.palette_colors()[j] == stay[j] by {
            assert(stay[j].len() == 3);
        }
    }
    assert(after.entries() =~= entries) by {
        assert forall|j: int| 0 <= j < entries.len() implies after.entries()[j] == entries[j] by {
            let i = lemma_kept_source(colors, removed, n, j);
            lemma_kept_index(image.entries(), removed, n, i);
            if let Some(alphas) = image.transparency_palette {
                lemma_kept_opacity(alphas, removed, i);
                lemma_trimmed(kept(alphas, removed, alphas.len() as int), j);
            }
        }
    }
}

/// Renumbering leaves the shape of the lines as it is.
pub proof fn lemma_lines_without(image: Image, removed: Set<int>, replaced: Map<u8, u8>)
    requires
        image.whole_lines(),
    ensures
        image.without(removed, replaced).whole_lines(),
        image.without(removed, replaced).lines() == renumber_lines(
            image.ihdr.bit_depth,
            moved(image.palette_colors().len() as int, removed, replaced),
            image.lines(),
        ),
{
    let map = moved(image.palette_colors().len() as int, removed, replaced);
    let lines = renumber_lines(image.ihdr.bit_depth, map, image.lines());
    let raw = join(lines);
    assert(raw.skip(0) =~= raw);
    lemma_relayout(image.ihdr, image.raw, 0, None, raw, lines);
}

/// A byte with each of its indices renumbered.
fn renumber(depth: BitDepth, map: &HashMap<u8, u8>, byte: u8) -> (new_byte: u8)
    ensures
        new_byte == renumber_byte(depth, map@, byte),
{
    match depth {
        BitDepth::Four => {
            let upper: u8 = look_up(map, byte >> 4u8);
            let lower: u8 = look_up(map, byte & 15);
            (upper << 4u8) | lower
        },
        BitDepth::Two => {
            let one: u8 = look_up(map, byte >> 6u8);
            let two: u8 = look_up(map, (byte >> 4u8) & 3);
            let three: u8 = look_up(map, (byte >> 2u8) & 3);
            let four: u8 = look_up(map, byte & 3);
            (one << 6u8) | (two << 4u8) | (three << 2u8) | four
        },
        _ => look_up(map, byte),
    }
}

/// The new index, or the old one where it does not move.
fn look_up(map: &HashMap<u8, u8>, index: u8) -> (new_index: u8)
    ensures
        new_index == stand_in(map@, index),
{
    match map.get(&index) {
        Some(new_idx) => *new_idx,
        None => index,
    }
}

proof fn lemma_sorted_indices(indices: Seq<u8>, sorted: Seq<u8>)
    requires
        indices.no_duplicates(),
        sorted.to_multiset() == indices.to_multiset(),
        forall|i: int, j: int| 0 <= i < j < sorted.len() ==> sorted[i] >= sorted[j],
    ensures
        index_set(sorted) == index_set(indices),
        forall|i: int, j: int| 0 <= i < j < sorted.len() ==> sorted[i] > sorted[j],
{
    broadcast use vstd::seq_lib::group_to_multiset_ensures;

    indices.lemma_multiset_has_no_duplicates();
    sorted.lemma_multiset_has_no_duplicates_conv();
    assert forall|i: int| index_set(sorted).contains(i) <==> index_set(indices).contains(i) by {
        if index_set(sorted).contains(i) {
            let k = choose|k: int| 0 <= k < sorted.len() && #[trigger] sorted[k] == i;
            assert(sorted.contains(sorted[k]));
            assert(sorted.to_multiset().count(sorted[k]) > 0);
            assert(indices.contains(sorted[k]));
        }
        if index_set(indices).contains(i) {
            let k = choose|k: int| 0 <= k < indices.len() && #[trigger] indices[k] == i;
            assert(indices.contains(indices[k]));
            assert(indices.to_multiset().count(indices[k]) > 0);
            assert(sorted.contains(indices[k]));
        }
    }
    assert(index_set(sorted) =~= index_set(indices));
}

/// A map that is `after` for the keys behind `idx` and before `i`, and `before` for all others.
spec fn between(
    map: Map<u8, u8>,
    before: Map<u8, u8>,
    after: Map<u8, u8>,
    idx: int,
    i: int,
) -> bool {
    forall|b: u8|
        #![trigger map.contains_key(b)]
        if idx < b < i {
            map.contains_key(b) && map[b] == after[b]
        } else {
            map.contains_key(b) == before.contains_key(b) && (before.contains_key(b) ==> map[b]
                == before[b])
        }
}

proof fn lemma_between_step(
    map: Map<u8, u8>,
    before: Map<u8, u8>,
    after: Map<u8, u8>,
    idx: int,
    key: u8,
)
    requires
        idx < key,
        between(map, before, after, idx, key as int),
    ensures
        between(map.insert(key, after[key]), before, after, idx, key + 1),
{
    let next = map.insert(key, after[key]);
    assert forall|b: u8| #[trigger] next.contains_key(b) implies if idx < b < key + 1 {
        next[b] == after[b]
    } else {
        before.contains_key(b) && next[b] == before[b]
    } by {
        if b != key {
            assert(map.contains_key(b));
        }
    }
    assert forall|b: u8| !(#[trigger] next.contains_key(b)) implies !(idx < b < key + 1)
        && !before.contains_key(b) by {
        assert(!map.contains_key(b));
    }
}

/// Moves all indices behind `idx` that were not below it down by one.
fn close_gap(
    index_map: &mut HashMap<u8, u8>,
    idx: u8,
    count: usize,
    Ghost(removed): Ghost<Set<int>>,
    Ghost(replaced): Ghost<Map<u8, u8>>,
)
    requires
        idx < count <= 256,
        old(index_map)@ == moved(count as int, removed, replaced),
        forall|r: int| #[trigger] removed.contains(r) ==> idx < r < count,
        forall|b: u8| #[trigger]
            replaced.contains_key(b) ==> b < count && replaced[b] < b && replaced[b] != idx
                && !removed.contains(replaced[b] as int),
    ensures
        final(index_map)@ == moved(count as int, removed.insert(idx as int), replaced),
{
    broadcast use vstd::std_specs::hash::group_hash_axioms;

    let ghost before = index_map@;
    let ghost after = moved(count as int, removed.insert(idx as int), replaced);
    let mut i: usize = idx as usize + 1;
    while i < count
        invariant
            idx < i <= count <= 256,
            before == moved(count as int, removed, replaced),
            after == moved(count as int, removed.insert(idx as int), replaced),
            forall|r: int| #[trigger] removed.contains(r) ==> idx < r < count,
            forall|b: u8| #[trigger]
                replaced.contains_key(b) ==> b < count && replaced[b] < b && replaced[b] != idx
                    && !removed.contains(replaced[b] as int),
            between(index_map@, before, after, idx as int, i as int),
        decreases count - i,
    {
        let key: u8 = i as u8;
        let existing: u8 = look_up(index_map, key);
        proof {
            lemma_moved_step(count as int, removed, replaced, idx as int, key);
            assert(index_map@.contains_key(key) == before.contains_key(key));
        }
        let value: u8 = if existing >= idx {
            existing - 1
        } else {
            existing
        };
        let ghost current = index_map@;
        index_map.insert(key, value);
        proof {
            assert(after.contains_key(key) && after[key] == value);
            lemma_between_step(current, before, after, idx as int, key);
        }
        i = i + 1;
    }
    assert forall|b: u8| #[trigger] index_map@.contains_key(b) == after.contains_key(b) && (
    index_map@.contains_key(b) ==> index_map@[b] == after[b]) by {
        if b < count {
            lemma_moved_step(count as int, removed, replaced, idx as int, b);
        }
        assert(index_map@.contains_key(b) == before.contains_key(b) || idx < b < count);
    }
    assert(index_map@.dom() =~= after.dom());
    assert(index_map@ =~= after);
}

impl PngData {
    /// Takes palette entries out of the image and renumbers the indices in its data.
    fn do_palette_reduction(
        &mut self,
        indices: &[u8],
        index_map: &mut HashMap<u8, u8>,
        indexed_palette: &mut Vec<Vec<u8>>,
    )
        requires
            old(self)@.palette_readable(),
            contents(old(indexed_palette)@) == old(self)@.entries(),
            indices@.no_duplicates(),
            forall|k: int| 0 <= k < indices@.len() ==> #[trigger] indices@[k] < old(
                self,
            )@.entries().len(),
            forall|b: u8| #[trigger]
                old(index_map)@.contains_key(b) ==> {
                    &&& index_set(indices@).contains(b as int)
                    &&& old(index_map)@[b] < b
                    &&& !index_set(indices@).contains(old(index_map)@[b] as int)
                },
        ensures
            final(self)@ == old(self)@.without(index_set(indices@), old(index_map)@),
            final(self)@.palette_readable(),
            contents(final(indexed_palette)@) == final(self)@.entries(),
            final(index_map)@ == Map::<u8, u8>::empty(),
    {
        broadcast use vstd::std_specs::hash::group_hash_axioms;

        let ghost image = self@;
        let ghost replaced = index_map@;
        let ghost entries = image.entries();
        let ghost all_removed = index_set(indices@);
        let original_len: usize = indexed_palette.len();
        assert(original_len == entries.len() <= 256);
        let has_alpha: bool = self.transparency_palette.is_some();
        let mut alpha: Vec<u8> = match self.transparency_palette.take() {
            Some(alpha) => alpha,
            None => Vec::new(),
        };
        let ghost alphas = alpha@;
        let sorted: Vec<u8> = sorted_descending(indices);
        let mut k: usize = 0;
        let ghost mut removed: Set<int> = Set::empty();
        proof {
            lemma_sorted_indices(indices@, sorted@);
            lemma_removed_none_all(removed);
            lemma_kept_all(entries, removed, entries.len() as int);
            lemma_kept_all(alphas, removed, alphas.len() as int);
            assert(entries.take(entries.len() as int) =~= entries);
            assert(alphas.take(alphas.len() as int) =~= alphas);
            assert(index_map@ =~= moved(original_len as int, removed, replaced));
            assert(removed =~= index_set(sorted@.take(0)));
        }
        while k < sorted.len()
            invariant
                k <= sorted.len(),
                original_len == entries.len() <= 256,
                all_removed == index_set(sorted@),
                forall|i: int, j: int| 0 <= i < j < sorted@.len() ==> sorted@[i] > sorted@[j],
                forall|r: int| #[trigger] all_removed.contains(r) ==> 0 <= r < original_len,
                forall|b: u8| #[trigger]
                    replaced.contains_key(b) ==> {
                        &&& all_removed.contains(b as int)
                        &&& replaced[b] < b
                        &&& !all_removed.contains(replaced[b] as int)
                    },
                removed == index_set(sorted@.take(k as int)),
                index_map@ == moved(original_len as int, removed, replaced),
                contents(indexed_palette@) == kept(entries, removed, entries.len() as int),
                alpha@ == kept(alphas, removed, alphas.len() as int),
            decreases sorted.len() - k,
        {
            let idx: u8 = sorted[k];
            let ghost before = indexed_palette@;
            proof {
                assert(all_removed.contains(idx as int));
                assert forall|r: int| #[trigger] removed.contains(r) implies idx < r < original_len by {
                    let j = choose|j: int|
                        0 <= j < sorted@.take(k as int).len() && #[trigger] sorted@.take(
                            k as int,
                        )[j] == r;
                    assert(sorted@[j] == r);
                    assert(all_removed.contains(r));
                }
                lemma_kept_remove(entries, removed, idx as int, entries.len() as int);
                lemma_kept_len(alphas, removed, alphas.len() as int);
                lemma_removed_above(removed, idx as int, alphas.len() as int);
                if idx < alphas.len() {
                    lemma_kept_remove(alphas, removed, idx as int, alphas.len() as int);
                } else {
                    lemma_kept_beyond(alphas, removed, idx as int, alphas.len() as int);
                }
                assert forall|b: u8| #[trigger] replaced.contains_key(b) implies b < original_len
                    && replaced[b] < b && replaced[b] != idx && !removed.contains(
                    replaced[b] as int,
                ) by {
                    if removed.contains(replaced[b] as int) {
                        let j = choose|j: int|
                            0 <= j < sorted@.take(k as int).len() && #[trigger] sorted@.take(
                                k as int,
                            )[j] == replaced[b] as int;
                        assert(sorted@[j] == replaced[b]);
                    }
                }
            }
            close_gap(index_map, idx, original_len, Ghost(removed), Ghost(replaced));
            assert(contents(before).len() == before.len());
            let _ = indexed_palette.remove(idx as usize);
            assert(contents(indexed_palette@) =~= contents(before).remove(idx as int));
            if (idx as usize) < alpha.len() {
                let _ = alpha.remove(idx as usize);
            }
            proof {
                removed = removed.insert(idx as int);
                assert(removed =~= index_set(sorted@.take(k + 1))) by {
                    assert forall|r: int| removed.contains(r) <==> index_set(
                        sorted@.take(k + 1),
                    ).contains(r) by {
                        let longer = sorted@.take(k + 1);
                        let shorter = sorted@.take(k as int);
                        if r == idx as int {
                            assert(longer[k as int] == r);
                        }
                        if index_set(shorter).contains(r) {
                            let j = choose|j: int|
                                0 <= j < shorter.len() && #[trigger] shorter[j] == r;
                            assert(longer[j] == r);
                        }
                        if index_set(longer).contains(r) {
                            let j = choose|j: int|
                                0 <= j < longer.len() && #[trigger] longer[j] == r;
                            if j < k {
                                assert(shorter[j] == r);
                            }
                        }
                    }
                }
            }
            k = k + 1;
        }
        assert(sorted@.take(k as int) =~= sorted@);
        let ghost map = moved(original_len as int, all_removed, replaced);
        while alpha.len() > 0 && alpha[alpha.len() - 1] == 255
            invariant
                trimmed(alpha@) == trimmed(kept(alphas, all_removed, alphas.len() as int)),
            ensures
                alpha@ == trimmed(kept(alphas, all_removed, alphas.len() as int)),
            decreases alpha.len(),
        {
            assert(alpha@.subrange(0, alpha@.len() - 1) =~= alpha@.drop_last());
            let _ = alpha.pop();
        }
        // Reassign data bytes to new indices
        let new_data: Vec<u8> = self.renumbered_data(index_map);
        index_map.clear();
        self.raw_data = new_data;
        let mut new_palette: Vec<u8> = Vec::new();
        let mut j: usize = 0;
        let ghost stay = kept(image.palette_colors(), all_removed, original_len as int);
        proof {
            assert(stay.take(0) =~= Seq::<Seq<u8>>::empty());
            lemma_kept_len(image.palette_colors(), all_removed, original_len as int);
            lemma_kept_len(entries, all_removed, original_len as int);
        }
        while j < indexed_palette.len()
            invariant
                j <= indexed_palette.len(),
                image.has_palette(),
                entries == image.entries(),
                original_len == entries.len(),
                stay == kept(image.palette_colors(), all_removed, original_len as int),
                stay.len() == indexed_palette.len(),
                contents(indexed_palette@) == kept(entries, all_removed, original_len as int),
                new_palette@ == flat(stay.take(j as int)),
            decreases indexed_palette.len() - j,
        {
            proof {
                let i = lemma_kept_source(entries, all_removed, original_len as int, j as int);
                assert(contents(indexed_palette@)[j as int] == indexed_palette@[j as int]@);
                lemma_kept_index(image.palette_colors(), all_removed, original_len as int, i);
                assert(stay[j as int] == image.palette_colors()[i]);
                assert(indexed_palette@[j as int]@.take(3) =~= stay[j as int]);
                assert(stay.take(j + 1).drop_last() =~= stay.take(j as int));
            }
            let entry: &Vec<u8> = &indexed_palette[j];
            new_palette.push(entry[0]);
            new_palette.push(entry[1]);
            new_palette.push(entry[2]);
            assert(new_palette@ =~= flat(stay.take(j as int)) + stay[j as int]);
            j = j + 1;
        }
        assert(stay.take(j as int) =~= stay);
        self.palette = Some(new_palette);
        if has_alpha {
            self.transparency_palette = Some(alpha);
        }
        proof {
            assert(self@ =~= image.without(all_removed, replaced));
            lemma_entries_without(image, all_removed, replaced);
            lemma_lines_without(image, all_removed, replaced);
            assert forall|i: int| 0 <= i < self@.lines().len() && image.ihdr.bit_depth
                != BitDepth::Eight implies (#[trigger] self@.lines()[i]).data.len() * 8
                <= usize::MAX by {
                assert(image.lines()[i].data.len() * 8 <= usize::MAX);
            }
        }
    }

    /// The raw data with all indices renumbered.
    fn renumbered_data(&self, index_map: &HashMap<u8, u8>) -> (new_data: Vec<u8>)
        requires
            self@.whole_lines(),
        ensures
            new_data@ == join(
                renumber_lines(self@.ihdr.bit_depth, index_map@, self@.lines()),
            ),
    {
        let depth: BitDepth = self.ihdr_data.bit_depth;
        let mut new_data: Vec<u8> = Vec::with_capacity(self.raw_data.len());
        let mut lines = self.scan_lines();
        let ghost all = join(renumber_lines(depth, index_map@, self@.lines()));
        assert(new_data@ + all =~= all);
        loop
            invariant
                lines.wf(),
                new_data@ + join(renumber_lines(depth, index_map@, lines.remaining())) == all,
            ensures
                new_data@ == all,
            decreases lines.remaining().len(),
        {
            let ghost before = lines.remaining();
            let ghost done = new_data@;
            match lines.next() {
                None => {
                    assert(done + join(renumber_lines(depth, index_map@, before)) =~= done);
                    break;
                },
                Some(line) => {
                    new_data.push(line.filter);
                    let ghost start = new_data@;
                    let ghost bytes = line.data@.map_values(
                        |b: u8| renumber_byte(depth, index_map@, b),
                    );
                    let mut i: usize = 0;
                    while i < line.data.len()
                        invariant
                            i <= line.data.len(),
                            bytes == line.data@.map_values(
                                |b: u8| renumber_byte(depth, index_map@, b),
                            ),
                            new_data@ == start + bytes.take(i as int),
                        decreases line.data.len() - i,
                    {
                        let new_byte: u8 = renumber(depth, index_map, line.data[i]);
                        new_data.push(new_byte);
                        assert(bytes.take(i + 1) =~= bytes.take(i as int).push(new_byte));
                        i = i + 1;
                    }
                    proof {
                        let after = renumber_lines(depth, index_map@, before);
                        assert(bytes.take(i as int) =~= bytes);
                        assert(after.drop_first() =~= renumber_lines(
                            depth,
                            index_map@,
                            before.drop_first(),
                        ));
                        assert(new_data@ + join(after.drop_first()) =~= done + join(after));
                    }
                },
            }
        }
        new_data
    }
}

proof fn lemma_removed_none_all(removed: Set<int>)
    requires
        removed == Set::<int>::empty(),
    ensures
        forall|i: int| #[trigger] removed_below(removed, i) == 0,
{
    assert forall|i: int| #[trigger] removed_below(removed, i) == 0 by {
        lemma_removed_none(removed, i);
    }
}

/// 1 for a set bit.
pub open spec fn bit_value(bit: bool) -> int {
    if bit {
        1
    } else {
        0
    }
}

/// The number that some bits of a list spell, the most significant one first.
pub open spec fn bits_value(bits: Seq<bool>, from: int, count: int) -> int
    decreases count,
{
    if count <= 0 {
        0
    } else {
        2 * bits_value(bits, from, count - 1) + bit_value(bits[from + count - 1])
    }
}

/// The number that `count` bits spell.
fn index_from_bits(bits: &Vec<bool>, from: usize, count: usize) -> (index: u8)
    requires
        count <= 8,
        from + count <= bits.len(),
    ensures
        index == bits_value(bits@, from as int, count as int),
{
    let mut current: u8 = 0;
    let mut i: usize = 0;
    let ghost mut bound: int = 1;
    proof {
        vstd::arithmetic::power2::lemma2_to64();
    }
    while i < count
        invariant
            i <= count <= 8,
            from + count <= bits.len(),
            current == bits_value(bits@, from as int, i as int),
            current < bound,
            bound == vstd::arithmetic::power2::pow2(i as nat),
            bound <= 256,
        decreases count - i,
    {
        proof {
            vstd::arithmetic::power2::lemma2_to64();
            vstd::arithmetic::power2::lemma_pow2_unfold((i + 1) as nat);
            bound = 2 * bound;
            assert(i < 7 ==> bound <= 128);
        }
        current = 2 * current + if bits[from + i] {
            1
        } else {
            0
        };
        i = i + 1;
    }
    current
}

/// The indices that a byte holds are those that its bits spell.
proof fn lemma_byte_indices(bits: Seq<bool>, from: int, byte: u8)
    requires
        0 <= from,
        from + 8 <= bits.len(),
        forall|k: int| 0 <= k < 8 ==> #[trigger] bits[from + k] == bit_at(byte, k),
    ensures
        bits_value(bits, from, 4) == byte >> 4,
        bits_value(bits, from + 4, 4) == byte & 15,
        bits_value(bits, from, 2) == byte >> 6,
        bits_value(bits, from + 2, 2) == (byte >> 4) & 3,
        bits_value(bits, from + 4, 2) == (byte >> 2) & 3,
        bits_value(bits, from + 6, 2) == byte & 3,
{
    reveal_with_fuel(bits_value, 5);
    let b0: u8 = if byte & (0x80u8 >> 0u8) != 0 { 1 } else { 0 };
    let b1: u8 = if byte & (0x80u8 >> 1u8) != 0 { 1 } else { 0 };
    let b2: u8 = if byte & (0x80u8 >> 2u8) != 0 { 1 } else { 0 };
    let b3: u8 = if byte & (0x80u8 >> 3u8) != 0 { 1 } else { 0 };
    let b4: u8 = if byte & (0x80u8 >> 4u8) != 0 { 1 } else { 0 };
    let b5: u8 = if byte & (0x80u8 >> 5u8) != 0 { 1 } else { 0 };
    let b6: u8 = if byte & (0x80u8 >> 6u8) != 0 { 1 } else { 0 };
    let b7: u8 = if byte & (0x80u8 >> 7u8) != 0 { 1 } else { 0 };
    assert(bits[from + 0] == bit_at(byte, 0));
    assert(bits[from + 1] == bit_at(byte, 1));
    assert(bits[from + 2] == bit_at(byte, 2));
    assert(bits[from + 3] == bit_at(byte, 3));
    assert(bits[from + 4] == bit_at(byte, 4));
    assert(bits[from + 5] == bit_at(byte, 5));
    assert(bits[from + 6] == bit_at(byte, 6));
    assert(bits[from + 7] == bit_at(byte, 7));
    assert(byte >> 4 == 8 * b0 + 4 * b1 + 2 * b2 + b3 && byte & 15 == 8 * b4 + 4 * b5 + 2 * b6 + b7
        && byte >> 6 == 2 * b0 + b1 && (byte >> 4) & 3 == 2 * b2 + b3 && (byte >> 2) & 3 == 2 * b4
        + b5 && byte & 3 == 2 * b6 + b7) by (bit_vector)
        requires
            b0 == (if byte & (0x80u8 >> 0u8) != 0 { 1u8 } else { 0u8 }),
            b1 == (if byte & (0x80u8 >> 1u8) != 0 { 1u8 } else { 0u8 }),
            b2 == (if byte & (0x80u8 >> 2u8) != 0 { 1u8 } else { 0u8 }),
            b3 == (if byte & (0x80u8 >> 3u8) != 0 { 1u8 } else { 0u8 }),
            b4 == (if byte & (0x80u8 >> 4u8) != 0 { 1u8 } else { 0u8 }),
            b5 == (if byte & (0x80u8 >> 5u8) != 0 { 1u8 } else { 0u8 }),
            b6 == (if byte & (0x80u8 >> 6u8) != 0 { 1u8 } else { 0u8 }),
            b7 == (if byte & (0x80u8 >> 7u8) != 0 { 1u8 } else { 0u8 }),
    ;
}

/// The indices in a byte, one by one.
proof fn lemma_byte_set(depth: BitDepth, byte: u8)
    ensures
        indices_in_byte(depth, byte) == match depth {
            BitDepth::Four => set![byte >> 4, byte & 15],
            BitDepth::Two => set![byte >> 6, (byte >> 4) & 3, (byte >> 2) & 3, byte & 3],
            _ => set![byte],
        },
{
    let indices = unpacked(depth, byte);
    let listed = match depth {
        BitDepth::Four => set![byte >> 4, byte & 15],
        BitDepth::Two => set![byte >> 6, (byte >> 4) & 3, (byte >> 2) & 3, byte & 3],
        _ => set![byte],
    };
    assert forall|b: u8| #[trigger] indices.to_set().contains(b) == listed.contains(b) by {
        assert(indices.contains(indices[0]));
        assert(depth == BitDepth::Four ==> indices.contains(indices[1]));
        assert(depth == BitDepth::Two ==> indices.contains(indices[1]) && indices.contains(
            indices[2],
        ) && indices.contains(indices[3]));
    }
    assert(indices.to_set() =~= listed);
}

/// Adds the indices of a line to those already met.
fn meet_indices(depth: BitDepth, data: &[u8], seen: &mut HashSet<u8>)
    requires
        depth == BitDepth::Two || depth == BitDepth::Four || depth == BitDepth::Eight,
        depth != BitDepth::Eight ==> data@.len() * 8 <= usize::MAX,
    ensures
        final(seen)@ == old(seen)@ + indices_in_line(depth, data@),
{
    broadcast use vstd::std_specs::hash::group_hash_axioms;

    let ghost before = seen@;
    let bits: Vec<bool> = if depth == BitDepth::Eight {
        Vec::new()
    } else {
        bit_list(&bits_from_bytes(data))
    };
    let mut i: usize = 0;
    proof {
        assert(data@.take(0) =~= Seq::<u8>::empty());
        assert(before + indices_in_line(depth, data@.take(0)) =~= before);
    }
    while i < data.len()
        invariant
            i <= data.len(),
            depth == BitDepth::Two || depth == BitDepth::Four || depth == BitDepth::Eight,
            depth != BitDepth::Eight ==> data@.len() * 8 <= usize::MAX && bits@ == Seq::new(
                data@.len() * 8,
                |k: int| bit_at(data@[k / 8], k % 8),
            ),
            seen@ == before + indices_in_line(depth, data@.take(i as int)),
        decreases data.len() - i,
    {
        let byte: u8 = data[i];
        let ghost met = seen@;
        if depth == BitDepth::Eight {
            seen.insert(byte);
        } else {
            let from: usize = 8 * i;
            proof {
                assert forall|k: int| 0 <= k < 8 implies #[trigger] bits@[from + k] == bit_at(
                    byte,
                    k,
                ) by {
                    assert((from + k) / 8 == i && (from + k) % 8 == k);
                }
                lemma_byte_indices(bits@, from as int, byte);
            }
            if depth == BitDepth::Four {
                seen.insert(index_from_bits(&bits, from, 4));
                seen.insert(index_from_bits(&bits, from + 4, 4));
            } else {
                seen.insert(index_from_bits(&bits, from, 2));
                seen.insert(index_from_bits(&bits, from + 2, 2));
                seen.insert(index_from_bits(&bits, from + 4, 2));
                seen.insert(index_from_bits(&bits, from + 6, 2));
            }
        }
        proof {
            lemma_byte_set(depth, byte);
            assert(seen@ =~= met + indices_in_byte(depth, byte));
            assert(data@.take(i + 1).drop_last() =~= data@.take(i as int));
            assert(seen@ =~= before + indices_in_line(depth, data@.take(i + 1)));
        }
        i = i + 1;
    }
    assert(data@.take(i as int) =~= data@);
}

/// The indices of the entries that repeat an earlier one, and for each of them the index of the
/// first entry like it.
fn find_repeats(indexed_palette: &Vec<Vec<u8>>) -> (found: (Vec<u8>, HashMap<u8, u8>))
    requires
        indexed_palette@.len() <= 256,
    ensures
        found.0@.no_duplicates(),
        index_set(found.0@) == repeated(contents(indexed_palette@)),
        found.1@ == repeats_of(contents(indexed_palette@)),
{
    broadcast use vstd::std_specs::hash::group_hash_axioms;

    let ghost entries = contents(indexed_palette@);
    let mut duplicates: Vec<u8> = Vec::new();
    let mut index_map: HashMap<u8, u8> = HashMap::new();
    let mut i: usize = 0;
    while i < indexed_palette.len()
        invariant
            i <= indexed_palette.len() <= 256,
            entries == contents(indexed_palette@),
            forall|k: int|
                0 <= k < duplicates@.len() ==> #[trigger] duplicates@[k] < i && repeated(
                    entries,
                ).contains(duplicates@[k] as int),
            forall|r: int|
                0 <= r < i && #[trigger] repeated(entries).contains(r) ==> exists|k: int|
                    0 <= k < duplicates@.len() && #[trigger] duplicates@[k] == r,
            duplicates@.no_duplicates(),
            forall|b: u8|
                #![trigger index_map@.contains_key(b)]
                index_map@.contains_key(b) == (b < i && repeats_of(entries).contains_key(b)),
            forall|b: u8|
                #![trigger index_map@[b]]
                index_map@.contains_key(b) ==> index_map@[b] == repeats_of(entries)[b],
        decreases indexed_palette.len() - i,
    {
        let first: usize = first_like_entry(indexed_palette, i);
        let ghost before = duplicates@;
        if first < i {
            duplicates.push(i as u8);
            index_map.insert(i as u8, first as u8);
            proof {
                assert(repeated(entries).contains(i as int));
                assert forall|r: int|
                    0 <= r < i + 1 && #[trigger] repeated(entries).contains(r) implies exists|
                    k: int,
                |
                    0 <= k < duplicates@.len() && #[trigger] duplicates@[k] == r by {
                    if r < i {
                        let k = choose|k: int| 0 <= k < before.len() && #[trigger] before[k] == r;
                        assert(duplicates@[k] == r);
                    } else {
                        assert(duplicates@[before.len() as int] == r);
                    }
                }
            }
        }
        i = i + 1;
    }
    proof {
        assert(index_set(duplicates@) =~= repeated(entries));
        assert(index_map@ =~= repeats_of(entries));
    }
    (duplicates, index_map)
}

/// The index of the first entry like entry `i`.
fn first_like_entry(indexed_palette: &Vec<Vec<u8>>, i: usize) -> (first: usize)
    requires
        i < indexed_palette@.len(),
    ensures
        first == first_like(contents(indexed_palette@), i as int),
        first <= i,
{
    let ghost entries = contents(indexed_palette@);
    let mut j: usize = 0;
    proof {
        lemma_first_equal(entries, entries[i as int], 0, i as int);
    }
    while !same_bytes(indexed_palette[j].as_slice(), indexed_palette[i].as_slice())
        invariant
            j <= i < indexed_palette@.len(),
            entries == contents(indexed_palette@),
            first_equal(entries, entries[i as int], j as int) == first_like(entries, i as int),
        ensures
            j <= i,
            first_equal(entries, entries[i as int], j as int) == first_like(entries, i as int),
            entries[j as int] == entries[i as int],
        decreases i - j,
    {
        assert(entries[j as int] != entries[i as int]);
        j = j + 1;
    }
    j
}

impl PngData {
    /// The palette as a list of entries: a colour each, with its opacity if the image lists
    /// opacities.
    fn indexed_palette(&self) -> (entries: Vec<Vec<u8>>)
        requires
            self@.has_palette(),
        ensures
            contents(entries@) == self@.entries(),
    {
        let mut entries: Vec<Vec<u8>> = Vec::new();
        if let Some(palette) = &self.palette {
            let count: usize = palette.len() / 3;
            let mut i: usize = 0;
            while i < count
                invariant
                    self.palette == Some(*palette),
                    self@.has_palette(),
                    count == self@.palette_colors().len(),
                    count == palette@.len() / 3,
                    i <= count,
                    contents(entries@) == self@.entries().take(i as int),
                decreases count - i,
            {
                let mut entry: Vec<u8> = Vec::new();
                entry.push(palette[3 * i]);
                entry.push(palette[3 * i + 1]);
                entry.push(palette[3 * i + 2]);
                assert(entry@ =~= self@.palette_colors()[i as int]);
                if let Some(alphas) = &self.transparency_palette {
                    let alpha: u8 = if i < alphas.len() {
                        alphas[i]
                    } else {
                        255
                    };
                    entry.push(alpha);
                }
                let ghost before = entries@;
                entries.push(entry);
                proof {
                    assert(entry@ == self@.entries()[i as int]);
                    assert(contents(entries@) =~= contents(before).push(entry@));
                    assert(self@.entries().take(i + 1) =~= self@.entries().take(i as int).push(
                        entry@,
                    ));
                }
                i = i + 1;
            }
            assert(self@.entries().take(i as int) =~= self@.entries());
        }
        entries
    }

    /// The number of opacities that are listed for the palette.
    fn listed_opacities(&self) -> (count: usize)
        ensures
            count == self@.listed_opacities(),
    {
        match &self.transparency_palette {
            Some(alphas) => alphas.len(),
            None => 0,
        }
    }

    /// Attempt to reduce the number of colors in the palette
    /// Returns true if the palette was reduced, its list of opacities included, false otherwise
    pub fn reduce_palette(&mut self) -> (reduced: bool)
        requires
            old(self)@.ihdr.color_type == ColorType::Indexed && old(self)@.ihdr.bit_depth
                != BitDepth::One ==> old(self)@.palette_readable(),
        ensures
            (final(self)@, reduced) == old(self)@.palette_reduced(),
    {
        broadcast use vstd::std_specs::hash::group_hash_axioms;

        if self.ihdr_data.color_type != ColorType::Indexed {
            // Can't reduce if there is no palette
            return false;
        }
        if self.ihdr_data.bit_depth == BitDepth::One {
            // Gains from 1-bit images will be at most 1 byte
            // Not worth the CPU time
            return false;
        }
        let ghost image = self@;
        let mut indexed_palette: Vec<Vec<u8>> = self.indexed_palette();
        assert(indexed_palette@.len() == contents(indexed_palette@).len());
        // Find duplicate entries in the palette
        let (duplicates, mut index_map): (Vec<u8>, HashMap<u8, u8>) = find_repeats(
            &indexed_palette,
        );
        let had_repeats: bool = duplicates.len() > 0;
        let ghost entries = image.entries();
        proof {
            if had_repeats {
                assert(duplicates@[0] == duplicates@[0] as int);
                assert(index_set(duplicates@).contains(duplicates@[0] as int));
                assert(repeated(entries).contains(duplicates@[0] as int));
            } else {
                assert forall|i: int| !repeated(entries).contains(i) by {
                    assert(!index_set(duplicates@).contains(i));
                }
                assert(index_map@ =~= Map::<u8, u8>::empty()) by {
                    assert forall|b: u8| !index_map@.contains_key(b) by {
                        assert(!repeated(entries).contains(b as int));
                    }
                }
            }
        }
        // Remove duplicates from the data
        if had_repeats {
            proof {
                assert forall|k: int| 0 <= k < duplicates@.len() implies #[trigger] duplicates@[k]
                    < entries.len() by {
                    assert(index_set(duplicates@).contains(duplicates@[k] as int));
                    assert(repeated(entries).contains(duplicates@[k] as int));
                }
                assert forall|b: u8| #[trigger] index_map@.contains_key(b) implies index_set(
                    duplicates@,
                ).contains(b as int) && index_map@[b] < b && !index_set(duplicates@).contains(
                    index_map@[b] as int,
                ) by {
                    lemma_first_is_no_repeat(entries, b as int);
                    assert(repeated(entries).contains(b as int));
                    assert(!repeated(entries).contains(first_like(entries, b as int)));
                }
            }
            self.do_palette_reduction(
                duplicates.as_slice(),
                &mut index_map,
                &mut indexed_palette,
            );
        }
        let ghost distinct = self@;
        assert(distinct == image.without_repeats());
        assert(distinct.entries().len() == indexed_palette@.len()) by {
            assert(contents(indexed_palette@).len() == indexed_palette@.len());
        }
        // Find palette entries that are never used
        let mut seen: HashSet<u8> = HashSet::new();
        let depth: BitDepth = self.ihdr_data.bit_depth;
        let mut covered: bool = false;
        let mut lines = self.scan_lines();
        let ghost mut done: int = 0;
        proof {
            assert(distinct.lines().take(0) =~= Seq::<Line>::empty());
            assert(distinct.lines().skip(0) =~= distinct.lines());
        }
        while !covered
            invariant
                lines.wf(),
                distinct.palette_readable(),
                depth == distinct.ihdr.bit_depth,
                indexed_palette@.len() == distinct.entries().len(),
                0 <= done <= distinct.lines().len(),
                lines.remaining() == distinct.lines().skip(done),
                seen@ == indices_in(depth, distinct.lines().take(done)),
                covered ==> distinct.all_entries_met(),
                !covered ==> forall|k: int|
                    1 <= k <= done ==> #[trigger] indices_in(
                        depth,
                        distinct.lines().take(k),
                    ).len() != distinct.entries().len(),
            ensures
                covered == distinct.all_entries_met(),
                !covered ==> seen@ == indices_in(depth, distinct.lines()),
            decreases distinct.lines().len() - done,
        {
            match lines.next() {
                None => {
                    assert(done == distinct.lines().len());
                    assert(distinct.lines().take(done) =~= distinct.lines());
                    break;
                },
                Some(line) => {
                    proof {
                        assert(distinct.lines()[done].data.len() == line.data@.len());
                    }
                    meet_indices(depth, line.data.as_slice(), &mut seen);
                    proof {
                        let next = distinct.lines().take(done + 1);
                        assert(next.drop_last() =~= distinct.lines().take(done));
                        assert(next.last() == line@);
                        assert(lines.remaining() =~= distinct.lines().skip(done + 1));
                        done = done + 1;
                        assert(seen@ == indices_in(depth, distinct.lines().take(done)));
                    }
                    if seen.len() == indexed_palette.len() {
                        // Exit early if no further possible optimizations
                        covered = true;
                    }
                },
            }
        }
        if covered {
            return had_repeats;
        }
        let count: usize = indexed_palette.len();
        let mut unused: Vec<u8> = Vec::new();
        let mut i: usize = 0;
        while i < count
            invariant
                i <= count <= 256,
                seen@ == indices_in(depth, distinct.lines()),
                forall|k: int|
                    0 <= k < unused@.len() ==> #[trigger] unused@[k] < i && !seen@.contains(
                        unused@[k],
                    ),
                forall|r: int|
                    0 <= r < i && !(#[trigger] seen@.contains(r as u8)) ==> exists|k: int|
                        0 <= k < unused@.len() && #[trigger] unused@[k] == r,
                unused@.no_duplicates(),
            decreases count - i,
        {
            let ghost before = unused@;
            if !seen.contains(&(i as u8)) {
                unused.push(i as u8);
                assert forall|r: int| 0 <= r < i + 1 && !(#[trigger] seen@.contains(
                    r as u8,
                )) implies exists|k: int|
                    0 <= k < unused@.len() && #[trigger] unused@[k] == r by {
                    if r < i {
                        let k = choose|k: int| 0 <= k < before.len() && #[trigger] before[k] == r;
                        assert(unused@[k] == r);
                    } else {
                        assert(unused@[before.len() as int] == r);
                    }
                }
            }
            i = i + 1;
        }
        proof {
            assert forall|r: int| index_set(unused@).contains(r) <==> distinct.unused().contains(
                r,
            ) by {
                if distinct.unused().contains(r) {
                    assert(!seen@.contains(r as u8));
                }
            }
            assert(index_set(unused@) =~= distinct.unused());
            if unused@.len() > 0 {
                assert(index_set(unused@).contains(unused@[0] as int));
                assert(distinct.unused().contains(unused@[0] as int));
            } else {
                assert forall|r: int| !distinct.unused().contains(r) by {
                    assert(!index_set(unused@).contains(r));
                }
            }
        }
        let listed: usize = self.listed_opacities();
        // Remove unused palette indices
        self.do_palette_reduction(unused.as_slice(), &mut index_map, &mut indexed_palette);
        proof {
            if unused@.len() == 0 {
                lemma_without_nothing(distinct, index_set(unused@));
            }
        }
        had_repeats || unused.len() > 0 || self.listed_opacities() < listed
    }
}

} // verus!
