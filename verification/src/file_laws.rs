//! Which chunks a written file holds, and what is made of the chunks of a file that is read.

use vstd::prelude::*;
use vstd::utf8::encode_utf8;
use crate::chunks::{chunk_at, chunk_bytes, lemma_known_names, signature, ChunkAt};
use crate::colors::ColorType;
use crate::decode::{
    aux_of, chunks_in, content_of, holds, idat_of, image_in, lemma_position, parts_in, position,
    raw_in_is_readable, with_chunk, without_chunk,
};
use crate::encode::{
    after_palette, chosen, chunks_bytes, lemma_chunks_bytes_add, lemma_one_chunk, NamedChunk,
};
use crate::format_laws::{checksum_stands_at, chunk_stands_at, written_chunks_stand};
use crate::headers::{ihdr_bytes, ihdr_read};
use crate::outside::zlib_inflate;
use crate::png::Image;
use crate::round_trip::{distinct_names, ordinary_chunk};
use crate::scan_laws::{line_offset, whole_lines_are_those_that_take_up_the_raw_data};

verus! {

/// The names of the auxiliary chunks that stand between the palette and the image data.
pub open spec fn stands_late(name: Seq<char>) -> bool {
    name == "bKGD"@ || name == "hIST"@ || name == "tRNS"@
}

/// How many of the first `count` chunks stand late, or do not.
pub open spec fn counted(aux: Seq<NamedChunk>, count: int, late: bool) -> nat
    decreases count,
{
    if count <= 0 {
        0
    } else {
        counted(aux, count - 1, late) + if stands_late(aux[count - 1].0) == late {
            1nat
        } else {
            0
        }
    }
}

proof fn lemma_chosen_place(aux: Seq<NamedChunk>, late: bool, n: int, i: int)
    requires
        0 <= n <= aux.len(),
    ensures
        chosen(aux.take(n), late).len() == counted(aux, n, late),
        0 <= i < n && stands_late(aux[i].0) == late ==> counted(aux, i, late) < counted(
            aux,
            n,
            late,
        ) && chosen(aux.take(n), late)[counted(aux, i, late) as int] == aux[i],
    decreases n,
{
    if n > 0 {
        let part = aux.take(n);
        assert(part.drop_last() =~= aux.take(n - 1));
        assert(part.last() == aux[n - 1]);
        assert(after_palette(part.last().0) == stands_late(aux[n - 1].0));
        lemma_chosen_place(aux, late, n - 1, i);
        lemma_chosen_place(aux, late, n - 1, n - 1);
    } else {
        assert(aux.take(n) =~= Seq::<NamedChunk>::empty());
    }
}

impl Image {
    /// The number of chunks for the palette and the transparency.
    pub open spec fn palette_chunk_count(self) -> nat {
        if self.palette is Some {
            if self.transparency_palette is Some {
                2
            } else {
                1
            }
        } else if self.transparency_pixel is Some {
            1
        } else {
            0
        }
    }
}

/// The chunks of a file in their places: IHDR first, then the auxiliary chunks in their order but
/// for the late ones, then the palette, its opacities or the transparent pixel, then the late
/// auxiliary chunks in their order, and IDAT last.
pub proof fn written_chunks_have_their_places(image: Image, i: int)
    ensures
        ({
            let list = image.file_chunks();
            let n = image.aux.len() as int;
            let early = counted(image.aux, n, false) as int;
            let late = counted(image.aux, n, true) as int;
            let middle = image.palette_chunk_count() as int;
            &&& early + late == n
            &&& list.len() == 2 + n + middle
            &&& list[0] == ("IHDR"@, ihdr_bytes(image.ihdr))
            &&& list[1 + n + middle] == ("IDAT"@, image.idat)
            &&& image.palette is Some ==> list[1 + early] == ("PLTE"@, image.palette->0)
            &&& image.palette is Some && image.transparency_palette is Some ==> list[2 + early] == (
                "tRNS"@,
                image.transparency_palette->0,
            )
            &&& image.palette is None && image.transparency_pixel is Some ==> list[1 + early] == (
                "tRNS"@,
                image.transparency_pixel->0,
            )
            &&& 0 <= i < n && !stands_late(image.aux[i].0) ==> list[1 + counted(
                image.aux,
                i,
                false,
            ) as int] == image.aux[i] && counted(image.aux, i, false) < early
            &&& 0 <= i < n && stands_late(image.aux[i].0) ==> list[1 + early + middle + counted(
                image.aux,
                i,
                true,
            )] == image.aux[i] && counted(image.aux, i, true) < late
        }),
{
    let n = image.aux.len() as int;
    let aux = image.aux;
    assert(aux.take(n) =~= aux);
    lemma_chosen_place(aux, false, n, i);
    lemma_chosen_place(aux, true, n, i);
    lemma_counted(aux, n);
}

proof fn lemma_counted(aux: Seq<NamedChunk>, n: int)
    requires
        0 <= n,
    ensures
        counted(aux, n, false) + counted(aux, n, true) == n,
    decreases n,
{
    if n > 0 {
        lemma_counted(aux, n - 1);
    }
}

/// Where chunk `k` of a list starts, if the list starts at `start`.
pub open spec fn place_of(list: Seq<NamedChunk>, start: int, k: int) -> int
    decreases k,
{
    if k <= 0 {
        start
    } else {
        place_of(list, start, k - 1) + 12 + list[k - 1].1.len()
    }
}

proof fn lemma_place(list: Seq<NamedChunk>, start: int, k: int)
    requires
        forall|i: int| 0 <= i < list.len() ==> ordinary_chunk(#[trigger] list[i]),
        0 <= k <= list.len(),
    ensures
        start + chunks_bytes(list.take(k)).len() == place_of(list, start, k),
    decreases k,
{
    if k > 0 {
        lemma_place(list, start, k - 1);
        let (name, content) = list[k - 1];
        assert(ordinary_chunk(list[k - 1]));
        assert(list.take(k).drop_last() =~= list.take(k - 1));
        assert(chunk_bytes(encode_utf8(name), content).len() == content.len() + 12) by {
            written_chunks_stand(Seq::empty(), encode_utf8(name), content, Seq::empty());
        }
    } else {
        assert(list.take(0) =~= Seq::<NamedChunk>::empty());
    }
}

proof fn lemma_split(list: Seq<NamedChunk>, k: int)
    requires
        0 <= k < list.len(),
    ensures
        chunks_bytes(list) == chunks_bytes(list.take(k)) + chunk_bytes(
            encode_utf8(list[k].0),
            list[k].1,
        ) + chunks_bytes(list.skip(k + 1)),
{
    let (head, rest) = (list.take(k), list.skip(k + 1));
    let one = seq![list[k]];
    assert(list =~= (head + one) + rest);
    lemma_chunks_bytes_add(head + one, rest);
    lemma_chunks_bytes_add(head, one);
    lemma_one_chunk(list[k].0, list[k].1);
}

proof fn lemma_regroup(a: Seq<u8>, b: Seq<u8>, c: Seq<u8>, d: Seq<u8>, e: Seq<u8>)
    ensures
        a + (b + c + d) + e == (a + b) + c + (d + e),
{
    assert(a + (b + c + d) + e =~= (a + b) + c + (d + e));
}

proof fn lemma_chunks_stand(before: Seq<u8>, list: Seq<NamedChunk>, after: Seq<u8>, k: int)
    requires
        forall|i: int| 0 <= i < list.len() ==> ordinary_chunk(#[trigger] list[i]),
        0 <= k < list.len(),
    ensures
        ({
            let data = before + chunks_bytes(list) + after;
            let at = place_of(list, before.len() as int, k);
            &&& chunk_stands_at(data, at, encode_utf8(list[k].0), list[k].1)
            &&& checksum_stands_at(data, at, encode_utf8(list[k].0), list[k].1)
        }),
{
    let head = chunks_bytes(list.take(k));
    let rest = chunks_bytes(list.skip(k + 1));
    let first = chunk_bytes(encode_utf8(list[k].0), list[k].1);
    assert(ordinary_chunk(list[k]));
    lemma_place(list, before.len() as int, k);
    lemma_split(list, k);
    lemma_regroup(before, head, first, rest, after);
    written_chunks_stand(before + head, encode_utf8(list[k].0), list[k].1, rest + after);
}

proof fn lemma_end_stands(image: Image)
    requires
        forall|i: int|
            0 <= i < image.file_chunks().len() ==> ordinary_chunk(
                #[trigger] image.file_chunks()[i],
            ),
    ensures
        ({
            let data = image.file_bytes();
            let end = place_of(image.file_chunks(), 8, image.file_chunks().len() as int);
            &&& chunk_stands_at(data, end, encode_utf8("IEND"@), Seq::empty())
            &&& checksum_stands_at(data, end, encode_utf8("IEND"@), Seq::empty())
            &&& data.len() == end + 12
        }),
{
    let list = image.file_chunks();
    let key = encode_utf8("IEND"@);
    let last = chunk_bytes(key, Seq::empty());
    let before = signature() + chunks_bytes(list);
    lemma_known_names();
    lemma_place(list, 8, list.len() as int);
    assert(list.take(list.len() as int) =~= list);
    written_chunks_stand(before, key, Seq::empty(), Seq::empty());
    assert(before + last + Seq::<u8>::empty() =~= before + last);
}

/// A written file starts with the eight bytes that every PNG file starts with. After them its
/// chunks stand one behind the other, each with its checksum, and behind the last one stands the
/// chunk that ends the file.
pub proof fn written_files_are_their_chunks(image: Image, k: int)
    requires
        forall|i: int|
            0 <= i < image.file_chunks().len() ==> ordinary_chunk(
                #[trigger] image.file_chunks()[i],
            ),
        0 <= k < image.file_chunks().len(),
    ensures
        ({
            let data = image.file_bytes();
            let list = image.file_chunks();
            let at = place_of(list, 8, k);
            let end = place_of(list, 8, list.len() as int);
            &&& data[0] == 137 && data[1] == 80 && data[2] == 78 && data[3] == 71
            &&& data[4] == 13 && data[5] == 10 && data[6] == 26 && data[7] == 10
            &&& chunk_stands_at(data, at, encode_utf8(list[k].0), list[k].1)
            &&& checksum_stands_at(data, at, encode_utf8(list[k].0), list[k].1)
            &&& chunk_stands_at(data, end, encode_utf8("IEND"@), Seq::empty())
            &&& checksum_stands_at(data, end, encode_utf8("IEND"@), Seq::empty())
            &&& data.len() == end + 12
        }),
{
    let list = image.file_chunks();
    let last = chunk_bytes(encode_utf8("IEND"@), Seq::empty());
    lemma_chunks_stand(signature(), list, last, k);
    lemma_end_stands(image);
    lemma_signature(chunks_bytes(list), last);
}

/// The eight bytes that every PNG file starts with.
proof fn lemma_signature(a: Seq<u8>, b: Seq<u8>)
    ensures
        ({
            let data = signature() + a + b;
            &&& data.len() >= 8
            &&& data[0] == 137 && data[1] == 80 && data[2] == 78 && data[3] == 71
            &&& data[4] == 13 && data[5] == 10 && data[6] == 26 && data[7] == 10
        }),
{
    let data = signature() + a + b;
    assert(data.take(8) =~= signature());
    assert(data[0] == signature()[0] && data[1] == signature()[1]);
}

/// The content of the last chunk with the given name, if there is one.
pub open spec fn last_content(chunks: Seq<NamedChunk>, name: Seq<char>) -> Option<Seq<u8>>
    decreases chunks.len(),
{
    if chunks.len() == 0 {
        None
    } else if chunks.last().0 == name {
        Some(chunks.last().1)
    } else {
        last_content(chunks.drop_last(), name)
    }
}

/// The contents of all chunks with the given name, one behind the other.
pub open spec fn all_contents(chunks: Seq<NamedChunk>, name: Seq<char>) -> Seq<u8>
    decreases chunks.len(),
{
    if chunks.len() == 0 {
        Seq::empty()
    } else {
        (if chunks[0].0 == name {
            chunks[0].1
        } else {
            Seq::empty()
        }) + all_contents(chunks.drop_first(), name)
    }
}

proof fn lemma_all_contents_push(chunks: Seq<NamedChunk>, chunk: NamedChunk, name: Seq<char>)
    ensures
        all_contents(chunks.push(chunk), name) == all_contents(chunks, name) + (if chunk.0 == name {
            chunk.1
        } else {
            Seq::empty()
        }),
    decreases chunks.len(),
{
    let longer = chunks.push(chunk);
    if chunks.len() == 0 {
        assert(longer.drop_first() =~= Seq::<NamedChunk>::empty());
        assert(all_contents(longer.drop_first(), name) =~= Seq::<u8>::empty());
        assert(all_contents(longer, name) =~= all_contents(chunks, name) + (if chunk.0 == name {
            chunk.1
        } else {
            Seq::empty()
        }));
    } else {
        assert(longer.drop_first() =~= chunks.drop_first().push(chunk));
        lemma_all_contents_push(chunks.drop_first(), chunk, name);
        assert(all_contents(longer, name) =~= all_contents(chunks, name) + (if chunk.0 == name {
            chunk.1
        } else {
            Seq::empty()
        }));
    }
}

proof fn lemma_idat(chunks: Seq<NamedChunk>)
    ensures
        idat_of(chunks) == all_contents(chunks, "IDAT"@),
    decreases chunks.len(),
{
    if chunks.len() > 0 {
        lemma_idat(chunks.drop_last());
        lemma_all_contents_push(chunks.drop_last(), chunks.last(), "IDAT"@);
        assert(chunks.drop_last().push(chunks.last()) =~= chunks);
        assert(idat_of(chunks) =~= all_contents(chunks, "IDAT"@));
    }
}

proof fn lemma_aux_contents(chunks: Seq<NamedChunk>, name: Seq<char>)
    ensures
        distinct_names(aux_of(chunks)),
        content_of(aux_of(chunks), name) == if name == "IDAT"@ {
            None
        } else {
            last_content(chunks, name)
        },
    decreases chunks.len(),
{
    if chunks.len() > 0 {
        let head = chunks.drop_last();
        let (last_name, content) = chunks.last();
        let before = aux_of(head);
        lemma_aux_contents(head, name);
        lemma_position(before, name, 0);
        lemma_position(before, last_name, 0);
        if last_name != "IDAT"@ {
            let after = with_chunk(before, last_name, content);
            lemma_position(after, name, 0);
            let at = position(before, last_name, 0);
            assert forall|i: int, j: int|
                0 <= i < j < after.len() implies (#[trigger] after[i]).0 != (
            #[trigger] after[j]).0 by {
                if j < before.len() {
                    assert(before[i].0 != before[j].0);
                }
            }
            if last_name == name {
                assert(after[at] == (name, content));
                let p = position(after, name, 0);
                assert(p == at) by {
                    if p < at {
                        assert(after[p].0 != after[at].0);
                    }
                }
            } else {
                let p = position(before, name, 0);
                let q = position(after, name, 0);
                if p < before.len() {
                    assert(after[p] == before[p]);
                    if q < p {
                        assert(after[q].0 != after[p].0);
                    }
                } else if q < after.len() {
                    if q < before.len() {
                        assert(after[q].0 == before[q].0);
                    }
                }
            }
        }
    }
}

/// Taking a chunk out leaves the contents under all other names.
proof fn lemma_without(list: Seq<NamedChunk>, name: Seq<char>, other: Seq<char>)
    requires
        distinct_names(list),
    ensures
        distinct_names(without_chunk(list, name)),
        content_of(without_chunk(list, name), other) == if other == name {
            None
        } else {
            content_of(list, other)
        },
{
    let after = without_chunk(list, name);
    let at = position(list, name, 0);
    lemma_position(list, name, 0);
    lemma_position(list, other, 0);
    lemma_position(after, other, 0);
    if holds(list, name) {
        assert forall|i: int| 0 <= i < after.len() implies #[trigger] after[i] == list[if i < at {
            i
        } else {
            i + 1
        }] by {}
        assert forall|i: int, j: int| 0 <= i < j < after.len() implies (#[trigger] after[i]).0 != (
        #[trigger] after[j]).0 by {
            let k = if i < at {
                i
            } else {
                i + 1
            };
            let l = if j < at {
                j
            } else {
                j + 1
            };
            assert(list[k].0 != list[l].0);
        }
        let p = position(list, other, 0);
        let q = position(after, other, 0);
        if other == name {
            if q < after.len() {
                let k = if q < at {
                    q
                } else {
                    q + 1
                };
                assert(list[k].0 == name && k != at);
                if k < at {
                    assert(list[k].0 != list[at].0);
                } else {
                    assert(list[at].0 != list[k].0);
                }
            }
        } else {
            if p < list.len() {
                let m = if p < at {
                    p
                } else {
                    p - 1
                };
                assert(after[m] == list[p]);
                if q < m {
                    assert(after[q].0 != after[m].0);
                }
                assert(q == m);
            } else if q < after.len() {
                let k = if q < at {
                    q
                } else {
                    q + 1
                };
                assert(list[k].0 == other);
            }
        }
    }
}

/// A file that can be read is made an image by its chunks: the image data is that of all IDAT chunks
/// in order; the headers, the palette and the transparency are those of the last chunks of their
/// names, the transparency for the palette of an indexed image and for a pixel of any other; and
/// each other name has the content of the last chunk of that name.
pub proof fn read_images_are_made_of_their_chunks(data: Seq<u8>, fix_errors: bool, name: Seq<char>)
    requires
        image_in(data, fix_errors) is Ok,
    ensures
        chunks_in(data, 8, fix_errors) is Ok,
        ({
            let image = image_in(data, fix_errors)->Ok_0;
            let chunks = chunks_in(data, 8, fix_errors)->Ok_0;
            let transparency = last_content(chunks, "tRNS"@);
            &&& image.idat == all_contents(chunks, "IDAT"@)
            &&& last_content(chunks, "IHDR"@) is Some
            &&& ihdr_read(last_content(chunks, "IHDR"@)->0) == Ok::<_, Seq<char>>(image.ihdr)
            &&& image.palette == last_content(chunks, "PLTE"@)
            &&& image.ihdr.color_type == ColorType::Indexed ==> image.transparency_palette
                == transparency && image.transparency_pixel is None
            &&& image.ihdr.color_type != ColorType::Indexed ==> image.transparency_pixel
                == transparency && image.transparency_palette is None
            &&& name != "IHDR"@ && name != "PLTE"@ && name != "tRNS"@ && name != "IDAT"@
                && last_content(chunks, name) is Some ==> image.aux.contains(
                (name, last_content(chunks, name)->0),
            )
            &&& forall|i: int|
                0 <= i < image.aux.len() && (#[trigger] image.aux[i]).0 == name ==> {
                    &&& name != "IHDR"@ && name != "PLTE"@ && name != "tRNS"@ && name != "IDAT"@
                    &&& last_content(chunks, name) == Some(image.aux[i].1)
                }
        }),
{
    let image = image_in(data, fix_errors)->Ok_0;
    let chunks = chunks_in(data, 8, fix_errors)->Ok_0;
    let all = aux_of(chunks);
    let first = without_chunk(all, "IHDR"@);
    let second = without_chunk(first, "PLTE"@);
    let third = without_chunk(second, "tRNS"@);
    lemma_known_names();
    lemma_idat(chunks);
    lemma_aux_contents(chunks, "IHDR"@);
    lemma_aux_contents(chunks, "PLTE"@);
    lemma_aux_contents(chunks, "tRNS"@);
    lemma_aux_contents(chunks, name);
    lemma_without(all, "IHDR"@, "PLTE"@);
    lemma_without(all, "IHDR"@, "tRNS"@);
    lemma_without(all, "IHDR"@, name);
    lemma_without(first, "PLTE"@, "tRNS"@);
    lemma_without(first, "PLTE"@, name);
    lemma_without(second, "tRNS"@, name);
    assert(image.aux == third);
    lemma_position(third, name, 0);
    assert forall|i: int| 0 <= i < third.len() && (#[trigger] third[i]).0 == name implies content_of(
        third,
        name,
    ) == Some(third[i].1) by {
        let p = position(third, name, 0);
        if p < i {
            assert(third[p].0 != third[i].0);
        }
    }
}

/// The index of the first chunk with the given name, or the length of the list.
pub open spec fn first_met(chunks: Seq<NamedChunk>, name: Seq<char>) -> int
    decreases chunks.len(),
{
    if chunks.len() == 0 || chunks[0].0 == name {
        0
    } else {
        1 + first_met(chunks.drop_first(), name)
    }
}

proof fn lemma_first_met(chunks: Seq<NamedChunk>, name: Seq<char>)
    ensures
        0 <= first_met(chunks, name) <= chunks.len(),
        first_met(chunks, name) < chunks.len() ==> chunks[first_met(chunks, name)].0 == name,
        forall|i: int| 0 <= i < first_met(chunks, name) ==> (#[trigger] chunks[i]).0 != name,
    decreases chunks.len(),
{
    if chunks.len() > 0 && chunks[0].0 != name {
        let rest = chunks.drop_first();
        lemma_first_met(rest, name);
        assert forall|i: int| 0 <= i < first_met(chunks, name) implies (#[trigger] chunks[i]).0
            != name by {
            if i > 0 {
                assert(rest[i - 1] == chunks[i]);
            }
        }
    }
}

proof fn lemma_first_met_push(chunks: Seq<NamedChunk>, chunk: NamedChunk, name: Seq<char>)
    ensures
        first_met(chunks, name) < chunks.len() ==> first_met(chunks.push(chunk), name) == first_met(
            chunks,
            name,
        ),
        first_met(chunks, name) == chunks.len() && chunk.0 == name ==> first_met(
            chunks.push(chunk),
            name,
        ) == chunks.len(),
{
    let longer = chunks.push(chunk);
    lemma_first_met(chunks, name);
    lemma_first_met(longer, name);
    let p = first_met(chunks, name);
    let q = first_met(longer, name);
    if p < chunks.len() {
        assert(longer[p].0 == name);
        if q < p {
            assert(chunks[q] == longer[q]);
        }
    } else if chunk.0 == name {
        assert(longer[chunks.len() as int].0 == name);
        if q < chunks.len() {
            assert(chunks[q] == longer[q]);
        }
    }
}

proof fn lemma_aux_order(chunks: Seq<NamedChunk>)
    ensures
        ({
            let aux = aux_of(chunks);
            &&& forall|i: int|
                0 <= i < aux.len() ==> first_met(chunks, (#[trigger] aux[i]).0) < chunks.len()
            &&& forall|i: int, j: int|
                0 <= i < j < aux.len() ==> first_met(chunks, (#[trigger] aux[i]).0) < first_met(
                    chunks,
                    (#[trigger] aux[j]).0,
                )
        }),
    decreases chunks.len(),
{
    if chunks.len() > 0 {
        let head = chunks.drop_last();
        let chunk = chunks.last();
        let before = aux_of(head);
        let after = aux_of(chunks);
        lemma_aux_order(head);
        lemma_aux_contents(head, chunk.0);
        lemma_position(before, chunk.0, 0);
        assert(head.push(chunk) =~= chunks);
        assert forall|i: int| 0 <= i < before.len() implies first_met(
            chunks,
            (#[trigger] before[i]).0,
        ) == first_met(head, before[i].0) by {
            lemma_first_met_push(head, chunk, before[i].0);
        }
        if chunk.0 != "IDAT"@ && !holds(before, chunk.0) {
            lemma_first_met(head, chunk.0);
            if first_met(head, chunk.0) < head.len() {
                lemma_last_content(head, chunk.0, first_met(head, chunk.0));
            }
            lemma_first_met_push(head, chunk, chunk.0);
            assert forall|i: int, j: int|
                0 <= i < j < after.len() implies first_met(chunks, (#[trigger] after[i]).0)
                < first_met(chunks, (#[trigger] after[j]).0) by {
                assert(after[i] == before[i]);
                if j < before.len() {
                    assert(after[j] == before[j]);
                }
            }
            assert forall|i: int| 0 <= i < after.len() implies first_met(
                chunks,
                (#[trigger] after[i]).0,
            ) < chunks.len() by {
                if i < before.len() {
                    assert(after[i] == before[i]);
                }
            }
        } else {
            assert(after.len() == before.len());
            assert forall|i: int| 0 <= i < after.len() implies (#[trigger] after[i]).0
                == before[i].0 by {}
        }
    }
}

proof fn lemma_last_content(chunks: Seq<NamedChunk>, name: Seq<char>, i: int)
    requires
        0 <= i < chunks.len(),
        chunks[i].0 == name,
    ensures
        last_content(chunks, name) is Some,
    decreases chunks.len(),
{
    if i < chunks.len() - 1 {
        lemma_last_content(chunks.drop_last(), name, i);
    }
}

/// The auxiliary chunks of an image that was read are in the order in which their names were first
/// met.
pub proof fn read_chunks_keep_their_order(data: Seq<u8>, fix_errors: bool, i: int, j: int)
    requires
        image_in(data, fix_errors) is Ok,
        0 <= i < j < image_in(data, fix_errors)->Ok_0.aux.len(),
    ensures
        ({
            let aux = image_in(data, fix_errors)->Ok_0.aux;
            let chunks = chunks_in(data, 8, fix_errors)->Ok_0;
            first_met(chunks, aux[i].0) < first_met(chunks, aux[j].0) < chunks.len()
        }),
{
    let chunks = chunks_in(data, 8, fix_errors)->Ok_0;
    let all = aux_of(chunks);
    let first = without_chunk(all, "IHDR"@);
    let second = without_chunk(first, "PLTE"@);
    let third = without_chunk(second, "tRNS"@);
    lemma_aux_order(chunks);
    let (a, b) = lemma_sources(second, "tRNS"@, i, j);
    let (c, d) = lemma_sources(first, "PLTE"@, a, b);
    let (e, f) = lemma_sources(all, "IHDR"@, c, d);
    assert(third[i] == all[e] && third[j] == all[f]);
}

/// Taking a chunk out keeps the order of the others.
proof fn lemma_sources(list: Seq<NamedChunk>, name: Seq<char>, i: int, j: int) -> (sources: (
    int,
    int,
))
    requires
        0 <= i < j < without_chunk(list, name).len(),
    ensures
        0 <= sources.0 < sources.1 < list.len(),
        without_chunk(list, name)[i] == list[sources.0],
        without_chunk(list, name)[j] == list[sources.1],
{
    let at = position(list, name, 0);
    lemma_position(list, name, 0);
    if holds(list, name) {
        (
            if i < at {
                i
            } else {
                i + 1
            },
            if j < at {
                j
            } else {
                j + 1
            },
        )
    } else {
        (i, j)
    }
}

/// The chunks from a place on are those that are read there, one behind the other, up to the end;
/// an error at any of them is the error of all.
pub proof fn chunks_follow_one_another(data: Seq<u8>, offset: int, fix_errors: bool)
    ensures
        match chunk_at(data, offset, fix_errors) {
            ChunkAt::End => chunks_in(data, offset, fix_errors) == Ok::<_, Seq<char>>(
                Seq::<NamedChunk>::empty(),
            ),
            ChunkAt::Bad(words) => chunks_in(data, offset, fix_errors) == Err::<
                Seq<NamedChunk>,
                _,
            >(words),
            ChunkAt::Chunk(name, content, end) => match chunks_in(data, offset, fix_errors) {
                Ok(list) => {
                    &&& list.len() > 0
                    &&& list[0] == (name, content)
                    &&& chunks_in(data, end, fix_errors) == Ok::<_, Seq<char>>(list.drop_first())
                },
                Err(words) => chunks_in(data, end, fix_errors) == Err::<Seq<NamedChunk>, _>(words),
            },
        },
{
    if let ChunkAt::Chunk(name, content, end) = chunk_at(data, offset, fix_errors) {
        if let Ok(rest) = chunks_in(data, end, fix_errors) {
            let list = chunks_in(data, offset, fix_errors)->Ok_0;
            assert(list.drop_first() =~= rest);
        }
    }
}

/// Why a file cannot be read: it does not start as every PNG file does, a chunk is bad, no IDAT chunk
/// has content, there is no IHDR chunk or it is bad, or the image data cannot be decompressed. The
/// first of these that holds is reported, and where none does, the file is read.
pub proof fn unreadable_files_are_told_apart(data: Seq<u8>, fix_errors: bool)
    ensures
        ({
            let starts = data.len() >= 8 && data[0] == 137 && data[1] == 80 && data[2] == 78
                && data[3] == 71 && data[4] == 13 && data[5] == 10 && data[6] == 26 && data[7]
                == 10;
            let result = image_in(data, fix_errors);
            if !starts {
                result == Err::<Image, _>("Invalid PNG header detected"@)
            } else {
                match chunks_in(data, 8, fix_errors) {
                    Err(words) => result == Err::<Image, _>(words),
                    Ok(chunks) => if all_contents(chunks, "IDAT"@).len() == 0 {
                        result == Err::<Image, _>("Image data was empty, skipping"@)
                    } else {
                        match last_content(chunks, "IHDR"@) {
                            None => result == Err::<Image, _>(
                                "Image header data was missing, skipping"@,
                            ),
                            Some(content) => match ihdr_read(content) {
                                Err(words) => result == Err::<Image, _>(words),
                                Ok(_) => match zlib_inflate(all_contents(chunks, "IDAT"@)) {
                                    None => result == Err::<Image, _>(
                                        "Image data could not be decompressed"@,
                                    ),
                                    Some(_) => result is Ok,
                                },
                            },
                        }
                    },
                }
            }
        }),
{
    if data.len() >= 8 {
        let start = data.take(8);
        let expected = signature();
        if data[0] == 137 && data[1] == 80 && data[2] == 78 && data[3] == 71 && data[4] == 13
            && data[5] == 10 && data[6] == 26 && data[7] == 10 {
            assert(start =~= expected);
        } else {
            assert(start[0] == data[0] && start[1] == data[1] && start[2] == data[2] && start[3]
                == data[3] && start[4] == data[4] && start[5] == data[5] && start[6] == data[6]
                && start[7] == data[7]);
            assert(start != expected);
        }
    }
    if let Ok(chunks) = chunks_in(data, 8, fix_errors) {
        lemma_known_names();
        lemma_idat(chunks);
        lemma_aux_contents(chunks, "IHDR"@);
    }
}

/// The decompressed image data of a file can be read exactly if its lines take up all of it and each
/// names one of the filters 0 to 4.
pub proof fn readable_raw_data_is_made_of_filtered_lines(data: Seq<u8>, fix_errors: bool)
    requires
        image_in(data, fix_errors) is Ok,
    ensures
        ({
            let image = image_in(data, fix_errors)->Ok_0;
            let raw = zlib_inflate(image.idat)->0;
            let lines = (Image { raw, ..image }).lines();
            raw_in_is_readable(data, fix_errors) <==> {
                &&& line_offset(lines, lines.len() as int) == raw.len()
                &&& forall|k: int| 0 <= k < lines.len() ==> (#[trigger] lines[k]).filter <= 4
            }
        }),
{
    let image = image_in(data, fix_errors)->Ok_0;
    let raw = zlib_inflate(image.idat)->0;
    let filtered = parts_in(data, fix_errors)->Ok_0.filtered_image(raw);
    let again = Image { raw, ..image };
    assert(again.lines() == filtered.lines());
    whole_lines_are_those_that_take_up_the_raw_data(again);
    assert(again.whole_lines() == filtered.whole_lines());
}

/// A file without raw data, because the rest of it cannot be read, is not refused for its lines.
pub proof fn unreadable_files_are_not_held_back(data: Seq<u8>, fix_errors: bool)
    requires
        image_in(data, fix_errors) is Err,
    ensures
        raw_in_is_readable(data, fix_errors),
{
}

} // verus!
