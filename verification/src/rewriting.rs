//! What becomes of an image that is read, written and read again.

use vstd::prelude::*;
use vstd::utf8::{decode_utf8_encode_utf8, encode_utf8};
use crate::chunks::{chunk_at, ChunkAt};
use crate::decode::{
    aux_of, chunks_in, content_of, holds, idat_of, image_in, lemma_position, parts_in, position,
    raw_in_is_readable, with_chunk, without_chunk,
};
use crate::encode::NamedChunk;
use crate::filtering::{plain_lines, unfiltered_image_has_plain_lines};
use crate::outside::zlib_inflate;
use crate::png::Image;
use crate::round_trip::{distinct_names, read_gives_back_what_was_written};

verus! {

proof fn lemma_idat_front(chunk: NamedChunk, rest: Seq<NamedChunk>)
    ensures
        idat_of(seq![chunk] + rest) == if chunk.0 == "IDAT"@ {
            chunk.1 + idat_of(rest)
        } else {
            idat_of(rest)
        },
    decreases rest.len(),
{
    let list = seq![chunk] + rest;
    if rest.len() == 0 {
        assert(list.drop_last() =~= Seq::<NamedChunk>::empty());
        assert(idat_of(list.drop_last()) == Seq::<u8>::empty());
        assert(Seq::<u8>::empty() + chunk.1 =~= chunk.1 + Seq::<u8>::empty());
        assert(rest =~= Seq::<NamedChunk>::empty());
    } else {
        assert(list.drop_last() =~= seq![chunk] + rest.drop_last());
        assert(list.last() == rest.last());
        lemma_idat_front(chunk, rest.drop_last());
        if chunk.0 == "IDAT"@ && rest.last().0 == "IDAT"@ {
            assert((chunk.1 + idat_of(rest.drop_last())) + rest.last().1 =~= chunk.1 + (idat_of(
                rest.drop_last(),
            ) + rest.last().1));
        }
    }
}

/// What is known of a chunk that was read from `len` bytes.
spec fn read_chunk(chunk: NamedChunk, len: int) -> bool {
    encode_utf8(chunk.0).len() == 4 && chunk.0 != "IEND"@ && chunk.1.len() + 12 <= len
}

proof fn lemma_chunks_read(data: Seq<u8>, offset: int, fix_errors: bool)
    requires
        0 <= offset <= data.len(),
        chunks_in(data, offset, fix_errors) is Ok,
    ensures
        ({
            let list = chunks_in(data, offset, fix_errors)->Ok_0;
            &&& idat_of(list).len() + 8 <= data.len() - offset
            &&& forall|i: int|
                0 <= i < list.len() ==> read_chunk(#[trigger] list[i], data.len() - offset)
        }),
    decreases data.len() - offset,
{
    broadcast use decode_utf8_encode_utf8;

    if let ChunkAt::Chunk(name, content, end) = chunk_at(data, offset, fix_errors) {
        lemma_chunks_read(data, end, fix_errors);
        let rest = chunks_in(data, end, fix_errors)->Ok_0;
        let list = chunks_in(data, offset, fix_errors)->Ok_0;
        lemma_idat_front((name, content), rest);
        assert forall|i: int| 0 <= i < list.len() implies read_chunk(
            #[trigger] list[i],
            data.len() - offset,
        ) by {
            if i == 0 {
                assert(encode_utf8(name) == data.subrange(offset + 4, offset + 8));
            } else {
                assert(list[i] == rest[i - 1]);
            }
        }
    }
}

/// Of a list of chunks with different names, each is a chunk that was read.
spec fn well_read(list: Seq<NamedChunk>, len: int) -> bool {
    distinct_names(list) && forall|i: int|
        0 <= i < list.len() ==> read_chunk(#[trigger] list[i], len) && list[i].0 != "IDAT"@
}

proof fn lemma_aux_well_read(chunks: Seq<NamedChunk>, len: int)
    requires
        forall|i: int| 0 <= i < chunks.len() ==> read_chunk(#[trigger] chunks[i], len),
    ensures
        well_read(aux_of(chunks), len),
    decreases chunks.len(),
{
    if chunks.len() > 0 {
        let head = chunks.drop_last();
        let chunk = chunks.last();
        assert forall|i: int| 0 <= i < head.len() implies read_chunk(#[trigger] head[i], len) by {
            assert(head[i] == chunks[i]);
        }
        lemma_aux_well_read(head, len);
        let before = aux_of(head);
        let at = position(before, chunk.0, 0);
        lemma_position(before, chunk.0, 0);
        assert(read_chunk(chunks[chunks.len() - 1], len));
        if chunk.0 != "IDAT"@ {
            let after = with_chunk(before, chunk.0, chunk.1);
            assert forall|i: int, j: int|
                0 <= i < j < after.len() implies (#[trigger] after[i]).0 != (
            #[trigger] after[j]).0 by {
                if j < before.len() {
                    assert(before[i].0 != before[j].0);
                }
            }
        }
    }
}

proof fn lemma_without_well_read(list: Seq<NamedChunk>, name: Seq<char>, len: int)
    requires
        well_read(list, len),
    ensures
        well_read(without_chunk(list, name), len),
        forall|i: int|
            0 <= i < without_chunk(list, name).len() ==> (#[trigger] without_chunk(
                list,
                name,
            )[i]).0 != name && list.contains(without_chunk(list, name)[i]),
        content_of(list, name) matches Some(content) ==> content.len() + 12 <= len,
{
    let at = position(list, name, 0);
    let after = without_chunk(list, name);
    lemma_position(list, name, 0);
    assert forall|i: int| 0 <= i < after.len() implies (#[trigger] after[i]).0 != name
        && list.contains(after[i]) && read_chunk(after[i], len) && after[i].0 != "IDAT"@ by {
        let k = if i < at {
            i
        } else {
            i + 1
        };
        if holds(list, name) {
            assert(after[i] == list[k]);
            assert(list[at].0 == name);
        } else {
            assert(after[i] == list[i]);
        }
    }
    assert forall|i: int, j: int| 0 <= i < j < after.len() implies (#[trigger] after[i]).0 != (
    #[trigger] after[j]).0 by {
        if holds(list, name) {
            let k = if i < at {
                i
            } else {
                i + 1
            };
            let l = if j < at {
                j
            } else {
                j + 1
            };
            assert(after[i] == list[k] && after[j] == list[l]);
        }
    }
}

/// What is known of the auxiliary chunks and the other parts of an image that was read.
proof fn lemma_image_read(data: Seq<u8>, fix_errors: bool)
    requires
        image_in(data, fix_errors) is Ok,
    ensures
        ({
            let image = image_in(data, fix_errors)->Ok_0;
            let len = data.len() as int;
            &&& 0 < image.idat.len() && image.idat.len() + 16 <= len
            &&& well_read(image.aux, len)
            &&& forall|i: int|
                0 <= i < image.aux.len() ==> (#[trigger] image.aux[i]).0 != "IHDR"@
                    && image.aux[i].0 != "PLTE"@ && image.aux[i].0 != "tRNS"@
            &&& image.palette matches Some(p) ==> p.len() + 12 <= len
            &&& image.transparency_pixel matches Some(t) ==> t.len() + 12 <= len
            &&& image.transparency_palette matches Some(t) ==> t.len() + 12 <= len
        }),
{
    let image = image_in(data, fix_errors)->Ok_0;
    let chunks = chunks_in(data, 8, fix_errors)->Ok_0;
    let len = data.len() as int;
    lemma_chunks_read(data, 8, fix_errors);
    assert forall|i: int| 0 <= i < chunks.len() implies read_chunk(#[trigger] chunks[i], len) by {
        assert(read_chunk(chunks[i], len - 8));
    }
    lemma_aux_well_read(chunks, len);
    let all = aux_of(chunks);
    let first = without_chunk(all, "IHDR"@);
    let second = without_chunk(first, "PLTE"@);
    let third = without_chunk(second, "tRNS"@);
    lemma_without_well_read(all, "IHDR"@, len);
    lemma_without_well_read(first, "PLTE"@, len);
    lemma_without_well_read(second, "tRNS"@, len);
    assert(image.aux == third);
    assert forall|i: int| 0 <= i < third.len() implies (#[trigger] third[i]).0 != "IHDR"@
        && third[i].0 != "PLTE"@ && third[i].0 != "tRNS"@ by {
        let j = choose|j: int| 0 <= j < second.len() && second[j] == third[i];
        let k = choose|k: int| 0 <= k < first.len() && first[k] == second[j];
        assert(first[k].0 != "IHDR"@);
        assert(second[j].0 != "PLTE"@);
    }
}

/// The auxiliary chunks of an image that was read have different names.
pub proof fn read_images_have_distinct_names(data: Seq<u8>, fix_errors: bool)
    requires
        image_in(data, fix_errors) is Ok,
    ensures
        distinct_names(image_in(data, fix_errors)->Ok_0.aux),
{
    lemma_image_read(data, fix_errors);
}

/// The chunks of an image that was read from a file of less than 4 GiB are not too long to be
/// written.
pub proof fn contents_of_small_files_fit(data: Seq<u8>, fix_errors: bool)
    requires
        data.len() <= u32::MAX,
        image_in(data, fix_errors) is Ok,
    ensures
        image_in(data, fix_errors)->Ok_0.contents_fit(),
{
    let image = image_in(data, fix_errors)->Ok_0;
    lemma_image_read(data, fix_errors);
    assert forall|i: int| 0 <= i < image.aux.len() implies (#[trigger] image.aux[i]).1.len() + 4
        <= u32::MAX by {
        assert(read_chunk(image.aux[i], data.len() as int));
    }
}

/// An image that was read can be written, unless a chunk has become too long, or the image has a
/// palette and a transparent pixel, or a transparency palette and no palette.
pub proof fn read_images_are_writable(data: Seq<u8>, fix_errors: bool)
    requires
        image_in(data, fix_errors) is Ok,
        image_in(data, fix_errors)->Ok_0.contents_fit(),
        image_in(data, fix_errors)->Ok_0.transparency_fits(),
    ensures
        image_in(data, fix_errors)->Ok_0.writable(),
{
    let image = image_in(data, fix_errors)->Ok_0;
    lemma_image_read(data, fix_errors);
    assert forall|i: int| 0 <= i < image.aux.len() implies {
        let name = (#[trigger] image.aux[i]).0;
        &&& encode_utf8(name).len() == 4
        &&& name != "IHDR"@ && name != "PLTE"@ && name != "tRNS"@ && name != "IDAT"@ && name
            != "IEND"@
    } by {
        assert(read_chunk(image.aux[i], data.len() as int));
    }
}

/// An image that was read has whole lines, each with filter byte 0.
pub proof fn read_images_have_plain_lines(data: Seq<u8>, fix_errors: bool)
    requires
        raw_in_is_readable(data, fix_errors),
        image_in(data, fix_errors) is Ok,
    ensures
        ({
            let image = image_in(data, fix_errors)->Ok_0;
            image.whole_lines() && image.lines() == plain_lines(image.lines())
        }),
{
    let parts = parts_in(data, fix_errors)->Ok_0;
    let raw = zlib_inflate(parts.idat)->0;
    unfiltered_image_has_plain_lines(parts.filtered_image(raw));
}

/// Reading a file, writing the image and reading that file gives the same image, with its
/// auxiliary chunks in the order in which they are written.
pub proof fn rewriting_keeps_image(data: Seq<u8>, fix_errors: bool, fix_again: bool)
    requires
        image_in(data, fix_errors) is Ok,
        image_in(data, fix_errors)->Ok_0.contents_fit(),
        image_in(data, fix_errors)->Ok_0.transparency_fits(),
    ensures
        ({
            let image = image_in(data, fix_errors)->Ok_0;
            &&& image.chunks_fit()
            &&& image_in(image.file_bytes(), fix_again) == Ok::<Image, Seq<char>>(
                Image { aux: image.written_aux(), ..image },
            )
            &&& raw_in_is_readable(data, fix_errors) ==> raw_in_is_readable(
                image.file_bytes(),
                fix_again,
            )
        }),
{
    let image = image_in(data, fix_errors)->Ok_0;
    read_images_are_writable(data, fix_errors);
    read_gives_back_what_was_written(image, fix_again);
    let parts = parts_in(data, fix_errors)->Ok_0;
    let raw = zlib_inflate(image.idat)->0;
    let filtered = parts.filtered_image(raw);
    let again = Image { raw, aux: image.written_aux(), ..image };
    assert(again.lines() == filtered.lines());
    assert(again.unfiltered_raw() == filtered.unfiltered_raw());
}

} // verus!
