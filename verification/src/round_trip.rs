//! What a file that was written gives back when it is read.

use vstd::prelude::*;
use vstd::utf8::encode_utf8;
use crate::chunks::{
    chunk_at, chunk_bytes, chunk_round_trip, end_chunk_is_recognized, lemma_known_names, signature,
    ChunkAt,
};
use crate::colors::ColorType;
use crate::decode::{
    aux_of, chunks_in, content_of, holds, idat_of, image_in, lemma_position, parts_in, parts_of,
    position, raw_in_is_readable, without_chunk, Parts,
};
use crate::encode::{
    after_palette, chosen, chunks_bytes, lemma_chunks_bytes_add, lemma_one_chunk, NamedChunk,
};
use crate::headers::{ihdr_bytes, ihdr_round_trip};
use crate::outside::zlib_inflate;
use crate::png::Image;

verus! {

/// A chunk can be told from the one that ends a file, and its length can be read back.
pub open spec fn ordinary_chunk(chunk: NamedChunk) -> bool {
    encode_utf8(chunk.0).len() == 4 && chunk.0 != "IEND"@ && chunk.1.len() + 4 <= u32::MAX
}

/// No two chunks have the same name.
pub open spec fn distinct_names(list: Seq<NamedChunk>) -> bool {
    forall|i: int, j: int|
        0 <= i < j < list.len() ==> (#[trigger] list[i]).0 != (#[trigger] list[j]).0
}

/// No chunk of one list has the name of a chunk of the other.
pub open spec fn no_shared_names(a: Seq<NamedChunk>, b: Seq<NamedChunk>) -> bool {
    forall|i: int, j: int|
        0 <= i < a.len() && 0 <= j < b.len() ==> (#[trigger] a[i]).0 != (#[trigger] b[j]).0
}

impl Image {
    /// The length of each chunk of the image can be written and read back.
    pub open spec fn contents_fit(self) -> bool {
        &&& self.idat.len() + 4 <= u32::MAX
        &&& self.palette matches Some(p) ==> p.len() + 4 <= u32::MAX
        &&& self.transparency_pixel matches Some(t) ==> t.len() + 4 <= u32::MAX
        &&& self.transparency_palette matches Some(t) ==> t.len() + 4 <= u32::MAX
        &&& forall|i: int|
            0 <= i < self.aux.len() ==> (#[trigger] self.aux[i]).1.len() + 4 <= u32::MAX
    }

    /// Only that kind of transparency is set which the colour type and the palette allow.
    pub open spec fn transparency_fits(self) -> bool {
        &&& self.transparency_palette is Some ==> self.palette is Some && self.ihdr.color_type
            == ColorType::Indexed
        &&& self.transparency_pixel is Some ==> self.palette is None && self.ihdr.color_type
            != ColorType::Indexed
    }

    /// The chunks of the image mean when read what they meant when written: there is image data,
    /// the auxiliary chunks have names of their own, each once, no content is too long, and no
    /// transparency is set that would not be written or would be taken for another one.
    pub open spec fn writable(self) -> bool {
        &&& self.idat.len() > 0
        &&& self.contents_fit()
        &&& self.transparency_fits()
        &&& distinct_names(self.aux)
        &&& forall|i: int|
            0 <= i < self.aux.len() ==> {
                let name = (#[trigger] self.aux[i]).0;
                &&& encode_utf8(name).len() == 4
                &&& name != "IHDR"@ && name != "PLTE"@ && name != "tRNS"@ && name != "IDAT"@
                    && name != "IEND"@
            }
    }

    /// The auxiliary chunks in the order in which they are written.
    pub open spec fn written_aux(self) -> Seq<NamedChunk> {
        chosen(self.aux, false) + chosen(self.aux, true)
    }
}

proof fn lemma_regroup(a: Seq<u8>, b: Seq<u8>, c: Seq<u8>, d: Seq<u8>)
    ensures
        a + (b + c) + d == a + b + (c + d),
        a + (b + c) + d == (a + b) + c + d,
{
    assert(a + (b + c) + d =~= a + b + (c + d));
    assert(a + (b + c) + d =~= (a + b) + c + d);
}

/// A chunk and the chunks after it are the chunks from where it stands.
proof fn lemma_one_more_chunk(
    data: Seq<u8>,
    offset: int,
    fix_errors: bool,
    chunk: NamedChunk,
    end: int,
    rest: Seq<NamedChunk>,
)
    requires
        chunk_at(data, offset, fix_errors) == ChunkAt::Chunk(chunk.0, chunk.1, end),
        chunks_in(data, end, fix_errors) == Ok::<Seq<NamedChunk>, Seq<char>>(rest),
    ensures
        chunks_in(data, offset, fix_errors) == Ok::<Seq<NamedChunk>, Seq<char>>(
            seq![chunk] + rest,
        ),
{
}

/// The chunks of a list are read back from where they were written.
#[verifier::rlimit(50)]
proof fn lemma_chunks_read_back(before: Seq<u8>, list: Seq<NamedChunk>, fix_errors: bool)
    requires
        forall|i: int| 0 <= i < list.len() ==> ordinary_chunk(#[trigger] list[i]),
    ensures
        chunks_in(
            before + chunks_bytes(list) + chunk_bytes(encode_utf8("IEND"@), Seq::empty()),
            before.len() as int,
            fix_errors,
        ) == Ok::<Seq<NamedChunk>, Seq<char>>(list),
    decreases list.len(),
{
    let end = chunk_bytes(encode_utf8("IEND"@), Seq::empty());
    let data = before + chunks_bytes(list) + end;
    if list.len() == 0 {
        assert(data == before + end + Seq::<u8>::empty()) by {
            assert(chunks_bytes(list) == Seq::<u8>::empty());
            lemma_regroup(before, Seq::empty(), Seq::empty(), end);
            assert(before + Seq::<u8>::empty() =~= before);
            assert(before + end + Seq::<u8>::empty() =~= before + end);
        }
        end_chunk_is_recognized(before, Seq::empty(), fix_errors);
        assert(list =~= Seq::<NamedChunk>::empty());
    } else {
        let (name, content) = list[0];
        let rest = list.drop_first();
        let first = chunk_bytes(encode_utf8(name), content);
        assert(chunks_bytes(list) == first + chunks_bytes(rest)) by {
            lemma_one_chunk(name, content);
            lemma_chunks_bytes_add(seq![list[0]], rest);
            assert(list =~= seq![list[0]] + rest);
        }
        lemma_regroup(before, first, chunks_bytes(rest), end);
        assert(ordinary_chunk(list[0]));
        assert(chunk_at(data, before.len() as int, fix_errors) == ChunkAt::Chunk(
            name,
            content,
            (before + first).len() as int,
        )) by {
            chunk_round_trip(before, name, content, chunks_bytes(rest) + end, fix_errors);
        }
        assert(chunks_in(data, (before + first).len() as int, fix_errors) == Ok::<
            Seq<NamedChunk>,
            Seq<char>,
        >(rest)) by {
            assert forall|i: int| 0 <= i < rest.len() implies ordinary_chunk(
                #[trigger] rest[i],
            ) by {
                assert(rest[i] == list[i + 1]);
            }
            lemma_chunks_read_back(before + first, rest, fix_errors);
        }
        lemma_one_more_chunk(
            data,
            before.len() as int,
            fix_errors,
            list[0],
            (before + first).len() as int,
            rest,
        );
        assert(seq![list[0]] + rest =~= list);
    }
}

proof fn lemma_holds(list: Seq<NamedChunk>, name: Seq<char>)
    ensures
        holds(list, name) <==> exists|i: int| 0 <= i < list.len() && (#[trigger] list[i]).0 == name,
{
    lemma_position(list, name, 0);
}

/// Chunks with new names are added at the end.
proof fn lemma_aux_append(a: Seq<NamedChunk>, b: Seq<NamedChunk>)
    requires
        aux_of(a) == a,
        distinct_names(b),
        no_shared_names(a, b),
        forall|i: int| 0 <= i < b.len() ==> (#[trigger] b[i]).0 != "IDAT"@,
    ensures
        aux_of(a + b) == a + b,
    decreases b.len(),
{
    if b.len() == 0 {
        assert(a + b =~= a);
    } else {
        let head = b.drop_last();
        assert forall|i: int, j: int|
            0 <= i < j < head.len() implies (#[trigger] head[i]).0 != (#[trigger] head[j]).0 by {
            assert(b[i].0 != b[j].0);
        }
        assert forall|i: int, j: int| 0 <= i < a.len() && 0 <= j < head.len() implies (
        #[trigger] a[i]).0 != (#[trigger] head[j]).0 by {
            assert(a[i].0 != b[j].0);
        }
        assert forall|i: int| 0 <= i < head.len() implies (#[trigger] head[i]).0 != "IDAT"@ by {
            assert(b[i].0 != "IDAT"@);
        }
        lemma_aux_append(a, head);
        let whole = a + b;
        assert(whole.drop_last() =~= a + head);
        assert(whole.last() == b[b.len() - 1]);
        lemma_holds(a + head, b.last().0);
        assert(!holds(a + head, b.last().0)) by {
            if holds(a + head, b.last().0) {
                let i = choose|i: int|
                    0 <= i < (a + head).len() && (#[trigger] (a + head)[i]).0 == b.last().0;
                if i < a.len() {
                    assert(a[i].0 != b[b.len() - 1].0);
                } else {
                    assert(b[i - a.len()].0 != b[b.len() - 1].0);
                }
            }
        }
        assert(b[b.len() - 1].0 != "IDAT"@);
        assert((a + head).push(b.last()) =~= a + b);
    }
}

proof fn lemma_no_idat(list: Seq<NamedChunk>)
    requires
        forall|i: int| 0 <= i < list.len() ==> (#[trigger] list[i]).0 != "IDAT"@,
    ensures
        idat_of(list) == Seq::<u8>::empty(),
    decreases list.len(),
{
    if list.len() > 0 {
        let head = list.drop_last();
        assert(list[list.len() - 1].0 != "IDAT"@);
        assert forall|i: int| 0 <= i < head.len() implies (#[trigger] head[i]).0 != "IDAT"@ by {
            assert(list[i].0 != "IDAT"@);
        }
        lemma_no_idat(head);
    }
}

/// A chunk between chunks of other names is found, and can be taken out.
proof fn lemma_find(a: Seq<NamedChunk>, chunk: NamedChunk, b: Seq<NamedChunk>)
    requires
        no_shared_names(a, seq![chunk]),
    ensures
        content_of(a + seq![chunk] + b, chunk.0) == Some(chunk.1),
        without_chunk(a + seq![chunk] + b, chunk.0) == a + b,
        holds(a + seq![chunk] + b, chunk.0),
{
    let list = a + seq![chunk] + b;
    let at = position(list, chunk.0, 0);
    lemma_position(list, chunk.0, 0);
    assert(list[a.len() as int] == chunk);
    assert(at == a.len()) by {
        if at < a.len() {
            assert(list[at] == a[at]);
            assert(a[at].0 != seq![chunk][0].0);
        }
    }
    assert(list.remove(at) =~= a + b);
}

proof fn lemma_chosen(aux: Seq<NamedChunk>, late: bool)
    requires
        distinct_names(aux),
    ensures
        distinct_names(chosen(aux, late)),
        forall|k: int|
            0 <= k < chosen(aux, late).len() ==> after_palette(
                (#[trigger] chosen(aux, late)[k]).0,
            ) == late && aux.contains(chosen(aux, late)[k]),
    decreases aux.len(),
{
    if aux.len() > 0 {
        let head = aux.drop_last();
        assert forall|i: int, j: int|
            0 <= i < j < head.len() implies (#[trigger] head[i]).0 != (#[trigger] head[j]).0 by {
            assert(aux[i].0 != aux[j].0);
        }
        lemma_chosen(head, late);
        let picked = chosen(aux, late);
        let before = chosen(head, late);
        assert forall|k: int| 0 <= k < picked.len() implies after_palette((#[trigger] picked[k]).0)
            == late && aux.contains(picked[k]) by {
            if k < before.len() {
                assert(before[k] == picked[k]);
                let i = choose|i: int| 0 <= i < head.len() && head[i] == before[k];
                assert(aux[i] == picked[k]);
            } else {
                assert(aux[aux.len() - 1] == picked[k]);
            }
        }
        assert forall|i: int, j: int|
            0 <= i < j < picked.len() implies (#[trigger] picked[i]).0 != (
        #[trigger] picked[j]).0 by {
            assert(before[i] == picked[i]);
            if j < before.len() {
                assert(before[j] == picked[j]);
            } else {
                let k = choose|k: int| 0 <= k < head.len() && head[k] == before[i];
                assert(aux[k] == picked[i]);
                assert(aux[aux.len() - 1] == picked[j]);
            }
        }
    }
}

/// A name that is not one of those of the chunks that the image writes itself.
spec fn own_name(name: Seq<char>) -> bool {
    name != "IHDR"@ && name != "PLTE"@ && name != "tRNS"@ && name != "IDAT"@
}

/// The auxiliary chunks before and after the palette keep what is known of the auxiliary chunks.
proof fn lemma_groups(image: Image)
    requires
        image.writable(),
    ensures
        ({
            let early = chosen(image.aux, false);
            let late = chosen(image.aux, true);
            &&& distinct_names(early)
            &&& distinct_names(late)
            &&& no_shared_names(early, late)
            &&& forall|i: int|
                0 <= i < early.len() ==> ordinary_chunk(#[trigger] early[i]) && own_name(early[i].0)
            &&& forall|i: int|
                0 <= i < late.len() ==> ordinary_chunk(#[trigger] late[i]) && own_name(late[i].0)
        }),
{
    let early = chosen(image.aux, false);
    let late = chosen(image.aux, true);
    lemma_chosen(image.aux, false);
    lemma_chosen(image.aux, true);
    assert forall|i: int| 0 <= i < early.len() implies ordinary_chunk(#[trigger] early[i])
        && own_name(early[i].0) by {
        let k = choose|k: int| 0 <= k < image.aux.len() && image.aux[k] == early[i];
        assert(ordinary_chunk(image.aux[k]));
    }
    assert forall|i: int| 0 <= i < late.len() implies ordinary_chunk(#[trigger] late[i])
        && own_name(late[i].0) by {
        let k = choose|k: int| 0 <= k < image.aux.len() && image.aux[k] == late[i];
        assert(ordinary_chunk(image.aux[k]));
    }
    assert forall|i: int, j: int| 0 <= i < early.len() && 0 <= j < late.len() implies (
    #[trigger] early[i]).0 != (#[trigger] late[j]).0 by {
        assert(after_palette(early[i].0) == false);
        assert(after_palette(late[j].0) == true);
    }
}

/// The chunks of the palette have names of their own.
proof fn lemma_palette_chunks(image: Image)
    requires
        image.writable(),
    ensures
        distinct_names(image.palette_chunks()),
        forall|i: int|
            0 <= i < image.palette_chunks().len() ==> {
                let chunk = #[trigger] image.palette_chunks()[i];
                ordinary_chunk(chunk) && (chunk.0 == "PLTE"@ || chunk.0 == "tRNS"@)
            },
{
    lemma_known_names();
}

proof fn lemma_written_chunks(image: Image)
    requires
        image.writable(),
    ensures
        forall|i: int|
            0 <= i < image.file_chunks().len() ==> ordinary_chunk(
                #[trigger] image.file_chunks()[i],
            ),
{
    let early = chosen(image.aux, false);
    let middle = image.palette_chunks();
    let late = chosen(image.aux, true);
    let chunks = image.file_chunks();
    lemma_known_names();
    lemma_groups(image);
    lemma_palette_chunks(image);
    assert forall|i: int| 0 <= i < chunks.len() implies ordinary_chunk(#[trigger] chunks[i]) by {
        let (m, l) = (1 + early.len(), 1 + early.len() + middle.len());
        if i == 0 {
            assert(ihdr_bytes(image.ihdr).len() == 13);
        } else if i < m {
            assert(chunks[i] == early[i - 1]);
        } else if i < l {
            assert(chunks[i] == middle[i - m]);
        } else if i < l + late.len() {
            assert(chunks[i] == late[i - l]);
        } else {
            assert(chunks[i] == ("IDAT"@, image.idat));
        }
    }
}

/// The written chunks sort into the image data and all the others.
proof fn lemma_sorted_chunks(image: Image)
    requires
        image.writable(),
    ensures
        idat_of(image.file_chunks()) == image.idat,
        aux_of(image.file_chunks()) == seq![("IHDR"@, ihdr_bytes(image.ihdr))] + (chosen(
            image.aux,
            false,
        ) + image.palette_chunks() + chosen(image.aux, true)),
{
    let early = chosen(image.aux, false);
    let middle = image.palette_chunks();
    let late = chosen(image.aux, true);
    let head = seq![("IHDR"@, ihdr_bytes(image.ihdr))];
    let tail = seq![("IDAT"@, image.idat)];
    let chunks = image.file_chunks();
    let list = head + early + middle + late;
    lemma_known_names();
    lemma_groups(image);
    lemma_palette_chunks(image);
    assert(chunks =~= list + tail);
    assert(chunks.drop_last() =~= list);
    assert(chunks.last() == tail[0]);
    let none = Seq::<NamedChunk>::empty();
    assert(none + head =~= head);
    lemma_aux_append(none, head);
    lemma_aux_append(head, early);
    lemma_no_shared_names_add(head, early, middle);
    lemma_aux_append(head + early, middle);
    lemma_no_shared_names_add(head, early, late);
    lemma_no_shared_names_add(head + early, middle, late);
    lemma_aux_append(head + early + middle, late);
    assert(list =~= head + (early + middle + late));
    assert forall|i: int| 0 <= i < list.len() implies (#[trigger] list[i]).0 != "IDAT"@ by {
        let (m, l) = (1 + early.len(), 1 + early.len() + middle.len());
        if i == 0 {
            assert(list[i] == head[0]);
        } else if i < m {
            assert(list[i] == early[i - 1]);
        } else if i < l {
            assert(list[i] == middle[i - m]);
        } else {
            assert(list[i] == late[i - l]);
        }
    }
    lemma_no_idat(list);
    assert(idat_of(chunks) =~= image.idat);
}

proof fn lemma_no_shared_names_add(a: Seq<NamedChunk>, b: Seq<NamedChunk>, c: Seq<NamedChunk>)
    requires
        no_shared_names(a, c),
        no_shared_names(b, c),
    ensures
        no_shared_names(a + b, c),
{
    assert forall|i: int, j: int| 0 <= i < (a + b).len() && 0 <= j < c.len() implies (
    #[trigger] (a + b)[i]).0 != (#[trigger] c[j]).0 by {
        if i < a.len() {
            assert((a + b)[i] == a[i]);
        } else {
            assert((a + b)[i] == b[i - a.len()]);
        }
    }
}

/// The chunks of the image make up its parts.
proof fn lemma_parts_of_chunks(image: Image)
    requires
        image.writable(),
    ensures
        parts_of(image.file_chunks()) == Ok::<Parts, Seq<char>>(
            Parts {
                idat: image.idat,
                ihdr: image.ihdr,
                aux: chosen(image.aux, false) + image.palette_chunks() + chosen(image.aux, true),
            },
        ),
{
    let head = ("IHDR"@, ihdr_bytes(image.ihdr));
    let rest = chosen(image.aux, false) + image.palette_chunks() + chosen(image.aux, true);
    let none = Seq::<NamedChunk>::empty();
    lemma_sorted_chunks(image);
    let aux = seq![head] + rest;
    assert(aux =~= none + seq![head] + rest);
    assert(none + rest =~= rest);
    lemma_find(none, head, rest);
    ihdr_round_trip(image.ihdr);
}

/// The parts of a written file are those of the image, with its auxiliary chunks in the order in
/// which they are written.
proof fn lemma_parts_read_back(image: Image, fix_errors: bool)
    requires
        image.writable(),
    ensures
        parts_in(image.file_bytes(), fix_errors) == Ok::<Parts, Seq<char>>(
            Parts {
                idat: image.idat,
                ihdr: image.ihdr,
                aux: chosen(image.aux, false) + image.palette_chunks() + chosen(image.aux, true),
            },
        ),
{
    let data = image.file_bytes();
    assert(data.len() >= 8 && data.take(8) =~= signature());
    assert(chunks_in(data, 8, fix_errors) == Ok::<Seq<NamedChunk>, Seq<char>>(
        image.file_chunks(),
    )) by {
        lemma_written_chunks(image);
        lemma_chunks_read_back(signature(), image.file_chunks(), fix_errors);
    }
    lemma_parts_of_chunks(image);
}

/// The image that is made of the parts of a written file and any raw data is the image that was
/// written, with that raw data, and with its auxiliary chunks in the order in which they are
/// written.
proof fn lemma_image_read_back(image: Image, raw: Seq<u8>)
    requires
        image.writable(),
    ensures
        ({
            let parts = parts_in(image.file_bytes(), false)->Ok_0;
            parts.filtered_image(raw) == Image { raw, aux: image.written_aux(), ..image }
        }),
{
    lemma_parts_read_back(image, false);
    lemma_groups(image);
    lemma_known_names();
    let parts = parts_in(image.file_bytes(), false)->Ok_0;
    let early = chosen(image.aux, false);
    let late = chosen(image.aux, true);
    let middle = image.palette_chunks();
    let none = Seq::<NamedChunk>::empty();
    let rest = without_chunk(parts.aux, "PLTE"@);
    lemma_holds(early + late, "PLTE"@);
    lemma_holds(early + late, "tRNS"@);
    lemma_holds(parts.aux, "PLTE"@);
    assert forall|i: int| 0 <= i < (early + late).len() implies (#[trigger] (early + late)[i]).0
        != "PLTE"@ && (early + late)[i].0 != "tRNS"@ by {
        if i < early.len() {
            assert((early + late)[i] == early[i]);
        } else {
            assert((early + late)[i] == late[i - early.len()]);
        }
    }
    match image.palette {
        Some(palette) => {
            let plte = ("PLTE"@, palette);
            assert(no_shared_names(early, seq![plte]));
            match image.transparency_palette {
                Some(alphas) => {
                    let trns = ("tRNS"@, alphas);
                    assert(parts.aux =~= early + seq![plte] + (seq![trns] + late));
                    lemma_find(early, plte, seq![trns] + late);
                    assert(no_shared_names(early, seq![trns]));
                    lemma_find(early, trns, late);
                    assert(rest =~= early + seq![trns] + late);
                },
                None => {
                    assert(parts.aux =~= early + seq![plte] + late);
                    lemma_find(early, plte, late);
                },
            }
        },
        None => {
            match image.transparency_pixel {
                Some(pixel) => {
                    let trns = ("tRNS"@, pixel);
                    assert(parts.aux =~= early + seq![trns] + late);
                    assert(no_shared_names(early, seq![trns]));
                    lemma_find(early, trns, late);
                    assert(!holds(parts.aux, "PLTE"@)) by {
                        if holds(parts.aux, "PLTE"@) {
                            let i = choose|i: int|
                                0 <= i < parts.aux.len() && (#[trigger] parts.aux[i]).0
                                    == "PLTE"@;
                            if i < early.len() {
                                assert(parts.aux[i] == early[i]);
                            } else if i > early.len() {
                                assert(parts.aux[i] == late[i - early.len() - 1]);
                            }
                        }
                    }
                },
                None => {
                    assert(parts.aux =~= early + late);
                },
            }
        },
    }
    assert(parts.filtered_image(raw) =~= Image { raw, aux: image.written_aux(), ..image });
}

/// Reading what was written gives back the image: its headers, palette, transparency and
/// compressed data as they were, its auxiliary chunks in the order in which they are written, and
/// as raw data what the compressed data decompresses to, with the filters undone.
pub proof fn read_gives_back_what_was_written(image: Image, fix_errors: bool)
    requires
        image.writable(),
    ensures
        image.chunks_fit(),
        match zlib_inflate(image.idat) {
            None => image_in(image.file_bytes(), fix_errors) == Err::<Image, Seq<char>>(
                "Image data could not be decompressed"@,
            ),
            Some(raw) => ({
                let filtered = Image { raw, aux: image.written_aux(), ..image };
                &&& image_in(image.file_bytes(), fix_errors) == Ok::<Image, Seq<char>>(
                    Image { raw: filtered.unfiltered_raw(), ..filtered },
                )
                &&& raw_in_is_readable(image.file_bytes(), fix_errors) == (filtered.whole_lines()
                    && filtered.known_filters())
            }),
        },
{
    lemma_parts_read_back(image, fix_errors);
    lemma_parts_read_back(image, false);
    lemma_written_chunks(image);
    if let Some(raw) = zlib_inflate(image.idat) {
        lemma_image_read_back(image, raw);
    }
}

/// Fixing errors changes nothing where there are none: a file whose chunks are all good reads the
/// same either way.
pub proof fn fixing_errors_keeps_good_files(data: Seq<u8>, offset: int)
    requires
        chunks_in(data, offset, false) is Ok,
    ensures
        chunks_in(data, offset, true) == chunks_in(data, offset, false),
    decreases data.len() - offset,
{
    if let ChunkAt::Chunk(_, _, end) = chunk_at(data, offset, false) {
        fixing_errors_keeps_good_files(data, end);
    }
}

} // verus!
