//! Writing an image as a PNG file.

use vstd::prelude::*;
use vstd::utf8::encode_utf8;
use crate::chunks::{
    chunk_bytes, chunk_fits, is_named, lemma_known_names, signature, write_png_block,
};
use crate::headers::{format_ihdr_header, ihdr_bytes};
use crate::png::{Image, PngData};

verus! {

/// A chunk with its name and content.
pub type NamedChunk = (Seq<char>, Seq<u8>);

/// The chunks that must come after the palette but before the image data.
pub open spec fn after_palette(name: Seq<char>) -> bool {
    name == "bKGD"@ || name == "hIST"@ || name == "tRNS"@
}

/// Of a list of chunks those that must, or must not, come after the palette, in order.
pub open spec fn chosen(aux: Seq<NamedChunk>, late: bool) -> Seq<NamedChunk>
    decreases aux.len(),
{
    if aux.len() == 0 {
        Seq::empty()
    } else if after_palette(aux.last().0) == late {
        chosen(aux.drop_last(), late).push(aux.last())
    } else {
        chosen(aux.drop_last(), late)
    }
}

/// The bytes of a list of chunks.
pub open spec fn chunks_bytes(chunks: Seq<NamedChunk>) -> Seq<u8>
    decreases chunks.len(),
{
    if chunks.len() == 0 {
        Seq::empty()
    } else {
        chunks_bytes(chunks.drop_last()) + chunk_bytes(
            encode_utf8(chunks.last().0),
            chunks.last().1,
        )
    }
}

impl Image {
    /// The chunks for the palette and the transparency. A transparent pixel value is not written
    /// beside a palette.
    pub open spec fn palette_chunks(self) -> Seq<NamedChunk> {
        match self.palette {
            Some(palette) => match self.transparency_palette {
                Some(alphas) => seq![("PLTE"@, palette), ("tRNS"@, alphas)],
                None => seq![("PLTE"@, palette)],
            },
            None => match self.transparency_pixel {
                Some(pixel) => seq![("tRNS"@, pixel)],
                None => Seq::empty(),
            },
        }
    }

    /// All chunks of the file but the one that ends it.
    pub open spec fn file_chunks(self) -> Seq<NamedChunk> {
        seq![("IHDR"@, ihdr_bytes(self.ihdr))] + chosen(self.aux, false) + self.palette_chunks()
            + chosen(self.aux, true) + seq![("IDAT"@, self.idat)]
    }

    /// The file.
    pub open spec fn file_bytes(self) -> Seq<u8> {
        signature() + chunks_bytes(self.file_chunks()) + chunk_bytes(
            encode_utf8("IEND"@),
            Seq::empty(),
        )
    }

    /// The length of each chunk can be written.
    pub open spec fn chunks_fit(self) -> bool {
        forall|i: int|
            0 <= i < self.file_chunks().len() ==> chunk_fits(
                encode_utf8((#[trigger] self.file_chunks()[i]).0),
                self.file_chunks()[i].1,
            )
    }
}

pub proof fn lemma_chunks_bytes_add(a: Seq<NamedChunk>, b: Seq<NamedChunk>)
    ensures
        chunks_bytes(a + b) == chunks_bytes(a) + chunks_bytes(b),
    decreases b.len(),
{
    if b.len() == 0 {
        assert(a + b =~= a);
        assert(chunks_bytes(a) + chunks_bytes(b) =~= chunks_bytes(a));
    } else {
        assert((a + b).drop_last() =~= a + b.drop_last());
        lemma_chunks_bytes_add(a, b.drop_last());
        assert(chunks_bytes(a + b) =~= chunks_bytes(a) + chunks_bytes(b));
    }
}

pub proof fn lemma_one_chunk(name: Seq<char>, content: Seq<u8>)
    ensures
        chunks_bytes(seq![(name, content)]) == chunk_bytes(encode_utf8(name), content),
{
    let one = seq![(name, content)];
    assert(one.drop_last() =~= Seq::<NamedChunk>::empty());
    assert(chunks_bytes(one.drop_last()) =~= Seq::<u8>::empty());
    assert(chunks_bytes(one) =~= chunk_bytes(encode_utf8(name), content));
}

/// Appends a chunk with the given name.
fn write_named_block(name: &str, content: &[u8], output: &mut Vec<u8>)
    requires
        chunk_fits(encode_utf8(name@), content@),
    ensures
        final(output)@ == old(output)@ + chunks_bytes(seq![(name@, content@)]),
{
    write_png_block(name.as_bytes(), content, output);
    proof {
        lemma_one_chunk(name@, content@);
    }
}

proof fn lemma_chosen_step(aux: Seq<NamedChunk>, late: bool, i: int)
    requires
        0 <= i < aux.len(),
    ensures
        chosen(aux.take(i + 1), late) == if after_palette(aux[i].0) == late {
            chosen(aux.take(i), late).push(aux[i])
        } else {
            chosen(aux.take(i), late)
        },
{
    assert(aux.take(i + 1).drop_last() =~= aux.take(i));
}

proof fn lemma_chosen_prefix(aux: Seq<NamedChunk>, late: bool, i: int)
    requires
        0 <= i <= aux.len(),
    ensures
        chosen(aux.take(i), late).len() <= chosen(aux, late).len(),
        forall|k: int|
            0 <= k < chosen(aux.take(i), late).len() ==> #[trigger] chosen(aux.take(i), late)[k]
                == chosen(aux, late)[k],
    decreases aux.len() - i,
{
    if i < aux.len() {
        lemma_chosen_step(aux, late, i);
        lemma_chosen_prefix(aux, late, i + 1);
        assert forall|k: int| 0 <= k < chosen(aux.take(i), late).len() implies #[trigger] chosen(
            aux.take(i),
            late,
        )[k] == chosen(aux, late)[k] by {
            assert(chosen(aux.take(i + 1), late)[k] == chosen(aux, late)[k]);
        }
    } else {
        assert(aux.take(i) =~= aux);
    }
}

impl PngData {
    /// Appends the auxiliary chunks that must, or must not, come after the palette.
    fn write_aux_headers(&self, late: bool, output: &mut Vec<u8>)
        requires
            forall|k: int|
                0 <= k < chosen(self@.aux, late).len() ==> chunk_fits(
                    encode_utf8((#[trigger] chosen(self@.aux, late)[k]).0),
                    chosen(self@.aux, late)[k].1,
                ),
        ensures
            final(output)@ == old(output)@ + chunks_bytes(chosen(self@.aux, late)),
    {
        let ghost aux = self@.aux;
        let ghost start = output@;
        let mut i: usize = 0;
        proof {
            assert(aux.take(0) =~= Seq::<NamedChunk>::empty());
            assert(start + chunks_bytes(chosen(aux.take(0), late)) =~= start);
        }
        while i < self.aux_headers.len()
            invariant
                aux == self@.aux,
                i <= self.aux_headers.len(),
                forall|k: int|
                    0 <= k < chosen(aux, late).len() ==> chunk_fits(
                        encode_utf8((#[trigger] chosen(aux, late)[k]).0),
                        chosen(aux, late)[k].1,
                    ),
                output@ == start + chunks_bytes(chosen(aux.take(i as int), late)),
            decreases self.aux_headers.len() - i,
        {
            let name: &String = &self.aux_headers[i].0;
            let content: &Vec<u8> = &self.aux_headers[i].1;
            let special: bool = is_named(name, "bKGD") || is_named(name, "hIST") || is_named(
                name,
                "tRNS",
            );
            proof {
                assert(aux[i as int] == (name@, content@));
                lemma_chosen_step(aux, late, i as int);
                lemma_chosen_prefix(aux, late, i + 1);
            }
            let ghost before = chosen(aux.take(i as int), late);
            if special == late {
                proof {
                    let after = chosen(aux.take(i + 1), late);
                    assert(after[before.len() as int] == (name@, content@));
                    assert(chosen(aux, late)[before.len() as int] == (name@, content@));
                    lemma_chunks_bytes_add(before, seq![(name@, content@)]);
                    assert(after =~= before + seq![(name@, content@)]);
                }
                write_named_block(name.as_str(), content.as_slice(), output);
                assert(output@ =~= start + chunks_bytes(chosen(aux.take(i + 1), late)));
            }
            i = i + 1;
        }
        assert(aux.take(i as int) =~= aux);
    }

    /// Appends the chunks for the palette and the transparency.
    fn write_palette(&self, output: &mut Vec<u8>)
        requires
            forall|k: int|
                0 <= k < self@.palette_chunks().len() ==> chunk_fits(
                    encode_utf8((#[trigger] self@.palette_chunks()[k]).0),
                    self@.palette_chunks()[k].1,
                ),
        ensures
            final(output)@ == old(output)@ + chunks_bytes(self@.palette_chunks()),
    {
        let ghost chunks = self@.palette_chunks();
        if let Some(palette) = &self.palette {
            assert(chunks[0] == ("PLTE"@, palette@));
            write_named_block("PLTE", palette.as_slice(), output);
            if let Some(transparency_palette) = &self.transparency_palette {
                // Transparency pixel
                assert(chunks[1] == ("tRNS"@, transparency_palette@));
                write_named_block("tRNS", transparency_palette.as_slice(), output);
                proof {
                    let plte = seq![("PLTE"@, palette@)];
                    let trns = seq![("tRNS"@, transparency_palette@)];
                    lemma_chunks_bytes_add(plte, trns);
                    assert(chunks =~= plte + trns);
                }
            }
        } else if let Some(transparency_pixel) = &self.transparency_pixel {
            // Transparency pixel
            assert(chunks[0] == ("tRNS"@, transparency_pixel@));
            write_named_block("tRNS", transparency_pixel.as_slice(), output);
        }
        assert(output@ =~= old(output)@ + chunks_bytes(chunks));
    }

    /// Format the `PngData` struct into a valid PNG bytestream
    pub fn output(&self) -> (output: Vec<u8>)
        requires
            self@.chunks_fit(),
        ensures
            output@ == self@.file_bytes(),
    {
        proof {
            lemma_file_parts(self@);
        }
        // PNG header
        let mut output: Vec<u8> = vec![0x89, 0x50, 0x4E, 0x47, 0x0D, 0x0A, 0x1A, 0x0A];
        assert(output@ =~= signature());
        // IHDR
        let ihdr_data: Vec<u8> = format_ihdr_header(&self.ihdr_data);
        write_named_block("IHDR", ihdr_data.as_slice(), &mut output);
        // Ancillary headers
        self.write_aux_headers(false, &mut output);
        // Palette
        self.write_palette(&mut output);
        // Special ancillary headers that need to come after PLTE but before IDAT
        self.write_aux_headers(true, &mut output);
        // IDAT data
        write_named_block("IDAT", self.idat_data.as_slice(), &mut output);
        // Stream end
        let empty: Vec<u8> = Vec::new();
        write_png_block("IEND".as_bytes(), empty.as_slice(), &mut output);
        assert(empty@ =~= Seq::<u8>::empty());
        output
    }
}

/// The file is its parts put one behind the other, each with chunks whose length can be written.
proof fn lemma_file_parts(image: Image)
    requires
        image.chunks_fit(),
    ensures
        image.file_bytes() == signature() + chunks_bytes(
            seq![("IHDR"@, ihdr_bytes(image.ihdr))],
        ) + chunks_bytes(chosen(image.aux, false)) + chunks_bytes(image.palette_chunks())
            + chunks_bytes(chosen(image.aux, true)) + chunks_bytes(seq![("IDAT"@, image.idat)])
            + chunk_bytes(encode_utf8("IEND"@), Seq::empty()),
        chunk_fits(encode_utf8("IHDR"@), ihdr_bytes(image.ihdr)),
        forall|k: int|
            0 <= k < chosen(image.aux, false).len() ==> chunk_fits(
                encode_utf8((#[trigger] chosen(image.aux, false)[k]).0),
                chosen(image.aux, false)[k].1,
            ),
        forall|k: int|
            0 <= k < image.palette_chunks().len() ==> chunk_fits(
                encode_utf8((#[trigger] image.palette_chunks()[k]).0),
                image.palette_chunks()[k].1,
            ),
        forall|k: int|
            0 <= k < chosen(image.aux, true).len() ==> chunk_fits(
                encode_utf8((#[trigger] chosen(image.aux, true)[k]).0),
                chosen(image.aux, true)[k].1,
            ),
        chunk_fits(encode_utf8("IDAT"@), image.idat),
        chunk_fits(encode_utf8("IEND"@), Seq::empty()),
{
    let chunks = image.file_chunks();
    let early = chosen(image.aux, false);
    let middle = image.palette_chunks();
    let late = chosen(image.aux, true);
    let head = seq![("IHDR"@, ihdr_bytes(image.ihdr))];
    let tail = seq![("IDAT"@, image.idat)];
    lemma_known_names();
    assert forall|k: int| 0 <= k < early.len() implies chunk_fits(
        encode_utf8((#[trigger] early[k]).0),
        early[k].1,
    ) by {
        assert(chunks[1 + k] == early[k]);
    }
    assert forall|k: int| 0 <= k < middle.len() implies chunk_fits(
        encode_utf8((#[trigger] middle[k]).0),
        middle[k].1,
    ) by {
        assert(chunks[1 + early.len() + k] == middle[k]);
    }
    assert forall|k: int| 0 <= k < late.len() implies chunk_fits(
        encode_utf8((#[trigger] late[k]).0),
        late[k].1,
    ) by {
        assert(chunks[1 + early.len() + middle.len() + k] == late[k]);
    }
    assert(chunks[0] == head[0]);
    assert(chunks[chunks.len() - 1] == tail[0]);
    lemma_chunks_bytes_add(head, early);
    lemma_chunks_bytes_add(head + early, middle);
    lemma_chunks_bytes_add(head + early + middle, late);
    lemma_chunks_bytes_add(head + early + middle + late, tail);
    lemma_add_assoc(
        signature(),
        chunks_bytes(head),
        chunks_bytes(early),
        chunks_bytes(middle),
        chunks_bytes(late),
        chunks_bytes(tail),
    );
}

proof fn lemma_add_assoc(
    a: Seq<u8>,
    b: Seq<u8>,
    c: Seq<u8>,
    d: Seq<u8>,
    e: Seq<u8>,
    f: Seq<u8>,
)
    ensures
        a + (b + c + d + e + f) == a + b + c + d + e + f,
{
    assert(a + (b + c + d + e + f) =~= a + b + c + d + e + f);
}

} // verus!
