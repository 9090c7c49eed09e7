//! Choosing among several ways of rewriting transparent pixels.

use vstd::prelude::*;
use crate::alpha_laws::{all_look_the_same, alpha_reduction_keeps_what_shows};
use crate::colors::AlphaOptim;
use crate::outside::{deflate_zlib, zlib_deflate};
use crate::png::{Image, PngData};

verus! {

/// The compression level at which candidates are compared
pub const STD_COMPRESSION: u8 = 8;

/// The compression strategy with which candidates are compared: Huffman only
pub const STD_STRATEGY: u8 = 2;

/// The window size with which candidates are compared
pub const STD_WINDOW: u8 = 15;

/// The index of the first of the smallest sizes.
pub open spec fn first_smallest(sizes: Seq<nat>) -> int
    decreases sizes.len(),
{
    if sizes.len() <= 1 {
        0
    } else {
        let best = first_smallest(sizes.drop_last());
        if sizes.last() < sizes[best] {
            sizes.len() - 1
        } else {
            best
        }
    }
}

/// No size is smaller than the first smallest one, and none before it is as small.
pub proof fn first_smallest_is_least(sizes: Seq<nat>, i: int)
    requires
        0 <= i < sizes.len(),
    ensures
        0 <= first_smallest(sizes) < sizes.len(),
        sizes[first_smallest(sizes)] <= sizes[i],
        i < first_smallest(sizes) ==> sizes[first_smallest(sizes)] < sizes[i],
    decreases sizes.len(),
{
    if sizes.len() > 1 {
        let head = sizes.drop_last();
        first_smallest_is_least(
            head,
            if i < head.len() {
                i
            } else {
                0
            },
        );
    }
}

/// The sizes as mathematical numbers.
pub open spec fn as_nats(sizes: Seq<usize>) -> Seq<nat> {
    Seq::new(sizes.len(), |i: int| sizes[i] as nat)
}

/// The index of the first of the smallest sizes.
pub fn smallest_size(sizes: &[usize]) -> (best: usize)
    requires
        sizes@.len() > 0,
    ensures
        best == first_smallest(as_nats(sizes@)),
        best < sizes@.len(),
        forall|i: int| 0 <= i < sizes@.len() ==> sizes@[best as int] <= #[trigger] sizes@[i],
        forall|i: int| 0 <= i < best ==> sizes@[best as int] < #[trigger] sizes@[i],
{
    let ghost all = as_nats(sizes@);
    let mut best: usize = 0;
    let mut i: usize = 1;
    assert(all.take(1).len() == 1);
    while i < sizes.len()
        invariant
            1 <= i <= sizes.len(),
            all == as_nats(sizes@),
            best < i,
            best == first_smallest(all.take(i as int)),
        decreases sizes.len() - i,
    {
        assert(all.take(i + 1).drop_last() =~= all.take(i as int));
        if sizes[i] < sizes[best] {
            best = i;
        }
        i = i + 1;
    }
    assert(all.take(i as int) =~= all);
    proof {
        assert forall|j: int| 0 <= j < sizes@.len() implies sizes@[best as int]
            <= #[trigger] sizes@[j] && (j < best ==> sizes@[best as int] < sizes@[j]) by {
            first_smallest_is_least(all, j);
            assert(all[j] == sizes@[j] && all[best as int] == sizes@[best as int]);
        }
    }
    best
}

impl Image {
    /// The size of the compressed data with `filter` on all lines.
    pub open spec fn deflated_size(self, filter: u8) -> nat {
        zlib_deflate(
            self.filtered_raw(filter),
            STD_COMPRESSION,
            STD_STRATEGY,
            STD_WINDOW,
        ).len()
    }

    /// The smaller of the sizes without filters and with the smoothest ones, after rewriting
    /// transparent pixels.
    pub open spec fn alpha_size(self, optim: AlphaOptim) -> nat {
        let image = self.alpha_reduced(optim);
        if image.deflated_size(5) < image.deflated_size(0) {
            image.deflated_size(5)
        } else {
            image.deflated_size(0)
        }
    }

    /// The sizes after each way of rewriting transparent pixels.
    pub open spec fn alpha_sizes(self, alphas: Seq<AlphaOptim>) -> Seq<nat> {
        Seq::new(alphas.len(), |i: int| self.alpha_size(alphas[i]))
    }

    /// The way of rewriting transparent pixels that leaves the least compressed data.
    pub open spec fn best_alpha(self, alphas: Seq<AlphaOptim>) -> AlphaOptim {
        alphas[first_smallest(self.alpha_sizes(alphas))]
    }

    /// Each way of rewriting transparent pixels can be done, and leaves an image of whole lines.
    pub open spec fn alphas_ready(self, alphas: Seq<AlphaOptim>) -> bool {
        forall|i: int|
            0 <= i < alphas.len() ==> self.alpha_ready(#[trigger] alphas[i]) && self.alpha_reduced(
                alphas[i],
            ).whole_lines()
    }
}

/// No way of rewriting transparent pixels leaves less compressed data than the chosen one.
pub proof fn best_alpha_is_least(image: Image, alphas: Seq<AlphaOptim>, i: int)
    requires
        0 <= i < alphas.len(),
    ensures
        alphas.contains(image.best_alpha(alphas)),
        image.alpha_size(image.best_alpha(alphas)) <= image.alpha_size(alphas[i]),
{
    let sizes = image.alpha_sizes(alphas);
    first_smallest_is_least(sizes, i);
    assert(sizes[i] == image.alpha_size(alphas[i]));
}

/// The least number of bytes that the image data takes after rewriting, without filters and with
/// the best filter for each line, compressed at level 8, with Huffman codes only and the largest
/// window.
pub open spec fn least_bytes(image: Image, optim: AlphaOptim) -> int {
    let plain = zlib_deflate(image.alpha_reduced(optim).filtered_raw(0), 8, 2, 15).len();
    let best = zlib_deflate(image.alpha_reduced(optim).filtered_raw(5), 8, 2, 15).len();
    if plain <= best {
        plain as int
    } else {
        best as int
    }
}

/// The way that is chosen is the first after which the image data takes the least bytes.
pub proof fn chosen_way_takes_the_least_bytes(image: Image, alphas: Seq<AlphaOptim>) -> (m: int)
    requires
        alphas.len() > 0,
    ensures
        0 <= m < alphas.len(),
        image.best_alpha(alphas) == alphas[m],
        forall|i: int|
            0 <= i < alphas.len() ==> least_bytes(image, alphas[m]) <= least_bytes(
                image,
                #[trigger] alphas[i],
            ),
        forall|i: int|
            0 <= i < m ==> least_bytes(image, alphas[m]) < least_bytes(image, #[trigger] alphas[i]),
{
    let sizes = image.alpha_sizes(alphas);
    let m = first_smallest(sizes);
    first_smallest_is_least(sizes, 0);
    assert forall|i: int| 0 <= i < alphas.len() implies least_bytes(image, alphas[m])
        <= least_bytes(image, #[trigger] alphas[i]) && (i < m ==> least_bytes(image, alphas[m])
        < least_bytes(image, alphas[i])) by {
        first_smallest_is_least(sizes, i);
        assert(sizes[i] == least_bytes(image, alphas[i]));
        assert(sizes[m] == least_bytes(image, alphas[m]));
    }
    m
}

/// Whatever ways are compared, all can be done, and the chosen one leaves alone what shows. For
/// the colours of the line below this is so unless the image is interlaced.
pub proof fn alpha_choice_keeps_what_shows(image: Image, alphas: Seq<AlphaOptim>)
    requires
        alphas.len() > 0,
        image.whole_lines(),
        image.lines().len() > 0,
        image.ihdr.color_type.has_alpha(),
        image.ihdr.bit_depth.bits() >= 8,
        alphas.contains(AlphaOptim::Up) ==> image.ihdr.interlaced != 1,
    ensures
        image.alphas_ready(alphas),
        all_look_the_same(
            image.pixel_form(),
            image.lines(),
            image.alpha_reduced(image.best_alpha(alphas)).lines(),
        ),
{
    assert forall|i: int| 0 <= i < alphas.len() implies image.alpha_ready(#[trigger] alphas[i])
        && image.alpha_reduced(alphas[i]).whole_lines() by {
        alpha_reduction_keeps_what_shows(image, alphas[i]);
    }
    best_alpha_is_least(image, alphas, 0);
    alpha_reduction_keeps_what_shows(image, image.best_alpha(alphas));
}

impl PngData {
    /// The size of the compressed data with `filter` on all lines.
    fn deflated_size(&self, filter: u8) -> (size: usize)
        requires
            self@.whole_lines(),
            filter <= 5,
        ensures
            size == self@.deflated_size(filter),
    {
        let filtered: Vec<u8> = self.filter_image(filter);
        let deflated: Vec<u8> = deflate_zlib(
            filtered.as_slice(),
            STD_COMPRESSION,
            STD_STRATEGY,
            STD_WINDOW,
        );
        deflated.len()
    }

    /// A copy of the image with transparent pixels rewritten, and the size of its compressed data.
    fn alpha_candidate(&self, optim: AlphaOptim) -> (candidate: (usize, PngData))
        requires
            self@.alpha_ready(optim),
            self@.alpha_reduced(optim).whole_lines(),
        ensures
            candidate.0 == self@.alpha_size(optim),
            candidate.1@ == self@.alpha_reduced(optim),
    {
        let mut image: PngData = self.clone();
        image.reduce_alpha_channel(optim);
        let plain: usize = image.deflated_size(0);
        let smooth: usize = image.deflated_size(5);
        if smooth < plain {
            (smooth, image)
        } else {
            (plain, image)
        }
    }

    /// Rewrite the colours of fully transparent pixels in that of the given ways after which the
    /// image data compresses best, the first of them where several do
    pub fn try_alpha_reduction(&mut self, alphas: &[AlphaOptim])
        requires
            alphas@.len() > 0,
            old(self)@.alphas_ready(alphas@),
        ensures
            final(self)@ == (Image {
                raw: old(self)@.alpha_reduced(old(self)@.best_alpha(alphas@)).raw,
                ..old(self)@
            }),
    {
        let ghost image = self@;
        let mut sizes: Vec<usize> = Vec::with_capacity(alphas.len());
        let mut candidates: Vec<Vec<u8>> = Vec::with_capacity(alphas.len());
        let mut i: usize = 0;
        while i < alphas.len()
            invariant
                i <= alphas.len(),
                self@ == image,
                image.alphas_ready(alphas@),
                sizes@.len() == i,
                candidates@.len() == i,
                forall|j: int|
                    0 <= j < i ==> #[trigger] sizes@[j] == image.alpha_size(alphas@[j]),
                forall|j: int|
                    0 <= j < i ==> (#[trigger] candidates@[j])@ == image.alpha_reduced(
                        alphas@[j],
                    ).raw,
            decreases alphas.len() - i,
        {
            assert(image.alpha_ready(alphas@[i as int]));
            let (size, candidate): (usize, PngData) = self.alpha_candidate(alphas[i]);
            sizes.push(size);
            candidates.push(candidate.raw_data);
            i = i + 1;
        }
        let best: usize = smallest_size(sizes.as_slice());
        assert(as_nats(sizes@) =~= image.alpha_sizes(alphas@));
        self.raw_data = candidates.swap_remove(best);
    }
}

} // verus!
