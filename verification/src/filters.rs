//! The five line filters of the PNG format.

use vstd::prelude::*;

verus! {

/// The sum of two bytes, modulo 256.
pub open spec fn byte_add(a: u8, b: u8) -> u8 {
    ((a + b) % 256) as u8
}

/// The difference of two bytes, modulo 256.
pub open spec fn byte_sub(a: u8, b: u8) -> u8 {
    ((a - b) % 256) as u8
}

/// The byte at `i`, or 0 outside of the line.
pub open spec fn byte_or_zero(line: Seq<u8>, i: int) -> u8 {
    if 0 <= i < line.len() {
        line[i]
    } else {
        0
    }
}

/// The distance between two integers.
pub open spec fn distance(a: int, b: int) -> int {
    if a < b {
        b - a
    } else {
        a - b
    }
}

/// Paeth's predictor: of the bytes to the left, above, and above to the left, the one nearest to
/// `left + above - corner`, the earlier one in that order if two are equally near.
pub open spec fn paeth(left: u8, above: u8, corner: u8) -> u8 {
    let estimate = left + above - corner;
    let to_left = distance(estimate, left as int);
    let to_above = distance(estimate, above as int);
    let to_corner = distance(estimate, corner as int);
    if to_left <= to_above && to_left <= to_corner {
        left
    } else if to_above <= to_corner {
        above
    } else {
        corner
    }
}

/// What a filter expects byte `i` of the unfiltered line `line` to be, below the unfiltered line
/// `last`. Bytes outside of a line count as 0.
pub open spec fn predicted(filter: u8, bpp: nat, line: Seq<u8>, last: Seq<u8>, i: int) -> u8 {
    let left = byte_or_zero(line, i - bpp);
    let above = byte_or_zero(last, i);
    let corner = byte_or_zero(last, i - bpp);
    match filter {
        0 => 0,
        1 => left,
        2 => above,
        3 => ((left + above) / 2) as u8,
        _ => paeth(left, above, corner),
    }
}

/// A filtered line: each byte less what the filter expects it to be.
pub open spec fn filtered(filter: u8, bpp: nat, line: Seq<u8>, last: Seq<u8>) -> Seq<u8> {
    Seq::new(line.len(), |i: int| byte_sub(line[i], predicted(filter, bpp, line, last, i)))
}

/// The line of which `data` is the filtered form, built from left to right.
pub open spec fn unfiltered(filter: u8, bpp: nat, data: Seq<u8>, last: Seq<u8>) -> Seq<u8>
    decreases data.len(),
{
    if data.len() == 0 {
        Seq::empty()
    } else {
        let line = unfiltered(filter, bpp, data.drop_last(), last);
        line.push(byte_add(data.last(), predicted(filter, bpp, line, last, data.len() - 1)))
    }
}

pub proof fn lemma_unfiltered_len(filter: u8, bpp: nat, data: Seq<u8>, last: Seq<u8>)
    ensures
        unfiltered(filter, bpp, data, last).len() == data.len(),
    decreases data.len(),
{
    if data.len() > 0 {
        lemma_unfiltered_len(filter, bpp, data.drop_last(), last);
    }
}

/// A filter looks only at bytes to the left of the one that it expects.
proof fn lemma_predicted(filter: u8, bpp: nat, line: Seq<u8>, last: Seq<u8>, i: int)
    requires
        bpp >= 1,
        0 <= i < line.len(),
    ensures
        predicted(filter, bpp, line, last, i) == predicted(filter, bpp, line.drop_last(), last, i),
{
    assert(byte_or_zero(line, i - bpp) == byte_or_zero(line.drop_last(), i - bpp));
}

/// Adding and subtracting a byte undo each other.
proof fn lemma_add_sub(a: u8, b: u8)
    ensures
        byte_sub(byte_add(a, b), b) == a,
        byte_add(byte_sub(a, b), b) == a,
{
}

/// Undoing a filter gives back the line that was filtered.
pub proof fn unfilter_inverts_filter(filter: u8, bpp: nat, line: Seq<u8>, last: Seq<u8>)
    requires
        bpp >= 1,
    ensures
        unfiltered(filter, bpp, filtered(filter, bpp, line, last), last) == line,
    decreases line.len(),
{
    let data = filtered(filter, bpp, line, last);
    if line.len() > 0 {
        let head = line.drop_last();
        let n = line.len() - 1;
        unfilter_inverts_filter(filter, bpp, head, last);
        assert(data.drop_last() =~= filtered(filter, bpp, head, last)) by {
            assert forall|i: int| 0 <= i < n implies predicted(filter, bpp, line, last, i)
                == predicted(filter, bpp, head, last, i) by {
                lemma_predicted(filter, bpp, line, last, i);
            }
        }
        lemma_predicted(filter, bpp, line, last, n);
        lemma_add_sub(line[n], predicted(filter, bpp, line, last, n));
        assert(unfiltered(filter, bpp, data, last) =~= line);
    } else {
        assert(data =~= Seq::<u8>::empty());
        assert(line =~= Seq::<u8>::empty());
    }
}

/// Filtering gives back the data whose filter was undone.
pub proof fn filter_inverts_unfilter(filter: u8, bpp: nat, data: Seq<u8>, last: Seq<u8>)
    requires
        bpp >= 1,
    ensures
        filtered(filter, bpp, unfiltered(filter, bpp, data, last), last) == data,
    decreases data.len(),
{
    let line = unfiltered(filter, bpp, data, last);
    lemma_unfiltered_len(filter, bpp, data, last);
    if data.len() > 0 {
        let head = unfiltered(filter, bpp, data.drop_last(), last);
        let n = data.len() - 1;
        lemma_unfiltered_len(filter, bpp, data.drop_last(), last);
        filter_inverts_unfilter(filter, bpp, data.drop_last(), last);
        assert(line.drop_last() =~= head);
        assert forall|i: int| 0 <= i < data.len() implies filtered(filter, bpp, line, last)[i]
            == data[i] by {
            lemma_predicted(filter, bpp, line, last, i);
            if i < n {
                assert(filtered(filter, bpp, head, last)[i] == data.drop_last()[i]);
            } else {
                lemma_add_sub(data[n], predicted(filter, bpp, head, last, n));
            }
        }
    }
    assert(filtered(filter, bpp, line, last) =~= data);
}

/// Paeth's predictor.
fn paeth_predictor(left: u8, above: u8, corner: u8) -> (byte: u8)
    ensures
        byte == paeth(left, above, corner),
{
    let estimate: i16 = left as i16 + above as i16 - corner as i16;
    let to_left: i16 = if estimate < left as i16 {
        left as i16 - estimate
    } else {
        estimate - left as i16
    };
    let to_above: i16 = if estimate < above as i16 {
        above as i16 - estimate
    } else {
        estimate - above as i16
    };
    let to_corner: i16 = if estimate < corner as i16 {
        corner as i16 - estimate
    } else {
        estimate - corner as i16
    };
    if to_left <= to_above && to_left <= to_corner {
        left
    } else if to_above <= to_corner {
        above
    } else {
        corner
    }
}

/// What the filter expects of byte `i`, from the bytes of the line to the left of it and the line
/// above.
fn predict(filter: u8, bpp: usize, line: &[u8], last_line: &[u8], i: usize) -> (byte: u8)
    requires
        bpp >= 1,
    ensures
        byte == predicted(filter, bpp as nat, line@, last_line@, i as int),
{
    let left: u8 = if i >= bpp && i - bpp < line.len() {
        line[i - bpp]
    } else {
        0
    };
    let above: u8 = if i < last_line.len() {
        last_line[i]
    } else {
        0
    };
    let corner: u8 = if i >= bpp && i - bpp < last_line.len() {
        last_line[i - bpp]
    } else {
        0
    };
    match filter {
        0 => 0,
        1 => left,
        2 => above,
        3 => ((left as u16 + above as u16) / 2) as u8,
        _ => paeth_predictor(left, above, corner),
    }
}

/// Filter a line, given the line above it (empty if there is none).
pub fn filter_line(filter: u8, bpp: usize, data: &[u8], last_line: &[u8]) -> (line: Vec<u8>)
    requires
        bpp >= 1,
        filter <= 4,
    ensures
        line@ == filtered(filter, bpp as nat, data@, last_line@),
{
    let mut out: Vec<u8> = Vec::with_capacity(data.len());
    let mut i: usize = 0;
    while i < data.len()
        invariant
            bpp >= 1,
            i <= data.len(),
            out@ == filtered(filter, bpp as nat, data@, last_line@).take(i as int),
        decreases data.len() - i,
    {
        let expected: u8 = predict(filter, bpp, data, last_line, i);
        out.push(data[i].wrapping_sub(expected));
        i = i + 1;
        assert(out@ =~= filtered(filter, bpp as nat, data@, last_line@).take(i as int));
    }
    assert(out@ =~= filtered(filter, bpp as nat, data@, last_line@));
    out
}

/// Undo the filter of a line, given the unfiltered line above it (empty if there is none).
pub fn unfilter_line(filter: u8, bpp: usize, data: &[u8], last_line: &[u8]) -> (line: Vec<u8>)
    requires
        bpp >= 1,
        filter <= 4,
    ensures
        line@ == unfiltered(filter, bpp as nat, data@, last_line@),
        line@.len() == data@.len(),
{
    let mut out: Vec<u8> = Vec::with_capacity(data.len());
    let mut i: usize = 0;
    assert(data@.take(0) =~= Seq::<u8>::empty());
    while i < data.len()
        invariant
            bpp >= 1,
            i <= data.len(),
            out@ == unfiltered(filter, bpp as nat, data@.take(i as int), last_line@),
        decreases data.len() - i,
    {
        proof {
            lemma_unfiltered_len(filter, bpp as nat, data@.take(i as int), last_line@);
            assert(data@.take(i + 1).drop_last() =~= data@.take(i as int));
        }
        let expected: u8 = predict(filter, bpp, out.as_slice(), last_line, i);
        out.push(data[i].wrapping_add(expected));
        i = i + 1;
    }
    proof {
        assert(data@.take(i as int) =~= data@);
        lemma_unfiltered_len(filter, bpp as nat, data@, last_line@);
    }
    out
}

} // verus!
