//! Run-length coding of a row-major cell sequence.
//!
//! A payload is a sequence of run lengths, one byte each. Runs alternate in
//! color and start with unset cells: run `i` holds `payload[i]` cells, unset
//! when `i` is even and set when `i` is odd. A run may be empty.

use vstd::prelude::*;

verus! {

/// `n` copies of `b`.
pub open spec fn run(b: bool, n: int) -> Seq<bool> {
    Seq::new(n as nat, |_i: int| b)
}

/// Color of run `i`: unset for even `i`, set for odd `i`.
pub open spec fn run_color(i: int) -> bool {
    i % 2 == 1
}

/// The cells that a run-length payload describes.
pub open spec fn rle_cells(s: Seq<u8>) -> Seq<bool>
    decreases s.len(),
{
    if s.len() == 0 {
        Seq::empty()
    } else {
        rle_cells(s.drop_last()) + run(run_color(s.len() - 1), s.last() as int)
    }
}

/// The encoder's state after scanning `c`: the run lengths emitted so far,
/// the color of the open run, and its length so far.
///
/// A cell of the other color closes the open run. A run that reaches 255
/// cells and goes on is closed at 255, followed by an empty run of the other
/// color, so that no run length needs more than one byte.
pub open spec fn rle_scan(c: Seq<bool>) -> (Seq<u8>, bool, int)
    decreases c.len(),
{
    if c.len() == 0 {
        (Seq::empty(), false, 0)
    } else {
        let (out, color, count) = rle_scan(c.drop_last());
        if c.last() != color {
            (out.push(count as u8), c.last(), 1)
        } else if count == 255 {
            (out.push(255u8).push(0u8), color, 1)
        } else {
            (out, color, count + 1)
        }
    }
}

/// Run-length payload of `c`: the scan's runs, then the open run if it is
/// not empty.
pub open spec fn rle_encode(c: Seq<bool>) -> Seq<u8> {
    let (out, color, count) = rle_scan(c);
    if count > 0 {
        out.push(count as u8)
    } else {
        out
    }
}

pub proof fn lemma_rle_cells_push(s: Seq<u8>, b: u8)
    ensures
        rle_cells(s.push(b)) == rle_cells(s) + run(run_color(s.len() as int), b as int),
{
    assert(s.push(b).drop_last() =~= s);
}

/// What the scan has emitted, followed by the open run, is the input.
pub proof fn lemma_rle_scan(c: Seq<bool>)
    ensures
        ({
            let (out, color, count) = rle_scan(c);
            &&& 0 <= count <= 255
            &&& (count == 0) == (c.len() == 0)
            &&& color == run_color(out.len() as int)
            &&& rle_cells(out) + run(color, count) == c
        }),
    decreases c.len(),
{
    if c.len() == 0 {
        assert(rle_cells(Seq::<u8>::empty()) + run(false, 0) =~= c);
    } else {
        let p = c.drop_last();
        lemma_rle_scan(p);
        let (out, color, count) = rle_scan(p);
        assert(c =~= p.push(c.last()));
        if c.last() != color {
            lemma_rle_cells_push(out, count as u8);
            assert(rle_cells(out.push(count as u8)) + run(c.last(), 1) =~= c);
        } else if count == 255 {
            lemma_rle_cells_push(out, 255u8);
            lemma_rle_cells_push(out.push(255u8), 0u8);
            assert(rle_cells(out.push(255u8).push(0u8)) + run(color, 1) =~= c);
        } else {
            assert(rle_cells(out) + run(color, count + 1) =~= c);
        }
    }
}

/// Decoding the payload of `c` gives back `c`.
pub proof fn lemma_rle_round_trip(c: Seq<bool>)
    ensures
        rle_cells(rle_encode(c)) == c,
{
    lemma_rle_scan(c);
    let (out, color, count) = rle_scan(c);
    if count > 0 {
        lemma_rle_cells_push(out, count as u8);
    } else {
        assert(rle_cells(out) + run(color, count) =~= rle_cells(out));
    }
}

} // verus!
