//! Turning a numbered sequence of grayscale images into frames to encode.

use vstd::prelude::*;

use crate::bitgrid::BitGrid;

verus! {

/// Luma values above this are taken as set cells.
pub const SET_THRESHOLD: u8 = 0x80;

/// A `width` x `height` grid whose cell `(x, y)` is set exactly when the
/// row-major luma sample `y * width + x` is above the threshold.
pub fn threshold_luma(width: usize, height: usize, luma: &[u8]) -> (r: BitGrid)
    requires
        width <= i16::MAX,
        height <= i16::MAX,
        luma@.len() == width * height,
    ensures
        r@.wf(),
        r@.width == width,
        r@.height == height,
        r@.padding_clear(),
        r@.cells() == Seq::new((width * height) as nat, |q: int| luma@[q] > SET_THRESHOLD),
{
    let mut grid = BitGrid::new(width, height);
    let ghost w = width as int;
    let ghost h = height as int;
    proof {
        crate::bitgrid::lemma_blank_padding(grid@);
        let g = grid@;
        assert forall|q: int| 0 <= q < w * h implies !#[trigger] g.cells()[q] by {
            crate::bitgrid::lemma_position_split(q, w, h);
            crate::bitgrid::lemma_byte_index_in_range(g, q % w, q / w);
            crate::bitgrid::lemma_bits(0u8, 0, q % w % 8, false);
        }
    }
    let mut y: usize = 0;
    while y < height
        invariant
            grid@.wf(),
            grid@.padding_clear(),
            grid@.width == w,
            grid@.height == h,
            w == width,
            h == height,
            luma@.len() == w * h,
            0 <= y <= height,
            forall|q: int|
                0 <= q < w * h ==> #[trigger] grid@.cells()[q] == (q < y * w && luma@[q]
                    > SET_THRESHOLD),
        decreases height - y,
    {
        let mut x: usize = 0;
        while x < width
            invariant
                grid@.wf(),
                grid@.padding_clear(),
                grid@.width == w,
                grid@.height == h,
                w == width,
                h == height,
                luma@.len() == w * h,
                0 <= y < height,
                0 <= x <= width,
                forall|q: int|
                    0 <= q < w * h ==> #[trigger] grid@.cells()[q] == (q < y * w + x && luma@[q]
                        > SET_THRESHOLD),
            decreases width - x,
        {
            let ghost before = grid@;
            proof {
                crate::bitgrid::lemma_cell_position(grid@, x as int, y as int);
                vstd::arithmetic::div_mod::lemma_fundamental_div_mod_converse(y * w + x, w, y as int, x as int);
            }
            let n = luma.len();
            assert(y * w + x < n);
            assert(y * width <= y * w + x);
            let is_set = luma[y * width + x] > SET_THRESHOLD;
            assert(is_set == (luma@[y * w + x] > SET_THRESHOLD));
            grid.set(x as i16, y as i16, is_set);
            proof {
                let p = y * w + x;
                assert forall|q: int| 0 <= q < w * h implies #[trigger] grid@.cells()[q] == (q < p
                    + 1 && luma@[q] > SET_THRESHOLD) by {
                    crate::bitgrid::lemma_position_split(q, w, h);
                    assert(grid@.cells()[q] == grid@.cell(q % w, q / w));
                    assert(before.cells()[q] == before.cell(q % w, q / w));
                    if q != p {
                        assert(!(q % w == x && q / w == y));
                    } else {
                        assert(q % w == x && q / w == y);
                        assert(grid@.cell(x as int, y as int) == is_set);
                    }
                }
            }
            x += 1;
        }
        proof {
            assert(y * w + w == (y + 1) * w) by (nonlinear_arith);
        }
        y += 1;
    }
    assert(h * w == w * h) by (nonlinear_arith);
    assert(grid@.cells() =~= Seq::new((width * height) as nat, |q: int| luma@[q] > SET_THRESHOLD));
    grid
}

/// Which of `count` numbered images become frames: drop the first
/// `skip_first`, then keep one in every `frame_rate_div` of the rest, then
/// keep at most `n_frames` of those. Returns the kept positions, ascending.
pub fn select_frames(
    count: usize,
    skip_first: usize,
    frame_rate_div: usize,
    n_frames: Option<usize>,
) -> (r: Vec<usize>)
    requires
        skip_first <= count,
        frame_rate_div > 0,
    ensures
        forall|j: int| 0 <= j < r@.len() ==> #[trigger] r@[j] == skip_first + j * frame_rate_div,
        forall|j: int| 0 <= j < r@.len() ==> #[trigger] r@[j] < count,
        match n_frames {
            Some(n) => r@.len() <= n,
            None => true,
        },
        skip_first + r@.len() * frame_rate_div >= count || n_frames == Some(r@.len() as usize),
{
    let mut out: Vec<usize> = Vec::new();
    if skip_first == count {
        return out;
    }
    let mut i: usize = skip_first;
    assert(out@.len() == 0);
    assert(out@.len() * frame_rate_div == 0);
    loop
        invariant
            skip_first <= i < count,
            frame_rate_div > 0,
            i == skip_first + out@.len() * frame_rate_div,
            forall|j: int| 0 <= j < out@.len() ==> #[trigger] out@[j] == skip_first + j * frame_rate_div,
            forall|j: int| 0 <= j < out@.len() ==> #[trigger] out@[j] < count,
            match n_frames {
                Some(n) => out@.len() <= n,
                None => true,
            },
        decreases count - i,
    {
        match n_frames {
            Some(n) => {
                if out.len() >= n {
                    return out;
                }
            },
            None => {},
        }
        out.push(i);
        proof {
            assert(skip_first + out@.len() * frame_rate_div == i + frame_rate_div) by (nonlinear_arith)
                requires
                    i == skip_first + (out@.len() - 1) * frame_rate_div,
            ;
        }
        if count - i <= frame_rate_div {
            return out;
        }
        i = i + frame_rate_div;
    }
}

/// Checks the numbers of `n` frame images, sorted ascending. A number that
/// occurs twice is returned as the error (the first such one). Otherwise
/// the result lists, ascending, the numbers from 1 up to both `n - 1` and the
/// largest number present that no image carries.
pub fn frame_id_gaps(ids: &[usize]) -> (r: Result<Vec<usize>, usize>)
    requires
        forall|a: int, b: int| 0 <= a <= b < ids@.len() ==> ids@[a] <= ids@[b],
    ensures
        match r {
            Err(d) => exists|j: int|
                0 < j < ids@.len() && ids@[j - 1] == d && #[trigger] ids@[j] == d && forall|k: int|
                    0 < k < j ==> ids@[k - 1] < #[trigger] ids@[k],
            Ok(missing) => {
                &&& forall|k: int| 0 < k < ids@.len() ==> ids@[k - 1] < #[trigger] ids@[k]
                &&& forall|a: int, b: int|
                    0 <= a < b < missing@.len() ==> #[trigger] missing@[a] < #[trigger] missing@[b]
                &&& forall|v: usize|
                    #[trigger] missing@.contains(v) <==> (0 < v < ids@.len() && v <= ids@.last()
                        && !ids@.contains(v))
            },
        },
{
    let n = ids.len();
    let mut j: usize = 1;
    while j < n
        invariant
            n == ids@.len(),
            1 <= j,
            forall|a: int, b: int| 0 <= a <= b < ids@.len() ==> ids@[a] <= ids@[b],
            forall|k: int| 0 < k < j && k < n ==> ids@[k - 1] < #[trigger] ids@[k],
        decreases n - j,
    {
        if ids[j - 1] == ids[j] {
            return Err(ids[j]);
        }
        j += 1;
    }
    let mut missing: Vec<usize> = Vec::new();
    if n == 0 {
        return Ok(missing);
    }
    let largest = ids[n - 1];
    let mut k: usize = 0;
    let mut i: usize = 1;
    while i < n && i <= largest
        invariant
            n == ids@.len(),
            n > 0,
            largest == ids@.last(),
            forall|a: int, b: int| 0 <= a <= b < ids@.len() ==> ids@[a] <= ids@[b],
            1 <= i,
            k <= n,
            forall|a: int| 0 <= a < k ==> #[trigger] ids@[a] < i,
            forall|a: int, b: int|
                0 <= a < b < missing@.len() ==> #[trigger] missing@[a] < #[trigger] missing@[b],
            forall|a: int| 0 <= a < missing@.len() ==> #[trigger] missing@[a] < i,
            forall|v: usize|
                #[trigger] missing@.contains(v) <==> (0 < v < i && v < n && v <= largest
                    && !ids@.contains(v)),
        decreases n - i,
    {
        while k < n && ids[k] < i
            invariant
                n == ids@.len(),
                k <= n,
                forall|a: int, b: int| 0 <= a <= b < ids@.len() ==> ids@[a] <= ids@[b],
                forall|a: int| 0 <= a < k ==> #[trigger] ids@[a] < i,
            decreases n - k,
        {
            k += 1;
        }
        let present = k < n && ids[k] == i;
        proof {
            if !present {
                assert forall|a: int| 0 <= a < n implies #[trigger] ids@[a] != i by {
                    if a >= k {
                        assert(ids@[k as int] <= ids@[a]);
                    }
                }
            } else {
                assert(ids@[k as int] == i);
            }
            assert(present == ids@.contains(i));
        }
        let ghost before = missing@;
        if !present {
            missing.push(i);
            proof {
                assert forall|v: usize|
                    #[trigger] missing@.contains(v) <==> (0 < v < i + 1 && v < n && v <= largest
                        && !ids@.contains(v)) by {
                    if v != i {
                        if missing@.contains(v) {
                            let t = choose|t: int| 0 <= t < missing@.len() && missing@[t] == v;
                            assert(before[t] == v);
                        }
                        if before.contains(v) {
                            let t = choose|t: int| 0 <= t < before.len() && before[t] == v;
                            assert(missing@[t] == v);
                        }
                    } else {
                        assert(missing@[missing@.len() - 1] == i);
                    }
                }
            }
        } else {
            proof {
                assert forall|v: usize|
                    #[trigger] missing@.contains(v) <==> (0 < v < i + 1 && v < n && v <= largest
                        && !ids@.contains(v)) by {
                    if v == i && missing@.contains(v) {
                        let t = choose|t: int| 0 <= t < missing@.len() && missing@[t] == v;
                        assert(missing@[t] < i);
                    }
                }
            }
        }
        i += 1;
    }
    Ok(missing)
}

} // verus!
