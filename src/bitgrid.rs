//! A fixed-size grid of booleans packed eight to a byte, row-major, with
//! wrap-around coordinate addressing.

use vstd::prelude::*;

verus! {

/// Whether bit `k` of `b` is set.
pub open spec fn bit_of(b: u8, k: int) -> bool {
    b & (1u8 << (k as u8)) != 0
}

/// `b` with bit `k` replaced by `v`.
pub open spec fn with_bit(b: u8, k: int, v: bool) -> u8 {
    if v {
        b | (1u8 << (k as u8))
    } else {
        b & !(1u8 << (k as u8))
    }
}

/// `b` with bit `k` toggled.
pub open spec fn toggled_bit(b: u8, k: int) -> u8 {
    b ^ (1u8 << (k as u8))
}

/// Number of bytes that hold one row of `width` cells.
pub open spec fn stride_of(width: int) -> int {
    (width + 7) / 8
}

/// The mathematical content of a grid: its dimensions and its packed bytes.
pub struct GridView {
    pub width: int,
    pub height: int,
    pub bytes: Seq<u8>,
}

impl GridView {
    pub open spec fn stride(self) -> int {
        stride_of(self.width)
    }

    /// Dimensions fit in `i16` and the buffer holds exactly `stride * height` bytes.
    pub open spec fn wf(self) -> bool {
        &&& 0 <= self.width <= i16::MAX
        &&& 0 <= self.height <= i16::MAX
        &&& self.bytes.len() == self.stride() * self.height
    }

    /// Byte that holds cell `(x, y)`, for `0 <= x < width`, `0 <= y < height`.
    pub open spec fn byte_index(self, x: int, y: int) -> int {
        x / 8 + y * self.stride()
    }

    /// Value of cell `(x, y)`, for `0 <= x < width`, `0 <= y < height`.
    pub open spec fn cell(self, x: int, y: int) -> bool {
        bit_of(self.bytes[self.byte_index(x, y)], x % 8)
    }

    /// The cells in row-major order (x fastest).
    pub open spec fn cells(self) -> Seq<bool> {
        Seq::new(
            (self.width * self.height) as nat,
            |p: int| self.cell(p % self.width, p / self.width),
        )
    }

    /// Every bit that stands past the end of a row is clear.
    pub open spec fn padding_clear(self) -> bool {
        forall|i: int, k: int|
            0 <= i < self.bytes.len() && 0 <= k < 8 && (i % self.stride()) * 8 + k >= self.width
                ==> !#[trigger] bit_of(self.bytes[i], k)
    }

    /// Every byte zero.
    pub open spec fn is_blank(self) -> bool {
        forall|i: int| 0 <= i < self.bytes.len() ==> #[trigger] self.bytes[i] == 0
    }

    /// A `width` x `height` grid with every cell unset.
    pub open spec fn blank(width: int, height: int) -> GridView {
        GridView {
            width,
            height,
            bytes: Seq::new((stride_of(width) * height) as nat, |_i: int| 0u8),
        }
    }

    /// The same grid with every byte zero.
    pub open spec fn cleared(self) -> GridView {
        GridView { bytes: Seq::new(self.bytes.len(), |_i: int| 0u8), ..self }
    }
}

/// A grid of zero bytes has no padding bit set.
pub proof fn lemma_blank_padding(g: GridView)
    requires
        g.is_blank(),
    ensures
        g.padding_clear(),
{
    assert forall|i: int, k: int|
        0 <= i < g.bytes.len() && 0 <= k < 8 && (i % g.stride()) * 8 + k >= g.width
            implies !#[trigger] bit_of(g.bytes[i], k) by {
        lemma_bits(0u8, 0, k, false);
    }
}

/// Coordinate `c` wrapped onto `0..n` (Euclidean remainder).
pub open spec fn wrap(c: int, n: int) -> int {
    c % n
}

/// A `width` x `height` grid of booleans, stored eight cells per byte.
///
/// Cell `(x, y)` lives in byte `x / 8 + y * ceil(width / 8)`, at bit `x % 8`.
#[derive(Clone, Debug, PartialEq, Eq)]
pub struct BitGrid {
    buf: Vec<u8>,
    width: i16,
    height: i16,
}

impl View for BitGrid {
    type V = GridView;

    closed spec fn view(&self) -> GridView {
        GridView { width: self.width as int, height: self.height as int, bytes: self.buf@ }
    }
}

/// Writing or toggling bit `k` changes bit `k` only; zero has no bit set.
pub proof fn lemma_bits(b: u8, k: int, j: int, v: bool)
    requires
        0 <= k < 8,
        0 <= j < 8,
    ensures
        bit_of(with_bit(b, k, v), j) == if j == k { v } else { bit_of(b, j) },
        bit_of(toggled_bit(b, k), j) == if j == k { !bit_of(b, j) } else { bit_of(b, j) },
        !bit_of(0u8, j),
{
    let kk = k as u8;
    let jj = j as u8;
    assert(((b | (1u8 << kk)) & (1u8 << jj) != 0) == if jj == kk { true } else { b & (1u8 << jj) != 0 }) by (bit_vector)
        requires kk < 8, jj < 8;
    assert(((b & !(1u8 << kk)) & (1u8 << jj) != 0) == if jj == kk { false } else { b & (1u8 << jj) != 0 }) by (bit_vector)
        requires kk < 8, jj < 8;
    assert(((b ^ (1u8 << kk)) & (1u8 << jj) != 0) == if jj == kk { !(b & (1u8 << jj) != 0) } else { b & (1u8 << jj) != 0 }) by (bit_vector)
        requires kk < 8, jj < 8;
    assert((0u8 & (1u8 << jj)) == 0) by (bit_vector);
}

/// `x / 8 + y * stride` is a valid byte index for every cell in range.
pub proof fn lemma_byte_index_in_range(g: GridView, x: int, y: int)
    requires
        g.wf(),
        0 <= x < g.width,
        0 <= y < g.height,
    ensures
        0 <= g.byte_index(x, y) < g.bytes.len(),
        g.byte_index(x, y) % g.stride() == x / 8,
{
    let s = g.stride();
    assert(0 <= x / 8 < s);
    assert(0 <= y * s <= (g.height - 1) * s) by (nonlinear_arith)
        requires 0 <= y < g.height, 0 <= s;
    assert((g.height - 1) * s + s == g.height * s) by (nonlinear_arith);
    vstd::arithmetic::div_mod::lemma_fundamental_div_mod_converse(x / 8 + y * s, s, y, x / 8);
}

/// Two cells in range share a byte and a bit only if they are the same cell.
pub proof fn lemma_cell_position_unique(g: GridView, x1: int, y1: int, x2: int, y2: int)
    requires
        g.wf(),
        0 <= x1 < g.width,
        0 <= y1 < g.height,
        0 <= x2 < g.width,
        0 <= y2 < g.height,
        g.byte_index(x1, y1) == g.byte_index(x2, y2),
        x1 % 8 == x2 % 8,
    ensures
        x1 == x2,
        y1 == y2,
{
    let s = g.stride();
    vstd::arithmetic::div_mod::lemma_fundamental_div_mod_converse(x1 / 8 + y1 * s, s, y1, x1 / 8);
    vstd::arithmetic::div_mod::lemma_fundamental_div_mod_converse(x2 / 8 + y2 * s, s, y2, x2 / 8);
    assert(x1 == 8 * (x1 / 8) + x1 % 8);
    assert(x2 == 8 * (x2 / 8) + x2 % 8);
}

/// Replacing the byte of cell `(x, y)` by one that differs from it at most in
/// that cell's bit changes no other cell.
pub proof fn lemma_write_cell_byte(g: GridView, x: int, y: int, nb: u8)
    requires
        g.wf(),
        0 <= x < g.width,
        0 <= y < g.height,
        forall|j: int| 0 <= j < 8 && j != x % 8 ==> bit_of(nb, j) == bit_of(
            #[trigger] g.bytes[g.byte_index(x, y)],
            j,
        ),
    ensures
        ({
            let g2 = GridView { bytes: g.bytes.update(g.byte_index(x, y), nb), ..g };
            &&& g2.wf()
            &&& g2.cell(x, y) == bit_of(nb, x % 8)
            &&& forall|cx: int, cy: int|
                0 <= cx < g.width && 0 <= cy < g.height && !(cx == x && cy == y) ==> #[trigger] g2.cell(
                    cx,
                    cy,
                ) == g.cell(cx, cy)
        }),
{
    let g2 = GridView { bytes: g.bytes.update(g.byte_index(x, y), nb), ..g };
    lemma_byte_index_in_range(g, x, y);
    assert forall|cx: int, cy: int|
        0 <= cx < g.width && 0 <= cy < g.height && !(cx == x && cy == y) implies #[trigger] g2.cell(
            cx,
            cy,
        ) == g.cell(cx, cy) by {
        lemma_byte_index_in_range(g, cx, cy);
        if g.byte_index(cx, cy) == g.byte_index(x, y) {
            if cx % 8 == x % 8 {
                lemma_cell_position_unique(g, cx, cy, x, y);
            }
        }
    }
}

/// Changing only the bit of a cell in range leaves the padding bits alone.
pub proof fn lemma_write_keeps_padding(g: GridView, x: int, y: int, nb: u8)
    requires
        g.wf(),
        0 <= x < g.width,
        0 <= y < g.height,
        forall|j: int| 0 <= j < 8 && j != x % 8 ==> bit_of(nb, j) == bit_of(
            #[trigger] g.bytes[g.byte_index(x, y)],
            j,
        ),
    ensures
        g.padding_clear() ==> (GridView {
            bytes: g.bytes.update(g.byte_index(x, y), nb),
            ..g
        }).padding_clear(),
{
    let g2 = GridView { bytes: g.bytes.update(g.byte_index(x, y), nb), ..g };
    lemma_byte_index_in_range(g, x, y);
    if g.padding_clear() {
        assert forall|i: int, k: int|
            0 <= i < g2.bytes.len() && 0 <= k < 8 && (i % g2.stride()) * 8 + k >= g2.width
                implies !#[trigger] bit_of(g2.bytes[i], k) by {
            if i == g.byte_index(x, y) {
                assert(x == (x / 8) * 8 + x % 8);
                assert(k != x % 8);
                assert(!bit_of(g.bytes[i], k));
            }
        }
    }
}

/// Row-major position `y * width + x` of a cell in range lies in the grid
/// and names that cell; in-range coordinates wrap onto themselves.
pub proof fn lemma_cell_position(g: GridView, x: int, y: int)
    requires
        g.wf(),
        0 <= x < g.width,
        0 <= y < g.height,
    ensures
        0 <= y * g.width + x < g.width * g.height,
        g.cells()[y * g.width + x] == g.cell(x, y),
        wrap(x, g.width) == x,
        wrap(y, g.height) == y,
{
    let w = g.width;
    assert(y * w + x < w * g.height) by (nonlinear_arith)
        requires 0 <= x < w, 0 <= y < g.height;
    assert(0 <= y * w) by (nonlinear_arith)
        requires 0 <= y, 0 <= w;
    vstd::arithmetic::div_mod::lemma_fundamental_div_mod_converse(y * w + x, w, y, x);
    vstd::arithmetic::div_mod::lemma_small_mod(x as nat, w as nat);
    vstd::arithmetic::div_mod::lemma_small_mod(y as nat, g.height as nat);
}

/// Position `q` of a `w`-wide grid of `h` rows is cell `(q % w, q / w)`.
pub proof fn lemma_position_split(q: int, w: int, h: int)
    requires
        0 < w,
        0 <= q < w * h,
    ensures
        0 <= q % w < w,
        0 <= q / w < h,
        q == (q / w) * w + q % w,
{
    vstd::arithmetic::div_mod::lemma_fundamental_div_mod(q, w);
    vstd::arithmetic::div_mod::lemma_div_pos_is_pos(q, w);
    let d = q / w;
    assert(w * d == d * w) by (nonlinear_arith);
    if d >= h {
        assert(w * d >= w * h) by (nonlinear_arith)
            requires d >= h, w > 0;
        assert(false);
    }
}

impl BitGrid {
    /// A `width` x `height` grid with every cell unset.
    pub fn new(width: usize, height: usize) -> (r: Self)
        requires
            width <= i16::MAX,
            height <= i16::MAX,
        ensures
            r@.wf(),
            r@ == GridView::blank(width as int, height as int),
            r@.is_blank(),
    {
        let stride: usize = (width + 7) / 8;
        assert(stride * height <= 4096 * 32767) by (nonlinear_arith)
            requires stride <= 4096, height <= 32767;
        let n: usize = stride * height;
        let mut buf: Vec<u8> = Vec::new();
        while buf.len() < n
            invariant
                buf.len() <= n,
                forall|i: int| 0 <= i < buf.len() ==> #[trigger] buf@[i] == 0,
            decreases n - buf.len(),
        {
            buf.push(0);
        }
        let r = BitGrid { buf, width: width as i16, height: height as i16 };
        assert(r@.bytes =~= GridView::blank(width as int, height as int).bytes);
        r
    }

    pub fn width(&self) -> (r: i16)
        ensures
            r == self@.width,
    {
        self.width
    }

    pub fn height(&self) -> (r: i16)
        ensures
            r == self@.height,
    {
        self.height
    }

    /// Whether every byte of the grid is zero.
    pub fn is_empty(&self) -> (r: bool)
        ensures
            r == self@.is_blank(),
    {
        let mut i: usize = 0;
        while i < self.buf.len()
            invariant
                i <= self.buf.len(),
                forall|j: int| 0 <= j < i ==> #[trigger] self.buf@[j] == 0,
            decreases self.buf.len() - i,
        {
            if self.buf[i] != 0 {
                assert(self@.bytes[i as int] != 0);
                return false;
            }
            i += 1;
        }
        true
    }

    /// Byte index and bit offset of cell `(x, y)`, after wrapping both
    /// coordinates onto the grid.
    pub fn idx(&self, x: i16, y: i16) -> (r: (usize, u8))
        requires
            self@.wf(),
            self@.width > 0,
            self@.height > 0,
        ensures
            r.0 == self@.byte_index(wrap(x as int, self@.width), wrap(y as int, self@.height)),
            r.1 == wrap(x as int, self@.width) % 8,
            0 <= r.0 < self@.bytes.len(),
            0 <= wrap(x as int, self@.width) < self@.width,
            0 <= wrap(y as int, self@.height) < self@.height,
    {
        let xw: i16 = match x.checked_rem_euclid(self.width) {
            Some(v) => v,
            None => 0,
        };
        let yw: i16 = match y.checked_rem_euclid(self.height) {
            Some(v) => v,
            None => 0,
        };
        proof {
            lemma_byte_index_in_range(self@, xw as int, yw as int);
        }
        let stride: usize = ((self.width as usize) + 7) / 8;
        assert(stride == self@.stride());
        assert((yw as int) * (stride as int) <= self.buf.len()) by (nonlinear_arith)
            requires
                0 <= yw < self@.height,
                self.buf.len() == stride * self@.height,
        ;
        assert(self@.byte_index(xw as int, yw as int) == (xw as int) / 8 + (yw as int) * (stride as int));
        let idx: usize = (xw as usize) / 8 + (yw as usize) * stride;
        (idx, (xw % 8) as u8)
    }

    /// Value of cell `(x, y)`, coordinates wrapped onto the grid.
    pub fn get(&self, x: i16, y: i16) -> (r: bool)
        requires
            self@.wf(),
            self@.width > 0,
            self@.height > 0,
        ensures
            r == self@.cell(wrap(x as int, self@.width), wrap(y as int, self@.height)),
    {
        let (idx, bit) = self.idx(x, y);
        let mask: u8 = 1u8 << bit;
        (self.buf[idx] & mask) != 0
    }

    /// Sets cell `(x, y)` (coordinates wrapped onto the grid) to `elem` and
    /// returns its previous value.
    pub fn set(&mut self, x: i16, y: i16, elem: bool) -> (r: bool)
        requires
            old(self)@.wf(),
            old(self)@.width > 0,
            old(self)@.height > 0,
        ensures
            ({
                let (wx, wy) = (wrap(x as int, old(self)@.width), wrap(y as int, old(self)@.height));
                let i = old(self)@.byte_index(wx, wy);
                &&& r == old(self)@.cell(wx, wy)
                &&& final(self)@ == GridView {
                    bytes: old(self)@.bytes.update(i, with_bit(old(self)@.bytes[i], wx % 8, elem)),
                    ..old(self)@
                }
                &&& final(self)@.wf()
                &&& final(self)@.cell(wx, wy) == elem
                &&& old(self)@.padding_clear() ==> final(self)@.padding_clear()
                &&& forall|cx: int, cy: int|
                    0 <= cx < old(self)@.width && 0 <= cy < old(self)@.height && !(cx == wx && cy
                        == wy) ==> #[trigger] final(self)@.cell(cx, cy) == old(self)@.cell(cx, cy)
            }),
    {
        let (idx, bit) = self.idx(x, y);
        let mask: u8 = 1u8 << bit;
        let b: u8 = self.buf[idx];
        let old_value = (b & mask) != 0;
        let nb: u8 = if elem { b | mask } else { b & !mask };
        proof {
            let g = self@;
            let wx = wrap(x as int, g.width);
            let wy = wrap(y as int, g.height);
            assert forall|j: int| 0 <= j < 8 && j != wx % 8 implies bit_of(nb, j) == bit_of(
                #[trigger] g.bytes[g.byte_index(wx, wy)],
                j,
            ) by {
                lemma_bits(b, bit as int, j, elem);
            }
            lemma_bits(b, bit as int, bit as int, elem);
            lemma_write_cell_byte(g, wx, wy, nb);
            lemma_write_keeps_padding(g, wx, wy, nb);
        }
        self.buf.set(idx, nb);
        old_value
    }

    /// Toggles cell `(x, y)` (coordinates wrapped onto the grid) and returns
    /// its previous value.
    pub fn flip(&mut self, x: i16, y: i16) -> (r: bool)
        requires
            old(self)@.wf(),
            old(self)@.width > 0,
            old(self)@.height > 0,
        ensures
            ({
                let (wx, wy) = (wrap(x as int, old(self)@.width), wrap(y as int, old(self)@.height));
                let i = old(self)@.byte_index(wx, wy);
                &&& r == old(self)@.cell(wx, wy)
                &&& final(self)@ == GridView {
                    bytes: old(self)@.bytes.update(i, toggled_bit(old(self)@.bytes[i], wx % 8)),
                    ..old(self)@
                }
                &&& final(self)@.wf()
                &&& final(self)@.cell(wx, wy) == !r
                &&& forall|cx: int, cy: int|
                    0 <= cx < old(self)@.width && 0 <= cy < old(self)@.height && !(cx == wx && cy
                        == wy) ==> #[trigger] final(self)@.cell(cx, cy) == old(self)@.cell(cx, cy)
            }),
    {
        let (idx, bit) = self.idx(x, y);
        let mask: u8 = 1u8 << bit;
        let b: u8 = self.buf[idx];
        let old_value = (b & mask) != 0;
        let nb: u8 = b ^ mask;
        proof {
            let g = self@;
            let wx = wrap(x as int, g.width);
            let wy = wrap(y as int, g.height);
            assert forall|j: int| 0 <= j < 8 && j != wx % 8 implies bit_of(nb, j) == bit_of(
                #[trigger] g.bytes[g.byte_index(wx, wy)],
                j,
            ) by {
                lemma_bits(b, bit as int, j, false);
            }
            lemma_bits(b, bit as int, bit as int, false);
            lemma_write_cell_byte(g, wx, wy, nb);
        }
        self.buf.set(idx, nb);
        old_value
    }

    /// Sets every cell to unset (every byte to zero).
    pub fn clear(&mut self)
        ensures
            final(self)@ == old(self)@.cleared(),
            final(self)@.is_blank(),
    {
        let mut i: usize = 0;
        while i < self.buf.len()
            invariant
                i <= self.buf.len(),
                self.buf.len() == old(self).buf.len(),
                self.width == old(self).width,
                self.height == old(self).height,
                forall|j: int| 0 <= j < i ==> #[trigger] self.buf@[j] == 0,
            decreases self.buf.len() - i,
        {
            self.buf.set(i, 0);
            i += 1;
        }
        assert(self@.bytes =~= old(self)@.cleared().bytes);
    }

    /// The packed bytes, row-major.
    pub fn as_bytes(&self) -> (r: &[u8])
        ensures
            r@ == self@.bytes,
    {
        self.buf.as_slice()
    }

    /// The packed bytes, row-major, for writing in place.
    pub fn as_mut_bytes(&mut self) -> (r: &mut [u8])
        ensures
            r@ == old(self)@.bytes,
            final(self)@ == (GridView { bytes: final(r)@, ..old(self)@ }),
    {
        self.buf.as_mut_slice()
    }

    /// `(width, height)`.
    pub fn dims(&self) -> (r: (i16, i16))
        ensures
            r.0 == self@.width,
            r.1 == self@.height,
    {
        (self.width, self.height)
    }
}

} // verus!
