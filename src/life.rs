//! Conway's Game of Life on a small fixed board whose edges are dead.

use vstd::prelude::*;

use crate::bitgrid::{bit_of, lemma_bits, with_bit};

verus! {

/// Number of rows of the board.
pub const ROWS: usize = 12;

/// Number of columns of the board.
pub const COLS: usize = 16;

/// Row-major position of cell `(x, y)`.
pub open spec fn pos(x: int, y: int) -> int {
    y * 16 + x
}

/// Whether `(x, y)` lies on the board.
pub open spec fn on_board(x: int, y: int) -> bool {
    0 <= x < COLS && 0 <= y < ROWS
}

/// Whether cell `(x, y)` of board `b` is alive; cells off the board are dead.
pub open spec fn alive(b: Seq<bool>, x: int, y: int) -> bool {
    on_board(x, y) && b[pos(x, y)]
}

/// Number of live cells among the eight neighbours of `(x, y)`.
pub open spec fn live_neighbours(b: Seq<bool>, x: int, y: int) -> int {
    (if alive(b, x - 1, y - 1) { 1int } else { 0 }) + (if alive(b, x, y - 1) { 1int } else { 0 })
        + (if alive(b, x + 1, y - 1) { 1int } else { 0 }) + (if alive(b, x - 1, y) { 1int } else {
        0
    }) + (if alive(b, x + 1, y) { 1int } else { 0 }) + (if alive(b, x - 1, y + 1) { 1int } else {
        0
    }) + (if alive(b, x, y + 1) { 1int } else { 0 }) + (if alive(b, x + 1, y + 1) { 1int } else {
        0
    })
}

/// Whether `(x, y)` is alive after one step: a live cell with two or three
/// live neighbours lives on, a dead cell with exactly three comes alive.
pub open spec fn next_alive(b: Seq<bool>, x: int, y: int) -> bool {
    if alive(b, x, y) {
        live_neighbours(b, x, y) == 2 || live_neighbours(b, x, y) == 3
    } else {
        live_neighbours(b, x, y) == 3
    }
}

/// The board after one step.
pub open spec fn next_board(b: Seq<bool>) -> Seq<bool> {
    Seq::new(192, |p: int| next_alive(b, p % 16, p / 16))
}

/// Number of cells among the first `n` positions that one step changes.
pub open spec fn changed_before(b: Seq<bool>, n: int) -> int
    decreases n,
{
    if n <= 0 {
        0
    } else {
        changed_before(b, n - 1) + if next_alive(b, (n - 1) % 16, (n - 1) / 16) != alive(
            b,
            (n - 1) % 16,
            (n - 1) / 16,
        ) {
            1int
        } else {
            0
        }
    }
}

/// Cell `(dx, dy)` of a right-facing glider:
/// ```text
/// .O.
/// ..O
/// OOO
/// ```
pub open spec fn right_glider(dx: int, dy: int) -> bool {
    (dx == 1 && dy == 0) || (dx == 2 && dy == 1) || dy == 2
}

/// Cell `(dx, dy)` of a left-facing glider:
/// ```text
/// .O.
/// O..
/// OOO
/// ```
pub open spec fn left_glider(dx: int, dy: int) -> bool {
    (dx == 1 && dy == 0) || (dx == 0 && dy == 1) || dy == 2
}

/// Board `b` with the 3 x 3 square whose top left is `(x, y)` painted by
/// `pattern`.
pub open spec fn with_pattern(b: Seq<bool>, x: int, y: int, pattern: spec_fn(int, int) -> bool) -> Seq<
    bool,
> {
    Seq::new(
        192,
        |p: int|
            if x <= p % 16 < x + 3 && y <= p / 16 < y + 3 {
                pattern(p % 16 - x, p / 16 - y)
            } else {
                b[p]
            },
    )
}

/// With no change among the first `n` positions, those cells are as they were.
proof fn lemma_no_change(b: Seq<bool>, n: int)
    requires
        0 <= n <= 192,
        changed_before(b, n) == 0,
    ensures
        forall|p: int| 0 <= p < n ==> #[trigger] next_alive(b, p % 16, p / 16) == alive(b, p % 16, p / 16),
    decreases n,
{
    if n > 0 {
        assert(changed_before(b, n - 1) >= 0) by {
            lemma_changed_nonneg(b, n - 1);
        }
        lemma_no_change(b, n - 1);
    }
}

/// A count of changed cells is never negative.
proof fn lemma_changed_nonneg(b: Seq<bool>, n: int)
    ensures
        changed_before(b, n) >= 0,
    decreases n,
{
    if n > 0 {
        lemma_changed_nonneg(b, n - 1);
    }
}

/// A Game of Life board of 16 columns and 12 rows, one bit per cell.
#[derive(Copy, Clone)]
pub struct Life {
    /// Current state of the simulation.
    cells: [[u8; 2]; 12],
    /// Scratch board that a step writes before it becomes current.
    shadow: [[u8; 2]; 12],
}

/// The cells of a packed board, row-major.
pub open spec fn board_cells(rows: [[u8; 2]; 12]) -> Seq<bool> {
    Seq::new(192, |p: int| bit_of(rows@[p / 16]@[(p % 16) / 8], p % 8))
}

impl View for Life {
    type V = Seq<bool>;

    closed spec fn view(&self) -> Seq<bool> {
        board_cells(self.cells)
    }
}

/// Writing cell `(x, y)` of a packed board changes that cell alone.
proof fn lemma_board_write(rows: [[u8; 2]; 12], x: int, y: int, v: bool)
    requires
        on_board(x, y),
    ensures
        ({
            let b = rows@[y]@[x / 8];
            let row = rows@[y]@.update(x / 8, with_bit(b, x % 8, v));
            forall|r2: [[u8; 2]; 12], row2: [u8; 2]|
                row2@ == row && r2@ == rows@.update(y, row2) ==> board_cells(r2) == board_cells(
                    rows,
                ).update(pos(x, y), v)
        }),
{
    let b = rows@[y]@[x / 8];
    let row = rows@[y]@.update(x / 8, with_bit(b, x % 8, v));
    assert forall|r2: [[u8; 2]; 12], row2: [u8; 2]|
        row2@ == row && r2@ == rows@.update(y, row2) implies board_cells(r2) == board_cells(
        rows,
    ).update(pos(x, y), v) by {
        assert forall|p: int| 0 <= p < 192 implies #[trigger] board_cells(r2)[p] == board_cells(
            rows,
        ).update(pos(x, y), v)[p] by {
            lemma_bits(b, x % 8, p % 8, v);
        }
        assert(board_cells(r2) =~= board_cells(rows).update(pos(x, y), v));
    }
}

impl Life {
    /// A board with every cell dead.
    pub fn new() -> (r: Self)
        ensures
            r@ == Seq::new(192, |_p: int| false),
    {
        let r = Life { cells: [[0u8; 2]; 12], shadow: [[0u8; 2]; 12] };
        assert forall|p: int| 0 <= p < 192 implies !#[trigger] r@[p] by {
            lemma_bits(0u8, 0, p % 8, false);
        }
        assert(r@ =~= Seq::new(192, |_p: int| false));
        r
    }

    /// Whether cell `(x, y)` is alive; cells off the board are dead.
    pub fn get(&self, x: usize, y: usize) -> (r: bool)
        ensures
            r == alive(self@, x as int, y as int),
    {
        if x >= COLS || y >= ROWS {
            return false;
        }
        let x0 = x / 8;
        let x1 = x % 8;
        let mask: u8 = 1u8 << (x1 as u8);
        (self.cells[y][x0] & mask) != 0
    }

    /// Sets cell `(x, y)` to alive or dead and returns its previous state.
    pub fn set(&mut self, x: usize, y: usize, is_alive: bool) -> (r: bool)
        requires
            on_board(x as int, y as int),
        ensures
            r == alive(old(self)@, x as int, y as int),
            final(self)@ == old(self)@.update(pos(x as int, y as int), is_alive),
    {
        let x0 = x / 8;
        let x1 = x % 8;
        let mask: u8 = 1u8 << (x1 as u8);
        let mut row = self.cells[y];
        let b = row[x0];
        let old_value = (b & mask) != 0;
        let nb: u8 = if is_alive { b | mask } else { b & !mask };
        proof {
            lemma_board_write(self.cells, x as int, y as int, is_alive);
        }
        row[x0] = nb;
        self.cells[y] = row;
        old_value
    }

    /// Sets every listed cell alive.
    pub fn set_cells(&mut self, cells: &[(usize, usize)])
        requires
            forall|i: int|
                0 <= i < cells@.len() ==> on_board(
                    (#[trigger] cells@[i]).0 as int,
                    cells@[i].1 as int,
                ),
        ensures
            forall|p: int|
                0 <= p < 192 ==> #[trigger] final(self)@[p] == (old(self)@[p] || exists|i: int|
                    0 <= i < cells@.len() && pos(cells@[i].0 as int, cells@[i].1 as int) == p),
    {
        let mut i: usize = 0;
        while i < cells.len()
            invariant
                0 <= i <= cells@.len(),
                self@.len() == 192,
                forall|j: int|
                    0 <= j < cells@.len() ==> on_board(
                        (#[trigger] cells@[j]).0 as int,
                        cells@[j].1 as int,
                    ),
                forall|p: int|
                    0 <= p < 192 ==> #[trigger] self@[p] == (old(self)@[p] || exists|j: int|
                        0 <= j < i && pos(cells@[j].0 as int, cells@[j].1 as int) == p),
            decreases cells@.len() - i,
        {
            let (x, y) = cells[i];
            let ghost before = self@;
            self.set(x, y, true);
            assert forall|p: int| 0 <= p < 192 implies #[trigger] self@[p] == (old(self)@[p]
                || exists|j: int| 0 <= j < i + 1 && pos(cells@[j].0 as int, cells@[j].1 as int) == p) by {
                if p == pos(x as int, y as int) {
                    assert(0 <= i < i + 1 && pos(cells@[i as int].0 as int, cells@[i as int].1 as int) == p);
                } else {
                    if exists|j: int| 0 <= j < i + 1 && pos(cells@[j].0 as int, cells@[j].1 as int) == p {
                        let j = choose|j: int| 0 <= j < i + 1 && pos(cells@[j].0 as int, cells@[j].1 as int) == p;
                        assert(j != i);
                    }
                }
            }
            i += 1;
        }
    }

    /// Sets cell `(x, y)` of the scratch board and returns its previous state.
    fn set_shadow(&mut self, x: usize, y: usize, is_alive: bool) -> (r: bool)
        requires
            on_board(x as int, y as int),
        ensures
            final(self).cells == old(self).cells,
            board_cells(final(self).shadow) == board_cells(old(self).shadow).update(
                pos(x as int, y as int),
                is_alive,
            ),
    {
        let x0 = x / 8;
        let x1 = x % 8;
        let mask: u8 = 1u8 << (x1 as u8);
        let mut row = self.shadow[y];
        let b = row[x0];
        let old_value = (b & mask) != 0;
        let nb: u8 = if is_alive { b | mask } else { b & !mask };
        proof {
            lemma_board_write(self.shadow, x as int, y as int, is_alive);
        }
        row[x0] = nb;
        self.shadow[y] = row;
        old_value
    }

    /// Advances the board one generation and returns how many cells changed.
    /// When that is zero, the board was already still and stays so.
    #[verifier::rlimit(30)]
    pub fn step(&mut self) -> (r: u32)
        ensures
            final(self)@ == next_board(old(self)@),
            r == changed_before(old(self)@, 192),
            r == 0 ==> final(self)@ == old(self)@,
    {
        let ghost b = self@;
        let mut count: u32 = 0;
        let mut y: usize = 0;
        while y < ROWS
            invariant
                self@ == b,
                b.len() == 192,
                0 <= y <= ROWS,
                count == changed_before(b, pos(0, y as int)),
                count <= pos(0, y as int),
                forall|p: int| 0 <= p < pos(0, y as int) ==> #[trigger] board_cells(self.shadow)[p] == next_board(b)[p],
            decreases ROWS - y,
        {
            let mut x: usize = 0;
            while x < COLS
                invariant
                    self@ == b,
                    b.len() == 192,
                    0 <= y < ROWS,
                    0 <= x <= COLS,
                    count == changed_before(b, pos(x as int, y as int)),
                    count <= pos(x as int, y as int),
                    forall|p: int| 0 <= p < pos(x as int, y as int) ==> #[trigger] board_cells(self.shadow)[p] == next_board(b)[p],
                decreases COLS - x,
            {
                let mut live_count: u8 = 0;
                if x != 0 && y != 0 && self.get(x - 1, y - 1) {
                    live_count += 1;
                }
                if y != 0 {
                    if self.get(x + 0, y - 1) {
                        live_count += 1;
                    }
                    if self.get(x + 1, y - 1) {
                        live_count += 1;
                    }
                }
                if x != 0 {
                    if self.get(x - 1, y + 0) {
                        live_count += 1;
                    }
                    if self.get(x - 1, y + 1) {
                        live_count += 1;
                    }
                }
                if self.get(x + 1, y + 0) {
                    live_count += 1;
                }
                if self.get(x + 0, y + 1) {
                    live_count += 1;
                }
                if self.get(x + 1, y + 1) {
                    live_count += 1;
                }
                assert(live_count == live_neighbours(b, x as int, y as int));
                let is_alive = if self.get(x, y) {
                    live_count == 2 || live_count == 3
                } else {
                    live_count == 3
                };
                let ghost n = pos(x as int, y as int);
                proof {
                    vstd::arithmetic::div_mod::lemma_fundamental_div_mod_converse(n, 16, y as int, x as int);
                    assert(next_board(b)[n] == is_alive);
                }
                let ghost before = board_cells(self.shadow);
                self.set_shadow(x, y, is_alive);
                assert forall|p: int| 0 <= p < n + 1 implies #[trigger] board_cells(self.shadow)[p] == next_board(b)[p] by {
                    if p < n {
                        assert(board_cells(self.shadow)[p] == before[p]);
                    }
                }
                if self.get(x, y) != is_alive {
                    count += 1;
                }
                x += 1;
            }
            y += 1;
        }
        self.cells = self.shadow;
        assert(self@ =~= next_board(b));
        proof {
            if count == 0 {
                lemma_no_change(b, 192);
                assert forall|p: int| 0 <= p < 192 implies #[trigger] next_board(b)[p] == b[p] by {
                    vstd::arithmetic::div_mod::lemma_fundamental_div_mod(p, 16);
                    assert(next_alive(b, p % 16, p / 16) == alive(b, p % 16, p / 16));
                }
                assert(next_board(b) =~= b);
            }
        }
        count
    }


    /// Paints the 3 x 3 square whose top left is `(x, y)` with `cells`,
    /// row by row.
    fn write_pattern(&mut self, x: usize, y: usize, cells: [[bool; 3]; 3])
        requires
            x + 3 <= COLS,
            y + 3 <= ROWS,
            old(self)@.len() == 192,
        ensures
            final(self)@ == with_pattern(
                old(self)@,
                x as int,
                y as int,
                |dx: int, dy: int| cells@[dy]@[dx],
            ),
    {
        let ghost b = self@;
        let ghost target = with_pattern(b, x as int, y as int, |dx: int, dy: int| cells@[dy]@[dx]);
        let mut dy: usize = 0;
        while dy < 3
            invariant
                x + 3 <= COLS,
                y + 3 <= ROWS,
                b.len() == 192,
                target == with_pattern(b, x as int, y as int, |dx: int, dy: int| cells@[dy]@[dx]),
                0 <= dy <= 3,
                self@.len() == 192,
                forall|p: int|
                    0 <= p < 192 ==> #[trigger] self@[p] == if p / 16 < y + dy {
                        target[p]
                    } else {
                        b[p]
                    },
            decreases 3 - dy,
        {
            let mut dx: usize = 0;
            while dx < 3
                invariant
                    x + 3 <= COLS,
                    y + 3 <= ROWS,
                    b.len() == 192,
                    target == with_pattern(b, x as int, y as int, |dx: int, dy: int| cells@[dy]@[dx]),
                    0 <= dy < 3,
                    0 <= dx <= 3,
                    self@.len() == 192,
                    forall|p: int|
                        0 <= p < 192 ==> #[trigger] self@[p] == if p / 16 < y + dy || (p / 16 == y
                            + dy && x <= p % 16 < x + dx) {
                            target[p]
                        } else {
                            b[p]
                        },
                decreases 3 - dx,
            {
                proof {
                    vstd::arithmetic::div_mod::lemma_fundamental_div_mod_converse(
                        pos((x + dx) as int, (y + dy) as int),
                        16,
                        (y + dy) as int,
                        (x + dx) as int,
                    );
                }
                self.set(x + dx, y + dy, cells[dy][dx]);
                dx += 1;
            }
            dy += 1;
        }
        assert(self@ =~= target);
    }

    /// Writes a right-facing glider with its top left corner at `(x, y)`.
    pub fn write_right_glider(&mut self, x: usize, y: usize)
        requires
            x + 3 <= COLS,
            y + 3 <= ROWS,
            old(self)@.len() == 192,
        ensures
            final(self)@ == with_pattern(old(self)@, x as int, y as int, |dx: int, dy: int| right_glider(dx, dy)),
    {
        let cells = [[false, true, false], [false, false, true], [true, true, true]];
        self.write_pattern(x, y, cells);
        assert(self@ =~= with_pattern(old(self)@, x as int, y as int, |dx: int, dy: int| right_glider(dx, dy)));
    }

    /// Writes a left-facing glider with its top left corner at `(x, y)`.
    pub fn write_left_glider(&mut self, x: usize, y: usize)
        requires
            x + 3 <= COLS,
            y + 3 <= ROWS,
            old(self)@.len() == 192,
        ensures
            final(self)@ == with_pattern(old(self)@, x as int, y as int, |dx: int, dy: int| left_glider(dx, dy)),
    {
        let cells = [[false, true, false], [true, false, false], [true, true, true]];
        self.write_pattern(x, y, cells);
        assert(self@ =~= with_pattern(old(self)@, x as int, y as int, |dx: int, dy: int| left_glider(dx, dy)));
    }

}

impl Default for Life {
    fn default() -> (r: Self)
        ensures
            r@ == Seq::new(192, |_p: int| false),
    {
        Life::new()
    }
}

} // verus!
