//! The mathematical model of a grid: its shape, which cells touch which,
//! and when a set of bomb positions agrees with what has been revealed.

use crate::binomial::binomial;
use crate::cell::{Bucket, Cell, Probability};
use crate::selection::increasing;
use vstd::arithmetic::div_mod::{lemma_fundamental_div_mod, lemma_fundamental_div_mod_converse};
use vstd::prelude::*;

verus! {

/// The largest number of cells a grid may have. It keeps every count of
/// bomb placements within 128 bits.
pub const MAX_CELLS: usize = 64;

/// A grid as a mathematical value. Cells are numbered row by row: the cell
/// in column `x` of row `y` has position `y * width + x`.
pub struct Board {
    /// The number of columns.
    pub width: int,
    /// The number of rows.
    pub height: int,
    /// How many bombs the grid hides in all.
    pub bombs: int,
    /// The cells, row by row.
    pub cells: Seq<Cell>,
}

/// The positions below `n` that satisfy `pred`, in ascending order.
pub open spec fn positions_where(n: int, pred: spec_fn(int) -> bool) -> Seq<usize>
    decreases n,
{
    if n <= 0 {
        Seq::empty()
    } else if pred(n - 1) {
        positions_where(n - 1, pred).push((n - 1) as usize)
    } else {
        positions_where(n - 1, pred)
    }
}

/// How many of `cells` stand among `positions`.
pub open spec fn count_in(positions: Seq<usize>, cells: Seq<usize>) -> nat
    decreases cells.len(),
{
    if cells.len() == 0 {
        0
    } else {
        count_in(positions, cells.drop_last()) + if positions.contains(cells.last()) {
            1nat
        } else {
            0nat
        }
    }
}

impl Board {
    /// The grid is a non-empty rectangle of at most [`MAX_CELLS`] cells and
    /// hides no more bombs than it has cells.
    pub open spec fn shaped(self) -> bool {
        &&& 0 < self.width
        &&& 0 < self.height
        &&& self.cells.len() == self.width * self.height
        &&& self.cells.len() <= MAX_CELLS
        &&& 0 <= self.bombs <= self.cells.len()
    }

    /// What every cell of a grid of `size` cells holds before anything is
    /// revealed: each is as likely as the next to hide one of the bombs,
    /// so its estimate is `bombs / size`, written over the same
    /// denominator as every later estimate: the number of cells times the
    /// number of placements. With as many bombs as cells every cell is a
    /// suspect.
    pub open spec fn first_cell(bombs: int, size: int) -> Cell {
        if bombs == size {
            Cell::Suspect
        } else {
            Cell::Hidden(
                Probability {
                    num: (bombs * binomial(size as nat, bombs)) as u128,
                    den: (size * binomial(size as nat, bombs)) as u128,
                },
            )
        }
    }

    /// The grid of the given shape before anything is revealed.
    pub open spec fn fresh(width: int, height: int, bombs: int) -> Board {
        Board {
            width,
            height,
            bombs,
            cells: Seq::new(
                (width * height) as nat,
                |pos: int| Board::first_cell(bombs, width * height),
            ),
        }
    }

    /// The grid of the given shape with every cell hidden and without
    /// estimates.
    pub open spec fn blank(width: int, height: int, bombs: int) -> Board {
        Board {
            width,
            height,
            bombs,
            cells: Seq::new((width * height) as nat, |pos: int| Cell::Suspect.blank()),
        }
    }

    /// The grid as the player has described it: clues and marked bombs,
    /// and everything else hidden. What was deduced is set aside.
    pub open spec fn revealed(self) -> Board {
        Board { cells: Seq::new(self.cells.len(), |p: int| self.cells[p].blank()), ..self }
    }

    /// The grid holds nothing but what the player has described.
    pub open spec fn plain(self) -> bool {
        forall|p: int| 0 <= p < self.size() ==> #[trigger] self.cells[p].blank() == self.cells[p]
    }

    /// The grid as the player has described it once `value` is written at
    /// `pos`: clues and marked bombs, and everything else hidden. What was
    /// deduced before is set aside, to be deduced afresh.
    pub open spec fn staged(self, pos: int, value: Cell) -> Board {
        Board {
            cells: Seq::new(
                self.cells.len(),
                |p: int|
                    if p == pos {
                        value.blank()
                    } else {
                        self.cells[p].blank()
                    },
            ),
            ..self
        }
    }

    /// The number of cells.
    pub open spec fn size(self) -> int {
        self.cells.len() as int
    }

    /// The position of the cell in column `x` of row `y`, if there is one.
    pub open spec fn index_of(self, x: int, y: int) -> Option<int> {
        if 0 <= x < self.width && 0 <= y < self.height {
            Some(y * self.width + x)
        } else {
            None
        }
    }

    /// Two cells touch when they are different cells in the same or
    /// neighbouring columns of the same or neighbouring rows.
    pub open spec fn adjacent(self, p: int, q: int) -> bool {
        &&& 0 <= p < self.size()
        &&& 0 <= q < self.size()
        &&& p != q
        &&& -1 <= q % self.width - p % self.width <= 1
        &&& -1 <= q / self.width - p / self.width <= 1
    }

    /// The cell one step from `pos` in direction `d`, if the grid has one.
    /// The nine directions go row by row through the three-by-three block
    /// around `pos`; direction 4 is `pos` itself and names no neighbour.
    pub open spec fn step(self, pos: int, d: int) -> Option<int> {
        if d == 4 {
            None
        } else {
            self.index_of(pos % self.width + d % 3 - 1, pos / self.width + d / 3 - 1)
        }
    }

    /// The neighbours of `pos` in the directions below `d`.
    pub open spec fn neighbors_upto(self, pos: int, d: int) -> Seq<usize>
        decreases d,
    {
        if d <= 0 {
            Seq::empty()
        } else {
            match self.step(pos, d - 1) {
                Some(q) => self.neighbors_upto(pos, d - 1).push(q as usize),
                None => self.neighbors_upto(pos, d - 1),
            }
        }
    }

    /// The cells that touch `pos`: up to eight, sideways, up and down and
    /// diagonally, without `pos` itself and without wrapping round an edge.
    pub open spec fn neighbors(self, pos: int) -> Seq<usize> {
        self.neighbors_upto(pos, 9)
    }

    /// How many neighbours of `pos` stand among `positions`.
    pub open spec fn nearby(self, positions: Seq<usize>, pos: int) -> nat {
        count_in(positions, self.neighbors(pos))
    }

    /// A clue at `pos` is met when the bombs around it fall into its bucket.
    pub open spec fn clue_met(self, positions: Seq<usize>, pos: int) -> bool {
        self.cells[pos] matches Cell::Clue(bucket) ==> Bucket::of_count(
            self.nearby(positions, pos) as int,
        ) == Some(bucket)
    }

    /// Whether `pos` is known to hold a bomb, by the player's word or by
    /// deduction.
    pub open spec fn is_confirmed(self, pos: int) -> bool {
        self.cells[pos] is Bomb || self.cells[pos] is Suspect
    }

    /// A confirmed bomb at `pos` is met when `pos` is among the positions.
    pub open spec fn confirmed_met(self, positions: Seq<usize>, pos: int) -> bool {
        self.is_confirmed(pos) ==> positions.contains(pos as usize)
    }

    /// What the cell at `pos` asks of a set of bomb positions. Hidden cells
    /// ask for nothing.
    pub open spec fn cell_met(self, positions: Seq<usize>, pos: int) -> bool {
        self.clue_met(positions, pos) && self.confirmed_met(positions, pos)
    }

    /// A set of bomb positions agrees with the grid when it meets every clue
    /// and holds every confirmed bomb.
    pub open spec fn consistent(self, positions: Seq<usize>) -> bool {
        forall|pos: int| 0 <= pos < self.size() ==> #[trigger] self.cell_met(positions, pos)
    }

    /// Whether `pos` touches a clue that stands below `limit`.
    pub open spec fn near_clue_below(self, pos: int, limit: int) -> bool {
        exists|c: int|
            0 <= c < limit && self.cells[c] is Clue && #[trigger] self.neighbors(c).contains(
                pos as usize,
            )
    }

    /// Whether `pos` touches a clue.
    pub open spec fn near_clue(self, pos: int) -> bool {
        self.near_clue_below(pos, self.size())
    }

    /// A touched cell is hidden and touches a clue.
    pub open spec fn is_touched(self, pos: int) -> bool {
        self.cells[pos] is Hidden && self.near_clue(pos)
    }

    /// An untouched cell is hidden and touches no clue: nothing is known
    /// about it but the number of bombs left.
    pub open spec fn is_untouched(self, pos: int) -> bool {
        self.cells[pos] is Hidden && !self.near_clue(pos)
    }

    /// The test for a cell that the player has marked as a bomb.
    pub open spec fn marked_at(self) -> spec_fn(int) -> bool {
        |pos: int| self.cells[pos] is Bomb
    }

    /// The test for a confirmed bomb.
    pub open spec fn confirmed_at(self) -> spec_fn(int) -> bool {
        |pos: int| self.is_confirmed(pos)
    }

    /// The test for a touched cell.
    pub open spec fn touched_at(self) -> spec_fn(int) -> bool {
        |pos: int| self.is_touched(pos)
    }

    /// The test for an untouched cell.
    pub open spec fn untouched_at(self) -> spec_fn(int) -> bool {
        |pos: int| self.is_untouched(pos)
    }

    /// The cells marked as bombs, in ascending order.
    pub open spec fn marked(self) -> Seq<usize> {
        positions_where(self.size(), self.marked_at())
    }

    /// The confirmed bombs, marked or deduced, in ascending order.
    pub open spec fn confirmed(self) -> Seq<usize> {
        positions_where(self.size(), self.confirmed_at())
    }

    /// The touched cells, in ascending order.
    pub open spec fn touched(self) -> Seq<usize> {
        positions_where(self.size(), self.touched_at())
    }

    /// The untouched cells, in ascending order.
    pub open spec fn untouched(self) -> Seq<usize> {
        positions_where(self.size(), self.untouched_at())
    }

    /// The bombs that are not yet accounted for: all of them, less the
    /// marked ones and, if `deduced` is set, less the suspects too. Never
    /// below zero.
    pub open spec fn bombs_left(self, deduced: bool) -> int {
        let found = if deduced {
            self.confirmed().len()
        } else {
            self.marked().len()
        };
        if found <= self.bombs {
            self.bombs - found
        } else {
            0
        }
    }
}

/// The positions that satisfy a predicate are listed in ascending order,
/// each once, and no others.
pub proof fn lemma_positions_where(n: int, pred: spec_fn(int) -> bool)
    requires
        n <= usize::MAX,
    ensures
        increasing(positions_where(n, pred)),
        forall|p: usize| #[trigger]
            positions_where(n, pred).contains(p) <==> 0 <= p < n && pred(p as int),
        positions_where(n, pred).len() <= if n < 0 {
            0
        } else {
            n
        },
    decreases n,
{
    if n > 0 {
        let before = positions_where(n - 1, pred);
        let all = positions_where(n, pred);
        lemma_positions_where(n - 1, pred);
        if pred(n - 1) {
            assert forall|i: int, j: int| 0 <= i < j < all.len() implies all[i] < all[j] by {
                if j == before.len() {
                    assert(before.contains(before[i]));
                }
            }
            assert forall|p: usize| #[trigger] all.contains(p) <==> 0 <= p < n && pred(p as int) by {
                if all.contains(p) {
                    let i = choose|i: int| 0 <= i < all.len() && all[i] == p;
                    if i < before.len() {
                        assert(before.contains(before[i]));
                    }
                }
                if 0 <= p < n && pred(p as int) {
                    if p == n - 1 {
                        assert(all[before.len() as int] == p);
                    } else {
                        assert(before.contains(p));
                        let i = choose|i: int| 0 <= i < before.len() && before[i] == p;
                        assert(all[i] == p);
                    }
                }
            }
        }
    }
}

/// Where no position satisfies the predicate, none is listed.
pub proof fn lemma_positions_none(n: int, pred: spec_fn(int) -> bool)
    requires
        forall|p: int| 0 <= p < n ==> !#[trigger] pred(p),
    ensures
        positions_where(n, pred) == Seq::<usize>::empty(),
    decreases n,
{
    if n > 0 {
        lemma_positions_none(n - 1, pred);
    }
}

/// Where every position satisfies the predicate, all are listed.
pub proof fn lemma_positions_all(n: int, pred: spec_fn(int) -> bool)
    requires
        0 <= n,
        forall|p: int| 0 <= p < n ==> #[trigger] pred(p),
    ensures
        positions_where(n, pred).len() == n,
    decreases n,
{
    if n > 0 {
        lemma_positions_all(n - 1, pred);
    }
}

/// Neither side of a shaped grid is longer than the grid has cells.
pub proof fn lemma_sides(board: Board)
    requires
        board.shaped(),
    ensures
        board.width <= board.size() <= MAX_CELLS,
        board.height <= board.size(),
{
    let w = board.width;
    let h = board.height;
    assert(w <= w * h && h <= w * h) by (nonlinear_arith)
        requires
            0 < w,
            0 < h,
    ;
}

/// In a shaped grid, column `x` of row `y` is a position of the grid, and
/// the position tells the column and the row.
pub proof fn lemma_index(width: int, height: int, x: int, y: int)
    requires
        0 <= x < width,
        0 <= y < height,
    ensures
        0 <= y * width + x < width * height,
        (y * width + x) % width == x,
        (y * width + x) / width == y,
{
    lemma_fundamental_div_mod_converse(y * width + x, width, y, x);
    assert(y * width + x < width * height) by (nonlinear_arith)
        requires
            0 <= x < width,
            0 <= y < height,
    ;
    assert(0 <= y * width) by (nonlinear_arith)
        requires
            0 <= y,
            0 < width,
    ;
    assert(width * y == y * width) by (nonlinear_arith);
}

/// A position of the grid lies in some column of some row.
pub proof fn lemma_coordinates(width: int, height: int, pos: int)
    requires
        0 < width,
        0 <= pos < width * height,
    ensures
        0 <= pos % width < width,
        0 <= pos / width < height,
        (pos / width) * width + pos % width == pos,
{
    lemma_fundamental_div_mod(pos, width);
    assert(0 <= pos / width < height) by (nonlinear_arith)
        requires
            0 < width,
            0 <= pos < width * height,
            pos == width * (pos / width) + pos % width,
            0 <= pos % width < width,
    ;
    assert(width * (pos / width) == (pos / width) * width) by (nonlinear_arith);
}

} // verus!
