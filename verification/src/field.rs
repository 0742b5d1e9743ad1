//! The playing field of one game: a grid whose estimates are kept up to
//! date with everything the player has revealed.

use crate::board::{Board, MAX_CELLS};
use crate::cell::{Cell, Probability};
use crate::grid::Grid;
use crate::solve::{lemma_blank_resolved, lemma_resolved_revealed};
use vstd::prelude::*;

verus! {

/// The width of the standard grid.
pub const DEFAULT_WIDTH: usize = 6;

/// The height of the standard grid.
pub const DEFAULT_HEIGHT: usize = 5;

/// The number of bombs in the standard grid.
pub const DEFAULT_BOMBS: usize = 8;

/// Why a cell could not be set.
#[derive(Clone, Copy, Debug, PartialEq, Eq, Structural)]
pub enum SolveError {
    /// The grid has no cell at the given coordinates.
    OutOfBounds,
    /// No placement of the bombs agrees with what would then be revealed.
    Unsatisfiable,
}

/// The state of one game. It changes through [`Field::set_cell`] alone.
#[derive(Clone, Debug)]
pub struct Field {
    grid: Grid,
    scale: u128,
}

impl View for Field {
    type V = Board;

    closed spec fn view(&self) -> Board {
        self.grid@
    }
}

impl Field {
    /// The denominator that the estimates of all hidden cells share.
    pub closed spec fn scale(&self) -> nat {
        self.scale as nat
    }

    /// What holds of every field. The grid is a rectangle. Its estimates
    /// are those that follow from what the player has described and from
    /// nothing else: a hidden cell carries the share of the placements that
    /// put a bomb on it, and a cell is a suspect exactly if that share is
    /// one. So every hidden cell carries a probability below one, and the
    /// probabilities add up to the number of bombs that are not confirmed.
    pub open spec fn wf(&self) -> bool {
        &&& self@.shaped()
        &&& self@ == self@.revealed().resolved()
        &&& self.scale() == self@.revealed().scale()
        &&& self@.revealed().in_range()
        &&& self@.settled(self.scale())
    }

    /// The standard field, six by five cells with eight bombs, nothing
    /// revealed.
    pub fn new() -> (field: Field)
        ensures
            field.wf(),
            field@ == Board::fresh(
                DEFAULT_WIDTH as int,
                DEFAULT_HEIGHT as int,
                DEFAULT_BOMBS as int,
            ),
    {
        Field::with_config(DEFAULT_WIDTH, DEFAULT_HEIGHT, DEFAULT_BOMBS).unwrap()
    }

    /// A field of the given shape and number of bombs with nothing
    /// revealed, or `None` where the shape is empty, has more than
    /// [`MAX_CELLS`] cells, or cannot hold that many bombs.
    pub fn with_config(width: usize, height: usize, bombs: usize) -> (field: Option<Field>)
        ensures
            field is Some <==> 0 < width && 0 < height && width * height <= MAX_CELLS && bombs
                <= width * height,
            field matches Some(f) ==> {
                &&& f.wf()
                &&& f@ == Board::fresh(width as int, height as int, bombs as int)
            },
    {
        let blank = match Grid::new(width, height, bombs, Cell::Suspect.blanked()) {
            Some(grid) => grid,
            None => {
                return None;
            },
        };
        proof {
            assert(blank@.cells =~= Board::blank(width as int, height as int, bombs as int).cells);
            lemma_blank_resolved(width as int, height as int, bombs as int);
            lemma_resolved_revealed(blank@);
        }
        match blank.resolve() {
            Some((grid, scale)) => Some(Field { grid, scale }),
            None => None,
        }
    }

    /// The grid as the player has described it once `value` is written at
    /// `pos`.
    fn stage(&self, pos: usize, value: Cell) -> (staged: Grid)
        requires
            self@.shaped(),
            pos < self@.size(),
        ensures
            staged@ == self@.staged(pos as int, value),
            staged@.shaped(),
            staged@.plain(),
    {
        let size: usize = self.grid.size();
        let mut cells: Vec<Cell> = Vec::new();
        let mut p: usize = 0;
        while p < size
            invariant
                p <= size,
                size == self@.size(),
                cells.len() == p,
                forall|q: int|
                    0 <= q < p ==> cells@[q] == if q == pos {
                        value.blank()
                    } else {
                        self@.cells[q].blank()
                    },
            decreases size - p,
        {
            let cell = if p == pos {
                value.blanked()
            } else {
                self.grid.cell_at(p).blanked()
            };
            cells.push(cell);
            p += 1;
        }
        let staged = self.grid.with_cells(cells);
        proof {
            assert(staged@.cells =~= self@.staged(pos as int, value).cells);
        }
        staged
    }

    /// Tells the field what the player has found in column `x` of row `y`
    /// and brings every estimate up to date.
    ///
    /// A clue or a bomb is written as it is; a hidden or suspect value
    /// clears the cell. Writing what the cell already holds changes
    /// nothing. Otherwise all bomb placements are counted afresh from the
    /// clues and the marked bombs alone: a cell is a suspect afterwards
    /// exactly if every placement puts a bomb on it, so a suspect goes
    /// back to hidden as soon as that is no longer so. Where the
    /// coordinates are outside the grid, or no placement agrees with the
    /// new value, the field stays as it was and the error says why.
    pub fn set_cell(&mut self, x: i32, y: i32, value: Cell) -> (outcome: Result<(), SolveError>)
        requires
            old(self).wf(),
        ensures
            final(self).wf(),
            match old(self)@.index_of(x as int, y as int) {
                None => outcome == Err::<(), SolveError>(SolveError::OutOfBounds) && *final(self)
                    == *old(self),
                Some(pos) => if old(self)@.cells[pos].same_kind(value) {
                    outcome == Ok::<(), SolveError>(()) && *final(self) == *old(self)
                } else if old(self)@.staged(pos, value).satisfiable() {
                    &&& outcome == Ok::<(), SolveError>(())
                    &&& final(self)@ == old(self)@.staged(pos, value).resolved()
                    &&& final(self).scale() == old(self)@.staged(pos, value).scale()
                } else {
                    outcome == Err::<(), SolveError>(SolveError::Unsatisfiable) && *final(self)
                        == *old(self)
                },
            },
    {
        let pos = match self.grid.index_of(x, y) {
            Some(pos) => pos,
            None => {
                return Err(SolveError::OutOfBounds);
            },
        };
        if self.grid.cell_at(pos).is_same_kind(&value) {
            return Ok(());
        }
        let staged = self.stage(pos, value);
        proof {
            lemma_resolved_revealed(staged@);
        }
        match staged.resolve() {
            Some((grid, scale)) => {
                self.grid = grid;
                self.scale = scale;
                Ok(())
            },
            None => Err(SolveError::Unsatisfiable),
        }
    }

    /// The cell in column `x` of row `y`, or `None` where there is none.
    pub fn get(&self, x: i32, y: i32) -> (cell: Option<Cell>)
        requires
            self.wf(),
        ensures
            cell == match self@.index_of(x as int, y as int) {
                Some(pos) => Some(self@.cells[pos]),
                None => None,
            },
    {
        self.grid.get(x, y)
    }

    /// The grid of the field, for reading.
    pub fn grid(&self) -> (grid: &Grid)
        ensures
            grid@ == self@,
    {
        &self.grid
    }

    /// The denominator that the estimates of all hidden cells share.
    pub fn denominator(&self) -> (scale: u128)
        ensures
            scale == self.scale(),
    {
        self.scale
    }

    /// The bombs that are not yet accounted for: all of them, less the
    /// marked ones and, if `deduced` is set, less the suspects too.
    pub fn bombs_remain(&self, deduced: bool) -> (left: usize)
        requires
            self.wf(),
        ensures
            left == self@.bombs_left(deduced),
    {
        self.grid.bombs_remain(deduced)
    }

    /// The lowest estimate among the hidden cells, or `None` where no cell
    /// is hidden: the cells that carry it are the safest to dig up next.
    pub fn lowest(&self) -> (least: Option<Probability>)
        requires
            self.wf(),
        ensures
            least is None <==> forall|pos: int|
                0 <= pos < self@.size() ==> !(#[trigger] self@.cells[pos] is Hidden),
            least matches Some(p) ==> {
                &&& exists|pos: int|
                    0 <= pos < self@.size() && #[trigger] self@.cells[pos] == Cell::Hidden(p)
                &&& forall|pos: int|
                    0 <= pos < self@.size() ==> (#[trigger] self@.cells[pos] matches Cell::Hidden(q)
                        ==> p.num <= q.num && p.den == q.den)
            },
    {
        let size: usize = self.grid.size();
        let mut least: Option<Probability> = None;
        let mut pos: usize = 0;
        while pos < size
            invariant
                pos <= size,
                size == self@.size(),
                self.wf(),
                least is None <==> forall|q: int|
                    0 <= q < pos ==> !(#[trigger] self@.cells[q] is Hidden),
                least matches Some(p) ==> {
                    &&& exists|q: int| 0 <= q < pos && #[trigger] self@.cells[q] == Cell::Hidden(p)
                    &&& forall|q: int|
                        0 <= q < pos ==> (#[trigger] self@.cells[q] matches Cell::Hidden(r)
                            ==> p.num <= r.num && p.den == r.den)
                },
            decreases size - pos,
        {
            if let Cell::Hidden(found) = self.grid.cell_at(pos) {
                let better = match least {
                    Some(p) => found.num < p.num,
                    None => true,
                };
                proof {
                    assert(self@.cells[pos as int] == Cell::Hidden(found));
                    if let Some(p) = least {
                        let q = choose|q: int|
                            0 <= q < pos && #[trigger] self@.cells[q] == Cell::Hidden(p);
                        assert(p.den == self.scale());
                    }
                }
                if better {
                    least = Some(found);
                }
            }
            pos += 1;
        }
        least
    }
}

} // verus!
