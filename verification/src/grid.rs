//! The grid itself: a matrix of cells with bounds-checked access, the
//! neighbour topology, and the test of a bomb placement against the clues.

use crate::board::{
    count_in, lemma_coordinates, lemma_index, lemma_positions_where, lemma_sides, positions_where,
    Board, MAX_CELLS,
};
use crate::cell::{Bucket, Cell};
use vstd::prelude::*;

verus! {

/// A rectangular grid of cells together with the number of bombs it hides.
#[derive(Clone, Debug)]
pub struct Grid {
    width: usize,
    height: usize,
    bombs: usize,
    cells: Vec<Cell>,
}

impl View for Grid {
    type V = Board;

    closed spec fn view(&self) -> Board {
        Board {
            width: self.width as int,
            height: self.height as int,
            bombs: self.bombs as int,
            cells: self.cells@,
        }
    }
}

/// The cells of a grid sorted by what is known of them. Clues belong to
/// none of the three lists.
#[derive(Clone, Debug)]
pub struct Partition {
    /// Cells known to hold a bomb.
    pub confirmed: Vec<usize>,
    /// Hidden cells that touch a clue.
    pub touched: Vec<usize>,
    /// Hidden cells that touch no clue.
    pub untouched: Vec<usize>,
}

/// Whether `x` stands in `v`.
pub fn contains(v: &Vec<usize>, x: usize) -> (found: bool)
    ensures
        found == v@.contains(x),
{
    let mut i: usize = 0;
    while i < v.len()
        invariant
            i <= v.len(),
            forall|j: int| 0 <= j < i ==> v@[j] != x,
        decreases v.len() - i,
    {
        if v[i] == x {
            return true;
        }
        i += 1;
    }
    false
}

impl Grid {
    /// A grid of the given shape whose cells all hold `fill`, or `None`
    /// where the shape is empty, has more than [`MAX_CELLS`] cells, or
    /// cannot hold that many bombs.
    pub fn new(width: usize, height: usize, bombs: usize, fill: Cell) -> (grid: Option<Grid>)
        ensures
            grid is Some <==> 0 < width && 0 < height && width * height <= MAX_CELLS && bombs
                <= width * height,
            grid matches Some(g) ==> {
                &&& g@.shaped()
                &&& g@.width == width
                &&& g@.height == height
                &&& g@.bombs == bombs
                &&& forall|pos: int| 0 <= pos < g@.size() ==> g@.cells[pos] == fill
            },
    {
        if width == 0 || height == 0 || width > MAX_CELLS || height > MAX_CELLS {
            proof {
                if width > 0 && height > 0 {
                    assert(width * height > MAX_CELLS) by (nonlinear_arith)
                        requires
                            width > 0,
                            height > 0,
                            width > MAX_CELLS || height > MAX_CELLS,
                    ;
                }
            }
            return None;
        }
        assert(width * height <= 64 * 64) by (nonlinear_arith)
            requires
                width <= 64,
                height <= 64,
        ;
        let size: usize = width * height;
        if size > MAX_CELLS || bombs > size {
            return None;
        }
        let mut cells: Vec<Cell> = Vec::new();
        let mut i: usize = 0;
        while i < size
            invariant
                i <= size,
                cells@.len() == i,
                forall|pos: int| 0 <= pos < i ==> cells@[pos] == fill,
            decreases size - i,
        {
            cells.push(fill);
            i += 1;
        }
        Some(Grid { width, height, bombs, cells })
    }

    /// A grid of the same shape and bomb count that holds the given cells.
    pub fn with_cells(&self, cells: Vec<Cell>) -> (grid: Grid)
        requires
            cells.len() == self@.size(),
        ensures
            grid@ == (Board { cells: cells@, ..self@ }),
    {
        Grid { width: self.width, height: self.height, bombs: self.bombs, cells }
    }

    /// The number of columns.
    pub fn width(&self) -> (w: usize)
        ensures
            w == self@.width,
    {
        self.width
    }

    /// The number of rows.
    pub fn height(&self) -> (h: usize)
        ensures
            h == self@.height,
    {
        self.height
    }

    /// The number of bombs the grid hides in all.
    pub fn bombs(&self) -> (b: usize)
        ensures
            b == self@.bombs,
    {
        self.bombs
    }

    /// The number of cells.
    pub fn size(&self) -> (n: usize)
        ensures
            n == self@.size(),
    {
        self.cells.len()
    }

    /// The position of the cell in column `x` of row `y`, or `None` where
    /// a coordinate is negative or beyond the grid.
    pub fn index_of(&self, x: i32, y: i32) -> (pos: Option<usize>)
        requires
            self@.shaped(),
        ensures
            pos is Some <==> self@.index_of(x as int, y as int) is Some,
            pos matches Some(p) ==> Some(p as int) == self@.index_of(x as int, y as int) && p
                < self@.size(),
    {
        if x < 0 || y < 0 {
            return None;
        }
        let column: usize = x as usize;
        let row: usize = y as usize;
        if column >= self.width || row >= self.height {
            return None;
        }
        proof {
            lemma_index(self.width as int, self.height as int, column as int, row as int);
        }
        Some(row * self.width + column)
    }

    /// The column and the row of a position.
    pub fn coordinates_of(&self, pos: usize) -> (place: (i32, i32))
        requires
            self@.shaped(),
            pos < self@.size(),
        ensures
            self@.index_of(place.0 as int, place.1 as int) == Some(pos as int),
            place.0 == pos % self@.width as usize,
            place.1 == pos / self@.width as usize,
    {
        proof {
            lemma_coordinates(self.width as int, self.height as int, pos as int);
            lemma_sides(self@);
        }
        ((pos % self.width) as i32, (pos / self.width) as i32)
    }

    /// The cell at a position.
    pub fn cell_at(&self, pos: usize) -> (cell: Cell)
        requires
            pos < self@.size(),
        ensures
            cell == self@.cells[pos as int],
    {
        self.cells[pos]
    }

    /// The cell in column `x` of row `y`, or `None` where there is none.
    pub fn get(&self, x: i32, y: i32) -> (cell: Option<Cell>)
        requires
            self@.shaped(),
        ensures
            cell == match self@.index_of(x as int, y as int) {
                Some(pos) => Some(self@.cells[pos]),
                None => None,
            },
    {
        match self.index_of(x, y) {
            Some(pos) => Some(self.cells[pos]),
            None => None,
        }
    }

    /// Writes `cell` at a position and touches nothing else.
    pub fn put(&mut self, pos: usize, cell: Cell)
        requires
            pos < old(self)@.size(),
        ensures
            final(self)@ == (Board { cells: old(self)@.cells.update(pos as int, cell), ..old(self)@ }),
    {
        self.cells.set(pos, cell);
    }

    /// Writes `cell` into column `x` of row `y` and says so; where the
    /// grid has no such cell it writes nothing and returns `false`.
    pub fn set(&mut self, x: i32, y: i32, cell: Cell) -> (written: bool)
        requires
            old(self)@.shaped(),
        ensures
            written == old(self)@.index_of(x as int, y as int) is Some,
            final(self)@ == match old(self)@.index_of(x as int, y as int) {
                Some(pos) => Board { cells: old(self)@.cells.update(pos, cell), ..old(self)@ },
                None => old(self)@,
            },
    {
        match self.index_of(x, y) {
            Some(pos) => {
                self.put(pos, cell);
                true
            },
            None => false,
        }
    }

    /// The cells that touch `pos`, row by row: up to eight, never `pos`
    /// itself, never one beyond an edge.
    pub fn neighbors(&self, pos: usize) -> (around: Vec<usize>)
        requires
            self@.shaped(),
            pos < self@.size(),
        ensures
            around@ == self@.neighbors(pos as int),
            around.len() <= 8,
            forall|i: int| 0 <= i < around.len() ==> around@[i] < self@.size(),
    {
        let column: usize = pos % self.width;
        let row: usize = pos / self.width;
        proof {
            lemma_coordinates(self.width as int, self.height as int, pos as int);
            lemma_sides(self@);
        }
        let mut around: Vec<usize> = Vec::new();
        let mut d: usize = 0;
        while d < 9
            invariant
                d <= 9,
                self@.shaped(),
                pos < self@.size(),
                column == pos % self.width,
                row == pos / self.width,
                column < self.width <= MAX_CELLS,
                row < self.height <= MAX_CELLS,
                around@ == self@.neighbors_upto(pos as int, d as int),
                around.len() <= if d <= 4 {
                    d
                } else {
                    (d - 1) as usize
                },
                forall|i: int| 0 <= i < around.len() ==> around@[i] < self@.size(),
            decreases 9 - d,
        {
            let across: usize = d % 3;
            let down: usize = d / 3;
            if d != 4 && column + across >= 1 && column + across - 1 < self.width && row + down
                >= 1 && row + down - 1 < self.height {
                proof {
                    lemma_index(
                        self.width as int,
                        self.height as int,
                        column + across - 1,
                        row + down - 1,
                    );
                }
                around.push((row + down - 1) * self.width + (column + across - 1));
            }
            d += 1;
        }
        around
    }

    /// How many neighbours of `pos` stand among `positions`.
    pub fn bombs_nearby_pos(&self, positions: &Vec<usize>, pos: usize) -> (count: u8)
        requires
            self@.shaped(),
            pos < self@.size(),
        ensures
            count == self@.nearby(positions@, pos as int),
            count <= 8,
    {
        let around = self.neighbors(pos);
        let mut count: u8 = 0;
        let mut i: usize = 0;
        while i < around.len()
            invariant
                i <= around.len() <= 8,
                count <= i,
                count == count_in(positions@, around@.take(i as int)),
            decreases around.len() - i,
        {
            proof {
                assert(around@.take(i + 1).drop_last() =~= around@.take(i as int));
            }
            if contains(positions, around[i]) {
                count += 1;
            }
            i += 1;
        }
        proof {
            assert(around@.take(around.len() as int) =~= around@);
        }
        count
    }

    /// Whether a set of bomb positions agrees with the grid: every clue
    /// sees a number of bombs that falls into its bucket, and every
    /// confirmed bomb is among the positions.
    pub fn matches_preset(&self, positions: &Vec<usize>) -> (agrees: bool)
        requires
            self@.shaped(),
        ensures
            agrees == self@.consistent(positions@),
    {
        let mut pos: usize = 0;
        while pos < self.cells.len()
            invariant
                pos <= self.cells.len(),
                self@.shaped(),
                forall|p: int| 0 <= p < pos ==> #[trigger] self@.cell_met(positions@, p),
            decreases self.cells.len() - pos,
        {
            let met = match self.cells[pos] {
                Cell::Hidden(_) => true,
                Cell::Bomb | Cell::Suspect => contains(positions, pos),
                Cell::Clue(bucket) => {
                    let seen = Bucket::from_count(self.bombs_nearby_pos(positions, pos));
                    match seen {
                        Some(b) => b == bucket,
                        None => false,
                    }
                },
            };
            proof {
                let p = pos as int;
                assert(self@.cells[p] == self.cells@[p]);
                assert(met == self@.cell_met(positions@, p));
            }
            if !met {
                return false;
            }
            pos += 1;
        }
        true
    }

    /// Whether a set of bomb positions keeps off the clues.
    pub fn avoids_clues(&self, positions: &Vec<usize>) -> (clear: bool)
        ensures
            clear == self@.clue_free(positions@),
    {
        let mut i: usize = 0;
        while i < positions.len()
            invariant
                i <= positions.len(),
                forall|n: int|
                    0 <= n < i ==> !(positions@[n] < self@.size()
                        && self@.cells[positions@[n] as int] is Clue),
            decreases positions.len() - i,
        {
            let pos: usize = positions[i];
            if pos < self.cells.len() {
                if let Cell::Clue(_) = self.cells[pos] {
                    proof {
                        assert(positions@.contains((pos as int) as usize));
                    }
                    return false;
                }
            }
            i += 1;
        }
        let size: usize = self.cells.len();
        proof {
            assert(self@.size() == size);
            assert forall|c: int|
                0 <= c < self@.size() && self@.cells[c] is Clue implies !#[trigger] positions@.contains(
                c as usize,
            ) by {
                if positions@.contains(c as usize) {
                    let n = choose|n: int| 0 <= n < positions@.len() && positions@[n] == c as usize;
                    assert(!(positions@[n] < self@.size() && self@.cells[positions@[n] as int] is Clue));
                }
            }
        }
        true
    }

    /// The bombs that are not yet accounted for: all of them, less the
    /// marked ones and, if `deduced` is set, less the suspects too.
    pub fn bombs_remain(&self, deduced: bool) -> (left: usize)
        requires
            self@.shaped(),
        ensures
            left == self@.bombs_left(deduced),
    {
        let mut found: usize = 0;
        let mut pos: usize = 0;
        while pos < self.cells.len()
            invariant
                pos <= self.cells.len() <= MAX_CELLS,
                found <= pos,
                !deduced ==> found == positions_where(pos as int, self@.marked_at()).len(),
                deduced ==> found == positions_where(pos as int, self@.confirmed_at()).len(),
            decreases self.cells.len() - pos,
        {
            let counts = match self.cells[pos] {
                Cell::Bomb => true,
                Cell::Suspect => deduced,
                _ => false,
            };
            if counts {
                found += 1;
            }
            pos += 1;
        }
        if found <= self.bombs {
            self.bombs - found
        } else {
            0
        }
    }

    /// Marks the cells that touch a clue.
    fn near_clues(&self) -> (near: Vec<bool>)
        requires
            self@.shaped(),
        ensures
            near.len() == self@.size(),
            forall|p: int| 0 <= p < near.len() ==> near@[p] == self@.near_clue(p),
    {
        let size: usize = self.cells.len();
        let mut near: Vec<bool> = Vec::new();
        let mut i: usize = 0;
        while i < size
            invariant
                i <= size,
                near.len() == i,
                forall|p: int| 0 <= p < i ==> !near@[p],
            decreases size - i,
        {
            near.push(false);
            i += 1;
        }
        let mut c: usize = 0;
        while c < size
            invariant
                c <= size,
                size == self@.size(),
                self@.shaped(),
                near.len() == size,
                forall|p: int| 0 <= p < size ==> near@[p] == self@.near_clue_below(p, c as int),
            decreases size - c,
        {
            if let Cell::Clue(_) = self.cells[c] {
                let around = self.neighbors(c);
                let mut j: usize = 0;
                while j < around.len()
                    invariant
                        j <= around.len(),
                        c < size,
                        size == self@.size(),
                        near.len() == size,
                        around@ == self@.neighbors(c as int),
                        self@.cells[c as int] is Clue,
                        forall|i: int| 0 <= i < around.len() ==> around@[i] < size,
                        forall|p: int|
                            0 <= p < size ==> near@[p] == (self@.near_clue_below(p, c as int)
                                || around@.take(j as int).contains(p as usize)),
                    decreases around.len() - j,
                {
                    let q: usize = around[j];
                    near.set(q, true);
                    proof {
                        let before = around@.take(j as int);
                        let after = around@.take(j + 1);
                        assert(after[j as int] == q);
                        assert forall|p: int| 0 <= p < size implies near@[p] == (
                        self@.near_clue_below(p, c as int) || after.contains(p as usize)) by {
                            if before.contains(p as usize) {
                                let i = choose|i: int| 0 <= i < before.len() && before[i] == p;
                                assert(after[i] == p);
                            }
                            if after.contains(p as usize) && p != q {
                                let i = choose|i: int| 0 <= i < after.len() && after[i] == p;
                                assert(before[i] == p);
                            }
                        }
                    }
                    j += 1;
                }
                proof {
                    assert(around@.take(around.len() as int) =~= around@);
                    assert forall|p: int| 0 <= p < size implies near@[p] == self@.near_clue_below(
                        p,
                        c + 1,
                    ) by {
                        if self@.near_clue_below(p, c + 1) && !self@.near_clue_below(p, c as int) {
                            let w = choose|w: int|
                                0 <= w < c + 1 && self@.cells[w] is Clue
                                    && #[trigger] self@.neighbors(w).contains(p as usize);
                            assert(w == c);
                        }
                        if around@.contains(p as usize) {
                            assert(self@.neighbors(c as int).contains(p as usize));
                        }
                        if self@.near_clue_below(p, c as int) {
                            let w = choose|w: int|
                                0 <= w < c && self@.cells[w] is Clue
                                    && #[trigger] self@.neighbors(w).contains(p as usize);
                            assert(self@.neighbors(w).contains(p as usize));
                        }
                    }
                }
            } else {
                proof {
                    assert forall|p: int| 0 <= p < size implies near@[p] == self@.near_clue_below(
                        p,
                        c + 1,
                    ) by {
                        if self@.near_clue_below(p, c + 1) {
                            let w = choose|w: int|
                                0 <= w < c + 1 && self@.cells[w] is Clue
                                    && #[trigger] self@.neighbors(w).contains(p as usize);
                            assert(w < c);
                        }
                        if self@.near_clue_below(p, c as int) {
                            let w = choose|w: int|
                                0 <= w < c && self@.cells[w] is Clue
                                    && #[trigger] self@.neighbors(w).contains(p as usize);
                            assert(self@.neighbors(w).contains(p as usize));
                        }
                    }
                }
            }
            c += 1;
        }
        near
    }

    /// Sorts the cells into confirmed bombs, touched cells and untouched
    /// cells, each list in ascending order.
    pub fn partition(&self) -> (part: Partition)
        requires
            self@.shaped(),
        ensures
            part.confirmed@ == self@.confirmed(),
            part.touched@ == self@.touched(),
            part.untouched@ == self@.untouched(),
    {
        let near = self.near_clues();
        let mut confirmed: Vec<usize> = Vec::new();
        let mut touched: Vec<usize> = Vec::new();
        let mut untouched: Vec<usize> = Vec::new();
        let mut pos: usize = 0;
        while pos < self.cells.len()
            invariant
                pos <= self.cells.len(),
                near.len() == self@.size(),
                forall|p: int| 0 <= p < near.len() ==> near@[p] == self@.near_clue(p),
                confirmed@ == positions_where(pos as int, self@.confirmed_at()),
                touched@ == positions_where(pos as int, self@.touched_at()),
                untouched@ == positions_where(pos as int, self@.untouched_at()),
            decreases self.cells.len() - pos,
        {
            match self.cells[pos] {
                Cell::Bomb | Cell::Suspect => {
                    confirmed.push(pos);
                },
                Cell::Hidden(_) => {
                    if near[pos] {
                        touched.push(pos);
                    } else {
                        untouched.push(pos);
                    }
                },
                Cell::Clue(_) => {},
            }
            pos += 1;
        }
        Partition { confirmed, touched, untouched }
    }
}

} // verus!
