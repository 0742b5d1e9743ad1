//! The plain way to count: go through every placement of all the bombs
//! and keep those that agree with the grid. It is far slower than the
//! census of the touched cells, and says what that census must come to.

use crate::binomial::lemma_binomial_bound;
use crate::board::{count_in, lemma_positions_where, lemma_sides, positions_where, Board};
use crate::grid::Grid;
use crate::selection::{drawn_from, lemma_sum_sel_equal, sum_sel};
use crate::tally::{sum_seq, Tally, LEVEL_CAP};
use vstd::arithmetic::power2::{lemma2_to64, lemma_pow2_strictly_increases};
use vstd::prelude::*;

verus! {

impl Board {
    /// No position is that of a clue: a revealed cell holds no bomb.
    pub open spec fn clue_free(self, positions: Seq<usize>) -> bool {
        forall|c: int|
            0 <= c < self.size() && self.cells[c] is Clue ==> !#[trigger] positions.contains(
                c as usize,
            )
    }

    /// A placement of bombs is admissible when it agrees with the grid and
    /// puts no bomb on a clue.
    pub open spec fn admissible(self, positions: Seq<usize>) -> bool {
        self.consistent(positions) && self.clue_free(positions)
    }

    /// Weighs a placement: one if it is admissible and, where a cell is
    /// marked, puts a bomb on that cell; zero otherwise.
    pub open spec fn admits(self, mark: Option<usize>) -> spec_fn(Seq<usize>) -> nat {
        |positions: Seq<usize>|
            if self.admissible(positions) && (mark matches Some(c) ==> positions.contains(c)) {
                1nat
            } else {
                0nat
            }
    }

    /// The positions below `n`, in ascending order.
    pub open spec fn cells_below(n: int) -> Seq<usize> {
        positions_where(n, |pos: int| true)
    }

    /// The number of admissible placements of all the bombs.
    pub open spec fn reference_total(self) -> nat {
        sum_sel(Board::cells_below(self.size()), self.bombs, Seq::empty(), self.admits(None))
    }

    /// The number of admissible placements that put a bomb on `cell`.
    pub open spec fn reference_count(self, cell: usize) -> nat {
        sum_sel(Board::cells_below(self.size()), self.bombs, Seq::empty(), self.admits(Some(cell)))
    }
}

/// Two sets of positions that agree on the given cells hold equally many
/// of them.
pub proof fn lemma_count_in_agree(p: Seq<usize>, q: Seq<usize>, cells: Seq<usize>)
    requires
        forall|i: int| 0 <= i < cells.len() ==> p.contains(cells[i]) == q.contains(cells[i]),
    ensures
        count_in(p, cells) == count_in(q, cells),
    decreases cells.len(),
{
    if cells.len() > 0 {
        let rest = cells.drop_last();
        assert forall|i: int| 0 <= i < rest.len() implies p.contains(rest[i]) == q.contains(
            rest[i],
        ) by {
            assert(rest[i] == cells[i]);
        }
        lemma_count_in_agree(p, q, rest);
        assert(cells.last() == cells[cells.len() - 1]);
    }
}

/// The neighbours of a cell are cells of the grid.
pub proof fn lemma_neighbors_inside(board: Board, pos: int, d: int)
    requires
        board.shaped(),
        0 <= pos < board.size(),
        0 <= d <= 9,
    ensures
        forall|i: int|
            0 <= i < board.neighbors_upto(pos, d).len() ==> board.neighbors_upto(pos, d)[i]
                < board.size(),
    decreases d,
{
    if d > 0 {
        lemma_neighbors_inside(board, pos, d - 1);
        let before = board.neighbors_upto(pos, d - 1);
        let now = board.neighbors_upto(pos, d);
        match board.step(pos, d - 1) {
            Some(q) => {
                let x = pos % board.width + (d - 1) % 3 - 1;
                let y = pos / board.width + (d - 1) / 3 - 1;
                crate::board::lemma_index(board.width, board.height, x, y);
                assert(q == y * board.width + x);
                assert(now == before.push(q as usize));
                assert forall|i: int| 0 <= i < now.len() implies now[i] < board.size() by {
                    if i < before.len() {
                        assert(now[i] == before[i]);
                    }
                }
            },
            None => {
                assert(now == before);
            },
        }
    }
}

/// Whether a placement is admissible depends only on which cells that
/// are not untouched it holds: untouched cells touch no clue and are
/// neither clue nor confirmed bomb.
pub proof fn lemma_admissible_agree(board: Board, p: Seq<usize>, q: Seq<usize>)
    requires
        board.shaped(),
        forall|y: usize|
            p.contains(y) != q.contains(y) ==> y >= board.size() || board.is_untouched(y as int),
    ensures
        board.admissible(p) == board.admissible(q),
{
    assert forall|pos: int| 0 <= pos < board.size() implies board.cell_met(p, pos)
        == board.cell_met(q, pos) by {
        if board.cells[pos] is Clue {
            let around = board.neighbors(pos);
            lemma_neighbors_inside(board, pos, 9);
            assert forall|i: int| 0 <= i < around.len() implies p.contains(around[i])
                == q.contains(around[i]) by {
                let y = around[i];
                assert(board.neighbors(pos).contains((y as int) as usize));
                assert(board.near_clue_below(y as int, board.size()));
            }
            lemma_count_in_agree(p, q, around);
        }
        if board.is_confirmed(pos) {
            assert(!board.is_untouched(pos));
            assert(p.contains(pos as usize) == q.contains(pos as usize));
        }
    }
    if board.consistent(p) {
        assert forall|pos: int| 0 <= pos < board.size() implies #[trigger] board.cell_met(
            q,
            pos,
        ) by {
            assert(board.cell_met(p, pos));
        }
    }
    if board.consistent(q) {
        assert forall|pos: int| 0 <= pos < board.size() implies #[trigger] board.cell_met(
            p,
            pos,
        ) by {
            assert(board.cell_met(q, pos));
        }
    }
    assert forall|c: int| 0 <= c < board.size() && board.cells[c] is Clue implies p.contains(
        c as usize,
    ) == q.contains(c as usize) by {
        assert(!board.is_untouched(c));
    }
}

/// With no bomb confirmed beforehand, a strict weight is that of an
/// admissible placement.
proof fn lemma_strict_weight(board: Board, cells: Seq<usize>, mark: Option<usize>)
    ensures
        sum_sel(cells, board.bombs, Seq::empty(), board.weigh(Seq::empty(), true, mark)) == sum_sel(
            cells,
            board.bombs,
            Seq::empty(),
            board.admits(mark),
        ),
{
    let nil = Seq::<usize>::empty();
    let strict = board.weigh(nil, true, mark);
    let plain = board.admits(mark);
    assert forall|s: Seq<usize>| #[trigger] drawn_from(s, cells) implies strict(s + nil) == plain(
        s + nil,
    ) by {
        assert(nil + (s + nil) =~= s + nil);
    }
    lemma_sum_sel_equal(cells, board.bombs, nil, strict, nil, plain);
}

impl Grid {
    /// Counts the admissible placements the plain way: goes through every
    /// way to lay all the bombs on the cells of the grid and keeps those
    /// that agree with the grid and put no bomb on a clue. The tally
    /// holds their number, for each cell the number of them with a bomb
    /// on it, and as its mass the number of bombs in all of them.
    ///
    /// The effort grows with the number of ways to pick the bombs from
    /// all cells, so this is for small grids, to check the census by.
    pub fn reference_tally(&self) -> (tally: Tally)
        requires
            self@.shaped(),
        ensures
            tally.total == self@.reference_total(),
            tally.mass == self@.bombs * self@.reference_total(),
            tally.counts.len() == self@.size(),
            forall|cell: int|
                0 <= cell < self@.size() ==> tally.counts@[cell] == self@.reference_count(
                    cell as usize,
                ),
            sum_seq(tally.counts@) == tally.mass,
    {
        let size: usize = self.size();
        let mut cells: Vec<usize> = Vec::new();
        let mut pos: usize = 0;
        while pos < size
            invariant
                pos <= size,
                cells@ == Board::cells_below(pos as int),
            decreases size - pos,
        {
            cells.push(pos);
            pos += 1;
        }
        let none: Vec<usize> = Vec::new();
        proof {
            lemma_positions_where(size as int, |p: int| true);
            assert forall|i: int| 0 <= i < cells.len() implies cells@[i] < size by {
                assert(cells@.contains(cells@[i]));
            }
            lemma_sides(self@);
        }
        let (total, counts) = self.count_level(&none, &cells, self.bombs(), true);
        proof {
            lemma_strict_weight(self@, cells@, None);
            assert forall|cell: int| 0 <= cell < size implies counts@[cell]
                == self@.reference_count(cell as usize) by {
                lemma_strict_weight(self@, cells@, Some(cell as usize));
            }
            lemma_binomial_bound(cells@.len(), self@.bombs);
            if cells@.len() < 64 {
                lemma_pow2_strictly_increases(cells@.len(), 64);
            }
            lemma2_to64();
            assert(self@.bombs * total <= 64 * LEVEL_CAP) by (nonlinear_arith)
                requires
                    0 <= self@.bombs <= 64,
                    0 <= total <= LEVEL_CAP,
            ;
        }
        let mass: u128 = (self.bombs() as u128) * total;
        Tally { total, mass, counts }
    }
}

} // verus!
