//! From counts of placements to per-cell probabilities.

use crate::binomial::{binomial, lemma_binomial_positive};
use crate::board::{
    lemma_positions_all, lemma_positions_none, lemma_positions_where, lemma_sides,
    positions_where, Board, MAX_CELLS,
};
use crate::cell::{Cell, Probability};
use crate::grid::{contains, Grid};
use crate::tally::{census_of, sum_seq, Census, Tally, LEVEL_CAP};
use vstd::prelude::*;

verus! {

/// What a cell adds to the expected number of bombs, in units of
/// `1 / scale`: a hidden cell its estimate, a confirmed bomb one whole
/// bomb, a clue nothing.
pub open spec fn share(cell: Cell, scale: nat) -> nat {
    match cell {
        Cell::Hidden(p) => p.num as nat,
        Cell::Bomb | Cell::Suspect => scale,
        Cell::Clue(_) => 0,
    }
}

/// The shares of all cells, added up.
pub open spec fn share_sum(cells: Seq<Cell>, scale: nat) -> nat
    decreases cells.len(),
{
    if cells.len() == 0 {
        0
    } else {
        share_sum(cells.drop_last(), scale) + share(cells.last(), scale)
    }
}

impl Board {
    /// What the grid tells of its hidden part: the confirmed bombs, the
    /// touched cells, how many cells are untouched, and how many bombs are
    /// not confirmed.
    pub open spec fn census(self) -> Census {
        Census {
            board: self,
            confirmed: self.confirmed(),
            touched: self.touched(),
            spare: self.untouched().len(),
            remaining: self.bombs - self.confirmed().len(),
        }
    }

    /// Some placement of the bombs agrees with the grid.
    pub open spec fn satisfiable(self) -> bool {
        self.census().total() > 0
    }

    /// The number of untouched cells, or one where there is none.
    pub open spec fn factor(self) -> nat {
        if self.untouched().len() > 0 {
            self.untouched().len()
        } else {
            1
        }
    }

    /// The denominator that all estimates of the grid share: the number of
    /// placements times the number of untouched cells.
    pub open spec fn scale(self) -> nat {
        self.factor() * self.census().total()
    }

    /// The numerator of the estimate for a hidden cell, over the
    /// denominator [`Board::scale`]. A touched cell holds a bomb in `count`
    /// of `total` placements. The untouched cells share evenly the bombs
    /// that the touched cells leave over: of the `remaining` bombs of each
    /// placement, `mass` lie on touched cells when all placements are taken
    /// together.
    pub open spec fn odds(self, pos: int) -> int {
        if self.near_clue(pos) {
            (self.factor() * self.census().count(pos as usize)) as int
        } else {
            self.census().remaining * self.census().total() - self.census().mass()
        }
    }

    /// The cell at `pos` once the estimates are brought up to date: a
    /// hidden cell gets its estimate, or turns into a suspect where the
    /// estimate is one; every other cell stays.
    pub open spec fn resolved_cell(self, pos: int) -> Cell {
        match self.cells[pos] {
            Cell::Hidden(_) => if self.odds(pos) == self.scale() {
                Cell::Suspect
            } else {
                Cell::Hidden(Probability { num: self.odds(pos) as u128, den: self.scale() as u128 })
            },
            cell => cell,
        }
    }

    /// The grid with all estimates brought up to date.
    pub open spec fn resolved(self) -> Board {
        Board { cells: Seq::new(self.cells.len(), |pos: int| self.resolved_cell(pos)), ..self }
    }

    /// Every estimate is a probability that fits in 128 bits: no numerator
    /// is negative or exceeds the denominator.
    pub open spec fn in_range(self) -> bool {
        &&& self.scale() <= u128::MAX
        &&& forall|pos: int|
            0 <= pos < self.size() && self.cells[pos] is Hidden ==> 0 <= #[trigger] self.odds(pos)
                <= self.scale()
    }

    /// The estimates of the grid are in order: every hidden cell carries a
    /// probability other than one over the common denominator `scale`,
    /// and the estimates add up to the number of bombs that are not
    /// confirmed.
    pub open spec fn settled(self, scale: nat) -> bool {
        &&& 0 < scale <= u128::MAX
        &&& forall|pos: int|
            0 <= pos < self.size() ==> (#[trigger] self.cells[pos] matches Cell::Hidden(p)
                ==> p.valid() && p.num != p.den && p.den == scale)
        &&& share_sum(self.cells, scale) == self.bombs * scale
    }
}

/// With more bombs confirmed than the grid holds, no placement is left.
pub proof fn lemma_overfull(census: Census, k: int)
    requires
        census.remaining < 0,
    ensures
        census.total_below(k) == 0,
    decreases k,
{
    if k > 0 {
        lemma_overfull(census, k - 1);
        let found = census.board.level_total(census.confirmed, census.touched, k - 1);
        assert(0 * found == 0) by (nonlinear_arith);
    }
}

/// Positions that satisfy one of two predicates that exclude each other
/// are no more than there are positions.
pub proof fn lemma_positions_disjoint(n: int, p1: spec_fn(int) -> bool, p2: spec_fn(int) -> bool)
    requires
        0 <= n,
        forall|i: int| !(#[trigger] p1(i) && p2(i)),
    ensures
        positions_where(n, p1).len() + positions_where(n, p2).len() <= n,
    decreases n,
{
    if n > 0 {
        lemma_positions_disjoint(n - 1, p1, p2);
        assert(!(p1(n - 1) && p2(n - 1)));
    }
}

impl Grid {
    /// Brings every estimate up to date: counts the placements that agree
    /// with the grid and gives each hidden cell the share of them that put
    /// a bomb on it. Returns the new grid with the denominator its
    /// estimates share, or `None` where no placement agrees with the grid.
    pub fn resolve(&self) -> (out: Option<(Grid, u128)>)
        requires
            self@.shaped(),
        ensures
            out is Some <==> self@.satisfiable(),
            out matches Some((grid, scale)) ==> {
                &&& grid@ == self@.resolved()
                &&& scale == self@.scale()
                &&& self@.in_range()
                &&& grid@.settled(scale as nat)
            },
    {
        let ghost board = self@;
        let size: usize = self.size();
        let part = self.partition();
        proof {
            lemma_positions_where(size as int, board.confirmed_at());
            lemma_positions_where(size as int, board.touched_at());
            lemma_positions_where(size as int, board.untouched_at());
            lemma_positions_disjoint(size as int, board.touched_at(), board.untouched_at());
        }
        let marked: usize = part.confirmed.len();
        if marked > self.bombs() {
            proof {
                lemma_overfull(board.census(), board.touched().len() + 1 as int);
            }
            return None;
        }
        let remaining: usize = self.bombs() - marked;
        let spare: usize = part.untouched.len();
        let ghost census = board.census();
        proof {
            assert forall|i: int| 0 <= i < part.touched@.len() implies part.touched@[i] < size by {
                assert(board.touched().contains(part.touched@[i]));
            }
            assert(census == census_of(self@, part.confirmed@, part.touched@, spare, remaining));
        }
        let tally = self.enumerate(&part.confirmed, &part.touched, spare, remaining);
        if tally.total == 0 {
            return None;
        }
        let factor: u128 = if spare > 0 {
            spare as u128
        } else {
            1
        };
        let total: u128 = tally.total;
        assert(factor * total <= 64 * (65 * LEVEL_CAP) && remaining * total <= 64 * (65 * LEVEL_CAP)
            && factor * total > 0) by (nonlinear_arith)
            requires
                0 < factor <= 64,
                0 <= remaining <= 64,
                0 < total <= 65 * LEVEL_CAP,
        ;
        let scale: u128 = factor * total;
        let rest: u128 = (remaining as u128) * total - tally.mass;
        let mut cells: Vec<Cell> = Vec::new();
        proof {
            assert(sum_seq(tally.counts@.take(0)) == 0);
            assert(factor * 0 + 0 * rest + 0 * scale == 0) by (nonlinear_arith);
        }
        let mut pos: usize = 0;
        while pos < size
            invariant
                pos <= size,
                size == board.size(),
                board == self@,
                board.shaped(),
                census == board.census(),
                part.touched@ == board.touched(),
                forall|p: usize| #[trigger]
                    board.touched().contains(p) <==> 0 <= p < size && board.is_touched(p as int),
                tally.is_full(census),
                tally.sound(census),
                total == tally.total,
                0 < total <= 65 * LEVEL_CAP,
                0 < factor <= 64,
                factor == board.factor(),
                scale == factor * total,
                scale == board.scale(),
                rest == census.remaining * total - tally.mass,
                spare > 0 ==> rest <= scale,
                cells.len() == pos,
                forall|p: int| 0 <= p < pos ==> cells@[p] == board.resolved_cell(p),
                forall|p: int|
                    0 <= p < pos && board.cells[p] is Hidden ==> 0 <= #[trigger] board.odds(p)
                        <= scale,
                forall|p: int|
                    0 <= p < pos ==> (#[trigger] cells@[p] matches Cell::Hidden(q) ==> q.valid()
                        && q.num != q.den && q.den == scale),
                share_sum(cells@, scale as nat) == factor * sum_seq(tally.counts@.take(pos as int))
                    + positions_where(pos as int, board.untouched_at()).len() * rest
                    + positions_where(pos as int, board.confirmed_at()).len() * scale,
            decreases size - pos,
        {
            let old_cell = self.cell_at(pos);
            let ghost hidden_before = positions_where(pos as int, board.untouched_at()).len();
            let ghost confirmed_before = positions_where(pos as int, board.confirmed_at()).len();
            let ghost counted_before = sum_seq(tally.counts@.take(pos as int));
            proof {
                assert(tally.counts@.take(pos + 1).drop_last() =~= tally.counts@.take(pos as int));
                assert(tally.counts@[pos as int] == census.count(pos));
                let c = tally.counts@[pos as int] as int;
                assert(factor * (counted_before + c) == factor * counted_before + factor * c)
                    by (nonlinear_arith);
                assert((hidden_before + 1) * rest == hidden_before * rest + rest)
                    by (nonlinear_arith);
                assert((confirmed_before + 1) * scale == confirmed_before * scale + scale)
                    by (nonlinear_arith);
                assert(factor * c <= factor * total) by (nonlinear_arith)
                    requires
                        0 <= c <= total,
                        0 <= factor,
                ;
                assert(factor * 0 == 0) by (nonlinear_arith);
            }
            let new_cell = match old_cell {
                Cell::Hidden(_) => {
                    let num: u128 = if contains(&part.touched, pos) {
                        factor * tally.counts[pos]
                    } else {
                        rest
                    };
                    if num == scale {
                        Cell::Suspect
                    } else {
                        Cell::Hidden(Probability { num, den: scale })
                    }
                },
                other => other,
            };
            proof {
                assert(board.touched().contains(pos) <==> board.is_touched(pos as int));
                assert(cells@.push(new_cell).drop_last() =~= cells@);
                assert(new_cell == board.resolved_cell(pos as int));
                if old_cell is Hidden && !board.near_clue(pos as int) {
                    // an untouched cell exists, so the factor is their number
                    assert(board.untouched_at()(pos as int));
                    lemma_positions_len_mono(pos + 1, size as int, board.untouched_at());
                }
            }
            cells.push(new_cell);
            pos += 1;
        }
        let grid = self.with_cells(cells);
        proof {
            assert(tally.counts@.take(size as int) =~= tally.counts@);
            assert(grid@.cells =~= board.resolved().cells);
            let m = tally.mass as int;
            let t = total as int;
            let r = remaining as int;
            let u = spare as int;
            let k = marked as int;
            let f = factor as int;
            let b = board.bombs;
            if u > 0 {
                assert(u * m + u * (r * t - m) + k * (u * t) == (r + k) * (u * t))
                    by (nonlinear_arith);
            } else {
                assert(1 * m + 0 * (r * t - m) + k * (1 * t) == (r + k) * (1 * t))
                    by (nonlinear_arith)
                    requires
                        m == r * t,
                ;
            }
            assert(f * m + u * (r * t - m) + k * (f * t) == b * (f * t));
        }
        Some((grid, scale))
    }
}

/// Bringing the estimates up to date leaves what the player has
/// described as it is.
pub proof fn lemma_resolved_revealed(board: Board)
    requires
        board.plain(),
    ensures
        board.resolved().revealed() == board,
{
    let back = board.resolved().revealed();
    assert forall|p: int| 0 <= p < board.size() implies back.cells[p] == board.cells[p] by {
        assert(board.cells[p].blank() == board.cells[p]);
    }
    assert(back.cells =~= board.cells);
}

/// Before anything is revealed every selection of the bombs is a
/// placement, and every cell holds a bomb in the same share of them.
pub proof fn lemma_blank_resolved(width: int, height: int, bombs: int)
    requires
        Board::blank(width, height, bombs).shaped(),
    ensures
        Board::blank(width, height, bombs).plain(),
        Board::blank(width, height, bombs).satisfiable(),
        Board::blank(width, height, bombs).scale() == width * height * binomial(
            (width * height) as nat,
            bombs,
        ),
        Board::blank(width, height, bombs).resolved() == Board::fresh(width, height, bombs),
{
    let board = Board::blank(width, height, bombs);
    let n = board.size();
    let census = board.census();
    let nil = Seq::<usize>::empty();
    let ways = binomial(n as nat, bombs);
    lemma_sides(board);
    lemma_positions_none(n, board.touched_at());
    lemma_positions_none(n, board.confirmed_at());
    lemma_positions_all(n, board.untouched_at());
    lemma_binomial_positive(n as nat, bombs);
    assert(nil + nil =~= nil);
    assert(board.consistent(nil)) by {
        assert forall|pos: int| 0 <= pos < n implies #[trigger] board.cell_met(nil, pos) by {}
    }
    assert(board.level_total(nil, nil, 0) == 1);
    assert(census.total_at(0) == ways) by {
        assert(ways * 1 == ways) by (nonlinear_arith);
    }
    assert(census.total_below(0) == 0);
    assert(census.total() == ways);
    assert(census.mass_below(0) == 0);
    assert(census.mass() == 0) by {
        assert(0 * census.total_at(0) == 0) by (nonlinear_arith);
    }
    assert(board.scale() == n * ways);
    assert(n == width * height);
    assert forall|pos: int| 0 <= pos < n implies board.resolved_cell(pos) == Board::first_cell(
        bombs,
        n,
    ) by {
        assert(board.odds(pos) == bombs * ways);
        assert((bombs * ways == n * ways) == (bombs == n)) by (nonlinear_arith)
            requires
                ways > 0,
        ;
    }
    assert(board.resolved().cells =~= Board::fresh(width, height, bombs).cells);
}

/// Among more positions, no fewer satisfy a predicate.
pub proof fn lemma_positions_len_mono(n: int, m: int, pred: spec_fn(int) -> bool)
    requires
        n <= m,
    ensures
        positions_where(n, pred).len() <= positions_where(m, pred).len(),
    decreases m - n,
{
    if n < m {
        lemma_positions_len_mono(n, m - 1, pred);
    }
}

} // verus!
