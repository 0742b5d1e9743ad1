//! Counting the bomb placements that agree with the clues.
//!
//! Only the touched cells are gone through one selection at a time. The
//! untouched cells touch no clue, so all that matters of them is in how
//! many ways they can take up the bombs that are left over, and that is a
//! binomial coefficient.

use crate::binomial::{binom, binomial, lemma_binomial_beyond, lemma_binomial_bound};
use crate::board::{Board, MAX_CELLS};
use crate::grid::Grid;
use crate::selection::{
    increasing, is_selection, lemma_sum_over_selections, lemma_sum_sel_bound,
    lemma_sum_sel_monotone, lists_selections, subsets_of_size, sum_list, sum_sel, views,
};
use vstd::arithmetic::power2::{lemma2_to64, lemma_pow2_adds, lemma_pow2_strictly_increases, pow2};
use vstd::prelude::*;

verus! {

/// The sum of a sequence of numbers.
pub open spec fn sum_seq(s: Seq<u128>) -> nat
    decreases s.len(),
{
    if s.len() == 0 {
        0
    } else {
        sum_seq(s.drop_last()) + s.last() as nat
    }
}

/// Raising one entry raises the sum by as much.
pub proof fn lemma_sum_seq_update(s: Seq<u128>, i: int, v: u128)
    requires
        0 <= i < s.len(),
    ensures
        sum_seq(s.update(i, v)) == sum_seq(s) - s[i] + v,
    decreases s.len(),
{
    let t = s.update(i, v);
    if i == s.len() - 1 {
        assert(t.drop_last() =~= s.drop_last());
    } else {
        lemma_sum_seq_update(s.drop_last(), i, v);
        assert(t.drop_last() =~= s.drop_last().update(i, v));
    }
}

/// A sequence of zeros sums to zero.
pub proof fn lemma_sum_seq_zero(s: Seq<u128>)
    requires
        forall|i: int| 0 <= i < s.len() ==> s[i] == 0,
    ensures
        sum_seq(s) == 0,
    decreases s.len(),
{
    if s.len() > 0 {
        lemma_sum_seq_zero(s.drop_last());
    }
}

impl Board {
    /// Weighs a selection of cells: one if the confirmed bombs together
    /// with the selection agree with the grid, zero if not. Where `strict`
    /// is set the selection must also keep off the clues, and where a cell
    /// is marked the selection must hold it.
    pub open spec fn weigh(
        self,
        confirmed: Seq<usize>,
        strict: bool,
        mark: Option<usize>,
    ) -> spec_fn(Seq<usize>) -> nat {
        |s: Seq<usize>|
            {
                let agrees = self.consistent(confirmed + s);
                let clear = strict ==> self.clue_free(confirmed + s);
                let holds = mark matches Some(c) ==> s.contains(c);
                if agrees && clear && holds {
                    1nat
                } else {
                    0nat
                }
            }
    }

    /// Weighs a selection of touched cells: one if the confirmed bombs
    /// together with the selection agree with the grid, zero if not.
    pub open spec fn fits(self, confirmed: Seq<usize>) -> spec_fn(Seq<usize>) -> nat {
        self.weigh(confirmed, false, None)
    }

    /// As [`Board::fits`], but only selections that hold `cell` weigh.
    pub open spec fn fits_with(self, confirmed: Seq<usize>, cell: usize) -> spec_fn(
        Seq<usize>,
    ) -> nat {
        self.weigh(confirmed, false, Some(cell))
    }

    /// In how many ways `k` of the touched cells can hold bombs so that,
    /// with the confirmed bombs, every clue is met.
    pub open spec fn level_total(self, confirmed: Seq<usize>, touched: Seq<usize>, k: int) -> nat {
        sum_sel(touched, k, Seq::empty(), self.fits(confirmed))
    }

    /// In how many of those ways `cell` holds a bomb.
    pub open spec fn level_count(
        self,
        confirmed: Seq<usize>,
        touched: Seq<usize>,
        k: int,
        cell: usize,
    ) -> nat {
        sum_sel(touched, k, Seq::empty(), self.fits_with(confirmed, cell))
    }
}

/// In how many ways the `spare` untouched cells can hold the bombs that
/// are left when `k` of the `remaining` ones lie on touched cells.
pub open spec fn weight(spare: nat, remaining: int, k: int) -> nat {
    binomial(spare, remaining - k)
}

/// What is known of the hidden part of a grid when bombs are counted.
pub struct Census {
    /// The grid.
    pub board: Board,
    /// The bombs that are known.
    pub confirmed: Seq<usize>,
    /// The hidden cells that touch a clue.
    pub touched: Seq<usize>,
    /// The number of hidden cells that touch no clue.
    pub spare: nat,
    /// The number of bombs that are not known.
    pub remaining: int,
}

impl Census {
    /// The touched cells are cells of the grid, in ascending order, and
    /// there are no more hidden cells than the grid has cells.
    pub open spec fn valid(self) -> bool {
        &&& self.board.shaped()
        &&& increasing(self.touched)
        &&& forall|i: int| 0 <= i < self.touched.len() ==> self.touched[i] < self.board.size()
        &&& self.touched.len() + self.spare <= MAX_CELLS
        &&& 0 <= self.remaining <= MAX_CELLS
    }

    /// The number of placements with exactly `k` bombs on touched cells.
    pub open spec fn total_at(self, k: int) -> nat {
        weight(self.spare, self.remaining, k) * self.board.level_total(
            self.confirmed,
            self.touched,
            k,
        )
    }

    /// The number of those placements that put a bomb on `cell`.
    pub open spec fn count_at(self, k: int, cell: usize) -> nat {
        weight(self.spare, self.remaining, k) * self.board.level_count(
            self.confirmed,
            self.touched,
            k,
            cell,
        )
    }

    /// The number of placements with fewer than `k` bombs on touched cells.
    pub open spec fn total_below(self, k: int) -> nat
        decreases k,
    {
        if k <= 0 {
            0
        } else {
            self.total_below(k - 1) + self.total_at(k - 1)
        }
    }

    /// The number of those placements that put a bomb on `cell`.
    pub open spec fn count_below(self, k: int, cell: usize) -> nat
        decreases k,
    {
        if k <= 0 {
            0
        } else {
            self.count_below(k - 1, cell) + self.count_at(k - 1, cell)
        }
    }

    /// The bombs on touched cells, added up over the placements with fewer
    /// than `k` of them.
    pub open spec fn mass_below(self, k: int) -> nat
        decreases k,
    {
        if k <= 0 {
            0
        } else {
            self.mass_below(k - 1) + (k - 1) as nat * self.total_at(k - 1)
        }
    }

    /// The number of placements in all: any number of touched cells, from
    /// none to all of them, may hold bombs.
    pub open spec fn total(self) -> nat {
        self.total_below(self.touched.len() + 1 as int)
    }

    /// The number of placements that put a bomb on the touched cell `cell`.
    pub open spec fn count(self, cell: usize) -> nat {
        self.count_below(self.touched.len() + 1 as int, cell)
    }

    /// The bombs on touched cells, added up over all placements.
    pub open spec fn mass(self) -> nat {
        self.mass_below(self.touched.len() + 1 as int)
    }
}

/// The outcome of a count: how many placements agree with the clues, and
/// how many of them put a bomb on each cell.
#[derive(Clone, Debug)]
pub struct Tally {
    /// The number of placements.
    pub total: u128,
    /// The bombs on the cells that were gone through, added up over all
    /// placements.
    pub mass: u128,
    /// For each cell of the grid that was gone through, the number of
    /// placements that put a bomb on it; zero for every other cell.
    pub counts: Vec<u128>,
}

/// The largest number of placements that one level can have.
pub const LEVEL_CAP: u128 = 0x1_0000_0000_0000_0000;

/// The census that a grid and the lists of a count make up.
pub open spec fn census_of(
    board: Board,
    confirmed: Seq<usize>,
    touched: Seq<usize>,
    spare: usize,
    remaining: usize,
) -> Census {
    Census { board, confirmed, touched, spare: spare as nat, remaining: remaining as int }
}

/// No more selections can meet the clues than there are selections, and no
/// more of them can hold a given cell than meet the clues.
pub proof fn lemma_level_bounds(
    board: Board,
    confirmed: Seq<usize>,
    touched: Seq<usize>,
    k: int,
    cell: usize,
)
    ensures
        board.level_count(confirmed, touched, k, cell) <= board.level_total(confirmed, touched, k),
        board.level_total(confirmed, touched, k) <= binomial(touched.len(), k),
{
    let nil = Seq::<usize>::empty();
    let all = board.fits(confirmed);
    let some = board.fits_with(confirmed, cell);
    assert forall|s: Seq<usize>| #[trigger] some(s) <= all(s) by {}
    lemma_sum_sel_monotone(touched, k, nil, some, all);
    assert forall|s: Seq<usize>| #[trigger] all(s) <= 1nat by {}
    lemma_sum_sel_bound(touched, k, nil, all, 1);
    assert(1nat * binomial(touched.len(), k) == binomial(touched.len(), k)) by (nonlinear_arith);
}

/// With `t` touched and `spare` untouched cells, at most `2^(t + spare)`
/// placements are counted at one level.
pub proof fn lemma_level_cap(spare: nat, remaining: int, t: nat, k: int, hits: nat)
    requires
        t + spare <= MAX_CELLS,
        hits <= binomial(t, k),
    ensures
        weight(spare, remaining, k) * hits <= LEVEL_CAP,
{
    let w = weight(spare, remaining, k);
    lemma_binomial_bound(spare, remaining - k);
    lemma_binomial_bound(t, k);
    lemma_pow2_adds(spare, t);
    if spare + t < 64 {
        lemma_pow2_strictly_increases(spare + t, 64);
    }
    lemma2_to64();
    assert(w * hits <= pow2(spare) * pow2(t)) by (nonlinear_arith)
        requires
            0 <= w <= pow2(spare),
            0 <= hits <= pow2(t),
    ;
}

impl Tally {
    /// The parts of the tally hang together: the mass is the sum of the
    /// counts, no cell is counted more often than there are placements,
    /// only touched cells are counted, and the bombs that are not on
    /// touched cells fit on the untouched ones.
    pub open spec fn sound(self, census: Census) -> bool {
        &&& self.counts.len() == census.board.size()
        &&& sum_seq(self.counts@) == self.mass
        &&& forall|cell: int| 0 <= cell < self.counts.len() ==> self.counts@[cell] <= self.total
        &&& forall|cell: int|
            0 <= cell < self.counts.len() && !census.touched.contains(cell as usize)
                ==> self.counts@[cell] == 0
        &&& self.mass <= census.remaining * self.total
        &&& census.remaining * self.total - self.mass <= census.spare * self.total
        &&& census.spare == 0 ==> self.mass == census.remaining * self.total
    }

    /// The tally counts the placements with exactly `k` bombs on touched
    /// cells.
    pub open spec fn is_level(self, census: Census, k: int) -> bool {
        &&& self.total == census.total_at(k)
        &&& self.mass == k * census.total_at(k)
        &&& forall|cell: int|
            0 <= cell < self.counts.len() ==> self.counts@[cell] == census.count_at(
                k,
                cell as usize,
            )
    }

    /// The tally counts the placements with fewer than `k` bombs on touched
    /// cells.
    pub open spec fn is_below(self, census: Census, k: int) -> bool {
        &&& self.total == census.total_below(k)
        &&& self.mass == census.mass_below(k)
        &&& forall|cell: int|
            0 <= cell < self.counts.len() ==> self.counts@[cell] == census.count_below(
                k,
                cell as usize,
            )
    }

    /// The tally counts all placements.
    pub open spec fn is_full(self, census: Census) -> bool {
        self.is_below(census, census.touched.len() + 1 as int)
    }

    /// The sum of two tallies, entry by entry, or `None` where they are of
    /// different grids or a sum exceeds 128 bits.
    pub fn merge(&self, other: &Tally) -> (sum: Option<Tally>)
        ensures
            sum is Some <==> {
                &&& self.counts.len() == other.counts.len()
                &&& self.total + other.total <= u128::MAX
                &&& self.mass + other.mass <= u128::MAX
                &&& forall|cell: int|
                    0 <= cell < self.counts.len() ==> self.counts@[cell] + other.counts@[cell]
                        <= u128::MAX
            },
            sum matches Some(t) ==> {
                &&& t.total == self.total + other.total
                &&& t.mass == self.mass + other.mass
                &&& t.counts.len() == self.counts.len()
                &&& forall|cell: int|
                    0 <= cell < self.counts.len() ==> t.counts@[cell] == self.counts@[cell]
                        + other.counts@[cell]
                &&& sum_seq(t.counts@) == sum_seq(self.counts@) + sum_seq(other.counts@)
            },
    {
        if self.counts.len() != other.counts.len() {
            return None;
        }
        let total = match self.total.checked_add(other.total) {
            Some(v) => v,
            None => {
                return None;
            },
        };
        let mass = match self.mass.checked_add(other.mass) {
            Some(v) => v,
            None => {
                return None;
            },
        };
        let mut counts: Vec<u128> = Vec::new();
        let mut i: usize = 0;
        while i < self.counts.len()
            invariant
                i <= self.counts.len(),
                self.counts.len() == other.counts.len(),
                counts.len() == i,
                forall|cell: int|
                    0 <= cell < i ==> counts@[cell] == self.counts@[cell] + other.counts@[cell],
                forall|cell: int|
                    0 <= cell < i ==> self.counts@[cell] + other.counts@[cell] <= u128::MAX,
                sum_seq(counts@) == sum_seq(self.counts@.take(i as int)) + sum_seq(
                    other.counts@.take(i as int),
                ),
            decreases self.counts.len() - i,
        {
            let entry = match self.counts[i].checked_add(other.counts[i]) {
                Some(v) => v,
                None => {
                    return None;
                },
            };
            proof {
                assert(self.counts@.take(i + 1).drop_last() =~= self.counts@.take(i as int));
                assert(other.counts@.take(i + 1).drop_last() =~= other.counts@.take(i as int));
                assert(counts@.push(entry).drop_last() =~= counts@);
            }
            counts.push(entry);
            i += 1;
        }
        proof {
            assert(self.counts@.take(i as int) =~= self.counts@);
            assert(other.counts@.take(i as int) =~= other.counts@);
        }
        Some(Tally { total, mass, counts })
    }

    /// The tally of no placement at all, for a grid of `size` cells.
    pub fn zero(size: usize) -> (tally: Tally)
        ensures
            tally.total == 0,
            tally.mass == 0,
            tally.counts.len() == size,
            forall|cell: int| 0 <= cell < size ==> tally.counts@[cell] == 0,
            sum_seq(tally.counts@) == 0,
    {
        let mut counts: Vec<u128> = Vec::new();
        let mut i: usize = 0;
        while i < size
            invariant
                i <= size,
                counts.len() == i,
                forall|cell: int| 0 <= cell < i ==> counts@[cell] == 0,
            decreases size - i,
        {
            counts.push(0);
            i += 1;
        }
        proof {
            lemma_sum_seq_zero(counts@);
        }
        Tally { total: 0, mass: 0, counts }
    }
}

impl Grid {
    /// Counts, without weights, the selections of `k` of the given cells
    /// that agree with the grid, and for each cell those that hold it.
    pub(crate) fn count_level(
        &self,
        confirmed: &Vec<usize>,
        touched: &Vec<usize>,
        k: usize,
        strict: bool,
    ) -> (found: (u128, Vec<u128>))
        requires
            self@.shaped(),
            increasing(touched@),
            forall|i: int| 0 <= i < touched.len() ==> touched@[i] < self@.size(),
        ensures
            found.0 == sum_sel(
                touched@,
                k as int,
                Seq::empty(),
                self@.weigh(confirmed@, strict, None),
            ),
            found.1.len() == self@.size(),
            forall|cell: int|
                0 <= cell < self@.size() ==> found.1@[cell] == sum_sel(
                    touched@,
                    k as int,
                    Seq::empty(),
                    self@.weigh(confirmed@, strict, Some(cell as usize)),
                ),
            forall|cell: int|
                0 <= cell < self@.size() && !touched@.contains(cell as usize) ==> found.1@[cell]
                    == 0,
            sum_seq(found.1@) == k * found.0,
            found.0 <= binomial(touched@.len(), k as int),
    {
        let size: usize = self.size();
        let list = subsets_of_size(touched, k);
        let zero = Tally::zero(size);
        let mut per: Vec<u128> = zero.counts;
        let mut hits: u128 = 0;
        let ghost all = self@.weigh(confirmed@, strict, None);
        let ghost nil = Seq::<usize>::empty();
        let ghost entries = views(list@);
        let mut j: usize = 0;
        while j < list.len()
            invariant
                j <= list.len(),
                size == self@.size(),
                self@.shaped(),
                entries == views(list@),
                nil == Seq::<usize>::empty(),
                all == self@.weigh(confirmed@, strict, None),
                lists_selections(entries, touched@, k as nat),
                forall|i: int| 0 <= i < touched.len() ==> touched@[i] < size,
                per.len() == size,
                hits <= j,
                hits == sum_list(entries.take(j as int), nil, all),
                forall|cell: int|
                    0 <= cell < size ==> per@[cell] <= hits && per@[cell] == sum_list(
                        entries.take(j as int),
                        nil,
                        self@.weigh(confirmed@, strict, Some(cell as usize)),
                    ),
                forall|cell: int|
                    0 <= cell < size && !touched@.contains(cell as usize) ==> per@[cell] == 0,
                sum_seq(per@) == k * hits,
            decreases list.len() - j,
        {
            let entry = &list[j];
            let ghost e = entry@;
            proof {
                assert(entries[j as int] == e);
                assert(is_selection(touched@, k as nat, entries[j as int]));
                assert(entries.take(j + 1).drop_last() =~= entries.take(j as int));
                assert(entries.take(j + 1).last() == e);
                assert(e + nil =~= e);
            }
            let mut full = confirmed.clone();
            let mut rest = entry.clone();
            full.append(&mut rest);
            if self.matches_preset(&full) && (!strict || self.avoids_clues(&full)) {
                let ghost before = per@;
                let mut i: usize = 0;
                while i < entry.len()
                    invariant
                        i <= entry.len(),
                        entry@ == e,
                        e.len() == k,
                        increasing(e),
                        forall|i: int| 0 <= i < e.len() ==> touched@.contains(#[trigger] e[i]),
                        forall|i: int| 0 <= i < touched.len() ==> touched@[i] < size,
                        per.len() == size,
                        before.len() == size,
                        hits <= j < usize::MAX,
                        forall|cell: int| 0 <= cell < size ==> before[cell] <= hits,
                        forall|cell: int|
                            0 <= cell < size ==> per@[cell] == before[cell] + if e.take(
                                i as int,
                            ).contains(cell as usize) {
                                1nat
                            } else {
                                0nat
                            },
                        sum_seq(per@) == sum_seq(before) + i,
                    decreases entry.len() - i,
                {
                    let cell: usize = entry[i];
                    proof {
                        assert(touched@.contains(e[i as int]));
                        if e.take(i as int).contains(cell) {
                            let p = choose|p: int| 0 <= p < i && e.take(i as int)[p] == cell;
                            assert(e[p] < e[i as int]);
                        }
                        lemma_sum_seq_update(per@, cell as int, (per@[cell as int] + 1) as u128);
                    }
                    per.set(cell, per[cell] + 1);
                    proof {
                        let shorter = e.take(i as int);
                        let longer = e.take(i + 1);
                        assert(longer[i as int] == cell);
                        assert forall|c: int| 0 <= c < size implies per@[c] == before[c] + if longer.contains(
                            c as usize,
                        ) {
                            1nat
                        } else {
                            0nat
                        } by {
                            if shorter.contains(c as usize) {
                                let p = choose|p: int| 0 <= p < shorter.len() && shorter[p] == c;
                                assert(longer[p] == c);
                            }
                            if longer.contains(c as usize) && c != cell {
                                let p = choose|p: int| 0 <= p < longer.len() && longer[p] == c;
                                assert(shorter[p] == c);
                            }
                        }
                    }
                    i += 1;
                }
                hits += 1;
                proof {
                    assert(e.take(e.len() as int) =~= e);
                    assert(k * (hits - 1) + k == k * hits) by (nonlinear_arith);
                }
            }
            j += 1;
        }
        proof {
            assert(entries.take(list.len() as int) =~= entries);
            lemma_sum_over_selections(entries, touched@, k as nat, all);
            assert forall|cell: int| 0 <= cell < size implies per@[cell] == sum_sel(
                touched@,
                k as int,
                Seq::empty(),
                self@.weigh(confirmed@, strict, Some(cell as usize)),
            ) by {
                lemma_sum_over_selections(
                    entries,
                    touched@,
                    k as nat,
                    self@.weigh(confirmed@, strict, Some(cell as usize)),
                );
            }
        }
        (hits, per)
    }

    /// Counts the placements that put exactly `k` bombs on touched cells.
    /// Each selection of `k` touched cells that meets the clues stands for
    /// as many placements as there are ways to lay the other bombs on the
    /// untouched cells.
    pub fn tally_level(
        &self,
        confirmed: &Vec<usize>,
        touched: &Vec<usize>,
        spare: usize,
        remaining: usize,
        k: usize,
    ) -> (tally: Tally)
        requires
            census_of(self@, confirmed@, touched@, spare, remaining).valid(),
        ensures
            tally.is_level(census_of(self@, confirmed@, touched@, spare, remaining), k as int),
            tally.sound(census_of(self@, confirmed@, touched@, spare, remaining)),
            tally.total <= LEVEL_CAP,
    {
        let ghost census = census_of(self@, confirmed@, touched@, spare, remaining);
        let size: usize = self.size();
        if k > remaining || k > touched.len() {
            let tally = Tally::zero(size);
            proof {
                let w = weight(spare as nat, remaining as int, k as int);
                let found = self@.level_total(confirmed@, touched@, k as int);
                if k > touched.len() {
                    lemma_level_bounds(self@, confirmed@, touched@, k as int, 0);
                    lemma_binomial_beyond(touched@.len(), k as int);
                }
                assert(w * found == 0) by (nonlinear_arith)
                    requires
                        w == 0 || found == 0,
                ;
                assert(k * census.total_at(k as int) == 0) by (nonlinear_arith)
                    requires
                        census.total_at(k as int) == 0,
                ;
                assert forall|cell: int| 0 <= cell < size implies tally.counts@[cell]
                    == census.count_at(k as int, cell as usize) by {
                    let part = self@.level_count(confirmed@, touched@, k as int, cell as usize);
                    lemma_level_bounds(self@, confirmed@, touched@, k as int, cell as usize);
                    assert(w * part == 0) by (nonlinear_arith)
                        requires
                            w == 0 || part == 0,
                    ;
                }
                assert(remaining * 0 == 0 && spare * 0 == 0) by (nonlinear_arith);
            }
            return tally;
        }
        let mult: u128 = binom(spare, remaining - k);
        let (hits, per) = self.count_level(confirmed, touched, k, false);
        proof {
            lemma_level_bounds(self@, confirmed@, touched@, k as int, 0);
            lemma_level_cap(spare as nat, remaining as int, touched@.len(), k as int, hits as nat);
            assert forall|c: int| 0 <= c < size implies per@[c] <= hits by {
                lemma_level_bounds(self@, confirmed@, touched@, k as int, c as usize);
            }
        }
        let total: u128 = mult * hits;
        assert(k * total <= 64 * LEVEL_CAP) by (nonlinear_arith)
            requires
                0 <= k <= 64,
                0 <= total <= LEVEL_CAP,
        ;
        let mass: u128 = (k as u128) * total;
        let mut counts: Vec<u128> = Vec::new();
        let mut cell: usize = 0;
        while cell < size
            invariant
                cell <= size,
                size == self@.size(),
                per.len() == size,
                counts.len() == cell,
                total == mult * hits,
                total <= LEVEL_CAP,
                forall|c: int|
                    0 <= c < size ==> per@[c] == self@.level_count(
                        confirmed@,
                        touched@,
                        k as int,
                        c as usize,
                    ),
                forall|c: int| 0 <= c < size ==> per@[c] <= hits,
                forall|c: int| 0 <= c < cell ==> counts@[c] == mult * per@[c],
                forall|c: int| 0 <= c < cell ==> counts@[c] <= total,
                sum_seq(counts@) == mult * sum_seq(per@.take(cell as int)),
            decreases size - cell,
        {
            proof {
                let p = per@[cell as int];
                assert(mult * p <= mult * hits) by (nonlinear_arith)
                    requires
                        0 <= p <= hits,
                        0 <= mult,
                ;
                assert(per@.take(cell + 1).drop_last() =~= per@.take(cell as int));
                let before = sum_seq(per@.take(cell as int));
                assert(mult * (before + p) == mult * before + mult * p) by (nonlinear_arith);
            }
            let entry: u128 = mult * per[cell];
            proof {
                assert(counts@.push(entry).drop_last() =~= counts@);
            }
            counts.push(entry);
            cell += 1;
        }
        let tally = Tally { total, mass, counts };
        proof {
            assert(per@.take(size as int) =~= per@);
            assert(mult * (k * hits) == k * (mult * hits)) by (nonlinear_arith);
            assert forall|c: int|
                0 <= c < size && !touched@.contains(c as usize) implies tally.counts@[c] == 0 by {
                assert(mult * 0 == 0) by (nonlinear_arith);
            }
            lemma_level_balance(census, k as int, total as nat);
        }
        tally
    }

    /// Counts the bomb placements that agree with the grid: the confirmed
    /// bombs, any number of bombs on touched cells such that every clue is
    /// met, and the bombs then left over on untouched cells.
    pub fn enumerate(
        &self,
        confirmed: &Vec<usize>,
        touched: &Vec<usize>,
        spare: usize,
        remaining: usize,
    ) -> (tally: Tally)
        requires
            census_of(self@, confirmed@, touched@, spare, remaining).valid(),
        ensures
            tally.is_full(census_of(self@, confirmed@, touched@, spare, remaining)),
            tally.sound(census_of(self@, confirmed@, touched@, spare, remaining)),
            tally.total <= (MAX_CELLS + 1) * LEVEL_CAP,
    {
        let ghost census = census_of(self@, confirmed@, touched@, spare, remaining);
        let mut acc = Tally::zero(self.size());
        let mut k: usize = 0;
        proof {
            assert(remaining * 0 == 0 && spare * 0 == 0) by (nonlinear_arith);
        }
        while k <= touched.len()
            invariant
                k <= touched.len() + 1,
                census == census_of(self@, confirmed@, touched@, spare, remaining),
                census.valid(),
                acc.is_below(census, k as int),
                acc.sound(census),
                acc.total <= k * LEVEL_CAP,
            decreases touched.len() + 1 - k,
        {
            let level = self.tally_level(confirmed, touched, spare, remaining, k);
            proof {
                let r = remaining as int;
                let u = spare as int;
                let (a, b) = (acc.total as int, level.total as int);
                assert(r * (a + b) == r * a + r * b && u * (a + b) == u * a + u * b)
                    by (nonlinear_arith);
                assert(r * a <= 64 * (65 * LEVEL_CAP) && r * b <= 64 * LEVEL_CAP) by (nonlinear_arith)
                    requires
                        0 <= r <= 64,
                        0 <= a <= 65 * LEVEL_CAP,
                        0 <= b <= LEVEL_CAP,
                ;
            }
            match acc.merge(&level) {
                Some(next) => {
                    acc = next;
                },
                None => {
                    proof {
                        assert(false);
                    }
                },
            }
            k += 1;
        }
        acc
    }
}

/// Where a level counts any placement at all, the bombs it leaves for the
/// untouched cells fit on them.
pub proof fn lemma_level_balance(census: Census, k: int, total: nat)
    requires
        0 <= k <= census.remaining,
        total == census.total_at(k),
    ensures
        k * total <= census.remaining * total,
        census.remaining * total - k * total <= census.spare * total,
        census.spare == 0 ==> k * total == census.remaining * total,
{
    let r = census.remaining;
    let u = census.spare;
    let w = weight(u, r, k);
    let found = census.board.level_total(census.confirmed, census.touched, k);
    if r - k > u {
        lemma_binomial_beyond(u, r - k);
        assert(w * found == 0) by (nonlinear_arith)
            requires
                w == 0,
        ;
        assert(k * total == 0 && r * total == 0 && u * total == 0) by (nonlinear_arith)
            requires
                total == 0,
        ;
    } else {
        assert(k * total <= r * total && r * total - k * total <= u * total) by (nonlinear_arith)
            requires
                0 <= k <= r,
                r - k <= u,
                0 <= total,
        ;
        if u == 0 {
            assert(k == r);
        }
    }
}

} // verus!
