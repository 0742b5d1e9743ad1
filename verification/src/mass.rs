//! The bombs on touched cells, counted twice: placement by placement, and
//! cell by cell.

use crate::board::Board;
use crate::selection::{increasing, sum_sel};
use crate::tally::{weight, Census};
use vstd::prelude::*;

verus! {

/// The sum of `f` over the positions below `n`.
pub open spec fn cell_sum(n: int, f: spec_fn(int) -> nat) -> nat
    decreases n,
{
    if n <= 0 {
        0
    } else {
        cell_sum(n - 1, f) + f(n - 1)
    }
}

proof fn lemma_cell_sum_add(
    n: int,
    f: spec_fn(int) -> nat,
    g: spec_fn(int) -> nat,
    h: spec_fn(int) -> nat,
)
    requires
        forall|c: int| 0 <= c < n ==> #[trigger] h(c) == f(c) + g(c),
    ensures
        cell_sum(n, h) == cell_sum(n, f) + cell_sum(n, g),
    decreases n,
{
    if n > 0 {
        lemma_cell_sum_add(n - 1, f, g, h);
    }
}

proof fn lemma_cell_sum_scale(n: int, f: spec_fn(int) -> nat, m: nat, h: spec_fn(int) -> nat)
    requires
        forall|c: int| 0 <= c < n ==> #[trigger] h(c) == m * f(c),
    ensures
        cell_sum(n, h) == m * cell_sum(n, f),
    decreases n,
{
    if n > 0 {
        lemma_cell_sum_scale(n - 1, f, m, h);
        let a = cell_sum(n - 1, f);
        let b = f(n - 1);
        assert(m * (a + b) == m * a + m * b) by (nonlinear_arith);
    } else {
        assert(m * 0 == 0) by (nonlinear_arith);
    }
}

proof fn lemma_cell_sum_zero(n: int, h: spec_fn(int) -> nat)
    requires
        forall|c: int| 0 <= c < n ==> #[trigger] h(c) == 0,
    ensures
        cell_sum(n, h) == 0,
    decreases n,
{
    if n > 0 {
        lemma_cell_sum_zero(n - 1, h);
    }
}

/// An ascending list of positions below `n` holds as many of the
/// positions below `n` as it is long.
proof fn lemma_cell_sum_members(n: int, s: Seq<usize>, v: nat, h: spec_fn(int) -> nat)
    requires
        n <= usize::MAX,
        increasing(s),
        forall|i: int| 0 <= i < s.len() ==> s[i] < n,
        forall|c: int|
            0 <= c < n ==> #[trigger] h(c) == if s.contains(c as usize) {
                v
            } else {
                0
            },
    ensures
        cell_sum(n, h) == s.len() * v,
    decreases n,
{
    if n <= 0 {
        assert(s.len() == 0) by {
            if s.len() > 0 {
                assert(s[0] < n);
            }
        }
        assert(0 * v == 0) by (nonlinear_arith);
    } else {
        let top = (n - 1) as usize;
        if s.len() > 0 && s.last() == top {
            let rest = s.drop_last();
            assert forall|i: int| 0 <= i < rest.len() implies rest[i] < n - 1 by {
                assert(s[i] < s[s.len() - 1]);
            }
            assert forall|c: int| 0 <= c < n - 1 implies #[trigger] h(c) == if rest.contains(
                c as usize,
            ) {
                v
            } else {
                0
            } by {
                if s.contains(c as usize) {
                    let i = choose|i: int| 0 <= i < s.len() && s[i] == c as usize;
                    assert(s[s.len() - 1] == top);
                    assert(i < s.len() - 1);
                    assert(rest[i] == c as usize);
                }
                if rest.contains(c as usize) {
                    let i = choose|i: int| 0 <= i < rest.len() && rest[i] == c as usize;
                    assert(s[i] == c as usize);
                }
            }
            lemma_cell_sum_members(n - 1, rest, v, h);
            assert(s[s.len() - 1] == top);
            assert(s.contains(top));
            assert((s.len() - 1) * v + v == s.len() * v) by (nonlinear_arith);
        } else {
            assert forall|i: int| 0 <= i < s.len() implies s[i] < n - 1 by {
                if s[i] == top {
                    if i < s.len() - 1 {
                        assert(s[i] < s[s.len() - 1]);
                    }
                    assert(s[s.len() - 1] < n);
                }
            }
            assert(!s.contains(top)) by {
                if s.contains(top) {
                    let i = choose|i: int| 0 <= i < s.len() && s[i] == top;
                    assert(s[i] < n - 1);
                }
            }
            lemma_cell_sum_members(n - 1, s, v, h);
        }
    }
}

/// The selections of `k` items that weigh and hold the cell `c`, summed
/// over the cells `c` below `n`.
spec fn held(board: Board, confirmed: Seq<usize>, items: Seq<usize>, k: int, suffix: Seq<usize>) -> spec_fn(
    int,
) -> nat {
    |c: int| sum_sel(items, k, suffix, board.weigh(confirmed, false, Some(c as usize)))
}

/// Every selection is held by as many cells as it has: summing over the
/// cells counts each selection once for each of its cells.
proof fn lemma_held(
    board: Board,
    confirmed: Seq<usize>,
    items: Seq<usize>,
    k: int,
    suffix: Seq<usize>,
    n: int,
)
    requires
        n <= usize::MAX,
        increasing(items + suffix),
        forall|i: int| 0 <= i < (items + suffix).len() ==> (items + suffix)[i] < n,
    ensures
        k >= 0 ==> cell_sum(n, held(board, confirmed, items, k, suffix)) == (k + suffix.len())
            * sum_sel(items, k, suffix, board.weigh(confirmed, false, None)),
        k < 0 ==> cell_sum(n, held(board, confirmed, items, k, suffix)) == 0,
    decreases items.len(),
{
    let all = board.weigh(confirmed, false, None);
    let h = held(board, confirmed, items, k, suffix);
    if k < 0 {
        lemma_cell_sum_zero(n, h);
    } else if items.len() == 0 {
        assert(items + suffix =~= suffix);
        if k == 0 {
            let v = all(suffix);
            assert forall|c: int| 0 <= c < n implies #[trigger] h(c) == if suffix.contains(
                c as usize,
            ) {
                v
            } else {
                0
            } by {}
            lemma_cell_sum_members(n, suffix, v, h);
        } else {
            lemma_cell_sum_zero(n, h);
            assert((k + suffix.len()) * 0 == 0) by (nonlinear_arith);
        }
    } else {
        let rest = items.drop_last();
        let x = items.last();
        let xs = seq![x] + suffix;
        let f = held(board, confirmed, rest, k, suffix);
        let g = held(board, confirmed, rest, k - 1, xs);
        assert(rest + xs =~= items + suffix);
        assert(increasing(rest + suffix)) by {
            assert forall|i: int, j: int| 0 <= i < j < (rest + suffix).len() implies (rest
                + suffix)[i] < (rest + suffix)[j] by {
                let full = items + suffix;
                let i2 = if i < rest.len() {
                    i
                } else {
                    i + 1
                };
                let j2 = if j < rest.len() {
                    j
                } else {
                    j + 1
                };
                assert(full[i2] < full[j2]);
            }
        }
        assert forall|i: int| 0 <= i < (rest + suffix).len() implies (rest + suffix)[i] < n by {
            let full = items + suffix;
            let i2 = if i < rest.len() {
                i
            } else {
                i + 1
            };
            assert(full[i2] < n);
        }
        lemma_held(board, confirmed, rest, k, suffix, n);
        lemma_held(board, confirmed, rest, k - 1, xs, n);
        assert forall|c: int| 0 <= c < n implies #[trigger] h(c) == f(c) + g(c) by {}
        lemma_cell_sum_add(n, f, g, h);
        let a = sum_sel(rest, k, suffix, all) as int;
        let b = sum_sel(rest, k - 1, xs, all) as int;
        let m = k + suffix.len();
        assert(xs.len() == suffix.len() + 1);
        if k >= 1 {
            assert(m * a + (k - 1 + xs.len()) * b == m * (a + b)) by (nonlinear_arith)
                requires
                    k - 1 + xs.len() == m,
            ;
        } else {
            assert(b == 0);
            assert(m * (a + 0) == m * a) by (nonlinear_arith);
        }
    }
}

impl Census {
    /// How often the cells below `n` hold a bomb, added up over all
    /// placements.
    pub open spec fn count_sum(self, n: int) -> nat {
        cell_sum(n, |c: int| self.count(c as usize))
    }
}

proof fn lemma_mass_below(census: Census, k: int)
    requires
        census.valid(),
    ensures
        cell_sum(census.board.size(), |c: int| census.count_below(k, c as usize))
            == census.mass_below(k),
    decreases k,
{
    let n = census.board.size();
    let h = |c: int| census.count_below(k, c as usize);
    if k <= 0 {
        lemma_cell_sum_zero(n, h);
    } else {
        let j = k - 1;
        let f = |c: int| census.count_below(j, c as usize);
        let g = |c: int| census.count_at(j, c as usize);
        let nil = Seq::<usize>::empty();
        let part = held(census.board, census.confirmed, census.touched, j, nil);
        let w = weight(census.spare, census.remaining, j);
        lemma_mass_below(census, j);
        assert(census.touched + nil =~= census.touched);
        lemma_held(census.board, census.confirmed, census.touched, j, nil, n);
        assert forall|c: int| 0 <= c < n implies #[trigger] g(c) == w * part(c) by {}
        lemma_cell_sum_scale(n, part, w, g);
        assert forall|c: int| 0 <= c < n implies #[trigger] h(c) == f(c) + g(c) by {}
        lemma_cell_sum_add(n, f, g, h);
        let a = census.board.level_total(census.confirmed, census.touched, j);
        assert(w * (j * a) == j * (w * a)) by (nonlinear_arith);
    }
}

/// The mass of a census is what its counts add up to: the bombs on
/// touched cells, added up over all placements, are the placements with a
/// bomb on a cell, added up over all cells.
pub proof fn lemma_mass_is_sum_of_counts(census: Census)
    requires
        census.valid(),
    ensures
        census.count_sum(census.board.size()) == census.mass(),
{
    let n = census.board.size();
    let k = census.touched.len() + 1 as int;
    lemma_mass_below(census, k);
    assert((|c: int| census.count(c as usize)) =~= (|c: int| census.count_below(k, c as usize)));
}

} // verus!
