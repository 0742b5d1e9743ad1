//! The census of the touched cells comes to the same as going through
//! every placement of all the bombs.
//!
//! The proof walks down the grid cell by cell. With the bombs on the
//! cells from `i` upwards fixed, the placements on the cells below `i`
//! are counted in two ways: one by one, and as a sum over the selections
//! of touched cells below `i`, each weighted by the number of ways to lay
//! the bombs that are left on the untouched cells below `i`. Taking the
//! cell `i - 1` away changes both counts alike, whatever kind of cell it
//! is.

use crate::binomial::{binomial, lemma_binomial_absorb};
use crate::board::{lemma_positions_where, positions_where, Board};
use crate::cell::Cell;
use crate::reference::lemma_admissible_agree;
use crate::selection::{
    drawn_from, lemma_sum_sel_beyond, lemma_sum_sel_equal, lemma_sum_sel_zero, sum_sel,
};
use crate::tally::{weight, Census};
use vstd::prelude::*;

verus! {

/// The touched cells below `i`.
spec fn touched_below(board: Board, i: int) -> Seq<usize> {
    positions_where(i, board.touched_at())
}

/// The confirmed bombs below `i`.
spec fn confirmed_below(board: Board, i: int) -> Seq<usize> {
    positions_where(i, board.confirmed_at())
}

/// The number of untouched cells below `i`.
spec fn spare_below(board: Board, i: int) -> nat {
    positions_where(i, board.untouched_at()).len()
}

/// A marked cell is a hidden cell of the grid.
spec fn mark_ok(board: Board, mark: Option<usize>) -> bool {
    mark matches Some(c) ==> c < board.size() && board.cells[c as int] is Hidden
}

/// The marked cell is an untouched cell below `i`: its bomb is then one
/// of those that lie on untouched cells.
spec fn picked(board: Board, mark: Option<usize>, i: int) -> bool {
    mark matches Some(c) && c < i && board.is_untouched(c as int)
}

/// One if the marked cell takes one of the bombs on untouched cells.
spec fn extra(board: Board, mark: Option<usize>, i: int) -> int {
    if picked(board, mark, i) {
        1
    } else {
        0
    }
}

/// The weight of a selection of touched cells below `i`.
spec fn inner(board: Board, mark: Option<usize>, i: int) -> spec_fn(Seq<usize>) -> nat {
    if picked(board, mark, i) {
        board.admits(None)
    } else {
        board.admits(mark)
    }
}

/// The placements of `k` bombs below `i` that put `j` of them on touched
/// cells, given the bombs `suffix` from `i` upwards.
spec fn term(board: Board, mark: Option<usize>, i: int, k: int, suffix: Seq<usize>, j: int) -> nat {
    binomial(
        (spare_below(board, i) - extra(board, mark, i)) as nat,
        k - extra(board, mark, i) - confirmed_below(board, i).len() - j,
    ) * sum_sel(touched_below(board, i), j, confirmed_below(board, i) + suffix, inner(board, mark, i))
}

/// The terms for fewer than `j_end` bombs on touched cells, added up.
spec fn spread(
    board: Board,
    mark: Option<usize>,
    i: int,
    k: int,
    suffix: Seq<usize>,
    j_end: int,
) -> nat
    decreases j_end,
{
    if j_end <= 0 {
        0
    } else {
        spread(board, mark, i, k, suffix, j_end - 1) + term(board, mark, i, k, suffix, j_end - 1)
    }
}

/// Every position of `suffix` is at least `i`.
spec fn above(suffix: Seq<usize>, i: int) -> bool {
    forall|n: int| 0 <= n < suffix.len() ==> suffix[n] >= i
}

/// Pascal's rule, for every `k`.
proof fn lemma_pascal(n: nat, k: int)
    ensures
        binomial(n + 1, k) == binomial(n, k - 1) + binomial(n, k),
{
}

/// A listed position satisfies the predicate and lies below the bound.
proof fn lemma_listed(n: int, pred: spec_fn(int) -> bool, s: Seq<usize>, idx: int)
    requires
        0 <= n <= usize::MAX,
        drawn_from(s, positions_where(n, pred)),
        0 <= idx < s.len(),
    ensures
        s[idx] < n,
        pred(s[idx] as int),
{
    lemma_positions_where(n, pred);
    assert(positions_where(n, pred).contains(s[idx]));
}

/// What stands in a concatenation stands in one of its parts.
proof fn lemma_concat_contains(a: Seq<usize>, b: Seq<usize>, y: usize)
    ensures
        (a + b).contains(y) <==> a.contains(y) || b.contains(y),
{
    let all = a + b;
    if all.contains(y) {
        let n = choose|n: int| 0 <= n < all.len() && all[n] == y;
        if n < a.len() {
            assert(a[n] == y);
        } else {
            assert(b[n - a.len()] == y);
        }
    }
    if a.contains(y) {
        let n = choose|n: int| 0 <= n < a.len() && a[n] == y;
        assert(all[n] == y);
    }
    if b.contains(y) {
        let n = choose|n: int| 0 <= n < b.len() && b[n] == y;
        assert(all[a.len() + n] == y);
    }
}

/// What stands in `s + (c + suffix)` stands in one of the three.
proof fn lemma_in_parts(s: Seq<usize>, c: Seq<usize>, suffix: Seq<usize>, y: usize)
    ensures
        (s + (c + suffix)).contains(y) <==> s.contains(y) || c.contains(y) || suffix.contains(y),
{
    lemma_concat_contains(s, c + suffix, y);
    lemma_concat_contains(c, suffix, y);
}

/// What stands in `[x] + suffix` is `x` or stands in `suffix`.
proof fn lemma_in_cons(x: usize, suffix: Seq<usize>, y: usize)
    ensures
        (seq![x] + suffix).contains(y) <==> y == x || suffix.contains(y),
{
    lemma_concat_contains(seq![x], suffix, y);
    assert(seq![x][0] == x);
}

/// With the bombs from `i` upwards given, no selection of touched cells
/// below `i - 1` and no confirmed bomb below `i - 1` is the cell `i - 1`.
proof fn lemma_absent(board: Board, i: int, s: Seq<usize>, suffix: Seq<usize>)
    requires
        board.shaped(),
        0 < i <= board.size(),
        drawn_from(s, touched_below(board, i - 1)),
        above(suffix, i),
    ensures
        !(s + (confirmed_below(board, i - 1) + suffix)).contains((i - 1) as usize),
{
    let x = (i - 1) as usize;
    lemma_in_parts(s, confirmed_below(board, i - 1), suffix, x);
    if s.contains(x) {
        let n = choose|n: int| 0 <= n < s.len() && s[n] == x;
        lemma_listed(i - 1, board.touched_at(), s, n);
    }
    lemma_positions_where(i - 1, board.confirmed_at());
    if suffix.contains(x) {
        let n = choose|n: int| 0 <= n < suffix.len() && suffix[n] == x;
    }
}

/// An untouched cell more or less makes no difference to a placement
/// being admissible, nor to its holding another cell.
proof fn lemma_untouched_apart(
    board: Board,
    i: int,
    s: Seq<usize>,
    suffix: Seq<usize>,
    mark: Option<usize>,
)
    requires
        board.shaped(),
        0 < i <= board.size(),
        board.is_untouched(i - 1),
        mark != Some((i - 1) as usize),
    ensures
        board.admits(mark)(s + (confirmed_below(board, i - 1) + (seq![(i - 1) as usize] + suffix)))
            == board.admits(mark)(s + (confirmed_below(board, i - 1) + suffix)),
{
    let x = (i - 1) as usize;
    let c = confirmed_below(board, i - 1);
    let p = s + (c + (seq![x] + suffix));
    let q = s + (c + suffix);
    assert forall|y: usize| p.contains(y) != q.contains(y) implies y >= board.size()
        || board.is_untouched(y as int) by {
        lemma_in_parts(s, c, seq![x] + suffix, y);
        lemma_in_parts(s, c, suffix, y);
        lemma_in_cons(x, suffix, y);
    }
    lemma_admissible_agree(board, p, q);
    if let Some(m) = mark {
        lemma_in_parts(s, c, seq![x] + suffix, m);
        lemma_in_parts(s, c, suffix, m);
        lemma_in_cons(x, suffix, m);
    }
}

/// A clue at `i - 1`: no placement puts a bomb on it, and the lists of
/// touched, confirmed and untouched cells stay as they are.
proof fn lemma_term_clue(
    board: Board,
    mark: Option<usize>,
    i: int,
    k: int,
    suffix: Seq<usize>,
    j: int,
)
    requires
        board.shaped(),
        0 < i <= board.size(),
        board.cells[i - 1] is Clue,
    ensures
        term(board, mark, i, k, suffix, j) == term(board, mark, i - 1, k, suffix, j),
        term(board, mark, i - 1, k - 1, seq![(i - 1) as usize] + suffix, j) == 0,
{
    let x = (i - 1) as usize;
    let xs = seq![x] + suffix;
    let w = inner(board, mark, i - 1);
    let z = confirmed_below(board, i - 1) + xs;
    assert forall|s: Seq<usize>| #[trigger] drawn_from(s, touched_below(board, i - 1)) implies w(s + z)
        == 0 by {
        lemma_in_parts(s, confirmed_below(board, i - 1), xs, x);
        lemma_in_cons(x, suffix, x);
        assert((s + z).contains((i - 1) as usize));
        assert(!board.clue_free(s + z));
    }
    lemma_sum_sel_zero(touched_below(board, i - 1), j, z, w);
    let b = binomial(
        (spare_below(board, i - 1) - extra(board, mark, i - 1)) as nat,
        k - 1 - extra(board, mark, i - 1) - confirmed_below(board, i - 1).len() - j,
    );
    assert(b * 0 == 0) by (nonlinear_arith);
}

/// A confirmed bomb at `i - 1`: every placement puts a bomb on it.
proof fn lemma_term_confirmed(
    board: Board,
    mark: Option<usize>,
    i: int,
    k: int,
    suffix: Seq<usize>,
    j: int,
)
    requires
        board.shaped(),
        0 < i <= board.size(),
        board.is_confirmed(i - 1),
        above(suffix, i),
    ensures
        term(board, mark, i - 1, k, suffix, j) == 0,
        term(board, mark, i, k, suffix, j) == term(
            board,
            mark,
            i - 1,
            k - 1,
            seq![(i - 1) as usize] + suffix,
            j,
        ),
{
    let x = (i - 1) as usize;
    let xs = seq![x] + suffix;
    let w = inner(board, mark, i - 1);
    let c = confirmed_below(board, i - 1);
    assert forall|s: Seq<usize>| #[trigger] drawn_from(s, touched_below(board, i - 1)) implies w(
        s + (c + suffix),
    ) == 0 by {
        lemma_absent(board, i, s, suffix);
        assert(!board.cell_met(s + (c + suffix), i - 1));
    }
    lemma_sum_sel_zero(touched_below(board, i - 1), j, c + suffix, w);
    let b = binomial(
        (spare_below(board, i - 1) - extra(board, mark, i - 1)) as nat,
        k - extra(board, mark, i - 1) - c.len() - j,
    );
    assert(b * 0 == 0) by (nonlinear_arith);
    assert(confirmed_below(board, i) == c.push(x));
    assert(confirmed_below(board, i) + suffix =~= c + xs);
    assert(touched_below(board, i) == touched_below(board, i - 1));
    assert(spare_below(board, i) == spare_below(board, i - 1));
}

/// A touched cell at `i - 1`: a selection of touched cells holds it or
/// does not.
proof fn lemma_term_touched(
    board: Board,
    mark: Option<usize>,
    i: int,
    k: int,
    suffix: Seq<usize>,
    j: int,
)
    requires
        board.shaped(),
        0 < i <= board.size(),
        board.is_touched(i - 1),
        0 <= j,
    ensures
        term(board, mark, i, k, suffix, j) == term(board, mark, i - 1, k, suffix, j) + term(
            board,
            mark,
            i - 1,
            k - 1,
            seq![(i - 1) as usize] + suffix,
            j - 1,
        ),
{
    let x = (i - 1) as usize;
    let xs = seq![x] + suffix;
    let w = inner(board, mark, i);
    let c = confirmed_below(board, i - 1);
    let t = touched_below(board, i - 1);
    assert(touched_below(board, i) == t.push(x));
    assert(touched_below(board, i).drop_last() =~= t);
    assert(confirmed_below(board, i) == c);
    assert(spare_below(board, i) == spare_below(board, i - 1));
    assert(inner(board, mark, i - 1) == w);
    let a0 = sum_sel(t, j, c + suffix, w);
    let a1 = sum_sel(t, j - 1, seq![x] + (c + suffix), w);
    let a2 = sum_sel(t, j - 1, c + xs, w);
    assert(sum_sel(touched_below(board, i), j, c + suffix, w) == a0 + a1);
    assert forall|s: Seq<usize>| #[trigger] drawn_from(s, t) implies w(
        s + (seq![x] + (c + suffix)),
    ) == w(s + (c + xs)) by {
        let p = s + (seq![x] + (c + suffix));
        let q = s + (c + xs);
        assert forall|y: usize| p.contains(y) == q.contains(y) by {
            lemma_in_parts(s, seq![x], c + suffix, y);
            lemma_concat_contains(c, suffix, y);
            lemma_in_parts(s, c, xs, y);
            lemma_in_cons(x, suffix, y);
            assert(seq![x][0] == x);
        }
        lemma_admissible_agree(board, p, q);
    }
    lemma_sum_sel_equal(t, j - 1, seq![x] + (c + suffix), w, c + xs, w);
    let e = extra(board, mark, i);
    let b = binomial((spare_below(board, i) - e) as nat, k - e - c.len() - j);
    assert(b * (a0 + a2) == b * a0 + b * a2) by (nonlinear_arith);
}

/// An untouched cell at `i - 1` that is not marked: it holds a bomb or
/// not, and the clues do not care.
proof fn lemma_term_untouched(
    board: Board,
    mark: Option<usize>,
    i: int,
    k: int,
    suffix: Seq<usize>,
    j: int,
)
    requires
        board.shaped(),
        0 < i <= board.size(),
        board.is_untouched(i - 1),
        mark != Some((i - 1) as usize),
    ensures
        term(board, mark, i, k, suffix, j) == term(board, mark, i - 1, k, suffix, j) + term(
            board,
            mark,
            i - 1,
            k - 1,
            seq![(i - 1) as usize] + suffix,
            j,
        ),
{
    let x = (i - 1) as usize;
    let xs = seq![x] + suffix;
    let w = inner(board, mark, i);
    let c = confirmed_below(board, i - 1);
    let t = touched_below(board, i - 1);
    let e = extra(board, mark, i);
    let u = spare_below(board, i - 1);
    assert(touched_below(board, i) == t);
    assert(confirmed_below(board, i) == c);
    assert(spare_below(board, i) == u + 1);
    assert(inner(board, mark, i - 1) == w);
    assert(extra(board, mark, i - 1) == e);
    if e == 1 {
        let m = mark->0;
        lemma_positions_where(i - 1, board.untouched_at());
        assert(positions_where(i - 1, board.untouched_at()).contains(m));
        assert(u >= 1);
    }
    let inner_mark = if picked(board, mark, i) {
        None
    } else {
        mark
    };
    assert(w == board.admits(inner_mark));
    assert forall|s: Seq<usize>| #[trigger] drawn_from(s, t) implies w(s + (c + xs)) == w(
        s + (c + suffix),
    ) by {
        lemma_untouched_apart(board, i, s, suffix, inner_mark);
    }
    lemma_sum_sel_equal(t, j, c + xs, w, c + suffix, w);
    let a = sum_sel(t, j, c + suffix, w);
    let m = k - e - c.len() - j;
    lemma_pascal((u - e) as nat, m);
    let b0 = binomial((u - e) as nat, m);
    let b1 = binomial((u - e) as nat, m - 1);
    assert((b0 + b1) * a == b0 * a + b1 * a) by (nonlinear_arith);
}

/// The marked cell at `i - 1`, untouched: only placements with a bomb on
/// it count, and that bomb is one of those on untouched cells.
proof fn lemma_term_marked(board: Board, i: int, k: int, suffix: Seq<usize>, j: int)
    requires
        board.shaped(),
        0 < i <= board.size(),
        board.is_untouched(i - 1),
        above(suffix, i),
    ensures
        term(board, Some((i - 1) as usize), i - 1, k, suffix, j) == 0,
        term(board, Some((i - 1) as usize), i, k, suffix, j) == term(
            board,
            Some((i - 1) as usize),
            i - 1,
            k - 1,
            seq![(i - 1) as usize] + suffix,
            j,
        ),
{
    let x = (i - 1) as usize;
    let mark = Some(x);
    let xs = seq![x] + suffix;
    let c = confirmed_below(board, i - 1);
    let t = touched_below(board, i - 1);
    let u = spare_below(board, i - 1);
    let marked = board.admits(mark);
    let plain = board.admits(None);
    assert(touched_below(board, i) == t);
    assert(confirmed_below(board, i) == c);
    assert(spare_below(board, i) == u + 1);
    assert(inner(board, mark, i - 1) == marked);
    assert(inner(board, mark, i) == plain);
    assert forall|s: Seq<usize>| #[trigger] drawn_from(s, t) implies marked(s + (c + suffix))
        == 0 by {
        lemma_absent(board, i, s, suffix);
    }
    lemma_sum_sel_zero(t, j, c + suffix, marked);
    let b = binomial(u, k - c.len() - j);
    assert(b * 0 == 0) by (nonlinear_arith);
    assert forall|s: Seq<usize>| #[trigger] drawn_from(s, t) implies plain(s + (c + suffix))
        == marked(s + (c + xs)) by {
        lemma_untouched_apart(board, i, s, suffix, None);
        lemma_in_parts(s, c, xs, x);
        lemma_in_cons(x, suffix, x);
    }
    lemma_sum_sel_equal(t, j, c + suffix, plain, c + xs, marked);
}

/// One if the cell `i - 1` is touched: it then takes one of the bombs
/// that lie on touched cells.
spec fn shift(board: Board, i: int) -> int {
    if board.is_touched(i - 1) {
        1
    } else {
        0
    }
}

/// A selection cannot hold a negative number of cells.
proof fn lemma_term_negative(
    board: Board,
    mark: Option<usize>,
    i: int,
    k: int,
    suffix: Seq<usize>,
    j: int,
)
    requires
        j < 0,
    ensures
        term(board, mark, i, k, suffix, j) == 0,
{
    let e = extra(board, mark, i);
    let b = binomial((spare_below(board, i) - e) as nat, k - e - confirmed_below(board, i).len() - j);
    assert(b * 0 == 0) by (nonlinear_arith);
}

/// A selection cannot hold more cells than there are touched cells.
proof fn lemma_term_beyond(
    board: Board,
    mark: Option<usize>,
    i: int,
    k: int,
    suffix: Seq<usize>,
    j: int,
)
    requires
        0 <= i <= board.size(),
        board.shaped(),
        j > i,
    ensures
        term(board, mark, i, k, suffix, j) == 0,
{
    lemma_positions_where(i, board.touched_at());
    lemma_sum_sel_beyond(touched_below(board, i), j, confirmed_below(board, i) + suffix, inner(board, mark, i));
    let e = extra(board, mark, i);
    let b = binomial((spare_below(board, i) - e) as nat, k - e - confirmed_below(board, i).len() - j);
    assert(b * 0 == 0) by (nonlinear_arith);
}

/// Taking the cell `i - 1` away: it holds a bomb or it does not.
proof fn lemma_term_step(
    board: Board,
    mark: Option<usize>,
    i: int,
    k: int,
    suffix: Seq<usize>,
    j: int,
)
    requires
        board.shaped(),
        0 < i <= board.size(),
        mark_ok(board, mark),
        above(suffix, i),
        0 <= j,
    ensures
        term(board, mark, i, k, suffix, j) == term(board, mark, i - 1, k, suffix, j) + term(
            board,
            mark,
            i - 1,
            k - 1,
            seq![(i - 1) as usize] + suffix,
            j - shift(board, i),
        ),
{
    match board.cells[i - 1] {
        Cell::Clue(_) => {
            lemma_term_clue(board, mark, i, k, suffix, j);
        },
        Cell::Bomb | Cell::Suspect => {
            lemma_term_confirmed(board, mark, i, k, suffix, j);
        },
        Cell::Hidden(_) => {
            if board.near_clue(i - 1) {
                lemma_term_touched(board, mark, i, k, suffix, j);
            } else if mark == Some((i - 1) as usize) {
                lemma_term_marked(board, i, k, suffix, j);
            } else {
                lemma_term_untouched(board, mark, i, k, suffix, j);
            }
        },
    }
}

proof fn lemma_spread_step(
    board: Board,
    mark: Option<usize>,
    i: int,
    k: int,
    suffix: Seq<usize>,
    j_end: int,
)
    requires
        board.shaped(),
        0 < i <= board.size(),
        mark_ok(board, mark),
        above(suffix, i),
    ensures
        spread(board, mark, i, k, suffix, j_end) == spread(board, mark, i - 1, k, suffix, j_end)
            + spread(
            board,
            mark,
            i - 1,
            k - 1,
            seq![(i - 1) as usize] + suffix,
            j_end - shift(board, i),
        ),
    decreases j_end,
{
    if j_end > 0 {
        let xs = seq![(i - 1) as usize] + suffix;
        lemma_spread_step(board, mark, i, k, suffix, j_end - 1);
        lemma_term_step(board, mark, i, k, suffix, j_end - 1);
        if j_end - shift(board, i) <= 0 {
            lemma_term_negative(board, mark, i - 1, k - 1, xs, j_end - 1 - shift(board, i));
        }
    }
}

/// Counting the placements below `i` one by one comes to the same as
/// counting them by their selections of touched cells.
proof fn lemma_spread(board: Board, mark: Option<usize>, i: int, k: int, suffix: Seq<usize>)
    requires
        board.shaped(),
        0 <= i <= board.size(),
        mark_ok(board, mark),
        above(suffix, i),
    ensures
        sum_sel(Board::cells_below(i), k, suffix, board.admits(mark)) == spread(
            board,
            mark,
            i,
            k,
            suffix,
            i + 1,
        ),
    decreases i,
{
    let w = board.admits(mark);
    if i == 0 {
        let nil = Seq::<usize>::empty();
        assert(spread(board, mark, 0, k, suffix, 0) == 0);
        assert(nil + suffix =~= suffix);
        assert(confirmed_below(board, 0) =~= nil);
        assert(inner(board, mark, 0) == w);
        let b = binomial(0, k);
        let v = w(suffix);
        assert(b * v == if k == 0 { v } else { 0 }) by (nonlinear_arith)
            requires
                b == if k == 0 { 1nat } else { 0nat },
        ;
        assert(sum_sel(touched_below(board, 0), 0, confirmed_below(board, 0) + suffix, w) == v);
    } else {
        let x = (i - 1) as usize;
        let xs = seq![x] + suffix;
        let below = Board::cells_below(i - 1);
        assert(Board::cells_below(i) == below.push(x));
        assert(Board::cells_below(i).drop_last() =~= below);
        assert(above(xs, i - 1)) by {
            assert forall|n: int| 0 <= n < xs.len() implies xs[n] >= i - 1 by {
                if n > 0 {
                    assert(xs[n] == suffix[n - 1]);
                }
            }
        }
        lemma_spread(board, mark, i - 1, k, suffix);
        lemma_spread(board, mark, i - 1, k - 1, xs);
        if k < 0 {
            assert(sum_sel(below, k, suffix, w) == 0);
            assert(sum_sel(below, k - 1, xs, w) == 0);
        }
        lemma_spread_step(board, mark, i, k, suffix, i + 1);
        lemma_term_beyond(board, mark, i - 1, k, suffix, i);
        if shift(board, i) == 0 {
            lemma_term_beyond(board, mark, i - 1, k - 1, xs, i);
        }
    }
}

/// Touched cells and confirmed bombs are no clues: with the confirmed
/// bombs, a selection of touched cells is admissible as soon as it
/// agrees with the grid.
proof fn lemma_selection_admissible(board: Board, s: Seq<usize>)
    requires
        board.shaped(),
        drawn_from(s, board.touched()),
    ensures
        board.admissible(s + (board.confirmed() + Seq::<usize>::empty())) == board.consistent(
            board.confirmed() + (s + Seq::<usize>::empty()),
        ),
        forall|y: usize|
            (s + (board.confirmed() + Seq::<usize>::empty())).contains(y) <==> s.contains(y)
                || board.confirmed().contains(y),
{
    let nil = Seq::<usize>::empty();
    let c = board.confirmed();
    let p = s + (c + nil);
    let q = c + (s + nil);
    let n = board.size();
    lemma_positions_where(n, board.touched_at());
    lemma_positions_where(n, board.confirmed_at());
    assert forall|y: usize| p.contains(y) <==> s.contains(y) || c.contains(y) by {
        lemma_in_parts(s, c, nil, y);
    }
    assert forall|y: usize| p.contains(y) == q.contains(y) by {
        lemma_in_parts(c, s, nil, y);
    }
    lemma_admissible_agree(board, p, q);
    assert forall|k: int| 0 <= k < n && board.cells[k] is Clue implies !#[trigger] q.contains(
        k as usize,
    ) by {
        if s.contains(k as usize) {
            let idx = choose|idx: int| 0 <= idx < s.len() && s[idx] == k as usize;
            assert(board.touched().contains(s[idx]));
        }
    }
}

/// With nothing marked, the terms are those of the census.
proof fn lemma_term_total(board: Board, j: int)
    requires
        board.shaped(),
    ensures
        term(board, None, board.size(), board.bombs, Seq::empty(), j) == board.census().total_at(j),
{
    let nil = Seq::<usize>::empty();
    let c = board.confirmed();
    let t = board.touched();
    let plain = board.admits(None);
    let fits = board.fits(c);
    assert forall|s: Seq<usize>| #[trigger] drawn_from(s, t) implies plain(s + (c + nil)) == fits(
        s + nil,
    ) by {
        lemma_selection_admissible(board, s);
    }
    lemma_sum_sel_equal(t, j, c + nil, plain, nil, fits);
}

/// With a touched cell marked, the terms are those of the census for
/// that cell.
proof fn lemma_term_count(board: Board, cell: usize, j: int)
    requires
        board.shaped(),
        cell < board.size(),
        board.is_touched(cell as int),
    ensures
        term(board, Some(cell), board.size(), board.bombs, Seq::empty(), j)
            == board.census().count_at(j, cell),
{
    let nil = Seq::<usize>::empty();
    let c = board.confirmed();
    let t = board.touched();
    let marked = board.admits(Some(cell));
    let fits = board.fits_with(c, cell);
    lemma_positions_where(board.size(), board.confirmed_at());
    assert forall|s: Seq<usize>| #[trigger] drawn_from(s, t) implies marked(s + (c + nil))
        == fits(s + nil) by {
        lemma_selection_admissible(board, s);
        assert((s + nil) =~= s);
        assert(!c.contains(cell));
    }
    lemma_sum_sel_equal(t, j, c + nil, marked, nil, fits);
}

/// With an untouched cell marked, the terms count the placements in
/// which that cell takes one of the bombs left for the untouched cells.
proof fn lemma_term_spare(board: Board, cell: usize, j: int)
    requires
        board.shaped(),
        cell < board.size(),
        board.is_untouched(cell as int),
        0 <= j,
    ensures
        board.census().spare * term(board, Some(cell), board.size(), board.bombs, Seq::empty(), j)
            + j * board.census().total_at(j) == board.census().remaining
            * board.census().total_at(j),
{
    let nil = Seq::<usize>::empty();
    let census = board.census();
    let c = board.confirmed();
    let t = board.touched();
    let u = census.spare;
    let r = census.remaining;
    let plain = board.admits(None);
    let fits = board.fits(c);
    lemma_positions_where(board.size(), board.untouched_at());
    assert(board.untouched().contains(cell));
    assert(u >= 1);
    assert forall|s: Seq<usize>| #[trigger] drawn_from(s, t) implies plain(s + (c + nil)) == fits(
        s + nil,
    ) by {
        lemma_selection_admissible(board, s);
    }
    lemma_sum_sel_equal(t, j, c + nil, plain, nil, fits);
    let a = board.level_total(c, t, j);
    let low = binomial((u - 1) as nat, r - 1 - j);
    let full = binomial(u, r - j);
    assert(term(board, Some(cell), board.size(), board.bombs, nil, j) == low * a);
    assert(census.total_at(j) == full * a);
    if r - 1 - j >= 0 {
        lemma_binomial_absorb(u, r - 1 - j);
        assert(binomial(u, (r - 1 - j) + 1) == full);
        assert(((r - 1 - j) + 1) * full == (r - j) * full);
    } else {
        assert(low == 0);
        assert(u * 0 == 0) by (nonlinear_arith);
        if r - j == 0 {
            assert((r - j) * full == 0) by (nonlinear_arith)
                requires
                    r - j == 0,
            ;
        } else {
            assert(full == 0);
            assert((r - j) * 0 == 0) by (nonlinear_arith);
        }
    }
    assert(u * low == (r - j) * full);
    assert(u * (low * a) + j * (full * a) == r * (full * a)) by (nonlinear_arith)
        requires
            u * low == (r - j) * full,
    ;
}

/// Beyond the number of touched cells the census counts nothing more.
proof fn lemma_census_beyond(census: Census, j_end: int)
    requires
        j_end > census.touched.len(),
    ensures
        census.total_below(j_end) == census.total(),
        census.mass_below(j_end) == census.mass(),
    decreases j_end,
{
    if j_end > census.touched.len() + 1 {
        lemma_census_beyond(census, j_end - 1);
        let j = j_end - 1;
        lemma_sum_sel_beyond(census.touched, j, Seq::empty(), census.board.fits(census.confirmed));
        let w = weight(census.spare, census.remaining, j);
        assert(w * 0 == 0) by (nonlinear_arith);
        assert(j * 0 == 0) by (nonlinear_arith);
    }
}

/// As [`lemma_census_beyond`], for the count of one cell.
proof fn lemma_census_count_beyond(census: Census, cell: usize, j_end: int)
    requires
        j_end > census.touched.len(),
    ensures
        census.count_below(j_end, cell) == census.count(cell),
    decreases j_end,
{
    if j_end > census.touched.len() + 1 {
        lemma_census_count_beyond(census, cell, j_end - 1);
        let j = j_end - 1;
        lemma_sum_sel_beyond(
            census.touched,
            j,
            Seq::empty(),
            census.board.fits_with(census.confirmed, cell),
        );
        let w = weight(census.spare, census.remaining, j);
        assert(w * 0 == 0) by (nonlinear_arith);
    }
}

proof fn lemma_spread_total(board: Board, j_end: int)
    requires
        board.shaped(),
    ensures
        spread(board, None, board.size(), board.bombs, Seq::empty(), j_end)
            == board.census().total_below(j_end),
    decreases j_end,
{
    if j_end > 0 {
        lemma_spread_total(board, j_end - 1);
        lemma_term_total(board, j_end - 1);
    }
}

proof fn lemma_spread_count(board: Board, cell: usize, j_end: int)
    requires
        board.shaped(),
        cell < board.size(),
        board.is_touched(cell as int),
    ensures
        spread(board, Some(cell), board.size(), board.bombs, Seq::empty(), j_end)
            == board.census().count_below(j_end, cell),
    decreases j_end,
{
    if j_end > 0 {
        lemma_spread_count(board, cell, j_end - 1);
        lemma_term_count(board, cell, j_end - 1);
    }
}

proof fn lemma_spread_spare(board: Board, cell: usize, j_end: int)
    requires
        board.shaped(),
        cell < board.size(),
        board.is_untouched(cell as int),
    ensures
        board.census().spare * spread(
            board,
            Some(cell),
            board.size(),
            board.bombs,
            Seq::empty(),
            j_end,
        ) + board.census().mass_below(j_end) == board.census().remaining
            * board.census().total_below(j_end),
    decreases j_end,
{
    let census = board.census();
    let u = census.spare as int;
    let r = census.remaining;
    if j_end > 0 {
        let j = j_end - 1;
        lemma_spread_spare(board, cell, j);
        lemma_term_spare(board, cell, j);
        let s0 = spread(board, Some(cell), board.size(), board.bombs, Seq::empty(), j) as int;
        let t0 = term(board, Some(cell), board.size(), board.bombs, Seq::empty(), j) as int;
        let a0 = census.total_below(j) as int;
        let a1 = census.total_at(j) as int;
        assert(u * (s0 + t0) == u * s0 + u * t0 && r * (a0 + a1) == r * a0 + r * a1)
            by (nonlinear_arith);
    } else {
        assert(u * 0 == 0 && r * 0 == 0) by (nonlinear_arith);
    }
}

/// The census counts exactly the admissible placements of all the bombs.
pub proof fn lemma_census_counts_placements(board: Board)
    requires
        board.shaped(),
    ensures
        board.census().total() == board.reference_total(),
{
    let n = board.size();
    lemma_positions_where(n, board.touched_at());
    lemma_spread(board, None, n, board.bombs, Seq::empty());
    lemma_spread_total(board, n + 1);
    lemma_census_beyond(board.census(), n + 1);
}

/// The estimate of every hidden cell is the share of the admissible
/// placements that put a bomb on it: counting by selections of touched
/// cells with binomial weights, and going through every placement of all
/// the bombs, give the same fraction.
pub proof fn lemma_estimate_is_share(board: Board, pos: int)
    requires
        board.shaped(),
        0 <= pos < board.size(),
        board.cells[pos] is Hidden,
    ensures
        board.odds(pos) * board.reference_total() == board.scale() * board.reference_count(
            pos as usize,
        ),
{
    let n = board.size();
    let census = board.census();
    let cell = pos as usize;
    let nil = Seq::<usize>::empty();
    let total = census.total() as int;
    let rc = board.reference_count(cell) as int;
    let f = board.factor() as int;
    lemma_census_counts_placements(board);
    lemma_positions_where(n, board.touched_at());
    lemma_spread(board, Some(cell), n, board.bombs, nil);
    if board.near_clue(pos) {
        lemma_spread_count(board, cell, n + 1);
        lemma_census_count_beyond(census, cell, n + 1);
        assert(rc == census.count(cell));
        assert((f * rc) * total == (f * total) * rc) by (nonlinear_arith);
    } else {
        lemma_spread_spare(board, cell, n + 1);
        lemma_census_beyond(census, n + 1);
        lemma_positions_where(n, board.untouched_at());
        assert(board.untouched().contains(cell));
        let u = census.spare as int;
        let odds = board.odds(pos);
        assert(u == f);
        assert(u * rc == odds);
        assert(odds * total == (u * total) * rc) by (nonlinear_arith)
            requires
                u * rc == odds,
        ;
    }
}

} // verus!
