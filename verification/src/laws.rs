//! What holds of every field, stated over the model of the grid.

use crate::board::{lemma_coordinates, lemma_index, positions_where, Board};
use crate::selection::increasing;
use crate::cell::Cell;
use crate::crosscheck::lemma_estimate_is_share;
use crate::field::Field;
use crate::solve::{share, share_sum};
use vstd::prelude::*;

verus! {

/// The numerators of the estimates of all hidden cells, added up.
pub open spec fn hidden_sum(cells: Seq<Cell>) -> nat
    decreases cells.len(),
{
    if cells.len() == 0 {
        0
    } else {
        hidden_sum(cells.drop_last()) + match cells.last() {
            Cell::Hidden(p) => p.num as nat,
            _ => 0nat,
        }
    }
}

proof fn lemma_share_split(board: Board, scale: nat, n: int)
    requires
        0 <= n <= board.size(),
    ensures
        share_sum(board.cells.take(n), scale) == hidden_sum(board.cells.take(n)) + positions_where(
            n,
            board.confirmed_at(),
        ).len() * scale,
    decreases n,
{
    if n > 0 {
        lemma_share_split(board, scale, n - 1);
        assert(board.cells.take(n).drop_last() =~= board.cells.take(n - 1));
        assert(board.cells.take(n).last() == board.cells[n - 1]);
        let c = positions_where(n - 1, board.confirmed_at()).len() as int;
        assert((c + 1) * scale == c * scale + scale) by (nonlinear_arith);
    } else {
        assert(0 * scale == 0) by (nonlinear_arith);
    }
}

proof fn lemma_hidden_sum_zero(cells: Seq<Cell>, pos: int)
    requires
        hidden_sum(cells) == 0,
        0 <= pos < cells.len(),
    ensures
        cells[pos] matches Cell::Hidden(p) ==> p.num == 0,
    decreases cells.len(),
{
    if pos < cells.len() - 1 {
        lemma_hidden_sum_zero(cells.drop_last(), pos);
    }
}

/// The estimates of the hidden cells add up to the number of bombs that
/// are not confirmed: with `scale` as their common denominator, the
/// numerators add up to `scale` times that number. In particular no more
/// bombs are confirmed than the grid holds.
pub proof fn lemma_estimates_add_up(board: Board, scale: nat)
    requires
        board.shaped(),
        board.settled(scale),
    ensures
        board.confirmed().len() <= board.bombs,
        hidden_sum(board.cells) == (board.bombs - board.confirmed().len()) * scale,
{
    let n = board.size();
    let c = board.confirmed().len() as int;
    let b = board.bombs;
    let h = hidden_sum(board.cells) as int;
    lemma_share_split(board, scale, n);
    assert(board.cells.take(n) =~= board.cells);
    assert(h + c * scale == b * scale);
    assert(c <= b && h == (b - c) * scale) by (nonlinear_arith)
        requires
            h + c * scale == b * scale,
            h >= 0,
            scale > 0,
    ;
}

/// Once as many bombs are confirmed as the grid holds, every cell that is
/// still hidden has the estimate zero.
pub proof fn lemma_all_bombs_found(board: Board, scale: nat, pos: int)
    requires
        board.shaped(),
        board.settled(scale),
        board.confirmed().len() == board.bombs,
        0 <= pos < board.size(),
    ensures
        board.cells[pos] matches Cell::Hidden(p) ==> p.num == 0,
{
    lemma_estimates_add_up(board, scale);
    assert(0 * scale == 0) by (nonlinear_arith);
    lemma_hidden_sum_zero(board.cells, pos);
}

/// In every field the estimate of a hidden cell is the share of the
/// admissible placements that put a bomb on it, and a suspect is a cell
/// on which all of them put a bomb. The placements are those that agree
/// with what the player has described: going through every placement of
/// all the bombs gives what the field holds.
pub proof fn lemma_field_agrees_with_reference(field: Field, pos: int)
    requires
        field.wf(),
        0 <= pos < field@.size(),
    ensures
        field@.cells[pos] matches Cell::Hidden(p) ==> p.num
            * field@.revealed().reference_total() == p.den * field@.revealed().reference_count(
            pos as usize,
        ),
        field@.cells[pos] is Suspect ==> field@.revealed().reference_count(pos as usize)
            == field@.revealed().reference_total(),
{
    let described = field@.revealed();
    let now = field@.cells[pos];
    assert(now == described.resolved_cell(pos));
    if now is Hidden || now is Suspect {
        assert(described.cells[pos] is Hidden);
        lemma_estimate_is_share(described, pos);
        let total = described.reference_total() as int;
        let count = described.reference_count(pos as usize) as int;
        let scale = described.scale() as int;
        if now is Suspect {
            assert(count == total) by (nonlinear_arith)
                requires
                    scale * total == scale * count,
                    scale > 0,
            ;
        }
    }
}

/// The cell `q` is one step from `pos` in a direction below `d`.
spec fn reached(board: Board, pos: int, q: int, d: int) -> bool {
    exists|e: int| 0 <= e < d && #[trigger] board.step(pos, e) == Some(q)
}

/// A step leads to a cell of the grid that touches the cell it starts
/// from.
proof fn lemma_step_adjacent(board: Board, pos: int, e: int, q: int)
    requires
        board.shaped(),
        0 <= pos < board.size(),
        0 <= e < 9,
        board.step(pos, e) == Some(q),
    ensures
        board.adjacent(pos, q),
        q % board.width == pos % board.width + e % 3 - 1,
        q / board.width == pos / board.width + e / 3 - 1,
{
    let w = board.width;
    lemma_coordinates(w, board.height, pos);
    lemma_index(w, board.height, pos % w + e % 3 - 1, pos / w + e / 3 - 1);
}

/// Later directions lead to later cells.
proof fn lemma_step_order(board: Board, pos: int, e1: int, e2: int, a: int, b: int)
    requires
        board.shaped(),
        0 <= pos < board.size(),
        0 <= e1 < e2 < 9,
        board.step(pos, e1) == Some(a),
        board.step(pos, e2) == Some(b),
    ensures
        a < b,
{
    let w = board.width;
    lemma_step_adjacent(board, pos, e1, a);
    lemma_step_adjacent(board, pos, e2, b);
    lemma_coordinates(w, board.height, a);
    lemma_coordinates(w, board.height, b);
    let (ya, xa) = (a / w, a % w);
    let (yb, xb) = (b / w, b % w);
    if ya < yb {
        assert(ya * w + xa < yb * w + xb) by (nonlinear_arith)
            requires
                ya + 1 <= yb,
                0 <= xa < w,
                0 <= xb,
        ;
    }
}

proof fn lemma_neighbors_upto(board: Board, pos: int, d: int)
    requires
        board.shaped(),
        0 <= pos < board.size(),
        0 <= d <= 9,
    ensures
        increasing(board.neighbors_upto(pos, d)),
        forall|q: usize| #[trigger]
            board.neighbors_upto(pos, d).contains(q) <==> reached(board, pos, q as int, d),
    decreases d,
{
    let now = board.neighbors_upto(pos, d);
    if d > 0 {
        let before = board.neighbors_upto(pos, d - 1);
        lemma_neighbors_upto(board, pos, d - 1);
        match board.step(pos, d - 1) {
            Some(q) => {
                lemma_step_adjacent(board, pos, d - 1, q);
                assert(now == before.push(q as usize));
                assert forall|i: int, j: int| 0 <= i < j < now.len() implies now[i] < now[j] by {
                    if j == before.len() {
                        assert(before.contains(before[i]));
                        let e = choose|e: int|
                            0 <= e < d - 1 && #[trigger] board.step(pos, e) == Some(
                                before[i] as int,
                            );
                        lemma_step_order(board, pos, e, d - 1, before[i] as int, q);
                    }
                }
                assert forall|c: usize| #[trigger] now.contains(c) <==> reached(
                    board,
                    pos,
                    c as int,
                    d,
                ) by {
                    if now.contains(c) {
                        let i = choose|i: int| 0 <= i < now.len() && now[i] == c;
                        if i < before.len() {
                            assert(before.contains(before[i]));
                            let e = choose|e: int|
                                0 <= e < d - 1 && #[trigger] board.step(pos, e) == Some(c as int);
                            assert(board.step(pos, e) == Some(c as int));
                        } else {
                            assert(board.step(pos, d - 1) == Some(c as int));
                        }
                    }
                    if reached(board, pos, c as int, d) {
                        let e = choose|e: int|
                            0 <= e < d && #[trigger] board.step(pos, e) == Some(c as int);
                        if e < d - 1 {
                            assert(reached(board, pos, c as int, d - 1));
                            assert(before.contains(c));
                            let i = choose|i: int| 0 <= i < before.len() && before[i] == c;
                            assert(now[i] == c);
                        } else {
                            assert(now[before.len() as int] == c);
                        }
                    }
                }
            },
            None => {
                assert(now == before);
                assert forall|c: usize| #[trigger] now.contains(c) <==> reached(
                    board,
                    pos,
                    c as int,
                    d,
                ) by {
                    if now.contains(c) {
                        let e = choose|e: int|
                            0 <= e < d - 1 && #[trigger] board.step(pos, e) == Some(c as int);
                        assert(board.step(pos, e) == Some(c as int));
                    }
                    if reached(board, pos, c as int, d) {
                        let e = choose|e: int|
                            0 <= e < d && #[trigger] board.step(pos, e) == Some(c as int);
                        assert(e < d - 1);
                        assert(reached(board, pos, c as int, d - 1));
                        assert(before.contains(c));
                    }
                }
            },
        }
    }
}

/// The neighbours of a cell are the cells that touch it, each once, in
/// ascending order.
pub proof fn lemma_neighbors_touch(board: Board, pos: int)
    requires
        board.shaped(),
        0 <= pos < board.size(),
    ensures
        increasing(board.neighbors(pos)),
        forall|q: usize| #[trigger]
            board.neighbors(pos).contains(q) <==> board.adjacent(pos, q as int),
{
    let w = board.width;
    lemma_neighbors_upto(board, pos, 9);
    lemma_coordinates(w, board.height, pos);
    assert forall|q: usize| #[trigger]
        board.neighbors(pos).contains(q) <==> board.adjacent(pos, q as int) by {
        if board.neighbors(pos).contains(q) {
            let e = choose|e: int| 0 <= e < 9 && #[trigger] board.step(pos, e) == Some(q as int);
            lemma_step_adjacent(board, pos, e, q as int);
        }
        if board.adjacent(pos, q as int) {
            lemma_coordinates(w, board.height, q as int);
            let across = q as int % w - pos % w + 1;
            let down = q as int / w - pos / w + 1;
            let e = down * 3 + across;
            assert(e % 3 == across && e / 3 == down);
            assert(e != 4);
            assert(board.step(pos, e) == Some(q as int));
            assert(reached(board, pos, q as int, 9));
        }
    }
}

} // verus!
