use vstd::prelude::*;

use crate::lemmas::{
    lemma_dist_bound, lemma_initial_totals, lemma_run, lemma_totals_nonneg, lemma_with_pit,
};
use crate::model::{
    apply_move, in_bounds, initial_board, move_bound, pick_up, play, seed_total, sow_measure,
    sow_run, sowing_ok, sown, well_formed, BoardView,
};

verus! {

/// Every move that is not rejected comes to rest within `move_bound(b)`
/// sowing steps: the seeds in the pits times one more than the number of
/// pits on the board, plus that number plus one. After that many steps the
/// hand is empty.
pub proof fn lemma_move_terminates(b: BoardView, i: int)
    requires
        well_formed(b),
        in_bounds(b, i),
        b.sides[b.current].pits[i] != 0,
    ensures
        sow_run(pick_up(b, i), move_bound(b)).hand == 0,
        sowing_ok(sown(b, i)),
        seed_total(sown(b, i).board) == seed_total(b),
        sown(b, i).board.current == b.current,
        sown(b, i).board.pits_per_row == b.pits_per_row,
        sown(b, i).board.sides.len() == b.sides.len(),
{
    let s0 = pick_up(b, i);
    lemma_with_pit(b, b.current, i, 0);
    lemma_totals_nonneg(b.sides);
    lemma_dist_bound(s0);
    assert(sow_measure(s0) < move_bound(b));
    lemma_run(s0, move_bound(b));
}

/// A move request, accepted or rejected, keeps the board well formed and
/// keeps every seed on it.
pub proof fn lemma_move_keeps_seeds(b: BoardView, i: int)
    requires
        well_formed(b),
    ensures
        well_formed(apply_move(b, i)),
        seed_total(apply_move(b, i)) == seed_total(b),
{
    if in_bounds(b, i) && b.sides[b.current].pits[i] != 0 {
        lemma_move_terminates(b, i);
    }
}

/// Whatever moves are requested from a fresh board, the board stays well
/// formed and holds the seeds it was laid out with: the fill times the row
/// length times the number of players.
pub proof fn lemma_seed_conservation(
    fill: u32,
    pits_per_row: nat,
    names: Seq<Seq<char>>,
    moves: Seq<usize>,
)
    requires
        names.len() >= 1,
        pits_per_row >= 1,
        fill * pits_per_row * names.len() <= u32::MAX,
    ensures
        well_formed(play(initial_board(fill, pits_per_row, names), moves)),
        seed_total(play(initial_board(fill, pits_per_row, names), moves)) == fill * pits_per_row
            * names.len(),
    decreases moves.len(),
{
    let b = initial_board(fill, pits_per_row, names);
    if moves.len() == 0 {
        lemma_initial_totals(fill, pits_per_row, names);
    } else {
        lemma_seed_conservation(fill, pits_per_row, names, moves.drop_last());
        lemma_move_keeps_seeds(play(b, moves.drop_last()), moves.last() as int);
    }
}

} // verus!
