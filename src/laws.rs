//! Properties that relate several operations of the board.
use vstd::prelude::*;

use crate::action::Action;
use crate::board::GameState;
use crate::enums::{metric_weights, Metric};
use crate::grid::{
    apply_move, combine, grid_count, grid_snapshot, legal_action, lemma_apply_move, target_of,
};

verus! {

/// Resetting a board and then taking the snapshot of its occupied cells
/// gives back the snapshot taken when the board was made.
pub proof fn lemma_reset_round_trip(before: &GameState, after: &GameState)
    requires
        before.wf(),
        after.wf(),
        after.same_setup(before),
        after.grid() == before.initial@,
    ensures
        grid_snapshot(after.grid()) == before.init_state@,
{
}

/// A legal move strictly lowers the number of occupied cells, and lowers it
/// by exactly one when the merged tile is not zero.
pub proof fn lemma_apply_frees_one_cell(b: &GameState, a: Action)
    requires
        b.wf(),
        legal_action(b.grid(), a),
    ensures
        grid_count(apply_move(b.grid(), a)) < grid_count(b.grid()),
        combine(
            a.op,
            b.grid()[a.row as int][a.col as int] as int,
            b.grid()[target_of(
                a.row as int,
                a.col as int,
                a.direction,
                b.grid()[a.row as int][a.col as int] as int,
            ).0][target_of(
                a.row as int,
                a.col as int,
                a.direction,
                b.grid()[a.row as int][a.col as int] as int,
            ).1] as int,
        ) != 0 ==> grid_count(apply_move(b.grid(), a)) == grid_count(b.grid()) - 1,
{
    lemma_apply_move(b.grid(), a, b.height as int, b.width as int);
}

/// A board is solved exactly when it scores zero under the weighting that
/// counts the remaining tiles alone.
pub proof fn lemma_solved_iff_no_tiles_left(b: &GameState)
    requires
        b.wf(),
    ensures
        b.solved_spec() <==> b.score_spec(
            metric_weights(Metric::RemainingTiles).0 as int,
            metric_weights(Metric::RemainingTiles).1 as int,
            metric_weights(Metric::RemainingTiles).2 as int,
        ) == 0,
{
    b.lemma_score_zero(1, 0, 0);
}

} // verus!
