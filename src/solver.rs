//! The randomized local search: random playouts, the neighbourhood operator
//! that diverges from a playout at one move and replays the rest, and a late
//! acceptance hill climbing loop with restarts.
use rand::rngs::StdRng;
use vstd::prelude::*;

use crate::action::Action;
use crate::board::GameState;
use crate::enums::{metric_weights, Metric, Operation};
use crate::grid::{
    all_zero, impossible, legal_action, lemma_impossible_play, lemma_play_from_empty, lemma_play_prefix,
    lemma_play_push, play, replay_legal, terminal,
};
use crate::random::{entropy_rng, random_below, seeded_rng};

verus! {

/// A playout: the moves played from the starting board, and the score of
/// the board they leave.
pub struct Node {
    pub actions: Vec<Action>,
    pub score: u64,
    /// How the playout was made: `0` for a fresh random playout, `1` for a
    /// neighbour of another playout.
    pub mutate_type: u8,
}

/// One search trajectory: its own board and its own generator.
pub struct Solver {
    pub game: GameState,
    pub generator: StdRng,
    /// The capacity of the history of accepted scores.
    pub lfa_size: usize,
    /// The history of accepted scores, oldest first.
    pub fitness: Vec<u64>,
    /// Candidates tried so far.
    pub iteration: u64,
    /// The number of candidates `solve` may try.
    pub max_iterations: u64,
    /// The number of candidates after which the search starts afresh.
    pub restart_after: u64,
    /// The weights of the score: per occupied starting tile, per unit of
    /// value left, per row and column still in use.
    pub weight_remaining_tiles: u32,
    pub weight_remaining_sum: u32,
    pub weight_used_rows_cols: u32,
}

/// The history after accepting a score: it is appended, and the oldest is
/// dropped once the capacity is passed.
pub open spec fn history_push(h: Seq<u64>, s: u64, cap: int) -> Seq<u64> {
    if h.len() + 1 > cap {
        h.push(s).subrange(1, h.len() + 1int)
    } else {
        h.push(s)
    }
}

/// A candidate with score `s` is accepted against history `h`: the history
/// is empty, or `s` is no worse than its worst score.
pub open spec fn lahc_accepts(h: Seq<u64>, s: u64) -> bool {
    h.len() == 0 || exists|i: int| 0 <= i < h.len() && s <= #[trigger] h[i]
}

impl Solver {
    /// The solver is ready for a new candidate: its board is at the start,
    /// and a score of zero means solved.
    pub open spec fn wf(&self) -> bool {
        &&& self.game.wf()
        &&& self.game.grid() == self.game.initial@
        &&& self.lfa_size >= 1
        &&& self.fitness@.len() <= self.lfa_size
        &&& (self.weight_remaining_tiles > 0 || self.weight_remaining_sum > 0 || self.weight_used_rows_cols > 0)
    }

    /// `s` is what the board scores under the solver's weights when its live
    /// cells are `g`.
    pub open spec fn scores(&self, g: Seq<Seq<i16>>, s: int) -> bool {
        exists|b: GameState|
            #[trigger] b.same_setup(&self.game) && b.wf() && b.grid() == g && s == b.score_spec(
                self.weight_remaining_tiles as int,
                self.weight_remaining_sum as int,
                self.weight_used_rows_cols as int,
            )
    }

    /// `n` is a playout from the starting board that ends where no tile can
    /// move, and its score is that of the board it ends on.
    pub open spec fn node_ok(&self, n: &Node) -> bool {
        match play(self.game.initial@, n.actions@) {
            Some(g) => terminal(g) && self.scores(g, n.score as int),
            None => false,
        }
    }

    /// `other` differs from this solver at most in its live board and its
    /// generator.
    pub open spec fn same_search(&self, other: &Solver) -> bool {
        &&& self.same_problem(other)
        &&& self.lfa_size == other.lfa_size
        &&& self.fitness@ == other.fitness@
        &&& self.iteration == other.iteration
        &&& self.max_iterations == other.max_iterations
        &&& self.restart_after == other.restart_after
    }

    /// `r` is the neighbour of `current` diverging at move `idx`: the moves
    /// before `idx` are those of `current`; move `idx` is another move of the
    /// same tile; next come the later moves of `current` that are still legal
    /// where they come, in order; anything after them is a random extension.
    pub open spec fn neighbour_at(&self, current: Seq<Action>, r: Seq<Action>, idx: int) -> bool {
        &&& 0 <= idx < current.len()
        &&& r.len() > idx
        &&& r.subrange(0, idx) == current.subrange(0, idx)
        &&& r[idx] != current[idx]
        &&& r[idx].row == current[idx].row
        &&& r[idx].col == current[idx].col
        &&& play(self.game.initial@, r.subrange(0, idx + 1)) is Some
        &&& {
            let rest = replay_legal(
                play(self.game.initial@, r.subrange(0, idx + 1))->Some_0,
                current.subrange(idx + 1, current.len() as int),
            ).0;
            &&& r.len() >= idx + 1 + rest.len()
            &&& r.subrange(idx + 1, idx + 1 + rest.len()) == rest
        }
    }

    /// `other` searches the same board with the same weights.
    pub open spec fn same_problem(&self, other: &Solver) -> bool {
        &&& self.game.same_setup(&other.game)
        &&& self.weight_remaining_tiles == other.weight_remaining_tiles
        &&& self.weight_remaining_sum == other.weight_remaining_sum
        &&& self.weight_used_rows_cols == other.weight_used_rows_cols
    }

    proof fn lemma_node_ok_stable(&self, other: &Solver, n: &Node)
        requires
            self.same_problem(other),
            other.node_ok(n),
        ensures
            self.node_ok(n),
    {
        let g = play(other.game.initial@, n.actions@)->Some_0;
        let b = choose|b: GameState|
            #[trigger] b.same_setup(&other.game) && b.wf() && b.grid() == g && n.score == b.score_spec(
                other.weight_remaining_tiles as int,
                other.weight_remaining_sum as int,
                other.weight_used_rows_cols as int,
            );
        assert(b.same_setup(&self.game));
    }

    /// A solver of `game`, with a generator seeded by the operating system.
    /// The history holds up to 100 scores; the search may try a million
    /// candidates and starts afresh every 20000; the score weighs 1000 per
    /// remaining tile and 1 per unit of value left.
    pub fn new(game: GameState) -> (r: Solver)
        requires
            game.wf(),
            game.grid() == game.initial@,
        ensures
            r.wf(),
            r.game == game,
            r.fitness@.len() == 0,
            r.lfa_size == 100,
            r.iteration == 0,
            r.max_iterations == 1_000_000,
            r.restart_after == 20_000,
            r.weight_remaining_tiles == 1000,
            r.weight_remaining_sum == 1,
            r.weight_used_rows_cols == 0,
    {
        Self::with_generator(game, entropy_rng())
    }

    /// A solver of `game` whose draws are fixed by `seed`.
    pub fn with_seed(game: GameState, seed: u64) -> (r: Solver)
        requires
            game.wf(),
            game.grid() == game.initial@,
        ensures
            r.wf(),
            r.game == game,
            r.fitness@.len() == 0,
            r.lfa_size == 100,
            r.iteration == 0,
            r.max_iterations == 1_000_000,
            r.restart_after == 20_000,
            r.weight_remaining_tiles == 1000,
            r.weight_remaining_sum == 1,
            r.weight_used_rows_cols == 0,
    {
        Self::with_generator(game, seeded_rng(seed))
    }

    fn with_generator(game: GameState, generator: StdRng) -> (r: Solver)
        requires
            game.wf(),
            game.grid() == game.initial@,
        ensures
            r.wf(),
            r.game == game,
            r.fitness@.len() == 0,
            r.lfa_size == 100,
            r.iteration == 0,
            r.max_iterations == 1_000_000,
            r.restart_after == 20_000,
            r.weight_remaining_tiles == 1000,
            r.weight_remaining_sum == 1,
            r.weight_used_rows_cols == 0,
    {
        Solver {
            game,
            generator,
            lfa_size: 100,
            fitness: Vec::new(),
            iteration: 0,
            max_iterations: 1_000_000,
            restart_after: 20_000,
            weight_remaining_tiles: 1000,
            weight_remaining_sum: 1,
            weight_used_rows_cols: 0,
        }
    }

    /// The score of the live board under the solver's weights.
    fn eval(&self) -> (r: u64)
        requires
            self.game.wf(),
        ensures
            r == self.game.score_spec(
                self.weight_remaining_tiles as int,
                self.weight_remaining_sum as int,
                self.weight_used_rows_cols as int,
            ),
    {
        self.game.score(self.weight_remaining_tiles, self.weight_remaining_sum, self.weight_used_rows_cols)
    }

    /// A random legal move of the live board, `None` when no tile can move.
    fn generate_random_move(&mut self) -> (r: Option<Action>)
        requires
            old(self).game.wf(),
        ensures
            final(self).game == old(self).game,
            final(self).same_search(old(self)),
            match r {
                Some(a) => legal_action(old(self).game.grid(), a),
                None => terminal(old(self).game.grid()),
            },
    {
        self.game.random_legal_move(&mut self.generator)
    }

    /// Plays random legal moves, appending each to `actions`, until no tile
    /// can move.
    fn fill_with_random_moves(&mut self, actions: &mut Vec<Action>)
        requires
            old(self).game.wf(),
            play(old(self).game.initial@, old(actions)@) == Some(old(self).game.grid()),
        ensures
            final(self).game.wf(),
            final(self).same_search(old(self)),
            play(final(self).game.initial@, final(actions)@) == Some(final(self).game.grid()),
            terminal(final(self).game.grid()),
            final(actions)@.len() >= old(actions)@.len(),
            final(actions)@.subrange(0, old(actions)@.len() as int) == old(actions)@,
    {
        loop
            invariant
                self.game.wf(),
                self.same_search(old(self)),
                play(self.game.initial@, actions@) == Some(self.game.grid()),
                actions@.len() >= old(actions)@.len(),
                actions@.subrange(0, old(actions)@.len() as int) == old(actions)@,
            ensures
                terminal(self.game.grid()),
            decreases self.game.count_tile,
        {
            let ghost g = self.game.grid();
            let ghost before = actions@;
            match self.generate_random_move() {
                Some(a) => {
                    proof {
                        crate::grid::lemma_apply_move(g, a, self.game.height as int, self.game.width as int);
                        lemma_play_push(self.game.initial@, actions@, a);
                    }
                    let _ = self.game.apply_action(&a);
                    actions.push(a);
                    proof {
                        crate::grid::lemma_grid_bounds(self.game.grid());
                        assert(actions@.subrange(0, old(actions)@.len() as int) =~= before.subrange(
                            0,
                            old(actions)@.len() as int,
                        ));
                    }
                },
                None => {
                    break;
                },
            }
        }
    }

    /// Records that the live board, reached by `actions`, scores `score`,
    /// then puts the board back to the start.
    fn finish_node(&mut self, actions: Vec<Action>, score: u64, mutate_type: u8) -> (r: Node)
        requires
            old(self).game.wf(),
            old(self).lfa_size >= 1,
            old(self).fitness@.len() <= old(self).lfa_size,
            old(self).weight_remaining_tiles > 0 || old(self).weight_remaining_sum > 0
                || old(self).weight_used_rows_cols > 0,
            play(old(self).game.initial@, actions@) == Some(old(self).game.grid()),
            terminal(old(self).game.grid()),
            score == old(self).game.score_spec(
                old(self).weight_remaining_tiles as int,
                old(self).weight_remaining_sum as int,
                old(self).weight_used_rows_cols as int,
            ),
        ensures
            final(self).wf(),
            final(self).same_search(old(self)),
            final(self).node_ok(&r),
            r.actions@ == actions@,
            r.score == score,
            r.mutate_type == mutate_type,
    {
        let r = Node { actions, score, mutate_type };
        proof {
            assert(self.game.same_setup(&self.game));
            assert(self.scores(self.game.grid(), score as int));
            assert(self.node_ok(&r));
        }
        let ghost pre = *self;
        self.game.reset();
        proof {
            self.lemma_node_ok_stable(&pre, &r);
        }
        r
    }

    /// A random playout from the starting board, played until no tile can
    /// move, with the score of the board it ends on.
    pub fn create_initial_node(&mut self) -> (r: Node)
        requires
            old(self).wf(),
        ensures
            final(self).wf(),
            final(self).same_search(old(self)),
            final(self).node_ok(&r),
            r.mutate_type == 0,
    {
        let mut actions: Vec<Action> = Vec::new();
        self.fill_with_random_moves(&mut actions);
        let score = self.eval();
        self.finish_node(actions, score, 0)
    }

    /// The neighbour of `current` that diverges at move `idx`: the moves
    /// before `idx` are replayed as they are; in place of move `idx` another
    /// legal move of the same tile is drawn uniformly (there is always one:
    /// the same slide with the other operation); each later move of
    /// `current` is replayed only if it is still legal; then random moves are
    /// played until no tile can move.
    pub fn mutate_at(&mut self, current: &Node, idx: usize) -> (r: Node)
        requires
            old(self).wf(),
            old(self).node_ok(current),
            idx < current.actions@.len(),
        ensures
            final(self).wf(),
            final(self).same_search(old(self)),
            final(self).node_ok(&r),
            r.actions@.len() > idx,
            r.actions@.subrange(0, idx as int) == current.actions@.subrange(0, idx as int),
            r.actions@[idx as int] != current.actions@[idx as int],
            r.actions@[idx as int].row == current.actions@[idx as int].row,
            r.actions@[idx as int].col == current.actions@[idx as int].col,
            final(self).neighbour_at(current.actions@, r.actions@, idx as int),
            r.mutate_type == 1,
    {
        let ghost init = self.game.initial@;
        let ghost cur = current.actions@;
        let mut actions: Vec<Action> = Vec::new();
        let mut i: usize = 0;
        while i < idx
            invariant
                self.game.wf(),
                self.same_search(old(self)),
                init == self.game.initial@,
                cur == current.actions@,
                play(init, cur) is Some,
                0 <= i <= idx < cur.len(),
                actions@ == cur.subrange(0, i as int),
                play(init, actions@) == Some(self.game.grid()),
            decreases idx - i,
        {
            let a = current.actions[i];
            proof {
                lemma_play_prefix(init, cur, i as int);
            }
            let _ = self.game.apply_action(&a);
            actions.push(a);
            proof {
                assert(actions@ =~= cur.subrange(0, i + 1));
            }
            i = i + 1;
        }
        let replaced = current.actions[idx];
        proof {
            lemma_play_prefix(init, cur, idx as int);
        }
        let moves = self.game.legal_moves_for(replaced.row, replaced.col);
        let mut alternatives: Vec<Action> = Vec::new();
        let mut k: usize = 0;
        while k < moves.len()
            invariant
                self.game.wf(),
                k <= moves@.len(),
                forall|j: int|
                    0 <= j < moves@.len() ==> (#[trigger] moves@[j]).row == replaced.row && moves@[j].col
                        == replaced.col && legal_action(self.game.grid(), moves@[j]),
                forall|j: int|
                    0 <= j < alternatives@.len() ==> (#[trigger] alternatives@[j]).row == replaced.row
                        && alternatives@[j].col == replaced.col && alternatives@[j] != replaced
                        && legal_action(self.game.grid(), alternatives@[j]),
                forall|j: int| 0 <= j < k && #[trigger] moves@[j] != replaced ==> alternatives@.contains(moves@[j]),
            decreases moves@.len() - k,
        {
            let ghost before = alternatives@;
            if moves[k] != replaced {
                alternatives.push(moves[k]);
            }
            proof {
                assert forall|j: int| 0 <= j < k + 1 && #[trigger] moves@[j] != replaced implies alternatives@.contains(
                    moves@[j],
                ) by {
                    if j < k {
                        let m = choose|m: int| 0 <= m < before.len() && before[m] == moves@[j];
                        assert(alternatives@[m] == moves@[j]);
                    } else {
                        assert(alternatives@[alternatives@.len() - 1] == moves@[j]);
                    }
                }
            }
            k = k + 1;
        }
        proof {
            // The same slide with the other operation is always another legal move.
            let other = Action {
                op: if replaced.op == Operation::Plus {
                    Operation::Minus
                } else {
                    Operation::Plus
                },
                ..replaced
            };
            assert(legal_action(self.game.grid(), other));
            let m = choose|m: int| 0 <= m < moves@.len() && moves@[m] == other;
            assert(moves@[m] != replaced);
            assert(alternatives@.contains(other));
        }
        let pick = random_below(&mut self.generator, alternatives.len());
        let a = alternatives[pick];
        proof {
            lemma_play_push(init, actions@, a);
        }
        let _ = self.game.apply_action(&a);
        actions.push(a);
        let ghost head = actions@;
        let ghost g1 = self.game.grid();
        proof {
            assert(cur.subrange(idx + 1, idx + 1) =~= Seq::<Action>::empty());
            assert(actions@ =~= head + replay_legal(g1, cur.subrange(idx + 1, idx + 1)).0);
        }
        let n = current.actions.len();
        let mut j: usize = idx + 1;
        while j < n
            invariant
                self.game.wf(),
                self.same_search(old(self)),
                init == self.game.initial@,
                cur == current.actions@,
                n == cur.len(),
                idx < j <= cur.len(),
                head.len() == idx + 1,
                actions@.len() >= head.len(),
                actions@.subrange(0, head.len() as int) == head,
                play(init, actions@) == Some(self.game.grid()),
                play(init, head) == Some(g1),
                actions@ == head + replay_legal(g1, cur.subrange(idx + 1, j as int)).0,
                self.game.grid() == replay_legal(g1, cur.subrange(idx + 1, j as int)).1,
            decreases cur.len() - j,
        {
            let a = current.actions[j];
            let ghost before = actions@;
            proof {
                lemma_play_push(init, actions@, a);
                assert(cur.subrange(idx + 1, j + 1).drop_last() =~= cur.subrange(idx + 1, j as int));
            }
            if self.game.apply_action(&a).is_ok() {
                actions.push(a);
                proof {
                    assert(actions@.subrange(0, head.len() as int) =~= before.subrange(0, head.len() as int));
                    assert(actions@ =~= head + replay_legal(g1, cur.subrange(idx + 1, j + 1)).0);
                }
            }
            j = j + 1;
        }
        let ghost kept = actions@;
        self.fill_with_random_moves(&mut actions);
        proof {
            let rest = replay_legal(g1, cur.subrange(idx + 1, cur.len() as int)).0;
            assert(cur.subrange(idx + 1, j as int) =~= cur.subrange(idx + 1, cur.len() as int));
            assert(actions@.subrange(0, kept.len() as int) == kept);
            assert(actions@.subrange(idx + 1, idx + 1 + rest.len()) =~= rest) by {
                assert forall|m: int| 0 <= m < rest.len() implies actions@[idx + 1 + m] == rest[m] by {
                    assert(kept[idx + 1 + m] == rest[m]);
                    assert(actions@.subrange(0, kept.len() as int)[idx + 1 + m] == kept[idx + 1 + m]);
                }
            }
            assert(actions@.subrange(0, idx + 1) =~= head);
            assert(actions@.subrange(0, head.len() as int) =~= kept.subrange(0, head.len() as int));
            assert(actions@[idx as int] == head[idx as int]);
            assert(actions@.subrange(0, idx as int) =~= head.subrange(0, idx as int));
            assert(head.subrange(0, idx as int) =~= cur.subrange(0, idx as int));
        }
        let score = self.eval();
        self.finish_node(actions, score, 1)
    }

    /// A neighbour of `current`, diverging at a move drawn uniformly; a fresh
    /// random playout when `current` has no moves.
    pub fn mutate(&mut self, current: &Node) -> (r: Node)
        requires
            old(self).wf(),
            old(self).node_ok(current),
        ensures
            final(self).wf(),
            final(self).same_search(old(self)),
            final(self).node_ok(&r),
            current.actions@.len() > 0 ==> r.mutate_type == 1 && exists|idx: int|
                #[trigger] final(self).neighbour_at(current.actions@, r.actions@, idx),
            current.actions@.len() == 0 ==> r.mutate_type == 0,
    {
        if current.actions.len() == 0 {
            return self.create_initial_node();
        }
        let idx = random_below(&mut self.generator, current.actions.len());
        let r = self.mutate_at(current, idx);
        assert(self.neighbour_at(current.actions@, r.actions@, idx as int));
        r
    }

    /// Late acceptance: a candidate is accepted when the history is empty
    /// or its score is no worse than the worst score the history holds.
    pub fn should_accept(&self, candidate: &Node) -> (r: bool)
        ensures
            r == lahc_accepts(self.fitness@, candidate.score),
    {
        let n = self.fitness.len();
        if n == 0 {
            return true;
        }
        let mut i: usize = 0;
        while i < n
            invariant
                n == self.fitness@.len(),
                0 <= i <= n,
                forall|j: int| 0 <= j < i ==> candidate.score > #[trigger] self.fitness@[j],
            decreases n - i,
        {
            if candidate.score <= self.fitness[i] {
                return true;
            }
            i = i + 1;
        }
        false
    }

    /// Appends an accepted score to the history, dropping the oldest once
    /// the capacity is passed.
    pub fn update_fitness(&mut self, score: u64)
        requires
            old(self).lfa_size >= 1,
            old(self).fitness@.len() <= old(self).lfa_size,
        ensures
            final(self).fitness@ == history_push(old(self).fitness@, score, old(self).lfa_size as int),
            final(self).fitness@.len() <= final(self).lfa_size,
            final(self).game == old(self).game,
            final(self).lfa_size == old(self).lfa_size,
            final(self).iteration == old(self).iteration,
            final(self).max_iterations == old(self).max_iterations,
            final(self).restart_after == old(self).restart_after,
            final(self).same_problem(old(self)),
    {
        self.fitness.push(score);
        if self.fitness.len() > self.lfa_size {
            self.fitness.remove(0);
            assert(self.fitness@ =~= history_push(old(self).fitness@, score, old(self).lfa_size as int));
        }
    }

    /// Starts the history afresh with one score.
    pub fn initialize_fitness(&mut self, score: u64)
        requires
            old(self).lfa_size >= 1,
        ensures
            final(self).fitness@ == seq![score],
            final(self).game == old(self).game,
            final(self).lfa_size == old(self).lfa_size,
            final(self).iteration == old(self).iteration,
            final(self).max_iterations == old(self).max_iterations,
            final(self).restart_after == old(self).restart_after,
            final(self).same_problem(old(self)),
    {
        self.fitness = Vec::new();
        self.fitness.push(score);
        assert(self.fitness@ =~= seq![score]);
    }

    /// A playout with score zero is a solution: under the solver's weights
    /// a score of zero means that every cell is empty.
    proof fn lemma_zero_score_solves(&self, n: &Node)
        requires
            self.wf(),
            self.node_ok(n),
            n.score == 0,
        ensures
            all_zero(play(self.game.initial@, n.actions@)->Some_0),
    {
        let g = play(self.game.initial@, n.actions@)->Some_0;
        let b = choose|b: GameState|
            #[trigger] b.same_setup(&self.game) && b.wf() && b.grid() == g && n.score == b.score_spec(
                self.weight_remaining_tiles as int,
                self.weight_remaining_sum as int,
                self.weight_used_rows_cols as int,
            );
        b.lemma_score_zero(
            self.weight_remaining_tiles as int,
            self.weight_remaining_sum as int,
            self.weight_used_rows_cols as int,
        );
        b.lemma_solved_all_zero();
    }

    /// On an empty starting board every playout is empty and scores zero.
    proof fn lemma_empty_start_scores_zero(&self, n: &Node)
        requires
            self.wf(),
            self.node_ok(n),
            all_zero(self.game.initial@),
        ensures
            n.score == 0,
    {
        let g = play(self.game.initial@, n.actions@)->Some_0;
        lemma_play_from_empty(self.game.initial@, n.actions@);
        let b = choose|b: GameState|
            #[trigger] b.same_setup(&self.game) && b.wf() && b.grid() == g && n.score == b.score_spec(
                self.weight_remaining_tiles as int,
                self.weight_remaining_sum as int,
                self.weight_used_rows_cols as int,
            );
        b.lemma_solved_all_zero();
        b.lemma_score_zero(
            self.weight_remaining_tiles as int,
            self.weight_remaining_sum as int,
            self.weight_used_rows_cols as int,
        );
    }

    /// Searches for a solution by late acceptance hill climbing: each
    /// candidate is a neighbour of the accepted playout, accepted against the
    /// history of accepted scores; after `restart_after` candidates the search
    /// starts again from a fresh random playout. Stops with the first playout
    /// that clears the board, or with `None` once `max_iterations` candidates
    /// have been tried in all. A starting board with a tile larger than all
    /// the others together is given up at once: no playout can clear it.
    pub fn solve(&mut self) -> (r: Option<Node>)
        requires
            old(self).wf(),
        ensures
            final(self).wf(),
            final(self).same_problem(old(self)),
            match r {
                Some(n) => play(old(self).game.initial@, n.actions@) is Some && all_zero(
                    play(old(self).game.initial@, n.actions@)->Some_0,
                ),
                None => impossible(old(self).game.initial@) || final(self).iteration
                    >= final(self).max_iterations,
            },
            r is Some ==> r->Some_0.score == 0 && final(self).node_ok(&r->Some_0),
            impossible(old(self).game.initial@) ==> r is None,
            all_zero(old(self).game.initial@) ==> r is Some,
    {
        if self.game.impossible_state() {
            proof {
                let none: Seq<Action> = seq![];
                lemma_impossible_play(self.game.initial@, none, self.game.height as int, self.game.width as int);
            }
            return None;
        }
        let mut current = self.create_initial_node();
        let ghost pre = *self;
        self.initialize_fitness(current.score);
        proof {
            self.lemma_node_ok_stable(&pre, &current);
            if all_zero(self.game.initial@) {
                self.lemma_empty_start_scores_zero(&current);
            }
        }
        let mut since_restart: u64 = 0;
        while self.iteration < self.max_iterations
            invariant
                self.wf(),
                self.same_problem(old(self)),
                self.node_ok(&current),
                all_zero(self.game.initial@) ==> current.score == 0,
                !impossible(old(self).game.initial@),
            decreases self.max_iterations - self.iteration,
        {
            if current.score == 0 {
                proof {
                    self.lemma_zero_score_solves(&current);
                }
                return Some(current);
            }
            let ghost pre = *self;
            let candidate = self.mutate(&current);
            proof {
                self.lemma_node_ok_stable(&pre, &current);
            }
            self.iteration = self.iteration + 1;
            since_restart = if since_restart < u64::MAX {
                since_restart + 1
            } else {
                since_restart
            };
            if self.should_accept(&candidate) {
                let ghost pre = *self;
                self.update_fitness(candidate.score);
                proof {
                    self.lemma_node_ok_stable(&pre, &candidate);
                }
                current = candidate;
            }
            if since_restart >= self.restart_after && current.score != 0 {
                current = self.create_initial_node();
                let ghost pre = *self;
                self.initialize_fitness(current.score);
                proof {
                    self.lemma_node_ok_stable(&pre, &current);
                }
                since_restart = 0;
            }
        }
        if current.score == 0 {
            proof {
                self.lemma_zero_score_solves(&current);
            }
            return Some(current);
        }
        None
    }

    /// Scores by one metric alone from now on.
    pub fn set_metric(&mut self, metric: Metric)
        requires
            old(self).wf(),
        ensures
            final(self).wf(),
            (
                final(self).weight_remaining_tiles,
                final(self).weight_remaining_sum,
                final(self).weight_used_rows_cols,
            ) == metric_weights(metric),
            final(self).game == old(self).game,
            final(self).fitness == old(self).fitness,
            final(self).lfa_size == old(self).lfa_size,
            final(self).iteration == old(self).iteration,
            final(self).max_iterations == old(self).max_iterations,
            final(self).restart_after == old(self).restart_after,
    {
        let (tiles, sum, lines) = metric.weights();
        self.weight_remaining_tiles = tiles;
        self.weight_remaining_sum = sum;
        self.weight_used_rows_cols = lines;
    }
}

} // verus!
