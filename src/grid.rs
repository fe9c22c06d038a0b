//! The mathematical model of a board: a grid of tile values, indexed by row
//! and then column, and the rules of a move on it.
use vstd::prelude::*;

use crate::action::Action;
use crate::enums::{direction_of, Direction, Operation};

verus! {

/// The largest number of rows or columns a board may have.
pub const MAX_SIDE: usize = 64;

/// The largest total of all tiles on a board: every merge stays within it.
pub const MAX_TOTAL: i16 = 32767;

/// `g` has `h` rows of `w` cells each.
pub open spec fn rect(g: Seq<Seq<i16>>, h: int, w: int) -> bool {
    &&& g.len() == h
    &&& forall|r: int| 0 <= r < h ==> #[trigger] g[r].len() == w
}

/// No cell of `g` is negative.
pub open spec fn nonneg(g: Seq<Seq<i16>>) -> bool {
    forall|r: int, c: int| 0 <= r < g.len() && 0 <= c < g[r].len() ==> #[trigger] g[r][c] >= 0
}

pub open spec fn in_grid(g: Seq<Seq<i16>>, r: int, c: int) -> bool {
    0 <= r < g.len() && 0 <= c < g[r].len()
}

/// Every cell of `g` is empty.
pub open spec fn all_zero(g: Seq<Seq<i16>>) -> bool {
    forall|r: int, c: int| in_grid(g, r, c) ==> #[trigger] g[r][c] == 0
}

/// The sum of the values of a row.
pub open spec fn row_sum(s: Seq<i16>) -> int
    decreases s.len(),
{
    if s.len() == 0 {
        0
    } else {
        row_sum(s.drop_last()) + s.last()
    }
}

/// The number of occupied (positive) cells of a row.
pub open spec fn row_count(s: Seq<i16>) -> int
    decreases s.len(),
{
    if s.len() == 0 {
        0
    } else {
        row_count(s.drop_last()) + if s.last() > 0 { 1int } else { 0 }
    }
}

/// The sum of all tiles of a grid.
pub open spec fn grid_sum(g: Seq<Seq<i16>>) -> int
    decreases g.len(),
{
    if g.len() == 0 {
        0
    } else {
        grid_sum(g.drop_last()) + row_sum(g.last())
    }
}

/// The number of occupied cells of a grid.
pub open spec fn grid_count(g: Seq<Seq<i16>>) -> int
    decreases g.len(),
{
    if g.len() == 0 {
        0
    } else {
        grid_count(g.drop_last()) + row_count(g.last())
    }
}

/// The occupied cells of row `r`, as `(row, col, value)`, left to right.
pub open spec fn row_snapshot(s: Seq<i16>, r: usize) -> Seq<(usize, usize, i16)>
    decreases s.len(),
{
    if s.len() == 0 {
        seq![]
    } else if s.last() > 0 {
        row_snapshot(s.drop_last(), r).push((r, (s.len() - 1) as usize, s.last()))
    } else {
        row_snapshot(s.drop_last(), r)
    }
}

/// The occupied cells of a grid, as `(row, col, value)`, in row-major order.
pub open spec fn grid_snapshot(g: Seq<Seq<i16>>) -> Seq<(usize, usize, i16)>
    decreases g.len(),
{
    if g.len() == 0 {
        seq![]
    } else {
        grid_snapshot(g.drop_last()) + row_snapshot(g.last(), (g.len() - 1) as usize)
    }
}

/// The cell reached from `(r, c)` by sliding `v` cells in direction `d`.
pub open spec fn target_of(r: int, c: int, d: Direction, v: int) -> (int, int) {
    match d {
        Direction::Up => (r - v, c),
        Direction::Down => (r + v, c),
        Direction::Left => (r, c - v),
        Direction::Right => (r, c + v),
    }
}

/// The tile at `(r, c)` may slide in direction `d`: it is occupied, and the
/// cell its own value away in that direction is on the grid and occupied.
pub open spec fn legal_move(g: Seq<Seq<i16>>, r: int, c: int, d: Direction) -> bool {
    &&& in_grid(g, r, c)
    &&& g[r][c] > 0
    &&& in_grid(g, target_of(r, c, d, g[r][c] as int).0, target_of(r, c, d, g[r][c] as int).1)
    &&& g[target_of(r, c, d, g[r][c] as int).0][target_of(r, c, d, g[r][c] as int).1] > 0
}

pub open spec fn legal_action(g: Seq<Seq<i16>>, a: Action) -> bool {
    legal_move(g, a.row as int, a.col as int, a.direction)
}

/// The value left on the target cell when a tile of value `s` lands on a
/// tile of value `t`.
pub open spec fn combine(op: Operation, s: int, t: int) -> int {
    match op {
        Operation::Plus => s + t,
        Operation::Minus => if s >= t { s - t } else { t - s },
    }
}

pub open spec fn set_cell(g: Seq<Seq<i16>>, r: int, c: int, v: i16) -> Seq<Seq<i16>> {
    g.update(r, g[r].update(c, v))
}

/// The grid after a legal move: the source cell is emptied and the target
/// cell holds the combination of the two tiles.
pub open spec fn apply_move(g: Seq<Seq<i16>>, a: Action) -> Seq<Seq<i16>> {
    let s = g[a.row as int][a.col as int] as int;
    let t = target_of(a.row as int, a.col as int, a.direction, s);
    set_cell(
        set_cell(g, a.row as int, a.col as int, 0),
        t.0,
        t.1,
        combine(a.op, s, g[t.0][t.1] as int) as i16,
    )
}

/// The grid reached by playing `acts` in order from `g`, or `None` when one
/// of them is not legal where it is played.
pub open spec fn play(g: Seq<Seq<i16>>, acts: Seq<Action>) -> Option<Seq<Seq<i16>>>
    decreases acts.len(),
{
    if acts.len() == 0 {
        Some(g)
    } else {
        match play(g, acts.drop_last()) {
            Some(g2) => if legal_action(g2, acts.last()) {
                Some(apply_move(g2, acts.last()))
            } else {
                None
            },
            None => None,
        }
    }
}

/// No tile of `g` has a legal move.
pub open spec fn terminal(g: Seq<Seq<i16>>) -> bool {
    forall|r: int, c: int, d: Direction| !#[trigger] legal_move(g, r, c, d)
}

/// The legal moves of the tile at `(row, col)` in the first `k` directions
/// of the order Up, Down, Left, Right: each legal direction gives its `+`
/// move, then its `-` move.
pub open spec fn moves_in(g: Seq<Seq<i16>>, row: usize, col: usize, k: int) -> Seq<Action>
    decreases k,
{
    if k <= 0 {
        seq![]
    } else if legal_move(g, row as int, col as int, direction_of(k - 1)) {
        moves_in(g, row, col, k - 1) + seq![
            Action { row, col, direction: direction_of(k - 1), op: Operation::Plus },
            Action { row, col, direction: direction_of(k - 1), op: Operation::Minus },
        ]
    } else {
        moves_in(g, row, col, k - 1)
    }
}

/// Every legal move of the tile at `(row, col)`, directions in the order Up,
/// Down, Left, Right, and `+` before `-`.
pub open spec fn moves_of(g: Seq<Seq<i16>>, row: usize, col: usize) -> Seq<Action> {
    moves_in(g, row, col, 4)
}

/// The moves of `acts` that are legal where they come when played in order
/// from `g`, skipping the others, and the grid they reach.
pub open spec fn replay_legal(g: Seq<Seq<i16>>, acts: Seq<Action>) -> (Seq<Action>, Seq<Seq<i16>>)
    decreases acts.len(),
{
    if acts.len() == 0 {
        (seq![], g)
    } else {
        let prev = replay_legal(g, acts.drop_last());
        if legal_action(prev.1, acts.last()) {
            (prev.0.push(acts.last()), apply_move(prev.1, acts.last()))
        } else {
            prev
        }
    }
}

/// The tile at `(r, c)`, if any, has no legal move.
pub open spec fn stuck(g: Seq<Seq<i16>>, r: int, c: int) -> bool {
    forall|d: Direction| !#[trigger] legal_move(g, r, c, d)
}

// ---- lemmas on sums and counts ----

pub proof fn lemma_row_update(s: Seq<i16>, c: int, v: i16)
    requires
        0 <= c < s.len(),
    ensures
        row_sum(s.update(c, v)) == row_sum(s) - s[c] + v,
        row_count(s.update(c, v)) == row_count(s) - (if s[c] > 0 { 1int } else { 0 }) + (if v > 0 {
            1int
        } else {
            0
        }),
    decreases s.len(),
{
    let u = s.update(c, v);
    if c == s.len() - 1 {
        assert(u.drop_last() =~= s.drop_last());
    } else {
        assert(u.drop_last() =~= s.drop_last().update(c, v));
        lemma_row_update(s.drop_last(), c, v);
    }
}

pub proof fn lemma_grid_update(g: Seq<Seq<i16>>, r: int, row: Seq<i16>)
    requires
        0 <= r < g.len(),
    ensures
        grid_sum(g.update(r, row)) == grid_sum(g) - row_sum(g[r]) + row_sum(row),
        grid_count(g.update(r, row)) == grid_count(g) - row_count(g[r]) + row_count(row),
    decreases g.len(),
{
    let u = g.update(r, row);
    if r == g.len() - 1 {
        assert(u.drop_last() =~= g.drop_last());
    } else {
        assert(u.drop_last() =~= g.drop_last().update(r, row));
        lemma_grid_update(g.drop_last(), r, row);
    }
}

/// Changing one cell changes the sum and the count of the grid by that cell alone.
pub proof fn lemma_set_cell(g: Seq<Seq<i16>>, r: int, c: int, v: i16)
    requires
        in_grid(g, r, c),
    ensures
        grid_sum(set_cell(g, r, c, v)) == grid_sum(g) - g[r][c] + v,
        grid_count(set_cell(g, r, c, v)) == grid_count(g) - (if g[r][c] > 0 { 1int } else { 0 }) + (
        if v > 0 {
            1int
        } else {
            0
        }),
{
    lemma_row_update(g[r], c, v);
    lemma_grid_update(g, r, g[r].update(c, v));
}

pub proof fn lemma_row_bounds(s: Seq<i16>)
    requires
        forall|c: int| 0 <= c < s.len() ==> #[trigger] s[c] >= 0,
    ensures
        0 <= row_count(s) <= row_sum(s),
        forall|c: int| 0 <= c < s.len() ==> #[trigger] s[c] <= row_sum(s),
    decreases s.len(),
{
    if s.len() > 0 {
        lemma_row_bounds(s.drop_last());
        assert forall|c: int| 0 <= c < s.len() implies #[trigger] s[c] <= row_sum(s) by {
            if c < s.len() - 1 {
                assert(s.drop_last()[c] == s[c]);
            }
        }
    }
}

/// On a grid without negative cells, the number of tiles is at most their sum,
/// and each cell is at most the sum.
pub proof fn lemma_grid_bounds(g: Seq<Seq<i16>>)
    requires
        nonneg(g),
    ensures
        0 <= grid_count(g) <= grid_sum(g),
        forall|r: int, c: int| in_grid(g, r, c) ==> #[trigger] g[r][c] <= grid_sum(g),
    decreases g.len(),
{
    if g.len() > 0 {
        let h = g.drop_last();
        assert forall|r: int, c: int| 0 <= r < h.len() && 0 <= c < h[r].len() implies #[trigger] h[r][c]
            >= 0 by {
            assert(h[r] == g[r]);
        }
        lemma_grid_bounds(h);
        let last = g.last();
        assert forall|c: int| 0 <= c < last.len() implies #[trigger] last[c] >= 0 by {
            assert(g[g.len() - 1][c] >= 0);
        }
        lemma_row_bounds(last);
        assert forall|r: int, c: int| in_grid(g, r, c) implies #[trigger] g[r][c] <= grid_sum(g) by {
            if r < g.len() - 1 {
                assert(h[r] == g[r]);
                assert(in_grid(h, r, c));
                assert(h[r][c] <= grid_sum(h));
            } else {
                assert(last[c] <= row_sum(last));
            }
        }
    }
}

pub proof fn lemma_snapshot_len(g: Seq<Seq<i16>>)
    ensures
        grid_snapshot(g).len() == grid_count(g),
    decreases g.len(),
{
    if g.len() > 0 {
        lemma_snapshot_len(g.drop_last());
        lemma_row_snapshot_len(g.last(), (g.len() - 1) as usize);
    }
}

pub proof fn lemma_row_snapshot_len(s: Seq<i16>, r: usize)
    ensures
        row_snapshot(s, r).len() == row_count(s),
    decreases s.len(),
{
    if s.len() > 0 {
        lemma_row_snapshot_len(s.drop_last(), r);
    }
}

/// A legal move keeps the grid's shape, keeps every cell non-negative, never
/// raises the total, and frees one cell, or two when the merge leaves zero.
pub proof fn lemma_apply_move(g: Seq<Seq<i16>>, a: Action, h: int, w: int)
    requires
        rect(g, h, w),
        nonneg(g),
        grid_sum(g) <= MAX_TOTAL,
        legal_action(g, a),
    ensures
        rect(apply_move(g, a), h, w),
        nonneg(apply_move(g, a)),
        grid_sum(apply_move(g, a)) <= grid_sum(g),
        g[a.row as int][a.col as int] + g[target_of(
            a.row as int,
            a.col as int,
            a.direction,
            g[a.row as int][a.col as int] as int,
        ).0][target_of(
            a.row as int,
            a.col as int,
            a.direction,
            g[a.row as int][a.col as int] as int,
        ).1] <= grid_sum(g),
        grid_count(apply_move(g, a)) == grid_count(g) - 1 - (if combine(
            a.op,
            g[a.row as int][a.col as int] as int,
            g[target_of(
                a.row as int,
                a.col as int,
                a.direction,
                g[a.row as int][a.col as int] as int,
            ).0][target_of(
                a.row as int,
                a.col as int,
                a.direction,
                g[a.row as int][a.col as int] as int,
            ).1] as int,
        ) == 0 {
            1int
        } else {
            0
        }),
{
    let r = a.row as int;
    let c = a.col as int;
    let s = g[r][c] as int;
    let t = target_of(r, c, a.direction, s);
    let tv = g[t.0][t.1] as int;
    lemma_grid_bounds(g);
    assert(s + tv <= grid_sum(g)) by {
        let g1 = set_cell(g, r, c, 0);
        lemma_set_cell(g, r, c, 0);
        assert(g1[t.0][t.1] == tv);
        assert(nonneg(g1));
        lemma_grid_bounds(g1);
        assert(in_grid(g1, t.0, t.1));
    }
    let v = combine(a.op, s, tv);
    let g1 = set_cell(g, r, c, 0);
    lemma_set_cell(g, r, c, 0);
    assert(g1[t.0][t.1] == tv);
    lemma_set_cell(g1, t.0, t.1, v as i16);
    let g2 = set_cell(g1, t.0, t.1, v as i16);
    assert(g2 == apply_move(g, a));
    assert forall|i: int, j: int| 0 <= i < g2.len() && 0 <= j < g2[i].len() implies #[trigger] g2[i][j]
        >= 0 by {
        assert(g[i][j] >= 0);
    }
}

/// Playing a sequence succeeds on every prefix of a sequence that succeeds.
pub proof fn lemma_play_prefix(g: Seq<Seq<i16>>, acts: Seq<Action>, k: int)
    requires
        0 <= k <= acts.len(),
        play(g, acts) is Some,
    ensures
        play(g, acts.subrange(0, k)) is Some,
        k < acts.len() ==> legal_action(play(g, acts.subrange(0, k))->Some_0, acts[k]),
        k < acts.len() ==> play(g, acts.subrange(0, k + 1)) == Some(
            apply_move(play(g, acts.subrange(0, k))->Some_0, acts[k]),
        ),
    decreases acts.len() - k,
{
    if k == acts.len() {
        assert(acts.subrange(0, k) =~= acts);
    } else {
        lemma_play_prefix(g, acts, k + 1);
        assert(acts.subrange(0, k + 1).drop_last() =~= acts.subrange(0, k));
    }
}

/// Playing one more legal move after a sequence.
pub proof fn lemma_play_push(g: Seq<Seq<i16>>, acts: Seq<Action>, a: Action)
    ensures
        play(g, acts.push(a)) == match play(g, acts) {
            Some(g2) => if legal_action(g2, a) {
                Some(apply_move(g2, a))
            } else {
                None
            },
            None => None,
        },
{
    assert(acts.push(a).drop_last() =~= acts);
}

/// Some tile is larger than all the others together, so no sequence of
/// merges can clear the grid.
pub open spec fn impossible(g: Seq<Seq<i16>>) -> bool {
    exists|r: int, c: int| in_grid(g, r, c) && 2 * #[trigger] g[r][c] > grid_sum(g)
}

proof fn lemma_row_prefix_sum(s: Seq<i16>, c: int)
    requires
        0 <= c <= s.len(),
        forall|k: int| 0 <= k < s.len() ==> #[trigger] s[k] >= 0,
    ensures
        row_sum(s.subrange(0, c)) <= row_sum(s),
    decreases s.len(),
{
    if c < s.len() {
        assert(s.drop_last().subrange(0, c) =~= s.subrange(0, c));
        assert forall|k: int| 0 <= k < s.drop_last().len() implies #[trigger] s.drop_last()[k] >= 0 by {
            assert(s[k] >= 0);
        }
        lemma_row_prefix_sum(s.drop_last(), c);
    } else {
        assert(s.subrange(0, c) =~= s);
    }
}

proof fn lemma_grid_prefix_sum(g: Seq<Seq<i16>>, r: int)
    requires
        0 <= r <= g.len(),
        nonneg(g),
    ensures
        grid_sum(g.subrange(0, r)) <= grid_sum(g),
    decreases g.len(),
{
    if r < g.len() {
        let h = g.drop_last();
        assert(h.subrange(0, r) =~= g.subrange(0, r));
        assert forall|i: int, j: int| 0 <= i < h.len() && 0 <= j < h[i].len() implies #[trigger] h[i][j]
            >= 0 by {
            assert(g[i][j] >= 0);
        }
        lemma_grid_prefix_sum(h, r);
        let last = g.last();
        assert forall|j: int| 0 <= j < last.len() implies #[trigger] last[j] >= 0 by {
            assert(g[g.len() - 1][j] >= 0);
        }
        lemma_row_bounds(last);
    } else {
        assert(g.subrange(0, r) =~= g);
    }
}

/// The running total of a row-major scan that has passed rows `0..r` and
/// cells `0..c` of row `r` is at most the grid's total.
pub proof fn lemma_scan_sum(g: Seq<Seq<i16>>, r: int, c: int)
    requires
        0 <= r < g.len(),
        0 <= c <= g[r].len(),
        nonneg(g),
    ensures
        grid_sum(g.subrange(0, r)) + row_sum(g[r].subrange(0, c)) <= grid_sum(g),
        grid_sum(g.subrange(0, r + 1)) == grid_sum(g.subrange(0, r)) + row_sum(g[r]),
{
    assert(g.subrange(0, r + 1).drop_last() =~= g.subrange(0, r));
    assert forall|k: int| 0 <= k < g[r].len() implies #[trigger] g[r][k] >= 0 by {}
    lemma_row_prefix_sum(g[r], c);
    lemma_grid_prefix_sum(g, r + 1);
}

/// A move keeps a grid impossible to clear.
pub proof fn lemma_impossible_step(g: Seq<Seq<i16>>, a: Action, h: int, w: int)
    requires
        rect(g, h, w),
        nonneg(g),
        grid_sum(g) <= MAX_TOTAL,
        legal_action(g, a),
        impossible(g),
    ensures
        impossible(apply_move(g, a)),
{
    let (r, c) = choose|r: int, c: int| in_grid(g, r, c) && 2 * #[trigger] g[r][c] > grid_sum(g);
    let ar = a.row as int;
    let ac = a.col as int;
    let s = g[ar][ac] as int;
    let t = target_of(ar, ac, a.direction, s);
    let tv = g[t.0][t.1] as int;
    let v = combine(a.op, s, tv);
    lemma_apply_move(g, a, h, w);
    let g1 = set_cell(g, ar, ac, 0);
    lemma_set_cell(g, ar, ac, 0);
    assert(g1[t.0][t.1] == tv);
    lemma_set_cell(g1, t.0, t.1, v as i16);
    let g2 = apply_move(g, a);
    assert(grid_sum(g2) == grid_sum(g) - s - tv + v);
    assert(g2[t.0][t.1] == v);
    assert(in_grid(g2, t.0, t.1));
    if (r == ar && c == ac) || (r == t.0 && c == t.1) {
        assert(2 * g2[t.0][t.1] > grid_sum(g2));
    } else {
        assert(g2[r][c] == g[r][c]);
        assert(in_grid(g2, r, c));
        assert(2 * g2[r][c] > grid_sum(g2));
    }
}

/// No sequence of moves clears a grid that is impossible to clear.
pub proof fn lemma_impossible_play(g: Seq<Seq<i16>>, acts: Seq<Action>, h: int, w: int)
    requires
        rect(g, h, w),
        nonneg(g),
        grid_sum(g) <= MAX_TOTAL,
        impossible(g),
        play(g, acts) is Some,
    ensures
        rect(play(g, acts)->Some_0, h, w),
        nonneg(play(g, acts)->Some_0),
        grid_sum(play(g, acts)->Some_0) <= MAX_TOTAL,
        impossible(play(g, acts)->Some_0),
        !all_zero(play(g, acts)->Some_0),
    decreases acts.len(),
{
    if acts.len() > 0 {
        lemma_impossible_play(g, acts.drop_last(), h, w);
        let g2 = play(g, acts.drop_last())->Some_0;
        lemma_apply_move(g2, acts.last(), h, w);
        lemma_impossible_step(g2, acts.last(), h, w);
    }
    let g3 = play(g, acts)->Some_0;
    let (r, c) = choose|r: int, c: int| in_grid(g3, r, c) && 2 * #[trigger] g3[r][c] > grid_sum(g3);
    lemma_grid_bounds(g3);
    assert(g3[r][c] != 0);
}

/// From an empty grid no move is legal, so the only playout is the empty one.
pub proof fn lemma_play_from_empty(g: Seq<Seq<i16>>, acts: Seq<Action>)
    requires
        all_zero(g),
        play(g, acts) is Some,
    ensures
        acts.len() == 0,
        play(g, acts) == Some(g),
    decreases acts.len(),
{
    if acts.len() > 0 {
        lemma_play_from_empty(g, acts.drop_last());
        let a = acts.last();
        if in_grid(g, a.row as int, a.col as int) {
            assert(g[a.row as int][a.col as int] == 0);
        }
    }
}

} // verus!
