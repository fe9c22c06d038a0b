//! The board: the live grid of one search trajectory, the snapshot of its
//! starting tiles, and the moves on it.
use vstd::prelude::*;

use crate::action::Action;
use crate::enums::{direction_of, Direction, Operation};
use crate::random::random_below;
use rand::rngs::StdRng;
use crate::grid::{
    all_zero, apply_move, combine, grid_count, grid_snapshot, grid_sum, in_grid, legal_action,
    legal_move, lemma_apply_move, moves_in, moves_of, stuck, impossible, lemma_scan_sum, lemma_grid_bounds, lemma_snapshot_len, nonneg, rect,
    row_snapshot, row_sum, set_cell, target_of, terminal, MAX_SIDE, MAX_TOTAL,
};

verus! {

/// The error of a move whose tile cannot slide where the move says.
#[derive(Debug, Clone, Copy, PartialEq, Eq, Structural)]
pub struct IllegalMove;

/// A board of one search trajectory.
pub struct GameState {
    pub width: usize,
    pub height: usize,
    /// The live cells, `board[row][col]`, `0` for an empty cell.
    pub board: Vec<Vec<i16>>,
    /// The occupied cells of the starting board as `(row, col, value)`, in
    /// row-major order: what `reset` writes back.
    pub init_state: Vec<(usize, usize, i16)>,
    /// The number of occupied cells of the live board.
    pub count_tile: i32,
    /// The number of occupied cells of the starting board.
    pub initial_count_tile: i32,
    /// The starting board.
    pub initial: Ghost<Seq<Seq<i16>>>,
}

pub open spec fn on_snapshot(snap: Seq<(usize, usize, i16)>, k: int, r: int, c: int) -> bool {
    exists|i: int| 0 <= i < k && #[trigger] snap[i].0 == r && snap[i].1 == c
}

pub open spec fn grid_of(b: Seq<Vec<i16>>) -> Seq<Seq<i16>> {
    b.map_values(|row: Vec<i16>| row@)
}

impl GameState {
    /// The live cells.
    pub open spec fn grid(&self) -> Seq<Seq<i16>> {
        grid_of(self.board@)
    }

    pub open spec fn snap(&self) -> Seq<(usize, usize, i16)> {
        self.init_state@
    }

    /// The board is well formed: its shape, the bound on its total, the tile
    /// counts, and the snapshot of the starting board agree.
    pub open spec fn wf(&self) -> bool {
        let g = self.grid();
        let g0 = self.initial@;
        let snap = self.snap();
        &&& 1 <= self.height <= MAX_SIDE
        &&& 1 <= self.width <= MAX_SIDE
        &&& rect(g, self.height as int, self.width as int)
        &&& rect(g0, self.height as int, self.width as int)
        &&& nonneg(g)
        &&& nonneg(g0)
        &&& grid_sum(g) <= MAX_TOTAL
        &&& grid_sum(g0) <= MAX_TOTAL
        &&& self.count_tile == grid_count(g)
        &&& self.initial_count_tile == grid_count(g0)
        &&& snap.len() == self.initial_count_tile
        &&& snap == grid_snapshot(g0)
        &&& forall|i: int|
            0 <= i < snap.len() ==> {
                &&& (#[trigger] snap[i]).0 < self.height
                &&& snap[i].1 < self.width
                &&& snap[i].2 > 0
                &&& g0[snap[i].0 as int][snap[i].1 as int] == snap[i].2
            }
        &&& forall|r: int, c: int|
            in_grid(g0, r, c) && #[trigger] g0[r][c] > 0 ==> on_snapshot(snap, snap.len() as int, r, c)
        &&& forall|r: int, c: int|
            in_grid(g, r, c) && #[trigger] g[r][c] > 0 ==> on_snapshot(snap, snap.len() as int, r, c)
    }

    /// `other` is this board with possibly other live cells: same shape, same
    /// starting board and snapshot.
    pub open spec fn same_setup(&self, other: &GameState) -> bool {
        &&& self.width == other.width
        &&& self.height == other.height
        &&& self.init_state@ == other.init_state@
        &&& self.initial_count_tile == other.initial_count_tile
        &&& self.initial@ == other.initial@
    }

    /// The value of the cell at snapshot index `i` on the live board.
    pub open spec fn snap_value(&self, i: int) -> int {
        self.grid()[self.snap()[i].0 as int][self.snap()[i].1 as int] as int
    }

    /// Every starting tile's cell is empty.
    pub open spec fn solved_spec(&self) -> bool {
        forall|i: int| 0 <= i < self.snap().len() ==> #[trigger] self.snap_value(i) == 0
    }
}


/// The occupied cells of `board` as `(row, col, value)`, in row-major order.
fn collect_tiles(board: &Vec<Vec<i16>>, height: usize, width: usize) -> (out: Vec<(usize, usize, i16)>)
    requires
        rect(grid_of(board@), height as int, width as int),
    ensures
        out@ == grid_snapshot(grid_of(board@)),
        forall|i: int|
            0 <= i < out@.len() ==> {
                &&& (#[trigger] out@[i]).0 < height
                &&& out@[i].1 < width
                &&& out@[i].2 > 0
                &&& grid_of(board@)[out@[i].0 as int][out@[i].1 as int] == out@[i].2
            },
        forall|r: int, c: int|
            in_grid(grid_of(board@), r, c) && #[trigger] grid_of(board@)[r][c] > 0 ==> on_snapshot(
                out@,
                out@.len() as int,
                r,
                c,
            ),
{
    let ghost g = grid_of(board@);
    let mut out: Vec<(usize, usize, i16)> = Vec::new();
    let mut r: usize = 0;
    while r < height
        invariant
            g == grid_of(board@),
            rect(g, height as int, width as int),
            0 <= r <= height,
            out@ == grid_snapshot(g.subrange(0, r as int)),
            forall|i: int|
                0 <= i < out@.len() ==> {
                    &&& (#[trigger] out@[i]).0 < height
                    &&& out@[i].1 < width
                    &&& out@[i].2 > 0
                    &&& g[out@[i].0 as int][out@[i].1 as int] == out@[i].2
                },
            forall|r2: int, c2: int|
                0 <= r2 < r && in_grid(g, r2, c2) && #[trigger] g[r2][c2] > 0 ==> on_snapshot(
                    out@,
                    out@.len() as int,
                    r2,
                    c2,
                ),
        decreases height - r,
    {
        let row = &board[r];
        assert(row@ == g[r as int]);
        let ghost start = out@;
        let mut c: usize = 0;
        while c < width
            invariant
                g == grid_of(board@),
                rect(g, height as int, width as int),
                row@ == g[r as int],
                0 <= r < height,
                0 <= c <= width,
                start == grid_snapshot(g.subrange(0, r as int)),
                out@ == start + row_snapshot(g[r as int].subrange(0, c as int), r),
                forall|i: int|
                    0 <= i < out@.len() ==> {
                        &&& (#[trigger] out@[i]).0 < height
                        &&& out@[i].1 < width
                        &&& out@[i].2 > 0
                        &&& g[out@[i].0 as int][out@[i].1 as int] == out@[i].2
                    },
                forall|r2: int, c2: int|
                    (0 <= r2 < r || (r2 == r && 0 <= c2 < c)) && in_grid(g, r2, c2)
                        && #[trigger] g[r2][c2] > 0 ==> on_snapshot(out@, out@.len() as int, r2, c2),
            decreases width - c,
        {
            let v = row[c];
            let ghost before = out@;
            assert(g[r as int].subrange(0, c + 1).drop_last() =~= g[r as int].subrange(0, c as int));
            if v > 0 {
                out.push((r, c, v));
                assert(out@ =~= start + row_snapshot(g[r as int].subrange(0, c + 1), r));
            } else {
                assert(out@ =~= start + row_snapshot(g[r as int].subrange(0, c + 1), r));
            }
            assert forall|r2: int, c2: int|
                (0 <= r2 < r || (r2 == r && 0 <= c2 < c + 1)) && in_grid(g, r2, c2)
                    && #[trigger] g[r2][c2] > 0 implies on_snapshot(out@, out@.len() as int, r2, c2) by {
                if r2 == r && c2 == c {
                    assert(out@[out@.len() - 1].0 == r2);
                } else {
                    let i = choose|i: int|
                        0 <= i < before.len() && #[trigger] before[i].0 == r2 && before[i].1 == c2;
                    assert(out@[i] == before[i]);
                }
            }
            c = c + 1;
        }
        assert(g[r as int].subrange(0, width as int) =~= g[r as int]);
        assert(g.subrange(0, r + 1).drop_last() =~= g.subrange(0, r as int));
        r = r + 1;
    }
    assert(g.subrange(0, height as int) =~= g);
    out
}

impl GameState {
    /// A board of `height` rows of `width` cells holding `board`, where
    /// `count_tile` is the number of occupied cells. The total of all tiles
    /// must fit the cell type, so that no merge can overflow.
    pub fn new(width: usize, height: usize, count_tile: i32, board: Vec<Vec<i16>>) -> (r: GameState)
        requires
            1 <= height <= MAX_SIDE,
            1 <= width <= MAX_SIDE,
            rect(grid_of(board@), height as int, width as int),
            nonneg(grid_of(board@)),
            grid_sum(grid_of(board@)) <= MAX_TOTAL,
            count_tile == grid_count(grid_of(board@)),
        ensures
            r.wf(),
            r.width == width,
            r.height == height,
            r.grid() == grid_of(board@),
            r.initial@ == grid_of(board@),
    {
        let init_state = collect_tiles(&board, height, width);
        proof {
            lemma_snapshot_len(grid_of(board@));
        }
        GameState {
            width,
            height,
            board,
            init_state,
            count_tile,
            initial_count_tile: count_tile,
            initial: Ghost(grid_of(board@)),
        }
    }

    /// The occupied cells of the live board as `(row, col, value)`, in
    /// row-major order: right after `new` or `reset`, this is `init_state`.
    pub fn snapshot(&self) -> (r: Vec<(usize, usize, i16)>)
        requires
            self.wf(),
        ensures
            r@ == grid_snapshot(self.grid()),
    {
        collect_tiles(&self.board, self.height, self.width)
    }
}

impl GameState {
    /// The rows of the vector of rows are those of the grid.
    proof fn lemma_rows(&self)
        requires
            rect(self.grid(), self.height as int, self.width as int),
        ensures
            self.board@.len() == self.height,
            forall|r: int|
                0 <= r < self.height ==> #[trigger] self.board@[r]@ == self.grid()[r]
                    && self.board@[r]@.len() == self.width,
    {
        assert forall|r: int| 0 <= r < self.height implies #[trigger] self.board@[r]@ == self.grid()[r]
            && self.board@[r]@.len() == self.width by {
            assert(self.grid()[r].len() == self.width);
        }
    }

    /// Writes `v` into the live cell `(r, c)`.
    fn write_cell(&mut self, r: usize, c: usize, v: i16)
        requires
            r < old(self).board@.len(),
            c < old(self).board@[r as int]@.len(),
        ensures
            final(self).grid() == set_cell(old(self).grid(), r as int, c as int, v),
            final(self).width == old(self).width,
            final(self).height == old(self).height,
            final(self).init_state == old(self).init_state,
            final(self).count_tile == old(self).count_tile,
            final(self).initial_count_tile == old(self).initial_count_tile,
            final(self).initial == old(self).initial,
    {
        self.board[r][c] = v;
        assert(self.grid() =~= set_cell(old(self).grid(), r as int, c as int, v));
    }
}

impl GameState {
    /// Restores the starting board: every starting tile is written back from
    /// the snapshot; every other cell is already empty.
    pub fn reset(&mut self)
        requires
            old(self).wf(),
        ensures
            final(self).wf(),
            final(self).same_setup(old(self)),
            final(self).grid() == old(self).initial@,
    {
        let ghost g0 = self.initial@;
        let ghost g1 = self.grid();
        let ghost snap = self.snap();
        let ghost h = self.height as int;
        let ghost w = self.width as int;
        let n = self.init_state.len();
        let mut i: usize = 0;
        while i < n
            invariant
                old(self).wf(),
                g0 == old(self).initial@,
                g1 == old(self).grid(),
                snap == old(self).snap(),
                h == old(self).height,
                w == old(self).width,
                n == snap.len(),
                0 <= i <= n,
                self.same_setup(old(self)),
                self.count_tile == old(self).count_tile,
                rect(self.grid(), h, w),
                forall|r: int, c: int|
                    in_grid(g1, r, c) ==> #[trigger] self.grid()[r][c] == if on_snapshot(
                        snap,
                        i as int,
                        r,
                        c,
                    ) {
                        g0[r][c]
                    } else {
                        g1[r][c]
                    },
            decreases n - i,
        {
            proof {
                self.lemma_rows();
            }
            let (r, c, v) = self.init_state[i];
            let ghost before = self.grid();
            self.write_cell(r, c, v);
            assert forall|r2: int, c2: int| in_grid(g1, r2, c2) implies #[trigger] self.grid()[r2][c2]
                == if on_snapshot(snap, i + 1, r2, c2) {
                g0[r2][c2]
            } else {
                g1[r2][c2]
            } by {
                if r2 == r && c2 == c {
                    assert(snap[i as int].0 == r2 && snap[i as int].1 == c2);
                    assert(on_snapshot(snap, i + 1, r2, c2));
                } else {
                    assert(self.grid()[r2][c2] == before[r2][c2]);
                    if on_snapshot(snap, i + 1, r2, c2) {
                        let j = choose|j: int|
                            0 <= j < i + 1 && #[trigger] snap[j].0 == r2 && snap[j].1 == c2;
                        assert(j != i);
                        assert(on_snapshot(snap, i as int, r2, c2));
                    }
                    if on_snapshot(snap, i as int, r2, c2) {
                        let j = choose|j: int|
                            0 <= j < i && #[trigger] snap[j].0 == r2 && snap[j].1 == c2;
                        assert(on_snapshot(snap, i + 1, r2, c2));
                    }
                }
            }
            i = i + 1;
        }
        self.count_tile = self.initial_count_tile;
        assert forall|r: int| 0 <= r < h implies #[trigger] self.grid()[r] =~= g0[r] by {
            assert forall|c: int| 0 <= c < w implies #[trigger] self.grid()[r][c] == g0[r][c] by {
                assert(in_grid(g1, r, c));
                if !on_snapshot(snap, n as int, r, c) {
                    assert(g1[r][c] >= 0);
                    assert(g0[r][c] >= 0);
                }
            }
        }
        assert(self.grid() =~= g0);
    }

    /// The tile at `(row, col)`, taken to hold `value`, may slide in
    /// `direction`: the cell `value` away is on the board and occupied.
    pub fn is_valid_direction(&self, row: usize, col: usize, value: usize, direction: Direction) -> (r:
        bool)
        requires
            self.wf(),
            row < self.height,
            col < self.width,
        ensures
            r == ({
                let t = target_of(row as int, col as int, direction, value as int);
                in_grid(self.grid(), t.0, t.1) && self.grid()[t.0][t.1] > 0
            }),
    {
        proof {
            self.lemma_rows();
        }
        match direction {
            Direction::Up => row >= value && self.board[row - value][col] > 0,
            Direction::Down => value < self.height - row && self.board[row + value][col] > 0,
            Direction::Left => col >= value && self.board[row][col - value] > 0,
            Direction::Right => value < self.width - col && self.board[row][col + value] > 0,
        }
    }

    /// The move can be played on the live board.
    pub fn is_legal(&self, action: &Action) -> (r: bool)
        requires
            self.wf(),
        ensures
            r == legal_action(self.grid(), *action),
    {
        proof {
            self.lemma_rows();
        }
        if action.row >= self.height || action.col >= self.width {
            return false;
        }
        let value = self.board[action.row][action.col];
        value > 0 && self.is_valid_direction(action.row, action.col, value as usize, action.direction)
    }

    /// Plays a move: the source cell is emptied and the target cell takes
    /// the sum or the absolute difference of the two tiles. A move that is
    /// not legal leaves the board as it is and fails.
    pub fn apply_action(&mut self, action: &Action) -> (r: Result<(), IllegalMove>)
        requires
            old(self).wf(),
        ensures
            final(self).wf(),
            final(self).same_setup(old(self)),
            r is Ok <==> legal_action(old(self).grid(), *action),
            r is Ok ==> final(self).grid() == apply_move(old(self).grid(), *action),
            r is Err ==> final(self).grid() == old(self).grid(),
    {
        if !self.is_legal(action) {
            return Err(IllegalMove);
        }
        let ghost g = self.grid();
        proof {
            self.lemma_rows();
            lemma_apply_move(g, *action, self.height as int, self.width as int);
            lemma_grid_bounds(apply_move(g, *action));
        }
        let row = action.row;
        let col = action.col;
        let source = self.board[row][col];
        let value = source as usize;
        let (r2, c2) = match action.direction {
            Direction::Up => (row - value, col),
            Direction::Down => (row + value, col),
            Direction::Left => (row, col - value),
            Direction::Right => (row, col + value),
        };
        let target = self.board[r2][c2];
        let merged: i16 = match action.op {
            Operation::Plus => source + target,
            Operation::Minus => if source >= target {
                source - target
            } else {
                target - source
            },
        };
        assert(merged == combine(action.op, source as int, target as int));
        self.write_cell(row, col, 0);
        self.write_cell(r2, c2, merged);
        if merged == 0 {
            self.count_tile = self.count_tile - 2;
        } else {
            self.count_tile = self.count_tile - 1;
        }
        let ghost g2 = self.grid();
        assert(g2 == apply_move(g, *action));
        assert forall|r: int, c: int| in_grid(g2, r, c) && #[trigger] g2[r][c] > 0 implies on_snapshot(
            self.snap(),
            self.snap().len() as int,
            r,
            c,
        ) by {
            if !(r == r2 && c == c2) {
                assert(g2[r][c] == g[r][c]);
            }
            assert(g[r][c] > 0);
        }
        Ok(())
    }

    /// Every starting tile's cell is empty, which is to say the whole board is.
    pub fn is_solved(&self) -> (r: bool)
        requires
            self.wf(),
        ensures
            r == self.solved_spec(),
            r == all_zero(self.grid()),
    {
        let n = self.init_state.len();
        let mut i: usize = 0;
        while i < n
            invariant
                self.wf(),
                n == self.snap().len(),
                0 <= i <= n,
                forall|j: int| 0 <= j < i ==> #[trigger] self.snap_value(j) == 0,
            decreases n - i,
        {
            proof {
                self.lemma_rows();
            }
            let (r, c, _) = self.init_state[i];
            if self.board[r][c] > 0 {
                proof {
                    let g = self.grid();
                    assert(in_grid(g, r as int, c as int));
                    assert(g[r as int][c as int] != 0);
                    assert(self.snap_value(i as int) != 0);
                }
                return false;
            }
            proof {
                assert(self.grid()[r as int][c as int] >= 0);
            }
            i = i + 1;
        }
        proof {
            let g = self.grid();
            assert forall|r: int, c: int| in_grid(g, r, c) implies #[trigger] g[r][c] == 0 by {
                if g[r][c] > 0 {
                    let j = choose|j: int|
                        0 <= j < n && #[trigger] self.snap()[j].0 == r && self.snap()[j].1 == c;
                    assert(self.snap_value(j) == 0);
                }
                assert(g[r][c] >= 0);
            }
        }
        true
    }
}

impl GameState {
    /// How many of the first `k` starting tiles' cells are still occupied.
    pub open spec fn tiles_left(&self, k: int) -> int
        decreases k,
    {
        if k <= 0 {
            0
        } else {
            self.tiles_left(k - 1) + if self.snap_value(k - 1) > 0 {
                1int
            } else {
                0
            }
        }
    }

    /// The sum of the values on the first `k` starting tiles' cells.
    pub open spec fn sum_left(&self, k: int) -> int
        decreases k,
    {
        if k <= 0 {
            0
        } else {
            self.sum_left(k - 1) + if self.snap_value(k - 1) > 0 {
                self.snap_value(k - 1)
            } else {
                0
            }
        }
    }

    /// Row `r` holds one of the first `k` starting tiles' cells, still occupied.
    pub open spec fn row_used(&self, r: int, k: int) -> bool {
        exists|j: int| 0 <= j < k && #[trigger] self.snap()[j].0 == r && self.snap_value(j) > 0
    }

    /// Column `c` holds one of the first `k` starting tiles' cells, still occupied.
    pub open spec fn col_used(&self, c: int, k: int) -> bool {
        exists|j: int| 0 <= j < k && #[trigger] self.snap()[j].1 == c && self.snap_value(j) > 0
    }

    /// How many of the rows below `m` hold an occupied starting tile's cell.
    pub open spec fn rows_used(&self, m: int) -> int
        decreases m,
    {
        if m <= 0 {
            0
        } else {
            self.rows_used(m - 1) + if self.row_used(m - 1, self.snap().len() as int) {
                1int
            } else {
                0
            }
        }
    }

    /// How many of the columns below `m` hold an occupied starting tile's cell.
    pub open spec fn cols_used(&self, m: int) -> int
        decreases m,
    {
        if m <= 0 {
            0
        } else {
            self.cols_used(m - 1) + if self.col_used(m - 1, self.snap().len() as int) {
                1int
            } else {
                0
            }
        }
    }

    /// The weighted score: `f1` per occupied starting tile, `f2` per unit of
    /// value left on them, `f3` per row and per column that still holds one.
    pub open spec fn score_spec(&self, f1: int, f2: int, f3: int) -> int {
        let n = self.snap().len() as int;
        f1 * self.tiles_left(n) + f2 * self.sum_left(n) + f3 * (self.rows_used(self.height as int)
            + self.cols_used(self.width as int))
    }

    /// Counts the marked entries of `marks` that `used` describes.
    fn count_marks(marks: &Vec<bool>, used: Ghost<spec_fn(int) -> bool>) -> (r: u64)
        requires
            marks@.len() <= MAX_SIDE,
            forall|i: int| 0 <= i < marks@.len() ==> #[trigger] marks@[i] == used@(i),
        ensures
            r == count_true(used@, marks@.len() as int),
            r <= marks@.len(),
    {
        let mut k: usize = 0;
        let mut cnt: u64 = 0;
        while k < marks.len()
            invariant
                0 <= k <= marks@.len() <= MAX_SIDE,
                forall|i: int| 0 <= i < marks@.len() ==> #[trigger] marks@[i] == used@(i),
                cnt == count_true(used@, k as int),
                cnt <= k,
            decreases marks@.len() - k,
        {
            if marks[k] {
                cnt = cnt + 1;
            }
            k = k + 1;
        }
        cnt
    }

    /// The weighted score of the live board: lower is closer to solved, and
    /// `0` with a positive tile or sum weight means solved.
    pub fn score(&self, f1: u32, f2: u32, f3: u32) -> (r: u64)
        requires
            self.wf(),
        ensures
            r == self.score_spec(f1 as int, f2 as int, f3 as int),
    {
        proof {
            self.lemma_rows();
            lemma_grid_bounds(self.initial@);
        }
        let n = self.init_state.len();
        let mut tiles: u64 = 0;
        let mut sum: u64 = 0;
        let mut rows_mark: Vec<bool> = vec![false; self.height];
        let mut cols_mark: Vec<bool> = vec![false; self.width];
        let mut i: usize = 0;
        while i < n
            invariant
                self.wf(),
                n == self.snap().len(),
                n <= MAX_TOTAL,
                0 <= i <= n,
                tiles == self.tiles_left(i as int),
                sum == self.sum_left(i as int),
                tiles <= i,
                sum <= MAX_TOTAL * i,
                rows_mark@.len() == self.height,
                cols_mark@.len() == self.width,
                forall|r: int| 0 <= r < self.height ==> #[trigger] rows_mark@[r] == self.row_used(r, i as int),
                forall|c: int| 0 <= c < self.width ==> #[trigger] cols_mark@[c] == self.col_used(c, i as int),
            decreases n - i,
        {
            proof {
                self.lemma_rows();
            }
            let (r, c, _) = self.init_state[i];
            let v = self.board[r][c];
            let ghost before_sum = sum;
            let ghost before_rows = rows_mark@;
            let ghost before_cols = cols_mark@;
            if v > 0 {
                tiles = tiles + 1;
                sum = sum + v as u64;
                rows_mark.set(r, true);
                cols_mark.set(c, true);
            }
            proof {
                let k = i as int;
                assert(self.snap_value(k) == v);
                assert forall|r2: int| 0 <= r2 < self.height implies #[trigger] rows_mark@[r2]
                    == self.row_used(r2, k + 1) by {
                    if self.row_used(r2, k + 1) && !(v > 0 && r2 == r) {
                        let j = choose|j: int|
                            0 <= j < k + 1 && #[trigger] self.snap()[j].0 == r2 && self.snap_value(j) > 0;
                        assert(j != k);
                        assert(self.row_used(r2, k));
                    }
                    if self.row_used(r2, k) {
                        let j = choose|j: int|
                            0 <= j < k && #[trigger] self.snap()[j].0 == r2 && self.snap_value(j) > 0;
                        assert(self.row_used(r2, k + 1));
                    }
                    if v > 0 && r2 == r {
                        assert(self.snap()[k].0 == r2);
                        assert(self.row_used(r2, k + 1));
                    }
                }
                assert forall|c2: int| 0 <= c2 < self.width implies #[trigger] cols_mark@[c2]
                    == self.col_used(c2, k + 1) by {
                    if self.col_used(c2, k + 1) && !(v > 0 && c2 == c) {
                        let j = choose|j: int|
                            0 <= j < k + 1 && #[trigger] self.snap()[j].1 == c2 && self.snap_value(j) > 0;
                        assert(j != k);
                        assert(self.col_used(c2, k));
                    }
                    if self.col_used(c2, k) {
                        let j = choose|j: int|
                            0 <= j < k && #[trigger] self.snap()[j].1 == c2 && self.snap_value(j) > 0;
                        assert(self.col_used(c2, k + 1));
                    }
                    if v > 0 && c2 == c {
                        assert(self.snap()[k].1 == c2);
                        assert(self.col_used(c2, k + 1));
                    }
                }
                assert(sum <= MAX_TOTAL * (i + 1)) by (nonlinear_arith)
                    requires
                        sum <= before_sum + MAX_TOTAL,
                        before_sum <= MAX_TOTAL * i,
                ;
            }
            i = i + 1;
        }
        let n_int = n;
        let ghost rows_used = |r: int| self.row_used(r, n_int as int);
        let ghost cols_used = |c: int| self.col_used(c, n_int as int);
        let rows = Self::count_marks(&rows_mark, Ghost(rows_used));
        let cols = Self::count_marks(&cols_mark, Ghost(cols_used));
        proof {
            self.lemma_count_rows(self.height as int);
            self.lemma_count_cols(self.width as int);
            assert(tiles <= 32767);
            assert(sum <= 32767 * 32767) by (nonlinear_arith)
                requires
                    sum <= 32767 * n,
                    n <= 32767,
            ;
            assert(f1 as u64 * tiles <= 0xFFFF_FFFF * 32767) by (nonlinear_arith)
                requires
                    f1 <= 0xFFFF_FFFF,
                    tiles <= 32767,
            ;
            assert(f2 as u64 * sum <= 0xFFFF_FFFF * (32767 * 32767)) by (nonlinear_arith)
                requires
                    f2 <= 0xFFFF_FFFF,
                    sum <= 32767 * 32767,
            ;
            assert(f3 as u64 * (rows + cols) <= 0xFFFF_FFFF * 128) by (nonlinear_arith)
                requires
                    f3 <= 0xFFFF_FFFF,
                    rows + cols <= 128,
            ;
        }
        f1 as u64 * tiles + f2 as u64 * sum + f3 as u64 * (rows + cols)
    }

    proof fn lemma_count_rows(&self, m: int)
        ensures
            self.rows_used(m) == count_true(|r: int| self.row_used(r, self.snap().len() as int), m),
        decreases m,
    {
        if m > 0 {
            self.lemma_count_rows(m - 1);
        }
    }

    proof fn lemma_count_cols(&self, m: int)
        ensures
            self.cols_used(m) == count_true(|c: int| self.col_used(c, self.snap().len() as int), m),
        decreases m,
    {
        if m > 0 {
            self.lemma_count_cols(m - 1);
        }
    }
}

/// How many of `0, 1, .., m - 1` satisfy `p`.
pub open spec fn count_true(p: spec_fn(int) -> bool, m: int) -> int
    decreases m,
{
    if m <= 0 {
        0
    } else {
        count_true(p, m - 1) + if p(m - 1) {
            1int
        } else {
            0
        }
    }
}

impl GameState {
    proof fn lemma_left_zero(&self, k: int)
        requires
            self.wf(),
            0 <= k <= self.snap().len(),
        ensures
            self.tiles_left(k) >= 0,
            self.sum_left(k) >= 0,
            (self.tiles_left(k) == 0) <==> (forall|j: int| 0 <= j < k ==> #[trigger] self.snap_value(j) == 0),
            (self.sum_left(k) == 0) <==> (forall|j: int| 0 <= j < k ==> #[trigger] self.snap_value(j) == 0),
        decreases k,
    {
        if k > 0 {
            self.lemma_left_zero(k - 1);
            let snap = self.snap();
            let g = self.grid();
            assert(in_grid(g, snap[k - 1].0 as int, snap[k - 1].1 as int));
            assert(self.snap_value(k - 1) >= 0);
        }
    }

    proof fn lemma_used_counts(&self, m: int)
        ensures
            self.rows_used(m) >= 0,
            self.cols_used(m) >= 0,
            self.solved_spec() ==> self.rows_used(m) == 0 && self.cols_used(m) == 0,
        decreases m,
    {
        if m > 0 {
            self.lemma_used_counts(m - 1);
            let n = self.snap().len() as int;
            if self.solved_spec() && self.row_used(m - 1, n) {
                let j = choose|j: int|
                    0 <= j < n && #[trigger] self.snap()[j].0 == m - 1 && self.snap_value(j) > 0;
                assert(self.snap_value(j) == 0);
            }
            if self.solved_spec() && self.col_used(m - 1, n) {
                let j = choose|j: int|
                    0 <= j < n && #[trigger] self.snap()[j].1 == m - 1 && self.snap_value(j) > 0;
                assert(self.snap_value(j) == 0);
            }
        }
    }

    /// A solved board scores zero under every weighting, and a board that
    /// scores zero under a weighting with a positive weight is solved.
    pub proof fn lemma_score_zero(&self, f1: int, f2: int, f3: int)
        requires
            self.wf(),
            f1 >= 0,
            f2 >= 0,
            f3 >= 0,
        ensures
            self.score_spec(f1, f2, f3) >= 0,
            self.solved_spec() ==> self.score_spec(f1, f2, f3) == 0,
            (f1 > 0 || f2 > 0 || f3 > 0) && self.score_spec(f1, f2, f3) == 0 ==> self.solved_spec(),
    {
        let n = self.snap().len() as int;
        self.lemma_left_zero(n);
        self.lemma_used_counts(self.height as int);
        self.lemma_used_counts(self.width as int);
        let t = self.tiles_left(n);
        let s = self.sum_left(n);
        let u = self.rows_used(self.height as int) + self.cols_used(self.width as int);
        assert(f1 * t >= 0 && f2 * s >= 0 && f3 * u >= 0) by (nonlinear_arith)
            requires
                f1 >= 0,
                f2 >= 0,
                f3 >= 0,
                t >= 0,
                s >= 0,
                u >= 0,
        ;
        if self.solved_spec() {
            assert(f1 * t == 0 && f2 * s == 0 && f3 * u == 0) by (nonlinear_arith)
                requires
                    t == 0,
                    s == 0,
                    u == 0,
            ;
        }
        if (f1 > 0 || f2 > 0 || f3 > 0) && self.score_spec(f1, f2, f3) == 0 {
            assert(t == 0 || s == 0 || u == 0) by (nonlinear_arith)
                requires
                    f1 * t + f2 * s + f3 * u == 0,
                    f1 * t >= 0,
                    f2 * s >= 0,
                    f3 * u >= 0,
                    f1 > 0 || f2 > 0 || f3 > 0,
                    t >= 0,
                    s >= 0,
                    u >= 0,
            ;
            if u == 0 {
                self.lemma_no_rows_used(self.height as int);
                assert forall|j: int| 0 <= j < n implies #[trigger] self.snap_value(j) == 0 by {
                    let r = self.snap()[j].0 as int;
                    if self.snap_value(j) > 0 {
                        assert(self.row_used(r, n));
                    }
                }
            }
        }
    }

    proof fn lemma_no_rows_used(&self, m: int)
        requires
            self.rows_used(m) == 0,
        ensures
            forall|r: int| 0 <= r < m ==> !#[trigger] self.row_used(r, self.snap().len() as int),
        decreases m,
    {
        if m > 0 {
            self.lemma_used_counts(m - 1);
            self.lemma_no_rows_used(m - 1);
        }
    }

    /// Draws a legal move of the tile at `(row, col)`: a direction is drawn
    /// and the others are tried in turn from it; the sign is `+` one time in
    /// four. `None` when the tile has no legal move.
    pub fn get_random_action(&self, row: usize, col: usize, generator: &mut StdRng) -> (r: Option<Action>)
        requires
            self.wf(),
            row < self.height,
            col < self.width,
        ensures
            match r {
                Some(a) => a.row == row && a.col == col && legal_action(self.grid(), a),
                None => stuck(self.grid(), row as int, col as int),
            },
    {
        proof {
            self.lemma_rows();
        }
        let value = self.board[row][col];
        if value <= 0 || (value as usize >= self.width && value as usize >= self.height) {
            proof {
                let g = self.grid();
                assert forall|d: Direction| !#[trigger] legal_move(g, row as int, col as int, d) by {
                    if value > 0 {
                        let t = target_of(row as int, col as int, d, value as int);
                        assert(!in_grid(g, t.0, t.1));
                    }
                }
            }
            return None;
        }
        let value = value as usize;
        let start = random_below(generator, 4);
        let mut k: usize = 0;
        while k < 4
            invariant
                self.wf(),
                row < self.height,
                col < self.width,
                start < 4,
                k <= 4,
                value == self.grid()[row as int][col as int],
                value > 0,
                forall|t: int| 0 <= t < k ==> !legal_move(self.grid(), row as int, col as int, #[trigger] direction_of((start + t) % 4)),
            decreases 4 - k,
        {
            let direction = Direction::from_index(((start + k) % 4) as u8);
            if self.is_valid_direction(row, col, value, direction) {
                let plus = random_below(generator, 4) == 0;
                let op = if plus {
                    Operation::Plus
                } else {
                    Operation::Minus
                };
                return Some(Action { row, col, direction, op });
            }
            k = k + 1;
        }
        proof {
            assert forall|d: Direction| !#[trigger] legal_move(self.grid(), row as int, col as int, d) by {
                let i: int = match d {
                    Direction::Up => 0,
                    Direction::Down => 1,
                    Direction::Left => 2,
                    Direction::Right => 3,
                };
                let t = (i + 4 - start) % 4;
                assert((start + t) % 4 == i);
                assert(direction_of((start + t) % 4) == d);
            }
        }
        None
    }

    /// Draws an occupied starting tile's cell: a snapshot index is drawn and
    /// the following ones are tried in turn, wrapping around. `None` when
    /// the board is solved.
    pub fn get_random_tile(&self, generator: &mut StdRng) -> (r: Option<(usize, usize)>)
        requires
            self.wf(),
        ensures
            match r {
                Some(p) => exists|j: int|
                    0 <= j < self.snap().len() && #[trigger] self.snap()[j].0 == p.0 && self.snap()[j].1
                        == p.1 && self.snap_value(j) > 0,
                None => self.solved_spec(),
            },
    {
        let n = self.init_state.len();
        if n == 0 {
            return None;
        }
        let start = random_below(generator, n);
        let mut i: usize = start;
        while i < n
            invariant
                self.wf(),
                n == self.snap().len(),
                start <= i <= n,
                forall|j: int| start <= j < i ==> #[trigger] self.snap_value(j) == 0,
            decreases n - i,
        {
            proof {
                self.lemma_rows();
            }
            let (r, c, _) = self.init_state[i];
            if self.board[r][c] > 0 {
                assert(self.snap_value(i as int) > 0);
                return Some((r, c));
            }
            assert(self.grid()[r as int][c as int] >= 0);
            i = i + 1;
        }
        let mut i: usize = 0;
        while i < start
            invariant
                self.wf(),
                n == self.snap().len(),
                start < n,
                0 <= i <= start,
                forall|j: int| start <= j < n ==> #[trigger] self.snap_value(j) == 0,
                forall|j: int| 0 <= j < i ==> #[trigger] self.snap_value(j) == 0,
            decreases start - i,
        {
            proof {
                self.lemma_rows();
            }
            let (r, c, _) = self.init_state[i];
            if self.board[r][c] > 0 {
                assert(self.snap_value(i as int) > 0);
                return Some((r, c));
            }
            assert(self.grid()[r as int][c as int] >= 0);
            i = i + 1;
        }
        None
    }

    /// Draws a legal move of the board: starting tiles are tried in turn
    /// from a drawn snapshot index, wrapping around, and the first one with a
    /// legal move gives a drawn one. `None` exactly when no tile can move.
    pub fn random_legal_move(&self, generator: &mut StdRng) -> (r: Option<Action>)
        requires
            self.wf(),
        ensures
            match r {
                Some(a) => legal_action(self.grid(), a),
                None => terminal(self.grid()),
            },
    {
        let n = self.init_state.len();
        let ghost g = self.grid();
        if n == 0 {
            proof {
                self.lemma_stuck_all_terminal();
            }
            return None;
        }
        let start = random_below(generator, n);
        let mut i: usize = start;
        while i < n
            invariant
                self.wf(),
                g == self.grid(),
                n == self.snap().len(),
                start <= i <= n,
                forall|j: int| start <= j < i ==> stuck(g, #[trigger] self.snap()[j].0 as int, self.snap()[j].1 as int),
            decreases n - i,
        {
            let (r, c, _) = self.init_state[i];
            let a = self.get_random_action(r, c, generator);
            if a.is_some() {
                return a;
            }
            i = i + 1;
        }
        let mut i: usize = 0;
        while i < start
            invariant
                self.wf(),
                g == self.grid(),
                n == self.snap().len(),
                start < n,
                0 <= i <= start,
                forall|j: int| start <= j < n ==> stuck(g, #[trigger] self.snap()[j].0 as int, self.snap()[j].1 as int),
                forall|j: int| 0 <= j < i ==> stuck(g, #[trigger] self.snap()[j].0 as int, self.snap()[j].1 as int),
            decreases start - i,
        {
            let (r, c, _) = self.init_state[i];
            let a = self.get_random_action(r, c, generator);
            if a.is_some() {
                return a;
            }
            i = i + 1;
        }
        proof {
            self.lemma_stuck_all_terminal();
        }
        None
    }

    /// When no starting tile's cell has a legal move, no cell has one.
    proof fn lemma_stuck_all_terminal(&self)
        requires
            self.wf(),
            forall|j: int|
                0 <= j < self.snap().len() ==> stuck(self.grid(), #[trigger] self.snap()[j].0 as int, self.snap()[j].1 as int),
        ensures
            terminal(self.grid()),
    {
        let g = self.grid();
        assert forall|r: int, c: int, d: Direction| !#[trigger] legal_move(g, r, c, d) by {
            if legal_move(g, r, c, d) {
                let j = choose|j: int|
                    0 <= j < self.snap().len() && #[trigger] self.snap()[j].0 == r && self.snap()[j].1 == c;
                assert(stuck(g, self.snap()[j].0 as int, self.snap()[j].1 as int));
            }
        }
    }
}

impl GameState {
    /// A board is solved exactly when every one of its cells is empty.
    pub proof fn lemma_solved_all_zero(&self)
        requires
            self.wf(),
        ensures
            self.solved_spec() <==> all_zero(self.grid()),
    {
        let g = self.grid();
        let snap = self.snap();
        if self.solved_spec() {
            assert forall|r: int, c: int| in_grid(g, r, c) implies #[trigger] g[r][c] == 0 by {
                if g[r][c] > 0 {
                    let j = choose|j: int| 0 <= j < snap.len() && #[trigger] snap[j].0 == r && snap[j].1 == c;
                    assert(self.snap_value(j) == 0);
                }
            }
        }
        if all_zero(g) {
            assert forall|i: int| 0 <= i < snap.len() implies #[trigger] self.snap_value(i) == 0 by {
                assert(in_grid(g, snap[i].0 as int, snap[i].1 as int));
            }
        }
    }

    /// Every legal move of the tile at `(row, col)`, each once: the
    /// directions it may slide in, in the order Up, Down, Left, Right, each
    /// with `+` and then `-`.
    pub fn legal_moves_for(&self, row: usize, col: usize) -> (r: Vec<Action>)
        requires
            self.wf(),
        ensures
            r@ == moves_of(self.grid(), row, col),
            r@.len() <= 8,
            forall|k: int|
                0 <= k < r@.len() ==> (#[trigger] r@[k]).row == row && r@[k].col == col
                    && legal_action(self.grid(), r@[k]),
            forall|a: Action|
                a.row == row && a.col == col && legal_action(self.grid(), a) ==> r@.contains(a),
    {
        let mut r: Vec<Action> = Vec::new();
        let mut k: u8 = 0;
        while k < 4
            invariant
                self.wf(),
                k <= 4,
                r@ == moves_in(self.grid(), row, col, k as int),
                r@.len() <= 2 * k,
                forall|j: int|
                    0 <= j < r@.len() ==> (#[trigger] r@[j]).row == row && r@[j].col == col
                        && legal_action(self.grid(), r@[j]),
                forall|a: Action|
                    a.row == row && a.col == col && legal_action(self.grid(), a) && (a.direction
                        == direction_of(0) && 0 < k || a.direction == direction_of(1) && 1 < k
                        || a.direction == direction_of(2) && 2 < k || a.direction == direction_of(3)
                        && 3 < k) ==> r@.contains(a),
            decreases 4 - k,
        {
            let direction = Direction::from_index(k);
            let plus = Action { row, col, direction, op: Operation::Plus };
            if self.is_legal(&plus) {
                let minus = Action { row, col, direction, op: Operation::Minus };
                let ghost before = r@;
                r.push(plus);
                r.push(minus);
                proof {
                    assert(r@ =~= moves_in(self.grid(), row, col, k + 1));
                    assert forall|a: Action|
                        a.row == row && a.col == col && legal_action(self.grid(), a) && (a.direction
                            == direction_of(0) && 0 < k + 1 || a.direction == direction_of(1) && 1
                            < k + 1 || a.direction == direction_of(2) && 2 < k + 1 || a.direction
                            == direction_of(3) && 3 < k + 1) implies r@.contains(a) by {
                        if a.direction == direction {
                            if a.op == Operation::Plus {
                                assert(r@[r@.len() - 2] == a);
                            } else {
                                assert(r@[r@.len() - 1] == a);
                            }
                        } else {
                            let j = choose|j: int| 0 <= j < before.len() && before[j] == a;
                            assert(r@[j] == a);
                        }
                    }
                }
            }
            k = k + 1;
        }
        proof {
            assert forall|a: Action|
                a.row == row && a.col == col && legal_action(self.grid(), a) implies r@.contains(a) by {
                match a.direction {
                    Direction::Up => assert(a.direction == direction_of(0)),
                    Direction::Down => assert(a.direction == direction_of(1)),
                    Direction::Left => assert(a.direction == direction_of(2)),
                    Direction::Right => assert(a.direction == direction_of(3)),
                }
            }
        }
        r
    }
}

impl GameState {
    /// Some tile of the live board is larger than all the others together:
    /// no sequence of moves can clear it from here.
    pub fn impossible_state(&self) -> (r: bool)
        requires
            self.wf(),
        ensures
            r == impossible(self.grid()),
    {
        proof {
            self.lemma_rows();
        }
        let ghost g = self.grid();
        let mut max_value: i16 = self.board[0][0];
        let ghost mut at: (int, int) = (0, 0);
        let mut sum: i16 = 0;
        let mut r: usize = 0;
        while r < self.height
            invariant
                self.wf(),
                g == self.grid(),
                0 <= r <= self.height,
                sum == grid_sum(g.subrange(0, r as int)),
                in_grid(g, at.0, at.1),
                g[at.0][at.1] == max_value,
                forall|r2: int, c2: int| 0 <= r2 < r && in_grid(g, r2, c2) ==> #[trigger] g[r2][c2] <= max_value,
            decreases self.height - r,
        {
            proof {
                self.lemma_rows();
            }
            let row = &self.board[r];
            let mut c: usize = 0;
            while c < self.width
                invariant
                    self.wf(),
                    g == self.grid(),
                    row@ == g[r as int],
                    0 <= r < self.height,
                    0 <= c <= self.width,
                    sum == grid_sum(g.subrange(0, r as int)) + row_sum(g[r as int].subrange(0, c as int)),
                    in_grid(g, at.0, at.1),
                    g[at.0][at.1] == max_value,
                    forall|r2: int, c2: int|
                        (0 <= r2 < r || (r2 == r && 0 <= c2 < c)) && in_grid(g, r2, c2) ==> #[trigger] g[r2][c2]
                            <= max_value,
                decreases self.width - c,
            {
                let cell = row[c];
                if cell > max_value {
                    max_value = cell;
                    proof {
                        at = (r as int, c as int);
                    }
                }
                proof {
                    lemma_scan_sum(g, r as int, c + 1);
                    assert(g[r as int].subrange(0, c + 1).drop_last() =~= g[r as int].subrange(0, c as int));
                }
                sum = sum + cell;
                c = c + 1;
            }
            proof {
                lemma_scan_sum(g, r as int, self.width as int);
                assert(g[r as int].subrange(0, self.width as int) =~= g[r as int]);
            }
            r = r + 1;
        }
        proof {
            assert(g.subrange(0, self.height as int) =~= g);
        }
        2 * (max_value as i32) > sum as i32
    }
}

impl GameState {
    /// The first legal move found by scanning `cells` in order: the first
    /// cell whose tile can move gives the first of its legal moves, in the
    /// order of `legal_moves_for`. `None`
    /// when no tile of `cells` can move.
    pub fn any_legal_move_from(&self, cells: &Vec<(usize, usize)>) -> (r: Option<Action>)
        requires
            self.wf(),
        ensures
            match r {
                Some(a) => legal_action(self.grid(), a) && exists|k: int|
                    0 <= k < cells@.len() && #[trigger] cells@[k] == (a.row, a.col)
                        && moves_of(self.grid(), a.row, a.col).len() > 0
                        && a == moves_of(self.grid(), a.row, a.col)[0] && forall|j: int|
                        0 <= j < k ==> stuck(self.grid(), #[trigger] cells@[j].0 as int, cells@[j].1 as int),
                None => forall|j: int|
                    0 <= j < cells@.len() ==> stuck(self.grid(), #[trigger] cells@[j].0 as int, cells@[j].1 as int),
            },
    {
        let mut k: usize = 0;
        while k < cells.len()
            invariant
                self.wf(),
                0 <= k <= cells@.len(),
                forall|j: int|
                    0 <= j < k ==> stuck(self.grid(), #[trigger] cells@[j].0 as int, cells@[j].1 as int),
            decreases cells@.len() - k,
        {
            let (row, col) = cells[k];
            let moves = self.legal_moves_for(row, col);
            if moves.len() > 0 {
                let a = moves[0];
                assert(cells@[k as int] == (a.row, a.col));
                return Some(a);
            }
            proof {
                assert forall|d: Direction| !#[trigger] legal_move(self.grid(), row as int, col as int, d) by {
                    let a = Action { row, col, direction: d, op: Operation::Plus };
                    if legal_move(self.grid(), row as int, col as int, d) {
                        assert(moves@.contains(a));
                    }
                }
            }
            k = k + 1;
        }
        None
    }
}

} // verus!
