use vstd::prelude::*;

verus! {

/// Which heuristic a weighting of the board score emphasises.
#[derive(Debug, Clone, Copy, PartialEq, Eq, Structural)]
pub enum Metric {
    RemainingSum,
    RemainingTiles,
    ColRowsUsed,
}

impl Metric {
    /// The weights `(tiles, sum, rows_and_cols)` that select this metric alone.
    pub fn weights(&self) -> (r: (u32, u32, u32))
        ensures
            r == metric_weights(*self),
    {
        match self {
            Metric::RemainingSum => (0, 1, 0),
            Metric::RemainingTiles => (1, 0, 0),
            Metric::ColRowsUsed => (0, 0, 1),
        }
    }
}

pub open spec fn metric_weights(m: Metric) -> (u32, u32, u32) {
    match m {
        Metric::RemainingSum => (0, 1, 0),
        Metric::RemainingTiles => (1, 0, 0),
        Metric::ColRowsUsed => (0, 0, 1),
    }
}

/// One of the four axis-aligned directions a tile can slide in.
#[derive(Debug, Clone, Copy, PartialEq, Eq, Structural)]
pub enum Direction {
    Up,
    Down,
    Left,
    Right,
}

/// The one-letter code of a direction.
pub open spec fn direction_code(d: Direction) -> Seq<char> {
    match d {
        Direction::Up => seq!['U'],
        Direction::Down => seq!['D'],
        Direction::Left => seq!['L'],
        Direction::Right => seq!['R'],
    }
}

/// The direction with a given index, in the order Up, Down, Left, Right.
pub open spec fn direction_of(i: int) -> Direction {
    if i == 0 {
        Direction::Up
    } else if i == 1 {
        Direction::Down
    } else if i == 2 {
        Direction::Left
    } else {
        Direction::Right
    }
}

impl Direction {
    pub fn to_string(&self) -> (r: String)
        ensures
            r@ == direction_code(*self),
    {
        let r = match self {
            Direction::Up => String::from_str("U"),
            Direction::Down => String::from_str("D"),
            Direction::Left => String::from_str("L"),
            Direction::Right => String::from_str("R"),
        };
        proof {
            reveal_strlit("U");
            reveal_strlit("D");
            reveal_strlit("L");
            reveal_strlit("R");
        }
        r
    }

    /// The direction with index `i` (Up, Down, Left, Right).
    pub fn from_index(i: u8) -> (r: Direction)
        requires
            i < 4,
        ensures
            r == direction_of(i as int),
    {
        if i == 0 {
            Direction::Up
        } else if i == 1 {
            Direction::Down
        } else if i == 2 {
            Direction::Left
        } else {
            Direction::Right
        }
    }
}

/// How a moved tile combines with the tile it lands on.
#[derive(Debug, Clone, Copy, PartialEq, Eq, Structural)]
pub enum Operation {
    Plus,
    Minus,
}

/// The one-character code of an operation.
pub open spec fn operation_code(o: Operation) -> Seq<char> {
    match o {
        Operation::Plus => seq!['+'],
        Operation::Minus => seq!['-'],
    }
}

impl Operation {
    pub fn to_string(&self) -> (r: String)
        ensures
            r@ == operation_code(*self),
    {
        let r = match self {
            Operation::Plus => String::from_str("+"),
            Operation::Minus => String::from_str("-"),
        };
        proof {
            reveal_strlit("+");
            reveal_strlit("-");
        }
        r
    }
}

} // verus!
