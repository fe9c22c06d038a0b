use vstd::prelude::*;

use crate::enums::{direction_code, operation_code, Direction, Operation};

verus! {

/// A move: slide the tile at `(row, col)` in `direction` and combine it with
/// the tile it lands on by `op`. It holds no tile values: they are read from
/// the board when the move is applied.
#[derive(Debug, Clone, Copy, PartialEq, Eq, Structural)]
pub struct Action {
    pub row: usize,
    pub col: usize,
    pub direction: Direction,
    pub op: Operation,
}

/// The decimal digits of `n`, most significant first.
pub open spec fn decimal(n: nat) -> Seq<char>
    decreases n,
{
    if n < 10 {
        seq![digit_char(n)]
    } else {
        decimal(n / 10) + seq![digit_char(n % 10)]
    }
}

pub open spec fn digit_char(d: nat) -> char {
    if d == 0 { '0' }
    else if d == 1 { '1' }
    else if d == 2 { '2' }
    else if d == 3 { '3' }
    else if d == 4 { '4' }
    else if d == 5 { '5' }
    else if d == 6 { '6' }
    else if d == 7 { '7' }
    else if d == 8 { '8' }
    else { '9' }
}

/// The text of a move: column, row, direction letter and operation sign,
/// separated by single spaces.
pub open spec fn action_text(a: Action) -> Seq<char> {
    decimal(a.col as nat) + seq![' '] + decimal(a.row as nat) + seq![' '] + direction_code(a.direction)
        + seq![' '] + operation_code(a.op)
}

fn digit_str(d: usize) -> (r: &'static str)
    requires
        d < 10,
    ensures
        r@ == seq![digit_char(d as nat)],
{
    proof {
        reveal_strlit("0");
        reveal_strlit("1");
        reveal_strlit("2");
        reveal_strlit("3");
        reveal_strlit("4");
        reveal_strlit("5");
        reveal_strlit("6");
        reveal_strlit("7");
        reveal_strlit("8");
        reveal_strlit("9");
    }
    if d == 0 { "0" }
    else if d == 1 { "1" }
    else if d == 2 { "2" }
    else if d == 3 { "3" }
    else if d == 4 { "4" }
    else if d == 5 { "5" }
    else if d == 6 { "6" }
    else if d == 7 { "7" }
    else if d == 8 { "8" }
    else { "9" }
}

/// Appends the decimal digits of `n` to `s`.
fn push_decimal(s: &mut String, n: usize)
    ensures
        final(s)@ == old(s)@ + decimal(n as nat),
    decreases n,
{
    if n >= 10 {
        push_decimal(s, n / 10);
    }
    s.append(digit_str(n % 10));
}

impl Action {
    pub fn to_string(&self) -> (r: String)
        ensures
            r@ == action_text(*self),
    {
        let mut s = String::new();
        push_decimal(&mut s, self.col);
        s.append(" ");
        push_decimal(&mut s, self.row);
        s.append(" ");
        s.append(self.direction.to_string().as_str());
        s.append(" ");
        s.append(self.op.to_string().as_str());
        proof {
            reveal_strlit(" ");
            assert(s@ =~= action_text(*self));
        }
        s
    }
}

} // verus!
