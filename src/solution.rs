use vstd::prelude::*;

use crate::action::Action;

verus! {

/// A sequence of moves with its score: lower is better, `0` is solved.
pub struct Solution {
    pub actions: Vec<Action>,
    pub score: i32,
}

impl Solution {
    pub fn new(actions: Vec<Action>, score: i32) -> (r: Solution)
        ensures
            r.actions@ == actions@,
            r.score == score,
    {
        Solution { actions, score }
    }
}

} // verus!
