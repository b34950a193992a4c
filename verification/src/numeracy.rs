//! Level bookkeeping for the arithmetic-ordering minigame.
//!
//! Expression generation and value comparison work on machine floats in
//! the surrounding layers and stay outside this crate's core; the level
//! record itself is plain data.

use vstd::prelude::*;

verus! {

/// One difficulty level of the ordering game.
pub struct Level {
    pub number: u32,
    pub expressions_per_round: usize,
}

impl Level {
    /// A level of the given number; every round shows three expressions.
    pub fn new(number: u32) -> (r: Level)
        ensures
            r.number == number,
            r.expressions_per_round == 3,
    {
        Level { number, expressions_per_round: 3 }
    }

    /// How many expressions a round of this level shows.
    pub fn round_len(&self) -> (r: usize)
        ensures
            r == self.expressions_per_round,
    {
        self.expressions_per_round
    }
}

} // verus!
