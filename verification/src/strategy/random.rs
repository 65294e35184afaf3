use std::time::Duration;
use vstd::prelude::*;

use super::Strategy;
use crate::board::Board;
use crate::chance::random_index;

verus! {

/// Plays a legal move chosen at random, each with the same chance.
#[derive(Clone, Copy)]
pub struct Random;

impl Strategy for Random {
    fn next_move<const SIZE: usize>(&self, board: &Board<SIZE>, _duration: Option<Duration>) -> (mv:
        (usize, usize))
        ensures
            board@.moves().contains(mv),
    {
        let moves = board.possible_moves();
        let _ = board.size();
        proof {
            crate::position::lemma_moves(board@);
        }
        let index = random_index(moves.len());
        moves[index]
    }
}

impl Random {
    pub fn new() -> Random {
        Random {  }
    }
}

} // verus!
