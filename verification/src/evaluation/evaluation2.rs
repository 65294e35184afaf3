use vstd::prelude::*;

use super::{differential, lemma_moves_to_connect, weighed, Evaluation};
use crate::board::Board;
use crate::color::Color;
use crate::position::Position;
use crate::score::Score;

verus! {

/// Scores a position by the difference of the stones the two sides still
/// need, read from the distance matrices.
#[derive(Clone, Copy)]
pub struct Evaluation2;

impl Evaluation for Evaluation2 {
    open spec fn value(&self, pos: Position) -> Score {
        differential(pos)
    }

    fn score<const SIZE: usize>(&self, board: &Board<SIZE>) -> (s: Score) {
        let black = board.missing_move_to_win2(Color::Black);
        let white = board.missing_move_to_win2(Color::White);
        proof {
            lemma_moves_to_connect(board@, Color::Black, black);
            lemma_moves_to_connect(board@, Color::White, white);
        }
        match (black, white) {
            (None, _) => Score::WhiteCheckMate,
            (_, None) => Score::BlackCheckMate,
            (Some(missing_move_to_win_black), Some(missing_move_to_win_white)) => Score::Advantage(
                weighed(missing_move_to_win_black, 1, missing_move_to_win_white, 1),
            ),
        }
    }
}

impl Evaluation2 {
    pub fn new() -> Evaluation2 {
        Evaluation2 {  }
    }
}

impl Default for Evaluation2 {
    fn default() -> Self {
        Self::new()
    }
}

} // verus!
