use vstd::prelude::*;

use super::{lemma_moves_to_connect, tempo_differential, weighed, Evaluation};
use crate::board::Board;
use crate::color::Color;
use crate::position::Position;
use crate::score::Score;

verus! {

/// Scores a position by the difference of the stones the two sides still
/// need, with the stones of the side that has just moved counted twice.
#[derive(Clone, Copy)]
pub struct Evaluation3;

impl Evaluation for Evaluation3 {
    open spec fn value(&self, pos: Position) -> Score {
        tempo_differential(pos)
    }

    fn score<const SIZE: usize>(&self, board: &Board<SIZE>) -> (s: Score) {
        let black = board.missing_move_to_win2(Color::Black);
        let white = board.missing_move_to_win2(Color::White);
        proof {
            lemma_moves_to_connect(board@, Color::Black, black);
            lemma_moves_to_connect(board@, Color::White, white);
        }
        match (black, white) {
            (None, _) => Score::WhiteCheckMate,
            (_, None) => Score::BlackCheckMate,
            (Some(missing_move_to_win_black), Some(missing_move_to_win_white)) => {
                match board.next_color() {
                    Color::Black => Score::Advantage(
                        weighed(missing_move_to_win_black, 1, missing_move_to_win_white, 2),
                    ),
                    _ => Score::Advantage(
                        weighed(missing_move_to_win_black, 2, missing_move_to_win_white, 1),
                    ),
                }
            },
        }
    }
}

impl Evaluation3 {
    pub fn new() -> Evaluation3 {
        Evaluation3 {  }
    }
}

impl Default for Evaluation3 {
    fn default() -> Self {
        Self::new()
    }
}

} // verus!
