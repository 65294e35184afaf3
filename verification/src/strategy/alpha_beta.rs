use std::time::Duration;
use vstd::prelude::*;

use super::{brief, too_short, Strategy};
use crate::board::Board;
use crate::evaluation::Evaluation;
use crate::position::spot;
use crate::pruning::{
    alpha_beta_answer, alpha_beta_deepening, alpha_beta_move, alpha_beta_score,
    alpha_beta_search, deepened,
};
use crate::ranking::MoveOrder;
use crate::score::Score;

verus! {

/// Minimax search with a window: a line of play is dropped as soon as it
/// is seen that one of the sides would not let it happen. The moves of a
/// position are tried row by row.
#[derive(Clone)]
pub struct AlphaBeta<E: Evaluation> {
    max_depth: usize,
    evaluation: E,
}

impl<E: Evaluation> AlphaBeta<E> {
    /// The depth to which a search without a budget looks ahead.
    pub closed spec fn depth(&self) -> nat {
        self.max_depth as nat
    }

    /// The evaluation applied at the leaves.
    pub closed spec fn eval(&self) -> E {
        self.evaluation
    }

    /// The order in which the moves of a position are tried.
    pub open spec fn order() -> MoveOrder {
        MoveOrder::RowMajor
    }

    pub fn new(evaluation: E, max_depth: usize) -> (s: AlphaBeta<E>)
        ensures
            s.depth() == max_depth,
            s.eval() == evaluation,
    {
        AlphaBeta { evaluation, max_depth }
    }

    pub fn set_max_depth(&mut self, max_depth: usize)
        ensures
            final(self).depth() == max_depth,
            final(self).eval() == old(self).eval(),
    {
        self.max_depth = max_depth;
    }

    /// The score of the board searched `depth` plies deep with the window
    /// `alpha` to `beta`, and the move that gives it.
    pub fn _alpha_beta<const SIZE: usize>(
        &self,
        board: &Board<SIZE>,
        depth: usize,
        alpha: Score,
        beta: Score,
        quick: bool,
    ) -> (r: (Score, Option<(usize, usize)>))
        ensures
            r.0 == alpha_beta_score(
                self.eval(),
                Self::order(),
                board@,
                depth as nat,
                alpha,
                beta,
                quick,
            ),
            r.1 == alpha_beta_move(
                self.eval(),
                Self::order(),
                board@,
                depth as nat,
                alpha,
                beta,
                quick,
            ),
            r.0.plies() <= depth,
            r.1 is Some ==> board@.is_valid(spot(r.1.unwrap())),
    {
        let r = alpha_beta_search(
            &self.evaluation,
            MoveOrder::RowMajor,
            board,
            depth,
            alpha,
            beta,
            quick,
        );
        let _ = board.size();
        proof {
            crate::position::lemma_moves(board@);
        }
        r
    }
}

impl<E: Evaluation> Strategy for AlphaBeta<E> {
    /// Without a budget, the move chosen by a search of the full depth.
    /// With one, the move of the deepest search that was begun in time.
    fn next_move<const SIZE: usize>(&self, board: &Board<SIZE>, duration: Option<Duration>) -> (mv:
        (usize, usize))
        ensures
            duration is None ==> mv == alpha_beta_answer(
                self.eval(),
                Self::order(),
                board@,
                self.depth(),
                false,
            ),
            duration is Some ==> deepened(
                self.eval(),
                Self::order(),
                board@,
                self.depth(),
                brief(duration),
                mv,
            ),
    {
        let quick = too_short(&duration);
        let mv = alpha_beta_deepening(
            &self.evaluation,
            MoveOrder::RowMajor,
            board,
            self.max_depth,
            duration,
            quick,
        );
        proof {
            if duration is Some {
                assert(deepened(self.eval(), Self::order(), board@, self.depth(), quick, mv));
            }
        }
        mv
    }
}

} // verus!
