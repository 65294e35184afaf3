use std::time::Duration;
use vstd::prelude::*;

use super::{brief, too_short, Strategy};
use crate::board::Board;
use crate::evaluation::Evaluation;
use crate::position::spot;
use crate::pruning::{
    alpha_beta_answer, alpha_beta_deepening, alpha_beta_move, alpha_beta_score,
    alpha_beta_search, deepened,
};
use crate::ranking::MoveOrder;
use crate::score::Score;

verus! {

/// Search with a window that tries the most promising moves first: the
/// moves of a position are ranked by the evaluation of the positions they
/// lead to. The strategy carries a budget of its own, which decides
/// whether its searches look ahead at all.
#[derive(Clone)]
pub struct AlphaBeta2<E: Evaluation> {
    max_depth: usize,
    evaluation: E,
    duration: Option<Duration>,
    quick: bool,
}

impl<E: Evaluation> AlphaBeta2<E> {
    /// The depth to which a search without a budget looks ahead.
    pub closed spec fn depth(&self) -> nat {
        self.max_depth as nat
    }

    /// The evaluation applied at the leaves.
    pub closed spec fn eval(&self) -> E {
        self.evaluation
    }

    /// The order in which the moves of a position are tried.
    pub open spec fn order() -> MoveOrder {
        MoveOrder::Ranked { divisor: 1 }
    }

    /// Whether the strategy's own budget is brief: too short to look
    /// ahead.
    pub closed spec fn hurried(&self) -> bool {
        self.quick
    }

    pub fn new(evaluation: E, max_depth: usize, duration: Option<Duration>) -> (s: AlphaBeta2<E>)
        ensures
            s.depth() == max_depth,
            s.eval() == evaluation,
            s.hurried() == brief(duration),
    {
        AlphaBeta2 { evaluation, max_depth, quick: too_short(&duration), duration }
    }

    pub fn set_max_depth(&mut self, max_depth: usize)
        ensures
            final(self).depth() == max_depth,
            final(self).eval() == old(self).eval(),
            final(self).hurried() == old(self).hurried(),
    {
        self.max_depth = max_depth;
    }

    pub fn set_duration(&mut self, duration: Option<Duration>)
        ensures
            final(self).depth() == old(self).depth(),
            final(self).eval() == old(self).eval(),
            final(self).hurried() == brief(duration),
    {
        self.quick = too_short(&duration);
        self.duration = duration;
    }

    /// The score of the board searched `depth` plies deep with the window
    /// `alpha` to `beta`, and the move that gives it.
    pub fn _alpha_beta<const SIZE: usize>(
        &self,
        board: &Board<SIZE>,
        depth: usize,
        alpha: Score,
        beta: Score,
        quick: bool,
    ) -> (r: (Score, Option<(usize, usize)>))
        ensures
            r.0 == alpha_beta_score(
                self.eval(),
                Self::order(),
                board@,
                depth as nat,
                alpha,
                beta,
                quick,
            ),
            r.1 == alpha_beta_move(
                self.eval(),
                Self::order(),
                board@,
                depth as nat,
                alpha,
                beta,
                quick,
            ),
            r.0.plies() <= depth,
            r.1 is Some ==> board@.is_valid(spot(r.1.unwrap())),
    {
        let r = alpha_beta_search(
            &self.evaluation,
            MoveOrder::Ranked { divisor: 1 },
            board,
            depth,
            alpha,
            beta,
            quick,
        );
        let _ = board.size();
        proof {
            crate::position::lemma_moves(board@);
        }
        r
    }
}

impl<E: Evaluation> Strategy for AlphaBeta2<E> {
    /// Without a budget, the move chosen by a search of the full depth.
    /// With one, the move of the deepest search that was begun in time.
    fn next_move<const SIZE: usize>(&self, board: &Board<SIZE>, duration: Option<Duration>) -> (mv:
        (usize, usize))
        ensures
            duration is None ==> mv == alpha_beta_answer(
                self.eval(),
                Self::order(),
                board@,
                self.depth(),
                self.hurried(),
            ),
            duration is Some ==> deepened(
                self.eval(),
                Self::order(),
                board@,
                self.depth(),
                self.hurried(),
                mv,
            ),
    {
        let quick = self.quick;
        let mv = alpha_beta_deepening(
            &self.evaluation,
            MoveOrder::Ranked { divisor: 1 },
            board,
            self.max_depth,
            duration,
            quick,
        );
        proof {
            if duration is Some {
                assert(deepened(self.eval(), Self::order(), board@, self.depth(), quick, mv));
            }
        }
        mv
    }
}

} // verus!
