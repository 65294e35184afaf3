use std::time::Duration;
use vstd::prelude::*;

use super::{brief, elapsed, now, shorter, too_short, Strategy};
use crate::board::Board;
use crate::evaluation::Evaluation;
use crate::memo::{appraisal, appraise, memo_view};
use crate::memo_search::{memo_alpha_beta, memo_answer, memo_move, memo_root, memo_search};
use crate::position::spot;
use crate::score::Score;

verus! {

/// Search with a window over a shortlist, with a memory: scores are
/// compared by their weight, the moves of a position are ranked by what
/// is remembered of the positions they lead to, only the best of them,
/// as many as a fifth of the board has cells, are tried, and a position
/// whose score is remembered is not searched again. What is remembered
/// lasts for one search.
#[derive(Clone)]
pub struct AlphaBeta3<E: Evaluation> {
    max_depth: usize,
    evaluation: E,
}

/// Of the ranked moves a search of this kind keeps as many as the board
/// has cells, divided by this.
pub const SHORTLIST_DIVISOR: usize = 5;

impl<E: Evaluation> AlphaBeta3<E> {
    /// The depth to which a search without a budget looks ahead.
    pub closed spec fn depth(&self) -> nat {
        self.max_depth as nat
    }

    /// The evaluation applied at the leaves.
    pub closed spec fn eval(&self) -> E {
        self.evaluation
    }

    pub fn new(evaluation: E, max_depth: usize) -> (s: AlphaBeta3<E>)
        ensures
            s.depth() == max_depth,
            s.eval() == evaluation,
    {
        AlphaBeta3 { evaluation, max_depth }
    }

    pub fn set_max_depth(&mut self, max_depth: usize)
        ensures
            final(self).depth() == max_depth,
            final(self).eval() == old(self).eval(),
    {
        self.max_depth = max_depth;
    }

    /// The score of a board: the score that is remembered for its
    /// position, and else its evaluation.
    pub fn get_score<const SIZE: usize>(
        &self,
        board: &Board<SIZE>,
        score_dict: &Vec<(Board<SIZE>, Score)>,
    ) -> (s: Score)
        ensures
            s == appraisal(self.eval(), memo_view(*score_dict), board@),
    {
        appraise(&self.evaluation, board, score_dict)
    }

    /// The move chosen by a search of the given depth that begins with
    /// nothing remembered.
    pub fn alpha_beta<const SIZE: usize>(&self, board: &Board<SIZE>, depth: usize, quick: bool) -> (mv:
        (usize, usize))
        requires
            !board@.is_full(),
        ensures
            mv == memo_answer(self.eval(), SHORTLIST_DIVISOR, board@, depth as nat, quick),
            board@.is_valid(spot(mv)),
    {
        memo_root(&self.evaluation, SHORTLIST_DIVISOR, board, depth, quick)
    }

    /// The score of the board searched `depth` plies deep with the window
    /// `alpha` to `beta` on the scale of weights, and the move that gives
    /// it. Scores found on the way are added to what is remembered.
    pub fn _alpha_beta<const SIZE: usize>(
        &self,
        board: &Board<SIZE>,
        depth: usize,
        alpha: i128,
        beta: i128,
        quick: bool,
        score_dict: &mut Vec<(Board<SIZE>, Score)>,
    ) -> (r: (Score, Option<(usize, usize)>))
        ensures
            (r.0, memo_view(*final(score_dict))) == memo_search(
                self.eval(),
                SHORTLIST_DIVISOR,
                board@,
                depth as nat,
                alpha as int,
                beta as int,
                quick,
                memo_view(*old(score_dict)),
            ),
            r.1 == memo_move(
                self.eval(),
                SHORTLIST_DIVISOR,
                board@,
                depth as nat,
                alpha as int,
                beta as int,
                quick,
                memo_view(*old(score_dict)),
            ),
            r.1 is Some ==> board@.moves().contains(r.1.unwrap()),
    {
        memo_alpha_beta(
            &self.evaluation,
            SHORTLIST_DIVISOR,
            board,
            depth,
            alpha,
            beta,
            quick,
            score_dict,
        )
    }
}

impl<E: Evaluation> Strategy for AlphaBeta3<E> {
    /// Without a budget, the move chosen by a search of the full depth.
    /// With one, the move of the deepest search that was begun in time.
    fn next_move<const SIZE: usize>(&self, board: &Board<SIZE>, duration: Option<Duration>) -> (mv:
        (usize, usize))
        ensures
            duration is None ==> mv == memo_answer(
                self.eval(),
                SHORTLIST_DIVISOR,
                board@,
                self.depth(),
                false,
            ),
            duration is Some ==> exists|depth: nat|
                1 <= depth && (depth <= self.depth() || depth == 1) && mv == #[trigger] memo_answer(
                    self.eval(),
                    SHORTLIST_DIVISOR,
                    board@,
                    depth,
                    brief(duration),
                ),
    {
        let quick = too_short(&duration);
        match duration {
            None => self.alpha_beta(board, self.max_depth, quick),
            Some(duration_unwrapped) => {
                let time = now();
                let mut depth: usize = 1;
                let mut best_move = self.alpha_beta(board, depth, quick);
                while shorter(&elapsed(&time), &duration_unwrapped) && depth < self.max_depth
                    invariant
                        !board@.is_full(),
                        1 <= depth,
                        depth <= self.max_depth || depth == 1,
                        best_move == memo_answer(
                            self.eval(),
                            SHORTLIST_DIVISOR,
                            board@,
                            depth as nat,
                            quick,
                        ),
                        board@.is_valid(spot(best_move)),
                    decreases self.max_depth - depth,
                {
                    depth += 1;
                    best_move = self.alpha_beta(board, depth, quick);
                }
                best_move
            },
        }
    }
}

} // verus!
