use std::time::Duration;
use vstd::prelude::*;

use super::{brief, elapsed, now, shorter, too_short, Strategy};
use crate::board::Board;
use crate::color::Color;
use crate::evaluation::Evaluation;
use crate::game_tree::{
    answer, improves, is_leaf, leaf_score, lemma_answer_legal, lemma_minimax_best_legal,
    minimax_best, minimax_move, minimax_score, worst_for,
};
use crate::position::{lemma_moves, spot};
use crate::score::Score;

verus! {

/// Plain minimax search: every line of play is followed to the depth
/// given, and each side is taken to choose what is best for it.
#[derive(Clone)]
pub struct MiniMax<E: Evaluation> {
    max_depth: usize,
    evaluation: E,
}

impl<E: Evaluation> MiniMax<E> {
    /// The depth to which a search without a budget looks ahead.
    pub closed spec fn depth(&self) -> nat {
        self.max_depth as nat
    }

    /// The evaluation applied at the leaves.
    pub closed spec fn eval(&self) -> E {
        self.evaluation
    }

    pub fn new(evaluation: E, max_depth: usize) -> (s: MiniMax<E>)
        ensures
            s.depth() == max_depth,
            s.eval() == evaluation,
    {
        MiniMax { evaluation, max_depth }
    }

    pub fn set_max_depth(&mut self, max_depth: usize)
        ensures
            final(self).depth() == max_depth,
            final(self).eval() == old(self).eval(),
    {
        self.max_depth = max_depth;
    }

    /// The move chosen by a search of the given depth, or the first legal
    /// move where the search stops at the root.
    pub fn minimax<const SIZE: usize>(&self, board: &Board<SIZE>, depth: usize, quick: bool) -> (mv:
        (usize, usize))
        requires
            !board@.is_full(),
        ensures
            mv == answer(minimax_move(self.eval(), board@, depth as nat, quick), board@),
            board@.is_valid(spot(mv)),
    {
        let found = self._minimax(board, depth, quick);
        let _ = board.size();
        proof {
            lemma_answer_legal(found.1, board@);
        }
        match found.1 {
            Some(mv) => mv,
            None => {
                let first = board.first_possible_move();
                first.unwrap()
            },
        }
    }

    /// The minimax score of the board and the move that gives it.
    pub fn _minimax<const SIZE: usize>(&self, board: &Board<SIZE>, depth: usize, quick: bool) -> (r:
        (Score, Option<(usize, usize)>))
        ensures
            r.0 == minimax_score(self.eval(), board@, depth as nat, quick),
            r.1 == minimax_move(self.eval(), board@, depth as nat, quick),
            r.0.plies() <= depth,
            r.1 is Some ==> board@.moves().contains(r.1.unwrap()),
        decreases depth,
    {
        if let Some(winner) = board.winner() {
            return (winner.win_score(), None);
        }
        if depth == 0 || quick {
            return (self.evaluation.score(board), None);
        }
        let moves = board.possible_moves();
        if moves.len() == 0 {
            return (self.evaluation.score(board), None);
        }
        let side = board.next_color();
        let mut best_score = side.opponent().win_score();
        let mut best_move = moves[0];
        let mut k: usize = 0;
        while k < moves.len()
            invariant
                0 <= k <= moves.len(),
                moves@ == board@.moves(),
                moves.len() > 0,
                depth > 0,
                side == board@.next,
                forall|i: int| 0 <= i < moves.len() ==> board@.is_valid(spot(#[trigger] moves[i])),
                (best_score, best_move) == minimax_best(
                    self.eval(),
                    board@,
                    depth as nat,
                    quick,
                    k as nat,
                ),
                best_score.plies() <= depth - 1,
            decreases moves.len() - k,
        {
            let (x, y) = moves[k];
            let mut new_board = board.clone();
            new_board.play(x, y);
            let (score, _) = self._minimax(&new_board, depth - 1, quick);
            let better = if side == Color::White {
                score > best_score
            } else {
                score < best_score
            };
            if better {
                best_score = score;
                best_move = (x, y);
            }
            k += 1;
        }
        proof {
            lemma_minimax_best_legal(self.eval(), board@, depth as nat, quick, moves.len() as nat);
        }
        best_score.next_back();
        (best_score, Some(best_move))
    }
}

impl<E: Evaluation> Strategy for MiniMax<E> {
    /// Without a budget, the move chosen by a search of the full depth.
    /// With one, the move of the deepest search that was begun in time:
    /// searches of depth one, two and so on are run until the budget is
    /// used up or the full depth is reached.
    fn next_move<const SIZE: usize>(&self, board: &Board<SIZE>, duration: Option<Duration>) -> (mv:
        (usize, usize))
        ensures
            duration is None ==> mv == answer(
                minimax_move(self.eval(), board@, self.depth(), false),
                board@,
            ),
            duration is Some ==> exists|depth: nat|
                1 <= depth && (depth <= self.depth() || depth == 1) && mv == answer(
                    #[trigger] minimax_move(self.eval(), board@, depth, brief(duration)),
                    board@,
                ),
    {
        match duration {
            None => self.minimax(board, self.max_depth, false),
            Some(duration_unwrapped) => {
                let quick = too_short(&duration);
                let time = now();
                let mut depth: usize = 1;
                let mut best_move = self.minimax(board, depth, quick);
                while shorter(&elapsed(&time), &duration_unwrapped) && depth < self.max_depth
                    invariant
                        !board@.is_full(),
                        1 <= depth,
                        depth <= self.max_depth || depth == 1,
                        best_move == answer(
                            minimax_move(self.eval(), board@, depth as nat, quick),
                            board@,
                        ),
                        board@.is_valid(spot(best_move)),
                    decreases self.max_depth - depth,
                {
                    depth += 1;
                    best_move = self.minimax(board, depth, quick);
                }
                best_move
            },
        }
    }
}

} // verus!
