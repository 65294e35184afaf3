use vstd::prelude::*;

use crate::color::Color;
use crate::connect::winner_of;
use crate::evaluation::Evaluation;
use crate::position::{lemma_moves, spot, Position};
use crate::score::Score;

verus! {

/// The side to move would rather have `s` than `best`: White wants a
/// higher score, Black a lower one.
pub open spec fn improves(side: Color, s: Score, best: Score) -> bool {
    if side == Color::White {
        best.below(s)
    } else {
        s.below(best)
    }
}

/// The score from which a side starts to look for its best move: the
/// worst it could get, a game won by the other side.
pub open spec fn worst_for(side: Color) -> Score {
    side.opponent_spec().win_score_spec()
}

/// A position at which the search does not look further: a side has won,
/// no depth is left, the time allowed is too short to look ahead, or no
/// move is left.
pub open spec fn is_leaf(pos: Position, depth: nat, quick: bool) -> bool {
    winner_of(pos) is Some || depth == 0 || quick || pos.moves().len() == 0
}

/// The score of a leaf: the winner's win where a side has won, else the
/// evaluation of the position.
pub open spec fn leaf_score<E: Evaluation>(eval: E, pos: Position) -> Score {
    match winner_of(pos) {
        Some(side) => side.win_score_spec(),
        None => eval.value(pos),
    }
}

/// The minimax score of a position searched `depth` plies deep.
///
/// At a leaf it is the leaf's score. Elsewhere it is the best of the
/// scores of the positions one move away, for the side to move, aged by
/// one ply.
pub open spec fn minimax_score<E: Evaluation>(
    eval: E,
    pos: Position,
    depth: nat,
    quick: bool,
) -> Score
    decreases depth + 1, 0nat,
{
    if is_leaf(pos, depth, quick) {
        leaf_score(eval, pos)
    } else {
        minimax_best(eval, pos, depth, quick, pos.moves().len()).0.aged()
    }
}

/// The best score among the first `k` legal moves and the move that
/// gives it. Of several moves with the best score the first one counts.
pub open spec fn minimax_best<E: Evaluation>(
    eval: E,
    pos: Position,
    depth: nat,
    quick: bool,
    k: nat,
) -> (Score, (usize, usize))
    decreases depth, k + 1,
{
    if k == 0 || depth == 0 {
        (worst_for(pos.next), pos.moves()[0])
    } else {
        let prev = minimax_best(eval, pos, depth, quick, (k - 1) as nat);
        let m = pos.moves()[k - 1];
        let s = minimax_score(eval, pos.played(spot(m)), (depth - 1) as nat, quick);
        if improves(pos.next, s, prev.0) {
            (s, m)
        } else {
            prev
        }
    }
}

/// The move that minimax chooses; none at a leaf.
pub open spec fn minimax_move<E: Evaluation>(
    eval: E,
    pos: Position,
    depth: nat,
    quick: bool,
) -> Option<(usize, usize)> {
    if is_leaf(pos, depth, quick) {
        None
    } else {
        Some(minimax_best(eval, pos, depth, quick, pos.moves().len()).1)
    }
}

/// The move a search answers with: the move it has chosen, and the first
/// legal move where it has chosen none.
pub open spec fn answer(chosen: Option<(usize, usize)>, pos: Position) -> (usize, usize) {
    match chosen {
        Some(m) => m,
        None => pos.moves()[0],
    }
}

/// The best move among the first `k` is one of the legal moves.
pub proof fn lemma_minimax_best_legal<E: Evaluation>(
    eval: E,
    pos: Position,
    depth: nat,
    quick: bool,
    k: nat,
)
    requires
        k <= pos.moves().len(),
        pos.moves().len() > 0,
    ensures
        pos.moves().contains(minimax_best(eval, pos, depth, quick, k).1),
    decreases k,
{
    if k == 0 || depth == 0 {
        assert(pos.moves()[0] == minimax_best(eval, pos, depth, quick, k).1);
    } else {
        lemma_minimax_best_legal(eval, pos, depth, quick, (k - 1) as nat);
        assert(pos.moves()[k - 1] == pos.moves()[k - 1]);
    }
}

/// On a board that is not full the answer of a search is a legal move,
/// provided the move it has chosen, if any, is one.
pub proof fn lemma_answer_legal(chosen: Option<(usize, usize)>, pos: Position)
    requires
        pos.size() <= usize::MAX,
        !pos.is_full(),
        chosen is Some ==> pos.moves().contains(chosen.unwrap()),
    ensures
        pos.is_valid(spot(answer(chosen, pos))),
{
    lemma_moves(pos);
    assert(pos.moves().contains(pos.moves()[0]));
}

} // verus!
