use std::time::Duration;
use vstd::prelude::*;

use crate::board::Board;
use crate::color::Color;
use crate::evaluation::Evaluation;
use crate::game_tree::{answer, is_leaf, leaf_score, lemma_answer_legal, worst_for};
use crate::strategy::{elapsed, now, shorter};
use crate::position::{spot, Position};
use crate::ranking::{candidate_moves, candidates, lemma_candidates_legal, MoveOrder};
use crate::score::Score;

verus! {

/// The state of a search with a window while it goes through the moves of
/// one position.
pub struct Scan {
    /// The best score found so far.
    pub value: Score,
    /// The move that gave it.
    pub best: (usize, usize),
    /// What White is sure of already.
    pub alpha: Score,
    /// What Black is sure of already.
    pub beta: Score,
    /// The window has closed: the moves that are left are not looked at.
    pub cut: bool,
}

/// The state before the first move.
pub open spec fn scan_start(pos: Position, alpha: Score, beta: Score) -> Scan {
    Scan { value: worst_for(pos.next), best: pos.moves()[0], alpha, beta, cut: false }
}

/// The state after a move with score `s` has been looked at. White keeps
/// the higher score, raises `alpha` to it, and stops once it is not below
/// `beta`; Black keeps the lower score, lowers `beta` to it, and stops
/// once `alpha` is not below it.
pub open spec fn scan_step(side: Color, w: Scan, m: (usize, usize), s: Score) -> Scan {
    if side == Color::White {
        let value = if w.value.below(s) {
            s
        } else {
            w.value
        };
        Scan {
            value,
            best: if w.value.below(s) {
                m
            } else {
                w.best
            },
            alpha: if w.alpha.below(value) {
                value
            } else {
                w.alpha
            },
            beta: w.beta,
            cut: !value.below(w.beta),
        }
    } else {
        let value = if s.below(w.value) {
            s
        } else {
            w.value
        };
        Scan {
            value,
            best: if s.below(w.value) {
                m
            } else {
                w.best
            },
            alpha: w.alpha,
            beta: if value.below(w.beta) {
                value
            } else {
                w.beta
            },
            cut: !w.alpha.below(value),
        }
    }
}

/// The score that a search with the window `alpha` to `beta` gives a
/// position, `depth` plies deep, trying the moves in the given order.
pub open spec fn alpha_beta_score<E: Evaluation>(
    eval: E,
    order: MoveOrder,
    pos: Position,
    depth: nat,
    alpha: Score,
    beta: Score,
    quick: bool,
) -> Score
    decreases depth + 1, 0nat,
{
    if is_leaf(pos, depth, quick) {
        leaf_score(eval, pos)
    } else {
        alpha_beta_scan(
            eval,
            order,
            pos,
            depth,
            alpha,
            beta,
            quick,
            candidates(order, eval, pos).len(),
        ).value.aged()
    }
}

/// The state of the search after the first `k` candidate moves.
pub open spec fn alpha_beta_scan<E: Evaluation>(
    eval: E,
    order: MoveOrder,
    pos: Position,
    depth: nat,
    alpha: Score,
    beta: Score,
    quick: bool,
    k: nat,
) -> Scan
    decreases depth, k + 1,
{
    if k == 0 || depth == 0 {
        scan_start(pos, alpha, beta)
    } else {
        let prev = alpha_beta_scan(eval, order, pos, depth, alpha, beta, quick, (k - 1) as nat);
        if prev.cut {
            prev
        } else {
            let m = candidates(order, eval, pos)[k - 1];
            let s = alpha_beta_score(
                eval,
                order,
                pos.played(spot(m)),
                (depth - 1) as nat,
                prev.alpha,
                prev.beta,
                quick,
            );
            scan_step(pos.next, prev, m, s)
        }
    }
}

/// The move that the search chooses; none at a leaf.
pub open spec fn alpha_beta_move<E: Evaluation>(
    eval: E,
    order: MoveOrder,
    pos: Position,
    depth: nat,
    alpha: Score,
    beta: Score,
    quick: bool,
) -> Option<(usize, usize)> {
    if is_leaf(pos, depth, quick) {
        None
    } else {
        Some(
            alpha_beta_scan(
                eval,
                order,
                pos,
                depth,
                alpha,
                beta,
                quick,
                candidates(order, eval, pos).len(),
            ).best,
        )
    }
}

/// The best move after the first `k` candidates is one of the legal
/// moves.
pub proof fn lemma_scan_legal<E: Evaluation>(
    eval: E,
    order: MoveOrder,
    pos: Position,
    depth: nat,
    alpha: Score,
    beta: Score,
    quick: bool,
    k: nat,
)
    requires
        k <= candidates(order, eval, pos).len(),
        pos.moves().len() > 0,
    ensures
        pos.moves().contains(alpha_beta_scan(eval, order, pos, depth, alpha, beta, quick, k).best),
    decreases k,
{
    if k == 0 || depth == 0 {
        assert(pos.moves()[0] == scan_start(pos, alpha, beta).best);
    } else {
        lemma_scan_legal(eval, order, pos, depth, alpha, beta, quick, (k - 1) as nat);
        lemma_candidates_legal(order, eval, pos);
        assert(pos.moves().contains(candidates(order, eval, pos)[k - 1]));
    }
}

/// Searches the board `depth` plies deep with the window `alpha` to
/// `beta`, and returns the score and the move that gives it.
///
/// A position where a side has won scores that side's win. At depth
/// zero, on a budget too short to look ahead, and where no move is left,
/// the position's evaluation is its score. Elsewhere the candidate moves
/// are tried in turn on a copy of the board; the side to move keeps the
/// best score, the window narrows with it, and once the window has
/// closed the remaining moves are skipped. The score found is aged by
/// one ply.
pub fn alpha_beta_search<E: Evaluation, const SIZE: usize>(
    eval: &E,
    order: MoveOrder,
    board: &Board<SIZE>,
    depth: usize,
    alpha: Score,
    beta: Score,
    quick: bool,
) -> (r: (Score, Option<(usize, usize)>))
    ensures
        r.0 == alpha_beta_score(*eval, order, board@, depth as nat, alpha, beta, quick),
        r.1 == alpha_beta_move(*eval, order, board@, depth as nat, alpha, beta, quick),
        r.0.plies() <= depth,
        r.1 is Some ==> board@.moves().contains(r.1.unwrap()),
    decreases depth,
{
    if let Some(winner) = board.winner() {
        return (winner.win_score(), None);
    }
    if depth == 0 || quick {
        return (eval.score(board), None);
    }
    let first = match board.first_possible_move() {
        Some(m) => m,
        None => {
            return (eval.score(board), None);
        },
    };
    let possible_moves = candidate_moves(eval, order, board);
    let side = board.next_color();
    let mut alpha = alpha;
    let mut beta = beta;
    let mut value = side.opponent().win_score();
    let mut best_move = first;
    let mut cut = false;
    let ghost base = (alpha, beta);
    let mut k: usize = 0;
    while k < possible_moves.len() && !cut
        invariant
            0 <= k <= possible_moves.len(),
            possible_moves@ == candidates(order, *eval, board@),
            board@.moves().len() > 0,
            depth > 0,
            side == board@.next,
            forall|i: int|
                0 <= i < possible_moves.len() ==> board@.is_valid(
                    spot(#[trigger] possible_moves[i]),
                ),
            (Scan { value, best: best_move, alpha, beta, cut }) == alpha_beta_scan(
                *eval,
                order,
                board@,
                depth as nat,
                base.0,
                base.1,
                quick,
                k as nat,
            ),
            cut ==> forall|j: nat|
                k <= j ==> #[trigger] alpha_beta_scan(
                    *eval,
                    order,
                    board@,
                    depth as nat,
                    base.0,
                    base.1,
                    quick,
                    j,
                ) == alpha_beta_scan(
                    *eval,
                    order,
                    board@,
                    depth as nat,
                    base.0,
                    base.1,
                    quick,
                    k as nat,
                ),
            value.plies() <= depth - 1,
        decreases possible_moves.len() - k,
    {
        let (x, y) = possible_moves[k];
        let mut new_board = board.clone();
        new_board.play(x, y);
        let (score, _) = alpha_beta_search(eval, order, &new_board, depth - 1, alpha, beta, quick);
        if side == Color::White {
            if score > value {
                value = score;
                best_move = (x, y);
            }
            if value > alpha {
                alpha = value;
            }
            if value >= beta {
                cut = true;
            }
        } else {
            if score < value {
                value = score;
                best_move = (x, y);
            }
            if value < beta {
                beta = value;
            }
            if value <= alpha {
                cut = true;
            }
        }
        k += 1;
        proof {
            if cut {
                lemma_cut_stays(
                    *eval,
                    order,
                    board@,
                    depth as nat,
                    base.0,
                    base.1,
                    quick,
                    k as nat,
                );
            }
        }
    }
    proof {
        lemma_scan_legal(
            *eval,
            order,
            board@,
            depth as nat,
            base.0,
            base.1,
            quick,
            possible_moves.len() as nat,
        );
    }
    value.next_back();
    (value, Some(best_move))
}

/// The move that a search with the full window answers with.
pub open spec fn alpha_beta_answer<E: Evaluation>(
    eval: E,
    order: MoveOrder,
    pos: Position,
    depth: nat,
    quick: bool,
) -> (usize, usize) {
    answer(
        alpha_beta_move(
            eval,
            order,
            pos,
            depth,
            Score::BlackCheckMate,
            Score::WhiteCheckMate,
            quick,
        ),
        pos,
    )
}

/// The move chosen by a search of the given depth with the full window,
/// or the first legal move where the search stops at the root.
pub fn alpha_beta_root<E: Evaluation, const SIZE: usize>(
    eval: &E,
    order: MoveOrder,
    board: &Board<SIZE>,
    depth: usize,
    quick: bool,
) -> (mv: (usize, usize))
    requires
        !board@.is_full(),
    ensures
        mv == alpha_beta_answer(*eval, order, board@, depth as nat, quick),
        board@.is_valid(spot(mv)),
{
    let found = alpha_beta_search(
        eval,
        order,
        board,
        depth,
        Score::BlackCheckMate,
        Score::WhiteCheckMate,
        quick,
    );
    let _ = board.size();
    proof {
        lemma_answer_legal(found.1, board@);
    }
    match found.1 {
        Some(mv) => mv,
        None => {
            let first = board.first_possible_move();
            first.unwrap()
        },
    }
}

/// What a search under a budget may answer: the answer of a search of
/// some depth from one to the full depth.
pub open spec fn deepened<E: Evaluation>(
    eval: E,
    order: MoveOrder,
    pos: Position,
    max_depth: nat,
    quick: bool,
    mv: (usize, usize),
) -> bool {
    exists|depth: nat|
        1 <= depth && (depth <= max_depth || depth == 1) && mv == #[trigger] alpha_beta_answer(
            eval,
            order,
            pos,
            depth,
            quick,
        )
}

/// Chooses a move. Without a budget a search of the full depth is run.
/// With one, searches of depth one, two and so on are run, each from
/// scratch, until the budget is used up or the full depth is reached;
/// the answer of the last one counts.
pub fn alpha_beta_deepening<E: Evaluation, const SIZE: usize>(
    eval: &E,
    order: MoveOrder,
    board: &Board<SIZE>,
    max_depth: usize,
    duration: Option<Duration>,
    quick: bool,
) -> (mv: (usize, usize))
    requires
        !board@.is_full(),
    ensures
        board@.is_valid(spot(mv)),
        duration is None ==> mv == alpha_beta_answer(*eval, order, board@, max_depth as nat, quick),
        duration is Some ==> deepened(*eval, order, board@, max_depth as nat, quick, mv),
{
    match duration {
        None => alpha_beta_root(eval, order, board, max_depth, quick),
        Some(duration_unwrapped) => {
            let time = now();
            let mut depth: usize = 1;
            let mut best_move = alpha_beta_root(eval, order, board, depth, quick);
            while shorter(&elapsed(&time), &duration_unwrapped) && depth < max_depth
                invariant
                    !board@.is_full(),
                    1 <= depth,
                    depth <= max_depth || depth == 1,
                    best_move == alpha_beta_answer(*eval, order, board@, depth as nat, quick),
                    board@.is_valid(spot(best_move)),
                decreases max_depth - depth,
            {
                depth += 1;
                best_move = alpha_beta_root(eval, order, board, depth, quick);
            }
            best_move
        },
    }
}

/// Once the window has closed the state of the search does not change
/// any more.
pub proof fn lemma_cut_stays<E: Evaluation>(
    eval: E,
    order: MoveOrder,
    pos: Position,
    depth: nat,
    alpha: Score,
    beta: Score,
    quick: bool,
    k: nat,
)
    requires
        alpha_beta_scan(eval, order, pos, depth, alpha, beta, quick, k).cut,
    ensures
        forall|j: nat|
            k <= j ==> #[trigger] alpha_beta_scan(eval, order, pos, depth, alpha, beta, quick, j)
                == alpha_beta_scan(eval, order, pos, depth, alpha, beta, quick, k),
{
    assert forall|j: nat| k <= j implies #[trigger] alpha_beta_scan(
        eval,
        order,
        pos,
        depth,
        alpha,
        beta,
        quick,
        j,
    ) == alpha_beta_scan(eval, order, pos, depth, alpha, beta, quick, k) by {
        lemma_cut_stays_at(eval, order, pos, depth, alpha, beta, quick, k, j);
    }
}

/// `lemma_cut_stays` for one later moment.
pub proof fn lemma_cut_stays_at<E: Evaluation>(
    eval: E,
    order: MoveOrder,
    pos: Position,
    depth: nat,
    alpha: Score,
    beta: Score,
    quick: bool,
    k: nat,
    j: nat,
)
    requires
        alpha_beta_scan(eval, order, pos, depth, alpha, beta, quick, k).cut,
        k <= j,
    ensures
        alpha_beta_scan(eval, order, pos, depth, alpha, beta, quick, j) == alpha_beta_scan(
            eval,
            order,
            pos,
            depth,
            alpha,
            beta,
            quick,
            k,
        ),
    decreases j,
{
    if j > k {
        lemma_cut_stays_at(eval, order, pos, depth, alpha, beta, quick, k, (j - 1) as nat);
    }
}

} // verus!
