use vstd::prelude::*;

use crate::board::Board;
use crate::color::Color;
use crate::connect::winner_of;
use crate::evaluation::{clamped, Evaluation};
use crate::game_tree::{answer, lemma_answer_legal};
use crate::memo::{appraisal, appraise, memo_view, recall, remembered, Memo};
use crate::position::{spot, Position};
use crate::ranking::{keep_bests_moves, lemma_shortlist_legal, possible_moves_ranked, shortlist};
use crate::score::Score;

verus! {

/// The weight of a won game on the scale of weights.
pub const MATE_WEIGHT: i128 = 1000;

/// A score as a single number: an advantage weighs what it counts, a won
/// game weighs `MATE_WEIGHT` for White and as much below zero for Black,
/// and a forced win as much less as it is plies away.
pub open spec fn weight(s: Score) -> int {
    match s {
        Score::Undefined => 0,
        Score::Advantage(x) => x as int,
        Score::BlackMateIn(n) => -MATE_WEIGHT + n,
        Score::WhiteMateIn(n) => MATE_WEIGHT - n,
        Score::BlackCheckMate => -MATE_WEIGHT as int,
        Score::WhiteCheckMate => MATE_WEIGHT as int,
    }
}

/// The state of a search that remembers scores while it goes through the
/// moves of one position.
pub struct MemoScan {
    /// The best weight found so far.
    pub value: int,
    /// The move that gave it.
    pub best: (usize, usize),
    /// What White is sure of already.
    pub alpha: int,
    /// What Black is sure of already.
    pub beta: int,
    /// The window has closed: the moves that are left are not looked at.
    pub cut: bool,
    /// The scores that are remembered.
    pub memo: Memo,
}

/// The state before the first move.
pub open spec fn memo_start(pos: Position, alpha: int, beta: int, memo: Memo) -> MemoScan {
    MemoScan {
        value: if pos.next == Color::White {
            i128::MIN as int
        } else {
            i128::MAX as int
        },
        best: pos.moves()[0],
        alpha,
        beta,
        cut: false,
        memo,
    }
}

/// The state after the move `m`, which leads to `child` and has the
/// score `s`, has been looked at. White keeps the higher weight and
/// remembers the score of a position that raised it; Black keeps the
/// lower weight. The window narrows and closes as in a search without
/// memory.
pub open spec fn memo_step(
    side: Color,
    w: MemoScan,
    m: (usize, usize),
    child: Position,
    s: Score,
    memo: Memo,
) -> MemoScan {
    if side == Color::White {
        let raised = weight(s) > w.value;
        let value = if raised {
            weight(s)
        } else {
            w.value
        };
        MemoScan {
            value,
            best: if raised {
                m
            } else {
                w.best
            },
            alpha: if value > w.alpha {
                value
            } else {
                w.alpha
            },
            beta: w.beta,
            cut: value >= w.beta,
            memo: if raised {
                memo.push((child, s))
            } else {
                memo
            },
        }
    } else {
        let lowered = weight(s) < w.value;
        let value = if lowered {
            weight(s)
        } else {
            w.value
        };
        MemoScan {
            value,
            best: if lowered {
                m
            } else {
                w.best
            },
            alpha: w.alpha,
            beta: if value < w.beta {
                value
            } else {
                w.beta
            },
            cut: value <= w.alpha,
            memo,
        }
    }
}

/// The score that a search with memory gives a position, and what it
/// remembers afterwards.
///
/// A position where a side has won scores that side's win. At depth
/// zero the score is the one remembered for the position, and else its
/// evaluation; on a budget too short to look ahead, and where no move
/// is left, it is the evaluation. Elsewhere the shortlist of ranked
/// moves is tried in turn; a move whose position has a remembered score
/// is not searched again. The best weight found is the score, as an
/// advantage.
pub open spec fn memo_search<E: Evaluation>(
    eval: E,
    divisor: usize,
    pos: Position,
    depth: nat,
    alpha: int,
    beta: int,
    quick: bool,
    memo: Memo,
) -> (Score, Memo)
    decreases depth + 1, 0nat,
{
    if winner_of(pos) is Some {
        (winner_of(pos).unwrap().win_score_spec(), memo)
    } else if depth == 0 {
        (appraisal(eval, memo, pos), memo)
    } else if quick || pos.moves().len() == 0 {
        (eval.value(pos), memo)
    } else {
        let w = memo_scan(
            eval,
            divisor,
            pos,
            depth,
            alpha,
            beta,
            quick,
            memo,
            shortlist(eval, memo, pos, divisor).len(),
        );
        (Score::Advantage(clamped(w.value)), w.memo)
    }
}

/// The state of the search after the first `k` moves of the shortlist.
pub open spec fn memo_scan<E: Evaluation>(
    eval: E,
    divisor: usize,
    pos: Position,
    depth: nat,
    alpha: int,
    beta: int,
    quick: bool,
    memo: Memo,
    k: nat,
) -> MemoScan
    decreases depth, k + 1,
{
    if k == 0 || depth == 0 {
        memo_start(pos, alpha, beta, memo)
    } else {
        let prev = memo_scan(eval, divisor, pos, depth, alpha, beta, quick, memo, (k - 1) as nat);
        if prev.cut {
            prev
        } else {
            let m = shortlist(eval, memo, pos, divisor)[k - 1];
            let child = pos.played(spot(m));
            let found = match recall(prev.memo, child) {
                Some(s) => (s, prev.memo),
                None => memo_search(
                    eval,
                    divisor,
                    child,
                    (depth - 1) as nat,
                    prev.alpha,
                    prev.beta,
                    quick,
                    prev.memo,
                ),
            };
            memo_step(pos.next, prev, m, child, found.0, found.1)
        }
    }
}

/// The move that the search chooses; none where it does not look ahead.
pub open spec fn memo_move<E: Evaluation>(
    eval: E,
    divisor: usize,
    pos: Position,
    depth: nat,
    alpha: int,
    beta: int,
    quick: bool,
    memo: Memo,
) -> Option<(usize, usize)> {
    if winner_of(pos) is Some || depth == 0 || quick || pos.moves().len() == 0 {
        None
    } else {
        Some(
            memo_scan(
                eval,
                divisor,
                pos,
                depth,
                alpha,
                beta,
                quick,
                memo,
                shortlist(eval, memo, pos, divisor).len(),
            ).best,
        )
    }
}

/// The move that a search with memory, begun with nothing remembered and
/// the widest window, answers with.
pub open spec fn memo_answer<E: Evaluation>(
    eval: E,
    divisor: usize,
    pos: Position,
    depth: nat,
    quick: bool,
) -> (usize, usize) {
    answer(
        memo_move(
            eval,
            divisor,
            pos,
            depth,
            i128::MIN as int,
            i128::MAX as int,
            quick,
            Seq::empty(),
        ),
        pos,
    )
}

/// Once the window has closed the state of the search does not change
/// any more.
pub proof fn lemma_memo_cut<E: Evaluation>(
    eval: E,
    divisor: usize,
    pos: Position,
    depth: nat,
    alpha: int,
    beta: int,
    quick: bool,
    memo: Memo,
    k: nat,
    j: nat,
)
    requires
        memo_scan(eval, divisor, pos, depth, alpha, beta, quick, memo, k).cut,
        k <= j,
    ensures
        memo_scan(eval, divisor, pos, depth, alpha, beta, quick, memo, j) == memo_scan(
            eval,
            divisor,
            pos,
            depth,
            alpha,
            beta,
            quick,
            memo,
            k,
        ),
    decreases j,
{
    if j > k {
        lemma_memo_cut(eval, divisor, pos, depth, alpha, beta, quick, memo, k, (j - 1) as nat);
    }
}

/// The best move after the first `k` moves of the shortlist is a legal
/// move.
pub proof fn lemma_memo_legal<E: Evaluation>(
    eval: E,
    divisor: usize,
    pos: Position,
    depth: nat,
    alpha: int,
    beta: int,
    quick: bool,
    memo: Memo,
    k: nat,
)
    requires
        k <= shortlist(eval, memo, pos, divisor).len(),
        pos.moves().len() > 0,
    ensures
        pos.moves().contains(
            memo_scan(eval, divisor, pos, depth, alpha, beta, quick, memo, k).best,
        ),
    decreases k,
{
    if k == 0 || depth == 0 {
        assert(pos.moves()[0] == memo_start(pos, alpha, beta, memo).best);
    } else {
        lemma_memo_legal(eval, divisor, pos, depth, alpha, beta, quick, memo, (k - 1) as nat);
        lemma_shortlist_legal(eval, memo, pos, divisor);
        assert(pos.moves().contains(shortlist(eval, memo, pos, divisor)[k - 1]));
    }
}

/// The weight of a score.
pub fn weigh(s: Score) -> (w: i128)
    ensures
        w == weight(s),
{
    match s {
        Score::Undefined => 0,
        Score::Advantage(x) => x as i128,
        Score::BlackMateIn(n) => -MATE_WEIGHT + n as i128,
        Score::WhiteMateIn(n) => MATE_WEIGHT - n as i128,
        Score::BlackCheckMate => -MATE_WEIGHT,
        Score::WhiteCheckMate => MATE_WEIGHT,
    }
}

/// A weight as an advantage: itself where it fits, else the nearest
/// advantage there is.
pub fn as_advantage(w: i128) -> (s: Score)
    ensures
        s == Score::Advantage(clamped(w as int)),
{
    if w > i64::MAX as i128 {
        Score::Advantage(i64::MAX)
    } else if w < i64::MIN as i128 {
        Score::Advantage(i64::MIN)
    } else {
        Score::Advantage(w as i64)
    }
}

/// Searches the board `depth` plies deep with the window `alpha` to
/// `beta` on the scale of weights, remembering scores on the way, and
/// returns the score and the move that gives it.
pub fn memo_alpha_beta<E: Evaluation, const SIZE: usize>(
    eval: &E,
    divisor: usize,
    board: &Board<SIZE>,
    depth: usize,
    alpha: i128,
    beta: i128,
    quick: bool,
    memo: &mut Vec<(Board<SIZE>, Score)>,
) -> (r: (Score, Option<(usize, usize)>))
    ensures
        (r.0, memo_view(*final(memo))) == memo_search(
            *eval,
            divisor,
            board@,
            depth as nat,
            alpha as int,
            beta as int,
            quick,
            memo_view(*old(memo)),
        ),
        r.1 == memo_move(
            *eval,
            divisor,
            board@,
            depth as nat,
            alpha as int,
            beta as int,
            quick,
            memo_view(*old(memo)),
        ),
        r.1 is Some ==> board@.moves().contains(r.1.unwrap()),
    decreases depth,
{
    let ghost entry = memo_view(*memo);
    if let Some(winner) = board.winner() {
        return (winner.win_score(), None);
    }
    if depth == 0 {
        return (appraise(eval, board, memo), None);
    }
    if quick {
        return (eval.score(board), None);
    }
    let first = match board.first_possible_move() {
        Some(m) => m,
        None => {
            return (eval.score(board), None);
        },
    };
    let sorted = possible_moves_ranked(eval, board, memo);
    let _ = board.size();
    proof {
        crate::ranking::lemma_ascending(*eval, entry, board@, board@.moves().len());
        lemma_shortlist_legal(*eval, entry, board@, divisor);
        crate::position::lemma_moves(board@);
    }
    let possible_moves = keep_bests_moves(board, divisor, sorted);
    let side = board.next_color();
    let ghost base = (alpha as int, beta as int);
    let mut alpha = alpha;
    let mut beta = beta;
    let mut value: i128 = if side == Color::White {
        i128::MIN
    } else {
        i128::MAX
    };
    let mut best_move = first;
    let mut cut = false;
    let mut k: usize = 0;
    while k < possible_moves.len() && !cut
        invariant
            0 <= k <= possible_moves.len(),
            possible_moves@ == shortlist(*eval, entry, board@, divisor),
            board@.moves().len() > 0,
            board.sound(),
            depth > 0,
            side == board@.next,
            forall|i: int|
                0 <= i < possible_moves.len() ==> board@.moves().contains(
                    #[trigger] possible_moves[i],
                ),
            (MemoScan {
                value: value as int,
                best: best_move,
                alpha: alpha as int,
                beta: beta as int,
                cut,
                memo: memo_view(*memo),
            }) == memo_scan(
                *eval,
                divisor,
                board@,
                depth as nat,
                base.0,
                base.1,
                quick,
                entry,
                k as nat,
            ),
        decreases possible_moves.len() - k,
    {
        let (x, y) = possible_moves[k];
        proof {
            crate::position::lemma_moves(board@);
            assert(board@.moves().contains(possible_moves[k as int]));
        }
        let mut new_board = board.clone();
        new_board.play(x, y);
        let score = match remembered(&new_board, memo) {
            Some(score) => score,
            None => memo_alpha_beta(eval, divisor, &new_board, depth - 1, alpha, beta, quick, memo).0,
        };
        let weighed = weigh(score);
        if side == Color::White {
            if weighed > value {
                value = weighed;
                let ghost before = memo_view(*memo);
                memo.push((new_board, score));
                assert(memo_view(*memo) =~= before.push((board@.played((x as int, y as int)), score)));
                best_move = (x, y);
            }
            if value > alpha {
                alpha = value;
            }
            if value >= beta {
                cut = true;
            }
        } else {
            if weighed < value {
                value = weighed;
                best_move = (x, y);
            }
            if value < beta {
                beta = value;
            }
            if value <= alpha {
                cut = true;
            }
        }
        k += 1;
    }
    proof {
        let n = possible_moves.len() as nat;
        if cut {
            lemma_memo_cut(
                *eval,
                divisor,
                board@,
                depth as nat,
                base.0,
                base.1,
                quick,
                entry,
                k as nat,
                n,
            );
        }
        lemma_memo_legal(*eval, divisor, board@, depth as nat, base.0, base.1, quick, entry, n);
    }
    (as_advantage(value), Some(best_move))
}

/// The move chosen by a search with memory of the given depth, begun
/// with nothing remembered and the widest window, or the first legal
/// move where the search does not look ahead.
pub fn memo_root<E: Evaluation, const SIZE: usize>(
    eval: &E,
    divisor: usize,
    board: &Board<SIZE>,
    depth: usize,
    quick: bool,
) -> (mv: (usize, usize))
    requires
        !board@.is_full(),
    ensures
        mv == memo_answer(*eval, divisor, board@, depth as nat, quick),
        board@.is_valid(spot(mv)),
{
    let mut score_dict: Vec<(Board<SIZE>, Score)> = Vec::new();
    assert(memo_view(score_dict) =~= Seq::empty());
    let found = memo_alpha_beta(
        eval,
        divisor,
        board,
        depth,
        i128::MIN,
        i128::MAX,
        quick,
        &mut score_dict,
    );
    let _ = board.size();
    proof {
        lemma_answer_legal(found.1, board@);
    }
    match found.1 {
        Some(mv) => mv,
        None => {
            let first = board.first_possible_move();
            first.unwrap()
        },
    }
}

} // verus!
