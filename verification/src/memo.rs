use vstd::prelude::*;

use crate::board::Board;
use crate::evaluation::Evaluation;
use crate::position::Position;
use crate::score::Score;

verus! {

/// Scores that a search remembers, each with its position, the latest
/// last.
pub type Memo = Seq<(Position, Score)>;

/// The score that is remembered for a position: that of the latest entry
/// for it, if there is one.
pub open spec fn recall(memo: Memo, pos: Position) -> Option<Score>
    decreases memo.len(),
{
    if memo.len() == 0 {
        None
    } else if memo.last().0 == pos {
        Some(memo.last().1)
    } else {
        recall(memo.drop_last(), pos)
    }
}

/// The score of a position: the score that is remembered for it, and
/// else its evaluation.
pub open spec fn appraisal<E: Evaluation>(eval: E, memo: Memo, pos: Position) -> Score {
    match recall(memo, pos) {
        Some(s) => s,
        None => eval.value(pos),
    }
}

/// What a list of boards and scores remembers.
pub open spec fn memo_view<const SIZE: usize>(memo: Vec<(Board<SIZE>, Score)>) -> Memo {
    Seq::new(memo@.len(), |i: int| (memo@[i].0@, memo@[i].1))
}

/// The score that is remembered for the position of a board.
pub fn remembered<const SIZE: usize>(board: &Board<SIZE>, memo: &Vec<(Board<SIZE>, Score)>) -> (r:
    Option<Score>)
    ensures
        r == recall(memo_view(*memo), board@),
{
    let ghost all = memo_view(*memo);
    let mut i: usize = memo.len();
    assert(all.take(i as int) =~= all);
    while i > 0
        invariant
            0 <= i <= memo.len(),
            all == memo_view(*memo),
            recall(all, board@) == recall(all.take(i as int), board@),
        decreases i,
    {
        proof {
            let part = all.take(i as int);
            assert(part.last() == all[i - 1]);
            assert(part.drop_last() =~= all.take(i - 1));
        }
        if board.same_position(&memo[i - 1].0) {
            return Some(memo[i - 1].1);
        }
        i -= 1;
    }
    None
}

/// The score of a board: the score that is remembered for its position,
/// and else its evaluation.
pub fn appraise<E: Evaluation, const SIZE: usize>(
    eval: &E,
    board: &Board<SIZE>,
    memo: &Vec<(Board<SIZE>, Score)>,
) -> (s: Score)
    ensures
        s == appraisal(*eval, memo_view(*memo), board@),
{
    match remembered(board, memo) {
        Some(s) => s,
        None => eval.score(board),
    }
}

} // verus!
