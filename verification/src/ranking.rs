use vstd::prelude::*;

use crate::board::Board;
use crate::color::Color;
use crate::evaluation::Evaluation;
use crate::memo::{appraisal, appraise, memo_view, Memo};
use crate::position::{lemma_moves, spot, Position};
use crate::score::Score;

verus! {

/// The order in which a search tries the moves of a position.
#[derive(Clone, Copy, Debug, PartialEq, Eq, Structural)]
pub enum MoveOrder {
    /// Every legal move, row by row.
    RowMajor,
    /// The legal moves ranked by the evaluation of the position each
    /// leads to, best for the side to move first, and of these the first
    /// `cells / divisor`, where `cells` is the number of cells of the
    /// board. A divisor of zero keeps every move.
    Ranked { divisor: usize },
}

/// The score of the position that a move leads to: the score that is
/// remembered for it, and else its evaluation.
pub open spec fn shallow<E: Evaluation>(
    eval: E,
    memo: Memo,
    pos: Position,
    m: (usize, usize),
) -> Score {
    appraisal(eval, memo, pos.played(spot(m)))
}

/// Where a move goes into a list of moves with ascending scores: behind
/// every move that does not score more.
pub open spec fn slot<E: Evaluation>(
    eval: E,
    memo: Memo,
    pos: Position,
    sorted: Seq<(usize, usize)>,
    m: (usize, usize),
) -> int
    decreases sorted.len(),
{
    if sorted.len() == 0 {
        0
    } else if shallow(eval, memo, pos, m).below(shallow(eval, memo, pos, sorted.last())) {
        slot(eval, memo, pos, sorted.drop_last(), m)
    } else {
        sorted.len() as int
    }
}

/// The first `k` legal moves by ascending score; moves that score alike
/// keep their row-major order.
pub open spec fn ascending<E: Evaluation>(eval: E, memo: Memo, pos: Position, k: nat) -> Seq<
    (usize, usize),
>
    decreases k,
{
    if k == 0 {
        Seq::empty()
    } else {
        let before = ascending(eval, memo, pos, (k - 1) as nat);
        let m = pos.moves()[k - 1];
        before.insert(slot(eval, memo, pos, before, m), m)
    }
}

/// The legal moves, best for the side to move first: by descending score
/// for White, by ascending score for Black.
pub open spec fn ranked<E: Evaluation>(eval: E, memo: Memo, pos: Position) -> Seq<(usize, usize)> {
    let up = ascending(eval, memo, pos, pos.moves().len());
    if pos.next == Color::White {
        up.reverse()
    } else {
        up
    }
}

/// How many of `available` ranked moves a search keeps.
pub open spec fn kept(pos: Position, divisor: usize, available: nat) -> nat {
    if divisor == 0 {
        available
    } else {
        let most = (pos.size() * pos.size()) / (divisor as int);
        if available > most {
            most as nat
        } else {
            available
        }
    }
}

/// The ranked moves that a search keeps.
pub open spec fn shortlist<E: Evaluation>(eval: E, memo: Memo, pos: Position, divisor: usize) -> Seq<
    (usize, usize),
> {
    ranked(eval, memo, pos).take(kept(pos, divisor, pos.moves().len()) as int)
}

/// Every move of a shortlist is a legal move.
pub proof fn lemma_shortlist_legal<E: Evaluation>(
    eval: E,
    memo: Memo,
    pos: Position,
    divisor: usize,
)
    ensures
        forall|i: int|
            0 <= i < shortlist(eval, memo, pos, divisor).len() ==> pos.moves().contains(
                #[trigger] shortlist(eval, memo, pos, divisor)[i],
            ),
{
    let n = pos.moves().len();
    lemma_ascending(eval, memo, pos, n);
    let up = ascending(eval, memo, pos, n);
    let c = shortlist(eval, memo, pos, divisor);
    assert(pos.moves().take(n as int) =~= pos.moves());
    assert forall|i: int| 0 <= i < c.len() implies pos.moves().contains(#[trigger] c[i]) by {
        let idx = if pos.next == Color::White {
            n - 1 - i
        } else {
            i
        };
        assert(c[i] == up[idx]);
        up.to_multiset_ensures();
        pos.moves().to_multiset_ensures();
        assert(up.contains(up[idx]));
        assert(up.to_multiset().count(up[idx]) > 0);
    }
}

/// The moves a search tries at a position, in the order in which it
/// tries them.
pub open spec fn candidates<E: Evaluation>(order: MoveOrder, eval: E, pos: Position) -> Seq<
    (usize, usize),
> {
    match order {
        MoveOrder::RowMajor => pos.moves(),
        MoveOrder::Ranked { divisor } => shortlist(eval, Seq::empty(), pos, divisor),
    }
}

/// The slot of a move is a place in the list.
pub proof fn lemma_slot<E: Evaluation>(
    eval: E,
    memo: Memo,
    pos: Position,
    sorted: Seq<(usize, usize)>,
    m: (usize, usize),
)
    ensures
        0 <= slot(eval, memo, pos, sorted, m) <= sorted.len(),
        forall|i: int|
            slot(eval, memo, pos, sorted, m) <= i < sorted.len() ==> shallow(eval, memo, pos, m).below(
                shallow(eval, memo, pos, #[trigger] sorted[i]),
            ),
        slot(eval, memo, pos, sorted, m) > 0 ==> !shallow(eval, memo, pos, m).below(
            shallow(eval, memo, pos, sorted[slot(eval, memo, pos, sorted, m) - 1]),
        ),
    decreases sorted.len(),
{
    if sorted.len() > 0 && shallow(eval, memo, pos, m).below(shallow(eval, memo, pos, sorted.last())) {
        lemma_slot(eval, memo, pos, sorted.drop_last(), m);
        let at = slot(eval, memo, pos, sorted.drop_last(), m);
        assert forall|i: int| at <= i < sorted.len() implies shallow(eval, memo, pos, m).below(
            shallow(eval, memo, pos, #[trigger] sorted[i]),
        ) by {
            if i < sorted.len() - 1 {
                assert(sorted.drop_last()[i] == sorted[i]);
            }
        }
        if at > 0 {
            assert(sorted.drop_last()[at - 1] == sorted[at - 1]);
        }
    }
}

/// The first `k` moves by ascending score are the first `k` legal moves
/// in another order, and their scores ascend.
pub proof fn lemma_ascending<E: Evaluation>(eval: E, memo: Memo, pos: Position, k: nat)
    requires
        k <= pos.moves().len(),
    ensures
        ascending(eval, memo, pos, k).len() == k,
        ascending(eval, memo, pos, k).to_multiset() == pos.moves().take(k as int).to_multiset(),
        forall|i: int, j: int|
            0 <= i < j < k ==> !shallow(eval, memo, pos, ascending(eval, memo, pos, k)[j]).below(
                shallow(eval, memo, pos, ascending(eval, memo, pos, k)[i]),
            ),
    decreases k,
{
    if k == 0 {
        assert(pos.moves().take(0) =~= Seq::empty());
    } else {
        lemma_ascending(eval, memo, pos, (k - 1) as nat);
        let before = ascending(eval, memo, pos, (k - 1) as nat);
        let m = pos.moves()[k - 1];
        let at = slot(eval, memo, pos, before, m);
        let now = before.insert(at, m);
        lemma_slot(eval, memo, pos, before, m);
        before.to_multiset_ensures();
        now.to_multiset_ensures();
        assert(now.to_multiset() =~= before.to_multiset().insert(m)) by {
            assert(now.remove(at) =~= before);
            assert(now[at] == m);
            assert(now.contains(m));
            assert(now.remove(at).to_multiset() =~= now.to_multiset().remove(now[at]));
        }
        assert(pos.moves().take(k as int) =~= pos.moves().take(k - 1).push(m));
        pos.moves().take(k - 1).to_multiset_ensures();
        assert forall|i: int, j: int| 0 <= i < j < k implies !shallow(eval, memo, pos, now[j]).below(
            shallow(eval, memo, pos, now[i]),
        ) by {
            let si = shallow(eval, memo, pos, now[i]);
            let sj = shallow(eval, memo, pos, now[j]);
            if j == at {
                if i == at - 1 {
                } else {
                    assert(now[i] == before[i]);
                    assert(!shallow(eval, memo, pos, before[at - 1]).below(
                        shallow(eval, memo, pos, before[i]),
                    ));
                    crate::score::lemma_order_total(sj, shallow(eval, memo, pos, before[at - 1]));
                    crate::score::lemma_order_transitive(
                        si,
                        shallow(eval, memo, pos, before[at - 1]),
                        sj,
                    );
                    crate::score::lemma_order_total(si, shallow(eval, memo, pos, before[at - 1]));
                    crate::score::lemma_order_transitive(
                        sj,
                        si,
                        shallow(eval, memo, pos, before[at - 1]),
                    );
                }
            } else if i == at {
                assert(now[j] == before[j - 1]);
            } else {
                let i0 = if i < at {
                    i
                } else {
                    i - 1
                };
                let j0 = if j < at {
                    j
                } else {
                    j - 1
                };
                assert(now[i] == before[i0]);
                assert(now[j] == before[j0]);
            }
        }
    }
}

/// Every candidate is a legal move.
pub proof fn lemma_candidates_legal<E: Evaluation>(order: MoveOrder, eval: E, pos: Position)
    ensures
        forall|i: int|
            0 <= i < candidates(order, eval, pos).len() ==> pos.moves().contains(
                #[trigger] candidates(order, eval, pos)[i],
            ),
{
    match order {
        MoveOrder::RowMajor => {},
        MoveOrder::Ranked { divisor } => {
            lemma_shortlist_legal(eval, Seq::empty(), pos, divisor);
        },
    }
}

/// The legal moves of the board, best for the side to move first, by
/// their evaluation.
pub fn possible_moves_sorted<E: Evaluation, const SIZE: usize>(eval: &E, board: &Board<SIZE>) -> (r:
    Vec<(usize, usize)>)
    ensures
        r@ == ranked(*eval, Seq::empty(), board@),
{
    let memo: Vec<(Board<SIZE>, Score)> = Vec::new();
    assert(memo_view(memo) =~= Seq::empty());
    possible_moves_ranked(eval, board, &memo)
}

/// The legal moves of the board, best for the side to move first, by the
/// scores that are remembered for the positions they lead to, and by
/// their evaluation where none is.
pub fn possible_moves_ranked<E: Evaluation, const SIZE: usize>(
    eval: &E,
    board: &Board<SIZE>,
    memo: &Vec<(Board<SIZE>, Score)>,
) -> (r: Vec<(usize, usize)>)
    ensures
        r@ == ranked(*eval, memo_view(*memo), board@),
{
    let moves = board.possible_moves();
    let mut s_moves: Vec<((usize, usize), Score)> = Vec::new();
    let mut k: usize = 0;
    while k < moves.len()
        invariant
            0 <= k <= moves.len(),
            moves@ == board@.moves(),
            forall|i: int| 0 <= i < moves.len() ==> board@.is_valid(spot(#[trigger] moves[i])),
            s_moves.len() == k,
            forall|i: int|
                0 <= i < k ==> (#[trigger] s_moves[i]).0 == ascending(*eval, memo_view(*memo), board@, k as nat)[i]
                    && s_moves[i].1 == shallow(*eval, memo_view(*memo), board@, s_moves[i].0),
            ascending(*eval, memo_view(*memo), board@, k as nat).len() == k,
        decreases moves.len() - k,
    {
        let (x, y) = moves[k];
        let mut next = board.clone();
        next.play(x, y);
        let score = appraise(eval, &next, memo);
        let ghost before = ascending(*eval, memo_view(*memo), board@, k as nat);
        let mut at: usize = s_moves.len();
        assert(before.take(at as int) =~= before);
        while at > 0 && score < s_moves[at - 1].1
            invariant
                0 <= at <= k,
                s_moves.len() == k,
                before.len() == k,
                score == shallow(*eval, memo_view(*memo), board@, (x, y)),
                forall|i: int|
                    0 <= i < k ==> (#[trigger] s_moves[i]).0 == before[i] && s_moves[i].1
                        == shallow(*eval, memo_view(*memo), board@, s_moves[i].0),
                slot(*eval, memo_view(*memo), board@, before, (x, y)) == slot(
                    *eval,
                    memo_view(*memo),
                    board@,
                    before.take(at as int),
                    (x, y),
                ),
            decreases at,
        {
            proof {
                let part = before.take(at as int);
                assert(part.last() == before[at - 1]);
                assert(part.drop_last() =~= before.take(at - 1));
            }
            at -= 1;
        }
        proof {
            let part = before.take(at as int);
            if at > 0 {
                assert(part.last() == before[at - 1]);
            }
            assert(slot(*eval, memo_view(*memo), board@, part, (x, y)) == at);
        }
        s_moves.insert(at, ((x, y), score));
        k += 1;
        proof {
            let now = ascending(*eval, memo_view(*memo), board@, k as nat);
            assert(now == before.insert(at as int, (x, y)));
            assert forall|i: int| 0 <= i < k implies (#[trigger] s_moves[i]).0 == now[i]
                && s_moves[i].1 == shallow(*eval, memo_view(*memo), board@, s_moves[i].0) by {}
        }
    }
    let ghost up = ascending(*eval, memo_view(*memo), board@, moves.len() as nat);
    let white = board.next_color() == Color::White;
    let mut out: Vec<(usize, usize)> = Vec::new();
    let n = s_moves.len();
    let mut i: usize = 0;
    while i < n
        invariant
            0 <= i <= n,
            n == s_moves.len(),
            n == up.len(),
            forall|j: int| 0 <= j < n ==> (#[trigger] s_moves[j]).0 == up[j],
            out.len() == i,
            forall|j: int|
                0 <= j < i ==> #[trigger] out[j] == if white {
                    up[n - 1 - j]
                } else {
                    up[j]
                },
        decreases n - i,
    {
        let from = if white {
            n - 1 - i
        } else {
            i
        };
        out.push(s_moves[from].0);
        i += 1;
    }
    proof {
        assert(out@ =~= ranked(*eval, memo_view(*memo), board@));
    }
    out
}

/// The first moves of a ranked list: as many as `kept` says.
pub fn keep_bests_moves<const SIZE: usize>(
    board: &Board<SIZE>,
    divisor: usize,
    possible_moves: Vec<(usize, usize)>,
) -> (r: Vec<(usize, usize)>)
    ensures
        r@ == possible_moves@.take(kept(board@, divisor, possible_moves@.len()) as int),
{
    if divisor == 0 {
        assert(possible_moves@.take(possible_moves@.len() as int) =~= possible_moves@);
        return possible_moves;
    }
    let size = board.size();
    let nb_max_moves = size * size / divisor;
    if possible_moves.len() > nb_max_moves {
        let mut out: Vec<(usize, usize)> = Vec::new();
        let mut i: usize = 0;
        while i < nb_max_moves
            invariant
                0 <= i <= nb_max_moves < possible_moves.len(),
                out@ == possible_moves@.take(i as int),
            decreases nb_max_moves - i,
        {
            out.push(possible_moves[i]);
            assert(possible_moves@.take(i + 1) =~= possible_moves@.take(i as int).push(
                possible_moves[i as int],
            ));
            i += 1;
        }
        return out;
    }
    assert(possible_moves@.take(possible_moves@.len() as int) =~= possible_moves@);
    possible_moves
}

/// The moves a search tries on a board, in the order in which it tries
/// them.
pub fn candidate_moves<E: Evaluation, const SIZE: usize>(
    eval: &E,
    order: MoveOrder,
    board: &Board<SIZE>,
) -> (moves: Vec<(usize, usize)>)
    ensures
        moves@ == candidates(order, *eval, board@),
        forall|i: int| 0 <= i < moves.len() ==> board@.is_valid(spot(#[trigger] moves[i])),
{
    let moves = match order {
        MoveOrder::RowMajor => board.possible_moves(),
        MoveOrder::Ranked { divisor } => {
            let sorted = possible_moves_sorted(eval, board);
            proof {
                lemma_ascending(*eval, Seq::empty(), board@, board@.moves().len());
            }
            keep_bests_moves(board, divisor, sorted)
        },
    };
    let _ = board.size();
    proof {
        lemma_candidates_legal(order, *eval, board@);
        lemma_moves(board@);
        assert forall|i: int| 0 <= i < moves.len() implies board@.is_valid(
            spot(#[trigger] moves[i]),
        ) by {
            assert(board@.moves().contains(candidates(order, *eval, board@)[i]));
        }
    }
    moves
}

} // verus!
