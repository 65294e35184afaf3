use vstd::prelude::*;

use crate::color::Color;
use crate::evaluation::Evaluation;
use crate::game_tree::{improves, is_leaf, minimax_best, minimax_score, worst_for};
use crate::position::{lemma_moves, lemma_moves_bound, lemma_played, spot, Position};
use crate::pruning::{alpha_beta_scan, alpha_beta_score, scan_step, Scan};
use crate::ranking::{
    ascending, candidates, kept, lemma_ascending, lemma_candidates_legal, ranked, MoveOrder,
};
use crate::score::Score;

verus! {

/// What a score says of the game's outcome: who wins, where a side is
/// sure to win, and else the advantage. The first number is -1 for
/// Black's win, 1 for White's and 0 for an open game; the second is the
/// advantage in an open game. The number of plies to a forced win is left
/// out.
pub open spec fn outcome(s: Score) -> (int, int) {
    match s {
        Score::BlackCheckMate => (-1, 0),
        Score::BlackMateIn(_) => (-1, 0),
        Score::Undefined => (0, 0),
        Score::Advantage(x) => (0, x as int),
        Score::WhiteMateIn(_) => (1, 0),
        Score::WhiteCheckMate => (1, 0),
    }
}

/// An outcome as a side sees it: the higher, the better for that side.
pub open spec fn seen_by(side: Color, s: Score) -> (int, int) {
    let o = outcome(s);
    if side == Color::White {
        o
    } else {
        (-o.0, -o.1)
    }
}

/// At most, on outcomes.
pub open spec fn le(a: (int, int), b: (int, int)) -> bool {
    a.0 < b.0 || (a.0 == b.0 && a.1 <= b.1)
}

/// Less, on outcomes.
pub open spec fn lt(a: (int, int), b: (int, int)) -> bool {
    a.0 < b.0 || (a.0 == b.0 && a.1 < b.1)
}

/// What the score `r` of a search with the window `alpha` to `beta`
/// tells of the minimax score `m`: inside the window it has the same
/// outcome, at or below `alpha` it is an upper bound, at or above `beta`
/// a lower bound.
pub open spec fn bounds_hold(r: Score, m: Score, alpha: Score, beta: Score) -> bool {
    let kr = outcome(r);
    let km = outcome(m);
    let ka = outcome(alpha);
    let kb = outcome(beta);
    &&& lt(ka, kr) && lt(kr, kb) ==> kr == km
    &&& le(kr, ka) && lt(kr, kb) ==> le(km, kr)
    &&& le(kb, kr) && lt(ka, kr) ==> le(kr, km)
}

/// What the state `w` of a search after some moves tells of `mu`, the
/// best minimax score among the same moves, as the side to move sees
/// things: the bound of the other side has not moved and the side's own
/// bound is the old one or the best score found; a closed window means
/// the best score has reached the other side's bound; below that bound
/// the best score found is an upper bound of `mu`, and above the side's
/// own bound it is a lower bound.
pub open spec fn scan_holds(side: Color, w: Scan, mu: Score, alpha: Score, beta: Score) -> bool {
    let kv = seen_by(side, w.value);
    let kmu = seen_by(side, mu);
    let kf = seen_by(
        side,
        if side == Color::White {
            alpha
        } else {
            beta
        },
    );
    let kc = seen_by(
        side,
        if side == Color::White {
            beta
        } else {
            alpha
        },
    );
    &&& if side == Color::White {
        w.beta == beta && (w.alpha == alpha || w.alpha == w.value)
    } else {
        w.alpha == alpha && (w.beta == beta || w.beta == w.value)
    }
    &&& w.cut ==> le(kc, kv)
    &&& lt(kv, kc) ==> le(kmu, kv)
    &&& lt(kf, kv) ==> le(kv, kmu)
}

/// The order of scores refines the order of outcomes, and aging leaves
/// the outcome alone.
pub proof fn lemma_outcome_order(a: Score, b: Score)
    ensures
        a.below(b) ==> le(outcome(a), outcome(b)),
        !a.below(b) ==> le(outcome(b), outcome(a)),
        outcome(a.aged()) == outcome(a),
        le(outcome(Score::BlackCheckMate), outcome(a)),
        le(outcome(a), outcome(Score::WhiteCheckMate)),
{
}

/// The minimax score of the position that a move leads to, one ply less
/// deep.
pub open spec fn child_score<E: Evaluation>(
    eval: E,
    pos: Position,
    depth: nat,
    quick: bool,
    m: (usize, usize),
) -> Score {
    minimax_score(eval, pos.played(spot(m)), (depth - 1) as nat, quick)
}

/// The best minimax score, for the side to move, among the first `k`
/// moves of a list.
pub open spec fn best_among<E: Evaluation>(
    eval: E,
    pos: Position,
    depth: nat,
    quick: bool,
    list: Seq<(usize, usize)>,
    k: nat,
) -> Score
    decreases k,
{
    if k == 0 {
        worst_for(pos.next)
    } else {
        let prev = best_among(eval, pos, depth, quick, list, (k - 1) as nat);
        let s = child_score(eval, pos, depth, quick, list[k - 1]);
        if improves(pos.next, s, prev) {
            s
        } else {
            prev
        }
    }
}

/// An order is complete when at every position it tries every legal
/// move, each once.
pub open spec fn complete<E: Evaluation>(order: MoveOrder, eval: E) -> bool {
    forall|pos: Position|
        pos.wf() ==> (#[trigger] candidates(order, eval, pos)).to_multiset()
            == pos.moves().to_multiset()
}

/// Minimax takes the best among the legal moves in row-major order.
pub proof fn lemma_minimax_best_among<E: Evaluation>(
    eval: E,
    pos: Position,
    depth: nat,
    quick: bool,
    k: nat,
)
    requires
        depth > 0,
    ensures
        minimax_best(eval, pos, depth, quick, k).0 == best_among(
            eval,
            pos,
            depth,
            quick,
            pos.moves(),
            k,
        ),
    decreases k,
{
    if k > 0 {
        lemma_minimax_best_among(eval, pos, depth, quick, (k - 1) as nat);
    }
}

/// The best among some moves is, as the side to move sees it, at least
/// as good as each of them, and where there is a move its outcome is
/// the outcome of one of them.
pub proof fn lemma_best_among<E: Evaluation>(
    eval: E,
    pos: Position,
    depth: nat,
    quick: bool,
    list: Seq<(usize, usize)>,
    k: nat,
)
    requires
        pos.next.is_side(),
        k <= list.len(),
    ensures
        forall|i: int|
            0 <= i < k ==> le(
                seen_by(pos.next, child_score(eval, pos, depth, quick, #[trigger] list[i])),
                seen_by(pos.next, best_among(eval, pos, depth, quick, list, k)),
            ),
        k > 0 ==> exists|i: int|
            0 <= i < k && seen_by(pos.next, best_among(eval, pos, depth, quick, list, k))
                == seen_by(pos.next, child_score(eval, pos, depth, quick, #[trigger] list[i])),
    decreases k,
{
    if k > 0 {
        let side = pos.next;
        lemma_best_among(eval, pos, depth, quick, list, (k - 1) as nat);
        let prev = best_among(eval, pos, depth, quick, list, (k - 1) as nat);
        let s = child_score(eval, pos, depth, quick, list[k - 1]);
        let now = best_among(eval, pos, depth, quick, list, k);
        lemma_outcome_order(prev, s);
        lemma_outcome_order(s, prev);
        assert forall|i: int| 0 <= i < k implies le(
            seen_by(side, child_score(eval, pos, depth, quick, #[trigger] list[i])),
            seen_by(side, now),
        ) by {
            if i < k - 1 {
                assert(le(
                    seen_by(side, child_score(eval, pos, depth, quick, list[i])),
                    seen_by(side, prev),
                ));
            }
        }
        if improves(side, s, prev) {
            assert(seen_by(side, now) == seen_by(
                side,
                child_score(eval, pos, depth, quick, list[k - 1]),
            ));
        } else if k == 1 {
            lemma_outcome_order(worst_for(side), s);
            assert(seen_by(side, worst_for(side)) == (-1int, 0int));
            assert(seen_by(side, now) == seen_by(
                side,
                child_score(eval, pos, depth, quick, list[0]),
            ));
        } else {
            let i = choose|i: int|
                0 <= i < k - 1 && seen_by(side, prev) == seen_by(
                    side,
                    child_score(eval, pos, depth, quick, #[trigger] list[i]),
                );
            assert(seen_by(side, now) == seen_by(
                side,
                child_score(eval, pos, depth, quick, list[i]),
            ));
        }
    }
}

/// The best among all moves of a list has the same outcome whatever the
/// order of the list.
pub proof fn lemma_best_among_any_order<E: Evaluation>(
    eval: E,
    pos: Position,
    depth: nat,
    quick: bool,
    a: Seq<(usize, usize)>,
    b: Seq<(usize, usize)>,
)
    requires
        pos.next.is_side(),
        a.to_multiset() == b.to_multiset(),
    ensures
        outcome(best_among(eval, pos, depth, quick, a, a.len())) == outcome(
            best_among(eval, pos, depth, quick, b, b.len()),
        ),
{
    a.to_multiset_ensures();
    b.to_multiset_ensures();
    lemma_best_among(eval, pos, depth, quick, a, a.len());
    lemma_best_among(eval, pos, depth, quick, b, b.len());
    let side = pos.next;
    let ka = seen_by(side, best_among(eval, pos, depth, quick, a, a.len()));
    let kb = seen_by(side, best_among(eval, pos, depth, quick, b, b.len()));
    assert(a.len() == b.len());
    if a.len() > 0 {
        let i = choose|i: int|
            0 <= i < a.len() && ka == seen_by(
                side,
                child_score(eval, pos, depth, quick, #[trigger] a[i]),
            );
        assert(a.contains(a[i]));
        assert(b.to_multiset().count(a[i]) > 0);
        assert(b.contains(a[i]));
        let j = choose|j: int| 0 <= j < b.len() && b[j] == a[i];
        assert(le(seen_by(side, child_score(eval, pos, depth, quick, b[j])), kb));
        let i2 = choose|i2: int|
            0 <= i2 < b.len() && kb == seen_by(
                side,
                child_score(eval, pos, depth, quick, #[trigger] b[i2]),
            );
        assert(b.contains(b[i2]));
        assert(a.to_multiset().count(b[i2]) > 0);
        assert(a.contains(b[i2]));
        let j2 = choose|j2: int| 0 <= j2 < a.len() && a[j2] == b[i2];
        assert(le(seen_by(side, child_score(eval, pos, depth, quick, a[j2])), ka));
        assert(ka == kb);
    }
}

/// A search with a window and a complete order bounds the minimax score
/// as `bounds_hold` says.
pub proof fn lemma_window_bounds<E: Evaluation>(
    eval: E,
    order: MoveOrder,
    pos: Position,
    depth: nat,
    alpha: Score,
    beta: Score,
    quick: bool,
)
    requires
        pos.wf(),
        complete(order, eval),
    ensures
        bounds_hold(
            alpha_beta_score(eval, order, pos, depth, alpha, beta, quick),
            minimax_score(eval, pos, depth, quick),
            alpha,
            beta,
        ),
    decreases depth + 1, 0nat,
{
    if !is_leaf(pos, depth, quick) {
        let list = candidates(order, eval, pos);
        let n = list.len();
        lemma_scan_bounds(eval, order, pos, depth, alpha, beta, quick, n);
        let w = alpha_beta_scan(eval, order, pos, depth, alpha, beta, quick, n);
        let mu = best_among(eval, pos, depth, quick, list, n);
        let full = minimax_best(eval, pos, depth, quick, pos.moves().len()).0;
        lemma_minimax_best_among(eval, pos, depth, quick, pos.moves().len());
        lemma_best_among_any_order(eval, pos, depth, quick, list, pos.moves());
        assert(outcome(mu) == outcome(full));
        lemma_outcome_order(w.value, mu);
        lemma_outcome_order(mu, w.value);
        lemma_outcome_order(full, w.value);
    }
}

/// The state of a search with a window bounds the best minimax score
/// among the moves it has tried as `scan_holds` says.
pub proof fn lemma_scan_bounds<E: Evaluation>(
    eval: E,
    order: MoveOrder,
    pos: Position,
    depth: nat,
    alpha: Score,
    beta: Score,
    quick: bool,
    k: nat,
)
    requires
        pos.wf(),
        complete(order, eval),
        depth > 0,
        k <= candidates(order, eval, pos).len(),
    ensures
        scan_holds(
            pos.next,
            alpha_beta_scan(eval, order, pos, depth, alpha, beta, quick, k),
            best_among(eval, pos, depth, quick, candidates(order, eval, pos), k),
            alpha,
            beta,
        ),
    decreases depth, k + 1,
{
    let side = pos.next;
    let list = candidates(order, eval, pos);
    if k == 0 {
        lemma_outcome_order(worst_for(side), worst_for(side));
    } else {
        lemma_scan_bounds(eval, order, pos, depth, alpha, beta, quick, (k - 1) as nat);
        let prev = alpha_beta_scan(eval, order, pos, depth, alpha, beta, quick, (k - 1) as nat);
        let mu_prev = best_among(eval, pos, depth, quick, list, (k - 1) as nat);
        let m = list[k - 1];
        let child = pos.played(spot(m));
        let mk = child_score(eval, pos, depth, quick, m);
        let mu = best_among(eval, pos, depth, quick, list, k);
        assert(mu == if improves(side, mk, mu_prev) {
            mk
        } else {
            mu_prev
        });
        lemma_outcome_order(mu_prev, mk);
        lemma_outcome_order(mk, mu_prev);
        if !prev.cut {
            lemma_moves(pos);
            lemma_candidates_legal(order, eval, pos);
            assert(pos.moves().contains(list[k - 1]));
            lemma_played(pos, spot(m));
            lemma_window_bounds(
                eval,
                order,
                child,
                (depth - 1) as nat,
                prev.alpha,
                prev.beta,
                quick,
            );
            let s = alpha_beta_score(
                eval,
                order,
                child,
                (depth - 1) as nat,
                prev.alpha,
                prev.beta,
                quick,
            );
            let w = scan_step(side, prev, m, s);
            assert(w == alpha_beta_scan(eval, order, pos, depth, alpha, beta, quick, k));
            lemma_outcome_order(prev.value, s);
            lemma_outcome_order(s, prev.value);
            lemma_outcome_order(w.value, beta);
            lemma_outcome_order(alpha, w.value);
            lemma_outcome_order(w.value, alpha);
            lemma_outcome_order(beta, w.value);
            lemma_outcome_order(prev.alpha, w.value);
            lemma_outcome_order(w.value, prev.beta);
        }
    }
}

/// The row-major order is complete.
pub proof fn lemma_row_major_complete<E: Evaluation>(eval: E)
    ensures
        complete(MoveOrder::RowMajor, eval),
{
}

/// The ranked order is complete where it keeps every move: with a
/// divisor of zero or one.
pub proof fn lemma_ranked_complete<E: Evaluation>(eval: E, divisor: usize)
    requires
        divisor <= 1,
    ensures
        complete(MoveOrder::Ranked { divisor }, eval),
{
    let order = MoveOrder::Ranked { divisor };
    assert forall|pos: Position| pos.wf() implies (#[trigger] candidates(
        order,
        eval,
        pos,
    )).to_multiset() == pos.moves().to_multiset() by {
        let n = pos.moves().len();
        lemma_ascending(eval, Seq::empty(), pos, n);
        lemma_moves_bound(pos, pos.size());
        let up = ascending(eval, Seq::empty(), pos, n);
        up.lemma_reverse_to_multiset();
        assert(pos.moves().take(n as int) =~= pos.moves());
        assert((pos.size() * pos.size()) / 1 == pos.size() * pos.size());
        assert(pos.moves().len() <= pos.size() * pos.size());
        assert(kept(pos, divisor, n) == n);
        assert(ranked(eval, Seq::empty(), pos).len() == n);
        assert(ranked(eval, Seq::empty(), pos).take(n as int) =~= ranked(eval, Seq::empty(), pos));
    }
}

/// A search with the full window and a complete order agrees with plain
/// minimax on the outcome: both find the same side sure to win, or both
/// find the same advantage. Only the number of plies to a forced win may
/// differ between them.
pub proof fn lemma_alpha_beta_agrees<E: Evaluation>(
    eval: E,
    order: MoveOrder,
    pos: Position,
    depth: nat,
    quick: bool,
)
    requires
        pos.wf(),
        complete(order, eval),
    ensures
        outcome(
            alpha_beta_score(
                eval,
                order,
                pos,
                depth,
                Score::BlackCheckMate,
                Score::WhiteCheckMate,
                quick,
            ),
        ) == outcome(minimax_score(eval, pos, depth, quick)),
{
    lemma_window_bounds(eval, order, pos, depth, Score::BlackCheckMate, Score::WhiteCheckMate, quick);
}

/// Where plain minimax finds an advantage and no forced win, a search
/// with the full window and a complete order finds the same advantage.
pub proof fn lemma_alpha_beta_same_advantage<E: Evaluation>(
    eval: E,
    order: MoveOrder,
    pos: Position,
    depth: nat,
    quick: bool,
    x: i64,
)
    requires
        pos.wf(),
        complete(order, eval),
        minimax_score(eval, pos, depth, quick) == Score::Advantage(x),
    ensures
        ({
            let found = alpha_beta_score(
                eval,
                order,
                pos,
                depth,
                Score::BlackCheckMate,
                Score::WhiteCheckMate,
                quick,
            );
            found == Score::Advantage(x) || (x == 0 && found == Score::Undefined)
        }),
{
    lemma_alpha_beta_agrees(eval, order, pos, depth, quick);
}

} // verus!
