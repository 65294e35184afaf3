use vstd::prelude::*;

use crate::cell::{adjacent, hex_steps, lemma_adjacent, within};
use crate::color::Color;
use crate::connect::{
    all_settled, fits, label, lemma_reaches_step, passable, passed_on, reaches, seeded, settled,
    sound, toll,
};
use crate::distance::Distance;
use crate::labelling::{bounded, layered, lemma_relabelled, pending, relabelled, toward};
use crate::position::Position;

verus! {

/// The label a cell gets when the round of depth `d` first touches it:
/// `d` on the side's own stone, `d + 1` on an empty cell, `Unreachable` on
/// a stone of the other side.
pub open spec fn round_label(pos: Position, side: Color, p: (int, int), d: nat) -> Distance {
    if pos.at(p) == side {
        Distance::Reachable(d as usize)
    } else if pos.at(p) == Color::Empty {
        Distance::Reachable((d + 1) as usize)
    } else {
        Distance::Unreachable
    }
}

/// The cell `a` has dealt with its neighbour `b`: `b` is explored, and
/// the count of `a` has been passed on to it.
pub open spec fn handed_on(
    pos: Position,
    side: Color,
    m: Seq<Seq<Distance>>,
    a: (int, int),
    b: (int, int),
) -> bool {
    !(label(m, b) is Unexplored) && passed_on(pos, side, m, a, b)
}

/// The cell `a` has dealt with every neighbour on the board.
pub open spec fn closed(pos: Position, side: Color, m: Seq<Seq<Distance>>, a: (int, int)) -> bool {
    forall|b: (int, int)|
        #![trigger adjacent(a, b)]
        within(pos.size(), b) && adjacent(a, b) ==> handed_on(pos, side, m, a, b)
}

/// `Unreachable` marks only cells the side cannot stand on.
pub open spec fn walled(pos: Position, side: Color, m: Seq<Seq<Distance>>) -> bool {
    forall|p: (int, int)|
        within(pos.size(), p) && #[trigger] label(m, p) is Unreachable ==> !passable(pos, side, p)
}

/// Every cell with a count less than `below` is closed.
pub open spec fn closed_below(
    pos: Position,
    side: Color,
    m: Seq<Seq<Distance>>,
    below: nat,
) -> bool {
    forall|a: (int, int)|
        within(pos.size(), a) && label(m, a) is Reachable && label(m, a)->Reachable_0 < below
            ==> #[trigger] closed(pos, side, m, a)
}

/// The state of the grid between two rounds: counts are true costs, none
/// is more than `layer` plus the toll of its cell, and every cell with a
/// count less than `below` is closed.
pub open spec fn relaxing(
    pos: Position,
    side: Color,
    m: Seq<Seq<Distance>>,
    u: Set<(int, int)>,
    layer: nat,
    below: nat,
) -> bool {
    &&& side.is_side()
    &&& fits(pos, m)
    &&& sound(pos, side, m)
    &&& seeded(pos, side, m)
    &&& walled(pos, side, m)
    &&& layered(pos, side, m, layer)
    &&& pending(pos, m, u)
    &&& bounded(pos, m, u)
    &&& closed_below(pos, side, m, below)
}

/// The grid `now` is the grid `then` with some cells that were unexplored
/// given their label of the round of depth `d`.
pub open spec fn grown(
    pos: Position,
    side: Color,
    then: Seq<Seq<Distance>>,
    now: Seq<Seq<Distance>>,
    d: nat,
) -> bool {
    &&& fits(pos, now)
    &&& forall|p: (int, int)|
        within(pos.size(), p) ==> #[trigger] label(now, p) == label(then, p) || (label(then, p)
            is Unexplored && label(now, p) == round_label(pos, side, p, d))
}

/// Growth in two steps is growth.
pub proof fn lemma_grown_twice(
    pos: Position,
    side: Color,
    a: Seq<Seq<Distance>>,
    b: Seq<Seq<Distance>>,
    c: Seq<Seq<Distance>>,
    d: nat,
)
    requires
        grown(pos, side, a, b, d),
        grown(pos, side, b, c, d),
    ensures
        grown(pos, side, a, c, d),
{
    assert forall|p: (int, int)| within(pos.size(), p) implies #[trigger] label(c, p) == label(a, p)
        || (label(a, p) is Unexplored && label(c, p) == round_label(pos, side, p, d)) by {
        assert(label(b, p) == label(a, p) || (label(a, p) is Unexplored && label(b, p)
            == round_label(pos, side, p, d)));
    }
}

/// Two grids that fit the board and agree on every label are one grid.
pub proof fn lemma_same_grid(pos: Position, a: Seq<Seq<Distance>>, b: Seq<Seq<Distance>>)
    requires
        fits(pos, a),
        fits(pos, b),
        forall|p: (int, int)| within(pos.size(), p) ==> #[trigger] label(a, p) == label(b, p),
    ensures
        a == b,
{
    assert forall|i: int| 0 <= i < a.len() implies a[i] == b[i] by {
        assert forall|j: int| 0 <= j < a[i].len() implies a[i][j] == b[i][j] by {
            assert(label(a, (i, j)) == label(b, (i, j)));
        }
        assert(a[i] =~= b[i]);
    }
    assert(a =~= b);
}

/// A neighbour that was explored when the round began has been dealt
/// with.
pub proof fn lemma_hand_by(
    pos: Position,
    side: Color,
    then: Seq<Seq<Distance>>,
    now: Seq<Seq<Distance>>,
    u: Set<(int, int)>,
    d: nat,
    a: (int, int),
    b: (int, int),
)
    requires
        relaxing(pos, side, now, u, d, d),
        grown(pos, side, then, now, d),
        within(pos.size(), a),
        within(pos.size(), b),
        label(then, a) == Distance::Reachable(d as usize),
        d <= usize::MAX,
        !(label(then, b) is Unexplored),
    ensures
        handed_on(pos, side, now, a, b),
{
    assert(label(now, b) == label(then, b));
    assert(label(now, a) == label(then, a));
}

/// Giving an unexplored neighbour `b` of the frontier cell `a` its label
/// of the round keeps the state of the round, and deals with `b`.
pub proof fn lemma_hand_on(
    pos: Position,
    side: Color,
    then: Seq<Seq<Distance>>,
    now: Seq<Seq<Distance>>,
    u: Set<(int, int)>,
    d: nat,
    a: (int, int),
    b: (int, int),
)
    requires
        relaxing(pos, side, now, u, d, d),
        grown(pos, side, then, now, d),
        within(pos.size(), a),
        within(pos.size(), b),
        adjacent(a, b),
        label(then, a) == Distance::Reachable(d as usize),
        d < usize::MAX,
        label(then, b) is Unexplored,
    ensures
        ({
            let m2 = relabelled(now, b, round_label(pos, side, b, d));
            let u2 = u.remove(b);
            &&& relaxing(pos, side, m2, u2, d, d)
            &&& grown(pos, side, then, m2, d)
            &&& grown(pos, side, now, m2, d)
            &&& handed_on(pos, side, m2, a, b)
            &&& u2.len() < u.len() || (m2 == now && u2 == u)
            &&& label(now, b) is Unexplored ==> u2.len() < u.len()
        }),
{
    let n = pos.size();
    let l = round_label(pos, side, b, d);
    let m2 = relabelled(now, b, l);
    let u2 = u.remove(b);
    lemma_relabelled(pos, now, b, l);
    assert(label(now, a) == label(then, a));
    assert(a != b);
    if !(label(now, b) is Unexplored) {
        assert(label(now, b) == l);
        lemma_same_grid(pos, now, m2);
        assert(!u.contains(b));
        assert(u2 =~= u);
        assert(passable(pos, side, b) ==> label(now, b) is Reachable);
    } else {
        assert(u.contains(b));
        assert(u.len() >= 1) by {
            if u.len() == 0 {
                u.lemma_len0_is_empty();
            }
        }
        assert(d + u.len() <= n * n);
        assert(sound(pos, side, m2)) by {
            assert(passable(pos, side, a) && reaches(pos, side, a, d));
            if passable(pos, side, b) {
                lemma_reaches_step(pos, side, a, d, b);
            }
            assert forall|c: (int, int)| within(n, c) implies match #[trigger] label(m2, c) {
                Distance::Reachable(e) => passable(pos, side, c) && reaches(pos, side, c, e as nat),
                _ => true,
            } by {
                if c != b {
                    assert(label(m2, c) == label(now, c));
                }
            }
        }
        assert(seeded(pos, side, m2)) by {
            assert forall|c: (int, int)|
                within(n, c) && crate::connect::on_start_edge(side, c) && passable(
                    pos,
                    side,
                    c,
                ) implies match #[trigger] label(m2, c) {
                Distance::Reachable(e) => e <= toll(pos, side, c),
                _ => false,
            } by {
                assert(label(now, c) is Reachable);
                assert(label(m2, c) == label(now, c));
            }
        }
        assert(walled(pos, side, m2)) by {
            assert forall|c: (int, int)|
                within(n, c) && #[trigger] label(m2, c) is Unreachable implies !passable(
                pos,
                side,
                c,
            ) by {
                if c != b {
                    assert(label(m2, c) == label(now, c));
                }
            }
        }
        assert(layered(pos, side, m2, d)) by {
            assert forall|c: (int, int)| within(n, c) implies match #[trigger] label(m2, c) {
                Distance::Reachable(e) => e <= d + toll(pos, side, c),
                _ => true,
            } by {
                if c != b {
                    assert(label(m2, c) == label(now, c));
                }
            }
        }
        assert(pending(pos, m2, u2)) by {
            assert forall|c: (int, int)|
                u2.contains(c) <==> within(n, c) && #[trigger] label(m2, c) is Unexplored by {
                if c != b {
                    if within(n, c) {
                        assert(label(m2, c) == label(now, c));
                    }
                    assert(u.contains(c) <==> within(n, c) && label(now, c) is Unexplored);
                }
            }
        }
        assert(bounded(pos, m2, u2)) by {
            assert forall|c: (int, int)| within(n, c) implies match #[trigger] label(m2, c) {
                Distance::Reachable(e) => e + u2.len() <= n * n,
                _ => true,
            } by {
                if c != b {
                    assert(label(m2, c) == label(now, c));
                }
            }
        }
        assert(closed_below(pos, side, m2, d)) by {
            assert forall|c: (int, int)|
                within(n, c) && label(m2, c) is Reachable && label(m2, c)->Reachable_0
                    < d implies #[trigger] closed(pos, side, m2, c) by {
                assert(c != b);
                assert(label(m2, c) == label(now, c));
                assert(closed(pos, side, now, c));
                lemma_closed_stays(pos, side, now, b, l, c);
            }
        }
        assert forall|p: (int, int)| within(n, p) implies #[trigger] label(m2, p) == label(then, p)
            || (label(then, p) is Unexplored && label(m2, p) == round_label(pos, side, p, d)) by {
            if p != b {
                assert(label(m2, p) == label(now, p));
                assert(label(now, p) == label(then, p) || (label(then, p) is Unexplored && label(
                    now,
                    p,
                ) == round_label(pos, side, p, d)));
            }
        }
        assert forall|p: (int, int)| within(n, p) implies #[trigger] label(m2, p) == label(now, p)
            || (label(now, p) is Unexplored && label(m2, p) == round_label(pos, side, p, d)) by {
            if p != b {
                assert(label(m2, p) == label(now, p));
            }
        }
    }
    assert(label(m2, a) == label(now, a));
}

/// A closed cell stays closed when a cell that was unexplored is
/// labelled.
pub proof fn lemma_closed_stays(
    pos: Position,
    side: Color,
    m: Seq<Seq<Distance>>,
    b: (int, int),
    l: Distance,
    c: (int, int),
)
    requires
        fits(pos, m),
        within(pos.size(), b),
        within(pos.size(), c),
        label(m, b) is Unexplored,
        c != b,
        closed(pos, side, m, c),
    ensures
        closed(pos, side, relabelled(m, b, l), c),
{
    let m2 = relabelled(m, b, l);
    lemma_relabelled(pos, m, b, l);
    assert forall|e: (int, int)|
        #![trigger adjacent(c, e)]
        within(pos.size(), e) && adjacent(c, e) implies handed_on(pos, side, m2, c, e) by {
        assert(handed_on(pos, side, m, c, e));
        assert(e != b);
        assert(label(m2, e) == label(m, e));
        assert(label(m2, c) == label(m, c));
    }
}

/// A cell that has dealt with the neighbour along each of the six hex
/// steps is closed.
pub proof fn lemma_all_handed(pos: Position, side: Color, m: Seq<Seq<Distance>>, a: (int, int))
    requires
        forall|j: int|
            0 <= j < 6 && within(pos.size(), #[trigger] toward(a, j)) ==> handed_on(
                pos,
                side,
                m,
                a,
                toward(a, j),
            ),
    ensures
        closed(pos, side, m, a),
{
    assert forall|b: (int, int)|
        #![trigger adjacent(a, b)]
        within(pos.size(), b) && adjacent(a, b) implies handed_on(pos, side, m, a, b) by {
        let j = choose|j: int| 0 <= j < 6 && #[trigger] hex_steps()[j] == (b.0 - a.0, b.1 - a.1);
        assert(toward(a, j) == b);
    }
}

/// When no count above `below - 1` is left open, every cell is settled:
/// either nothing is unexplored any more, or no count reaches `below`.
pub proof fn lemma_relaxed(
    pos: Position,
    side: Color,
    m: Seq<Seq<Distance>>,
    u: Set<(int, int)>,
    layer: nat,
    below: nat,
)
    requires
        relaxing(pos, side, m, u, layer, below),
        layer <= below,
        u.len() == 0 || forall|p: (int, int)|
            within(pos.size(), p) ==> match #[trigger] label(m, p) {
                Distance::Reachable(l) => l < below,
                _ => true,
            },
    ensures
        all_settled(pos, side, m),
{
    if u.len() == 0 {
        u.lemma_len0_is_empty();
    }
    assert forall|a: (int, int)| within(pos.size(), a) implies #[trigger] settled(
        pos,
        side,
        m,
        a,
    ) by {
        match label(m, a) {
            Distance::Reachable(la) => {
                if la < below {
                    assert(closed(pos, side, m, a));
                    assert forall|b: (int, int)|
                        #![trigger adjacent(a, b)]
                        within(pos.size(), b) && adjacent(a, b) implies passed_on(
                        pos,
                        side,
                        m,
                        a,
                        b,
                    ) by {
                        assert(handed_on(pos, side, m, a, b));
                    }
                } else {
                    assert(u.len() == 0);
                    assert forall|b: (int, int)|
                        #![trigger adjacent(a, b)]
                        within(pos.size(), b) && adjacent(a, b) implies passed_on(
                        pos,
                        side,
                        m,
                        a,
                        b,
                    ) by {
                        assert(!u.contains(b));
                        assert(!(label(m, b) is Unexplored));
                        assert(label(m, b) is Unreachable ==> !passable(pos, side, b));
                    }
                }
            },
            _ => {},
        }
    }
}

/// Every cell that has got the count `d` in this round is closed.
pub open spec fn fresh_closed(
    pos: Position,
    side: Color,
    then: Seq<Seq<Distance>>,
    now: Seq<Seq<Distance>>,
    d: nat,
) -> bool {
    forall|a: (int, int)|
        within(pos.size(), a) && label(now, a) == Distance::Reachable(d as usize) && label(then, a)
            != Distance::Reachable(d as usize) ==> #[trigger] closed(pos, side, now, a)
}

/// Every cell that had the count `d` when the round began, and that comes
/// before `(i, j)` in row-major order, is closed.
pub open spec fn swept(
    pos: Position,
    side: Color,
    then: Seq<Seq<Distance>>,
    now: Seq<Seq<Distance>>,
    d: nat,
    i: int,
    j: int,
) -> bool {
    forall|a: (int, int)|
        within(pos.size(), a) && label(then, a) == Distance::Reachable(d as usize) && (a.0 < i || (
        a.0 == i && a.1 < j)) ==> #[trigger] closed(pos, side, now, a)
}

/// The cell `a` has dealt with its neighbours along the first `k` hex
/// steps.
pub open spec fn handed(
    pos: Position,
    side: Color,
    m: Seq<Seq<Distance>>,
    a: (int, int),
    k: int,
) -> bool {
    forall|j: int|
        0 <= j < k && within(pos.size(), #[trigger] toward(a, j)) ==> handed_on(
            pos,
            side,
            m,
            a,
            toward(a, j),
        )
}

/// The state of the grid in the middle of the round of depth `d`, which
/// began with the grid `then`.
pub open spec fn sweeping(
    pos: Position,
    side: Color,
    then: Seq<Seq<Distance>>,
    now: Seq<Seq<Distance>>,
    u: Set<(int, int)>,
    d: nat,
) -> bool {
    &&& d < usize::MAX
    &&& fits(pos, then)
    &&& relaxing(pos, side, now, u, d, d)
    &&& grown(pos, side, then, now, d)
    &&& fresh_closed(pos, side, then, now, d)
}

/// A round begins.
pub proof fn lemma_sweep_begins(
    pos: Position,
    side: Color,
    m: Seq<Seq<Distance>>,
    u: Set<(int, int)>,
    d: nat,
)
    requires
        relaxing(pos, side, m, u, d, d),
        d < usize::MAX,
    ensures
        sweeping(pos, side, m, m, u, d),
        swept(pos, side, m, m, d, 0, 0),
{
}

/// Labelling an unexplored neighbour of the frontier cell `a` keeps the
/// state of the round. Where the neighbour is not the side's own stone,
/// nothing more is to be done for it.
pub proof fn lemma_sweep_marks(
    pos: Position,
    side: Color,
    then: Seq<Seq<Distance>>,
    now: Seq<Seq<Distance>>,
    u: Set<(int, int)>,
    d: nat,
    a: (int, int),
    k: int,
    i: int,
    j: int,
)
    requires
        sweeping(pos, side, then, now, u, d),
        swept(pos, side, then, now, d, i, j),
        handed(pos, side, now, a, k),
        0 <= k < 6,
        within(pos.size(), a),
        within(pos.size(), toward(a, k)),
        label(then, a) == Distance::Reachable(d as usize),
        label(then, toward(a, k)) is Unexplored,
    ensures
        ({
            let b = toward(a, k);
            let m2 = relabelled(now, b, round_label(pos, side, b, d));
            let u2 = u.remove(b);
            &&& relaxing(pos, side, m2, u2, d, d)
            &&& grown(pos, side, then, m2, d)
            &&& u2.subset_of(u)
            &&& !u2.contains(b)
            &&& pos.at(b) != side ==> sweeping(pos, side, then, m2, u2, d) && swept(
                pos,
                side,
                then,
                m2,
                d,
                i,
                j,
            ) && handed(pos, side, m2, a, k + 1)
        }),
{
    let n = pos.size();
    let b = toward(a, k);
    let l = round_label(pos, side, b, d);
    let m2 = relabelled(now, b, l);
    let u2 = u.remove(b);
    lemma_adjacent(a, b);
    assert(hex_steps()[k] == (b.0 - a.0, b.1 - a.1));
    lemma_hand_on(pos, side, then, now, u, d, a, b);
    lemma_relabelled(pos, now, b, l);
    if pos.at(b) != side {
        if label(now, b) is Unexplored {
            assert forall|c: (int, int)|
                within(n, c) && label(m2, c) == Distance::Reachable(d as usize) && label(then, c)
                    != Distance::Reachable(d as usize) implies #[trigger] closed(
                pos,
                side,
                m2,
                c,
            ) by {
                assert(c != b);
                assert(label(m2, c) == label(now, c));
                assert(closed(pos, side, now, c));
                lemma_closed_stays(pos, side, now, b, l, c);
            }
            assert forall|c: (int, int)|
                within(n, c) && label(then, c) == Distance::Reachable(d as usize) && (c.0 < i || (
                c.0 == i && c.1 < j)) implies #[trigger] closed(pos, side, m2, c) by {
                assert(closed(pos, side, now, c));
                lemma_closed_stays(pos, side, now, b, l, c);
            }
            assert forall|e: int|
                0 <= e < k + 1 && within(n, #[trigger] toward(a, e)) implies handed_on(
                pos,
                side,
                m2,
                a,
                toward(a, e),
            ) by {
                if e < k {
                    assert(handed_on(pos, side, now, a, toward(a, e)));
                    assert(toward(a, e) != b);
                    assert(label(m2, toward(a, e)) == label(now, toward(a, e)));
                    assert(label(m2, a) == label(now, a));
                }
            }
        } else {
            assert(m2 == now);
        }
    }
}

/// A neighbour that is off the board, or was explored when the round
/// began, needs nothing.
pub proof fn lemma_sweep_skips(
    pos: Position,
    side: Color,
    then: Seq<Seq<Distance>>,
    now: Seq<Seq<Distance>>,
    u: Set<(int, int)>,
    d: nat,
    a: (int, int),
    k: int,
)
    requires
        sweeping(pos, side, then, now, u, d),
        handed(pos, side, now, a, k),
        0 <= k < 6,
        within(pos.size(), a),
        label(then, a) == Distance::Reachable(d as usize),
        within(pos.size(), toward(a, k)) ==> !(label(then, toward(a, k)) is Unexplored),
    ensures
        handed(pos, side, now, a, k + 1),
{
    if within(pos.size(), toward(a, k)) {
        lemma_hand_by(pos, side, then, now, u, d, a, toward(a, k));
    }
}

/// After the flood from one of the side's own stones has come back, every
/// cell with the count `d` is closed, and the round goes on.
pub proof fn lemma_sweep_resumes(
    pos: Position,
    side: Color,
    then: Seq<Seq<Distance>>,
    mid: Seq<Seq<Distance>>,
    now: Seq<Seq<Distance>>,
    u: Set<(int, int)>,
    d: nat,
    a: (int, int),
    i: int,
    j: int,
)
    requires
        d < usize::MAX,
        fits(pos, then),
        grown(pos, side, then, mid, d),
        grown(pos, side, mid, now, d),
        relaxing(pos, side, now, u, d, d + 1),
        within(pos.size(), a),
        label(then, a) == Distance::Reachable(d as usize),
    ensures
        sweeping(pos, side, then, now, u, d),
        swept(pos, side, then, now, d, i, j),
        handed(pos, side, now, a, 6),
{
    lemma_grown_twice(pos, side, then, mid, now, d);
    assert forall|c: (int, int)|
        within(pos.size(), c) && label(then, c) == Distance::Reachable(d as usize) && (c.0 < i || (
        c.0 == i && c.1 < j)) implies #[trigger] closed(pos, side, now, c) by {
        assert(label(now, c) == label(then, c));
    }
    assert(label(now, a) == label(then, a));
    assert(closed(pos, side, now, a));
    assert forall|e: int| 0 <= e < 6 && within(pos.size(), #[trigger] toward(a, e)) implies handed_on(
        pos,
        side,
        now,
        a,
        toward(a, e),
    ) by {
        lemma_adjacent(a, toward(a, e));
        assert(hex_steps()[e] == (toward(a, e).0 - a.0, toward(a, e).1 - a.1));
        assert(adjacent(a, toward(a, e)));
    }
}

/// A frontier cell that has dealt with all six neighbours is swept.
pub proof fn lemma_sweep_moves_on(
    pos: Position,
    side: Color,
    then: Seq<Seq<Distance>>,
    now: Seq<Seq<Distance>>,
    d: nat,
    i: int,
    j: int,
)
    requires
        swept(pos, side, then, now, d, i, j),
        label(then, (i, j)) == Distance::Reachable(d as usize) ==> handed(
            pos,
            side,
            now,
            (i, j),
            6,
        ),
    ensures
        swept(pos, side, then, now, d, i, j + 1),
{
    if label(then, (i, j)) == Distance::Reachable(d as usize) {
        lemma_all_handed(pos, side, now, (i, j));
    }
}

/// When every cell has been swept the round is over: each cell with a
/// count of at most `d` is closed.
pub proof fn lemma_sweep_ends(
    pos: Position,
    side: Color,
    then: Seq<Seq<Distance>>,
    now: Seq<Seq<Distance>>,
    u: Set<(int, int)>,
    d: nat,
)
    requires
        sweeping(pos, side, then, now, u, d),
        swept(pos, side, then, now, d, pos.size(), 0),
    ensures
        relaxing(pos, side, now, u, d, d + 1),
{
    assert forall|a: (int, int)|
        within(pos.size(), a) && label(now, a) is Reachable && label(now, a)->Reachable_0 < d
            + 1 implies #[trigger] closed(pos, side, now, a) by {
        if label(now, a)->Reachable_0 == d {
            assert(label(now, a) == Distance::Reachable(d as usize));
        }
    }
}

} // verus!
