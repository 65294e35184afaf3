use vstd::prelude::*;

use crate::cell::{adjacent, hex_steps, lemma_adjacent, within};
use crate::color::Color;
use crate::connect::{
    all_settled, describes, fits, label, lemma_reaches_step, lemma_route_start,
    lemma_settled_describes, on_start_edge, passable, passed_on, reaches, seeded, settled, sound,
    toll,
};
use crate::distance::Distance;
use crate::position::{spot, Position};

verus! {

/// The label every cell starts with: the toll of a passable cell of the
/// starting edge, `Unreachable` on a stone of the other side, `Unexplored`
/// elsewhere.
pub open spec fn seed_label(pos: Position, side: Color, p: (int, int)) -> Distance {
    if !passable(pos, side, p) {
        Distance::Unreachable
    } else if on_start_edge(side, p) {
        Distance::Reachable(toll(pos, side, p) as usize)
    } else {
        Distance::Unexplored
    }
}

/// The grid with one label replaced.
pub open spec fn relabelled(m: Seq<Seq<Distance>>, p: (int, int), l: Distance) -> Seq<
    Seq<Distance>,
> {
    m.update(p.0, m[p.0].update(p.1, l))
}

/// The cell one hex step from `a`.
pub open spec fn toward(a: (int, int), k: int) -> (int, int) {
    (a.0 + hex_steps()[k].0, a.1 + hex_steps()[k].1)
}

/// `Unreachable` marks the cells the side cannot stand on, and no others.
pub open spec fn marked(pos: Position, side: Color, m: Seq<Seq<Distance>>) -> bool {
    forall|p: (int, int)|
        within(pos.size(), p) ==> (#[trigger] label(m, p) is Unreachable <==> !passable(
            pos,
            side,
            p,
        ))
}

/// No count is more than `depth` plus the toll of its cell.
pub open spec fn layered(pos: Position, side: Color, m: Seq<Seq<Distance>>, depth: nat) -> bool {
    forall|p: (int, int)|
        within(pos.size(), p) ==> match #[trigger] label(m, p) {
            Distance::Reachable(l) => l <= depth + toll(pos, side, p),
            _ => true,
        }
}

/// The cell `p` waits in the queue.
pub open spec fn waiting(q: Seq<(usize, usize)>, p: (int, int)) -> bool {
    exists|i: int| 0 <= i < q.len() && spot(#[trigger] q[i]) == p
}

/// The queue holds cells of the board, each once, each with a count of
/// `depth` or `depth + 1`, and in the order of their counts.
pub open spec fn lined_up(
    pos: Position,
    m: Seq<Seq<Distance>>,
    q: Seq<(usize, usize)>,
    depth: nat,
) -> bool {
    &&& forall|i: int|
        0 <= i < q.len() ==> within(pos.size(), spot(#[trigger] q[i])) && match label(
            m,
            spot(q[i]),
        ) {
            Distance::Reachable(l) => depth <= l <= depth + 1,
            _ => false,
        }
    &&& forall|i: int, j: int|
        0 <= i < j < q.len() ==> q[i] != q[j] && label(m, spot(q[i]))->Reachable_0 <= label(
            m,
            spot(q[j]),
        )->Reachable_0
}

/// `u` is the set of the cells that are still `Unexplored`.
pub open spec fn pending(pos: Position, m: Seq<Seq<Distance>>, u: Set<(int, int)>) -> bool {
    &&& u.finite()
    &&& forall|p: (int, int)|
        u.contains(p) <==> within(pos.size(), p) && #[trigger] label(m, p) is Unexplored
}

/// Every count, with the number of cells still unexplored, stays within
/// the number of cells of the board.
pub open spec fn bounded(pos: Position, m: Seq<Seq<Distance>>, u: Set<(int, int)>) -> bool {
    &&& pos.size() * pos.size() <= usize::MAX
    &&& forall|p: (int, int)|
        within(pos.size(), p) ==> match #[trigger] label(m, p) {
            Distance::Reachable(l) => l + u.len() <= pos.size() * pos.size(),
            _ => true,
        }
}

/// What holds of the grid at every moment of the search, whatever the
/// queue.
pub open spec fn steady(
    pos: Position,
    side: Color,
    m: Seq<Seq<Distance>>,
    u: Set<(int, int)>,
    depth: nat,
) -> bool {
    &&& side.is_side()
    &&& fits(pos, m)
    &&& sound(pos, side, m)
    &&& seeded(pos, side, m)
    &&& marked(pos, side, m)
    &&& layered(pos, side, m, depth)
    &&& pending(pos, m, u)
    &&& bounded(pos, m, u)
}

/// The state between two cells taken from the queue: every cell with a
/// count either waits in the queue or is settled.
pub open spec fn flooding(
    pos: Position,
    side: Color,
    m: Seq<Seq<Distance>>,
    q: Seq<(usize, usize)>,
    u: Set<(int, int)>,
    depth: nat,
) -> bool {
    &&& steady(pos, side, m, u, depth)
    &&& lined_up(pos, m, q, depth)
    &&& forall|a: (int, int)|
        within(pos.size(), a) && label(m, a) is Reachable && !waiting(q, a) ==> #[trigger] settled(
            pos,
            side,
            m,
            a,
        )
}

/// The state while the neighbours of `a` are visited: `a` has left the
/// queue, and its count has been passed on along the first `k` hex steps.
pub open spec fn expanding(
    pos: Position,
    side: Color,
    m: Seq<Seq<Distance>>,
    q: Seq<(usize, usize)>,
    u: Set<(int, int)>,
    a: (int, int),
    k: int,
) -> bool {
    &&& within(pos.size(), a)
    &&& label(m, a) is Reachable
    &&& steady(pos, side, m, u, label(m, a)->Reachable_0 as nat)
    &&& lined_up(pos, m, q, label(m, a)->Reachable_0 as nat)
    &&& !waiting(q, a)
    &&& forall|c: (int, int)|
        within(pos.size(), c) && label(m, c) is Reachable && !waiting(q, c) && c != a
            ==> #[trigger] settled(pos, side, m, c)
    &&& forall|j: int|
        0 <= j < k && within(pos.size(), #[trigger] toward(a, j)) ==> passed_on(
            pos,
            side,
            m,
            a,
            toward(a, j),
        )
}

/// Labels of a relabelled grid.
pub proof fn lemma_relabelled(pos: Position, m: Seq<Seq<Distance>>, b: (int, int), l: Distance)
    requires
        fits(pos, m),
        within(pos.size(), b),
    ensures
        fits(pos, relabelled(m, b, l)),
        label(relabelled(m, b, l), b) == l,
        forall|p: (int, int)|
            within(pos.size(), p) && p != b ==> #[trigger] label(relabelled(m, b, l), p) == label(
                m,
                p,
            ),
{
    let m2 = relabelled(m, b, l);
    assert forall|i: int| 0 <= i < m2.len() implies (#[trigger] m2[i]).len() == pos.size() by {
        if i != b.0 {
            assert(m2[i] == m[i]);
        }
    }
}

/// Taking the first cell from the queue starts its expansion.
pub proof fn lemma_take_front(
    pos: Position,
    side: Color,
    m: Seq<Seq<Distance>>,
    q: Seq<(usize, usize)>,
    u: Set<(int, int)>,
    depth: nat,
)
    requires
        flooding(pos, side, m, q, u, depth),
        q.len() > 0,
    ensures
        expanding(pos, side, m, q.subrange(1, q.len() as int), u, spot(q[0]), 0),
        label(m, spot(q[0])) is Reachable,
        within(pos.size(), spot(q[0])),
{
    let a = spot(q[0]);
    let rest = q.subrange(1, q.len() as int);
    let d = label(m, a)->Reachable_0 as nat;
    assert(within(pos.size(), spot(q[0])));
    assert(forall|i: int| 0 <= i < rest.len() ==> rest[i] == q[i + 1]);
    assert(!waiting(rest, a)) by {
        if waiting(rest, a) {
            let i = choose|i: int| 0 <= i < rest.len() && spot(#[trigger] rest[i]) == a;
            assert(q[i + 1] != q[0]);
        }
    }
    assert(lined_up(pos, m, rest, d)) by {
        assert forall|i: int| 0 <= i < rest.len() implies within(
            pos.size(),
            spot(#[trigger] rest[i]),
        ) && match label(m, spot(rest[i])) {
            Distance::Reachable(l) => d <= l <= d + 1,
            _ => false,
        } by {
            assert(rest[i] == q[i + 1]);
            assert(within(pos.size(), spot(q[i + 1])));
        }
        assert forall|i: int, j: int| 0 <= i < j < rest.len() implies rest[i] != rest[j] && label(
            m,
            spot(rest[i]),
        )->Reachable_0 <= label(m, spot(rest[j]))->Reachable_0 by {
            assert(rest[i] == q[i + 1] && rest[j] == q[j + 1]);
        }
    }
    assert forall|c: (int, int)|
        within(pos.size(), c) && label(m, c) is Reachable && !waiting(rest, c) && c
            != a implies #[trigger] settled(pos, side, m, c) by {
        if waiting(q, c) {
            let i = choose|i: int| 0 <= i < q.len() && spot(#[trigger] q[i]) == c;
            assert(i > 0);
            assert(rest[i - 1] == q[i]);
            assert(waiting(rest, c));
        }
    }
}

/// A neighbour that is off the board or already labelled needs nothing:
/// the count of `a` has been passed on to it.
pub proof fn lemma_pass_by(
    pos: Position,
    side: Color,
    m: Seq<Seq<Distance>>,
    q: Seq<(usize, usize)>,
    u: Set<(int, int)>,
    a: (int, int),
    k: int,
)
    requires
        expanding(pos, side, m, q, u, a, k),
        0 <= k < 6,
        within(pos.size(), toward(a, k)) ==> !(label(m, toward(a, k)) is Unexplored),
    ensures
        expanding(pos, side, m, q, u, a, k + 1),
{
    let b = toward(a, k);
    assert forall|j: int|
        0 <= j < k + 1 && within(pos.size(), #[trigger] toward(a, j)) implies passed_on(
        pos,
        side,
        m,
        a,
        toward(a, j),
    ) by {
        if j == k {
            assert(label(m, b) is Unreachable <==> !passable(pos, side, b));
        }
    }
}

/// An unexplored neighbour gets the count of `a` plus its own toll. It
/// joins the queue at the front where it costs nothing, at the back
/// where it costs a stone, and leaves the set of unexplored cells.
pub proof fn lemma_pass_on(
    pos: Position,
    side: Color,
    m: Seq<Seq<Distance>>,
    q: Seq<(usize, usize)>,
    u: Set<(int, int)>,
    a: (int, int),
    k: int,
    b: (usize, usize),
)
    requires
        expanding(pos, side, m, q, u, a, k),
        0 <= k < 6,
        spot(b) == toward(a, k),
        within(pos.size(), spot(b)),
        label(m, spot(b)) is Unexplored,
    ensures
        label(m, a)->Reachable_0 + toll(pos, side, spot(b)) <= usize::MAX,
        u.contains(spot(b)),
        ({
            let l = Distance::Reachable(
                (label(m, a)->Reachable_0 + toll(pos, side, spot(b))) as usize,
            );
            let q2 = if pos.at(spot(b)) == side {
                seq![b] + q
            } else {
                q.push(b)
            };
            expanding(pos, side, relabelled(m, spot(b), l), q2, u.remove(spot(b)), a, k + 1)
        }),
{
    let p = spot(b);
    let d = label(m, a)->Reachable_0 as nat;
    let t = toll(pos, side, p);
    let n = pos.size();
    assert(u.contains(p));
    assert(u.len() >= 1) by {
        if u.len() == 0 {
            u.lemma_len0_is_empty();
        }
    }
    assert(d + u.len() <= n * n);
    let l = Distance::Reachable((d + t) as usize);
    let m2 = relabelled(m, p, l);
    let q2 = if pos.at(p) == side {
        seq![b] + q
    } else {
        q.push(b)
    };
    let u2 = u.remove(p);
    lemma_relabelled(pos, m, p, l);
    lemma_adjacent(a, p);
    assert(hex_steps()[k] == (p.0 - a.0, p.1 - a.1));
    assert(adjacent(a, p));
    assert(label(m, p) is Unreachable <==> !passable(pos, side, p));
    assert(passable(pos, side, p));
    assert(a != p);
    assert(!waiting(q, p)) by {
        if waiting(q, p) {
            let i = choose|i: int| 0 <= i < q.len() && spot(#[trigger] q[i]) == p;
            assert(label(m, spot(q[i])) is Reachable);
        }
    }
    assert(sound(pos, side, m2)) by {
        assert(passable(pos, side, a) && reaches(pos, side, a, d)) by {
            assert(label(m, a) is Reachable);
        }
        lemma_reaches_step(pos, side, a, d, p);
        assert forall|c: (int, int)| within(n, c) implies match #[trigger] label(m2, c) {
            Distance::Reachable(e) => passable(pos, side, c) && reaches(pos, side, c, e as nat),
            _ => true,
        } by {
            if c != p {
                assert(label(m2, c) == label(m, c));
            }
        }
    }
    assert(seeded(pos, side, m2)) by {
        assert forall|c: (int, int)|
            within(n, c) && on_start_edge(side, c) && passable(pos, side, c) implies match
            #[trigger] label(m2, c) {
                Distance::Reachable(e) => e <= toll(pos, side, c),
                _ => false,
            } by {
            assert(label(m, c) is Reachable);
            assert(c != p);
            assert(label(m2, c) == label(m, c));
        }
    }
    assert(marked(pos, side, m2)) by {
        assert forall|c: (int, int)| within(n, c) implies (#[trigger] label(m2, c) is Unreachable
            <==> !passable(pos, side, c)) by {
            if c != p {
                assert(label(m2, c) == label(m, c));
            }
        }
    }
    assert(layered(pos, side, m2, d)) by {
        assert forall|c: (int, int)| within(n, c) implies match #[trigger] label(m2, c) {
            Distance::Reachable(e) => e <= d + toll(pos, side, c),
            _ => true,
        } by {
            if c != p {
                assert(label(m2, c) == label(m, c));
            }
        }
    }
    assert(pending(pos, m2, u2)) by {
        assert forall|c: (int, int)|
            u2.contains(c) <==> within(n, c) && #[trigger] label(m2, c) is Unexplored by {
            if c != p {
                if within(n, c) {
                    assert(label(m2, c) == label(m, c));
                }
                assert(u.contains(c) <==> within(n, c) && label(m, c) is Unexplored);
            }
        }
    }
    assert(bounded(pos, m2, u2)) by {
        assert forall|c: (int, int)| within(n, c) implies match #[trigger] label(m2, c) {
            Distance::Reachable(e) => e + u2.len() <= n * n,
            _ => true,
        } by {
            if c != p {
                assert(label(m2, c) == label(m, c));
            }
        }
    }
    assert(lined_up(pos, m2, q2, d)) by {
        assert forall|i: int| 0 <= i < q2.len() implies within(n, spot(#[trigger] q2[i]))
            && match label(m2, spot(q2[i])) {
            Distance::Reachable(e) => d <= e <= d + 1,
            _ => false,
        } by {
            if q2[i] != b {
                let i0 = if pos.at(p) == side {
                    i - 1
                } else {
                    i
                };
                assert(q2[i] == q[i0]);
                assert(within(n, spot(q[i0])));
                assert(label(m2, spot(q[i0])) == label(m, spot(q[i0])));
            }
        }
        assert forall|i: int, j: int| 0 <= i < j < q2.len() implies q2[i] != q2[j] && label(
            m2,
            spot(q2[i]),
        )->Reachable_0 <= label(m2, spot(q2[j]))->Reachable_0 by {
            if pos.at(p) == side {
                assert(q2[j] == q[j - 1]);
                assert(within(n, spot(q[j - 1])));
                assert(spot(q[j - 1]) != p);
                assert(label(m2, spot(q[j - 1])) == label(m, spot(q[j - 1])));
                if i > 0 {
                    assert(q2[i] == q[i - 1]);
                    assert(within(n, spot(q[i - 1])));
                    assert(spot(q[i - 1]) != p);
                    assert(label(m2, spot(q[i - 1])) == label(m, spot(q[i - 1])));
                }
            } else {
                assert(q2[i] == q[i]);
                assert(within(n, spot(q[i])));
                assert(spot(q[i]) != p);
                assert(label(m2, spot(q[i])) == label(m, spot(q[i])));
                if j < q.len() {
                    assert(q2[j] == q[j]);
                    assert(within(n, spot(q[j])));
                    assert(spot(q[j]) != p);
                    assert(label(m2, spot(q[j])) == label(m, spot(q[j])));
                }
            }
        }
    }
    assert(waiting(q2, p)) by {
        let i = if pos.at(p) == side {
            0int
        } else {
            q.len() as int
        };
        assert(spot(q2[i]) == p);
    }
    assert(!waiting(q2, a)) by {
        if waiting(q2, a) {
            let i = choose|i: int| 0 <= i < q2.len() && spot(#[trigger] q2[i]) == a;
            let i0 = if pos.at(p) == side {
                i - 1
            } else {
                i
            };
            assert(q2[i] != b);
            assert(q2[i] == q[i0]);
        }
    }
    assert forall|c: (int, int)|
        within(n, c) && label(m2, c) is Reachable && !waiting(q2, c) && c
            != a implies #[trigger] settled(pos, side, m2, c) by {
        assert(c != p);
        assert(label(m2, c) == label(m, c));
        if waiting(q, c) {
            let i = choose|i: int| 0 <= i < q.len() && spot(#[trigger] q[i]) == c;
            let i2 = if pos.at(p) == side {
                i + 1
            } else {
                i
            };
            assert(q2[i2] == q[i]);
            assert(waiting(q2, c));
        }
        assert(settled(pos, side, m, c));
        assert forall|e: (int, int)|
            #![trigger adjacent(c, e)]
            within(n, e) && adjacent(c, e) implies passed_on(pos, side, m2, c, e) by {
            assert(passed_on(pos, side, m, c, e));
            if e != p {
                assert(label(m2, e) == label(m, e));
            }
        }
    }
    assert forall|j: int|
        0 <= j < k + 1 && within(n, #[trigger] toward(a, j)) implies passed_on(
        pos,
        side,
        m2,
        a,
        toward(a, j),
    ) by {
        assert(label(m2, a) == label(m, a));
        let e = toward(a, j);
        if j < k {
            assert(passed_on(pos, side, m, a, e));
            if e != p {
                assert(label(m2, e) == label(m, e));
            }
        }
    }
    assert(label(m2, a) == label(m, a));
}

/// Once all six steps have been taken, `a` is settled.
pub proof fn lemma_expanded(
    pos: Position,
    side: Color,
    m: Seq<Seq<Distance>>,
    q: Seq<(usize, usize)>,
    u: Set<(int, int)>,
    a: (int, int),
)
    requires
        expanding(pos, side, m, q, u, a, 6),
    ensures
        flooding(pos, side, m, q, u, label(m, a)->Reachable_0 as nat),
{
    assert(settled(pos, side, m, a)) by {
        assert forall|b: (int, int)|
            #![trigger adjacent(a, b)]
            within(pos.size(), b) && adjacent(a, b) implies passed_on(pos, side, m, a, b) by {
            let j = choose|j: int|
                0 <= j < 6 && #[trigger] hex_steps()[j] == (b.0 - a.0, b.1 - a.1);
            assert(toward(a, j) == b);
        }
    }
}

/// When the queue is empty the grid tells the truth about every cell.
pub proof fn lemma_flooded(
    pos: Position,
    side: Color,
    m: Seq<Seq<Distance>>,
    u: Set<(int, int)>,
    depth: nat,
)
    requires
        flooding(pos, side, m, Seq::empty(), u, depth),
    ensures
        describes(pos, side, m),
{
    assert forall|a: (int, int)| within(pos.size(), a) implies #[trigger] settled(
        pos,
        side,
        m,
        a,
    ) by {
        if label(m, a) is Reachable {
            assert(!waiting(Seq::<(usize, usize)>::empty(), a));
        }
    }
    lemma_settled_describes(pos, side, m);
}

} // verus!
