use vstd::prelude::*;

use crate::cell::{adjacent, within};
use crate::color::Color;
use crate::distance::Distance;
use crate::position::Position;

verus! {

/// A side can stand on a cell that is its own or empty.
pub open spec fn passable(pos: Position, side: Color, p: (int, int)) -> bool {
    within(pos.size(), p) && (pos.at(p) == side || pos.at(p) == Color::Empty)
}

/// What it costs a side to stand on a passable cell: nothing on its own
/// stone, one stone on an empty cell.
pub open spec fn toll(pos: Position, side: Color, p: (int, int)) -> nat {
    if pos.at(p) == side {
        0
    } else {
        1
    }
}

/// Black starts from the first row, White from the first column.
pub open spec fn on_start_edge(side: Color, p: (int, int)) -> bool {
    match side {
        Color::Black => p.0 == 0,
        Color::White => p.1 == 0,
        Color::Empty => false,
    }
}

/// Black aims at the last row, White at the last column.
pub open spec fn on_target_edge(pos: Position, side: Color, p: (int, int)) -> bool {
    match side {
        Color::Black => p.0 == pos.size() - 1,
        Color::White => p.1 == pos.size() - 1,
        Color::Empty => false,
    }
}

/// A route of a side: a walk over passable cells, each next to the one
/// before, that begins on the side's starting edge.
pub open spec fn is_route(pos: Position, side: Color, r: Seq<(int, int)>) -> bool {
    &&& r.len() > 0
    &&& on_start_edge(side, r[0])
    &&& forall|i: int| 0 <= i < r.len() ==> passable(pos, side, #[trigger] r[i])
    &&& forall|i: int| 0 < i < r.len() ==> adjacent(r[i - 1], #[trigger] r[i])
}

/// The stones a side must place to own every cell of a walk.
pub open spec fn route_toll(pos: Position, side: Color, r: Seq<(int, int)>) -> nat
    decreases r.len(),
{
    if r.len() == 0 {
        0
    } else {
        route_toll(pos, side, r.drop_last()) + toll(pos, side, r.last())
    }
}

/// Some route ends at `p` and costs at most `d` stones.
pub open spec fn reaches(pos: Position, side: Color, p: (int, int), d: nat) -> bool {
    exists|r: Seq<(int, int)>|
        #![trigger is_route(pos, side, r)]
        is_route(pos, side, r) && r.last() == p && route_toll(pos, side, r) <= d
}

/// `d` is the least number of stones with which the side reaches `p`.
pub open spec fn is_distance(pos: Position, side: Color, p: (int, int), d: nat) -> bool {
    reaches(pos, side, p, d) && (d > 0 ==> !reaches(pos, side, p, (d - 1) as nat))
}

/// No route of the side ends at `p`.
pub open spec fn cut_off(pos: Position, side: Color, p: (int, int)) -> bool {
    forall|d: nat| !reaches(pos, side, p, d)
}

/// With at most `d` more stones the side joins its two edges.
pub open spec fn connects(pos: Position, side: Color, d: nat) -> bool {
    exists|p: (int, int)|
        #![trigger on_target_edge(pos, side, p)]
        on_target_edge(pos, side, p) && reaches(pos, side, p, d)
}

/// `r` is the answer to "how many stones does the side still need": the
/// least number with which it joins its edges, or nothing where no number
/// of stones will do.
pub open spec fn is_moves_to_connect(pos: Position, side: Color, r: Option<usize>) -> bool {
    match r {
        Some(d) => connects(pos, side, d as nat) && (d > 0 ==> !connects(
            pos,
            side,
            (d - 1) as nat,
        )),
        None => forall|d: nat| !connects(pos, side, d),
    }
}

/// The side has joined its two edges with a chain of its own stones.
pub open spec fn has_won(pos: Position, side: Color) -> bool {
    connects(pos, side, 0)
}

/// The side that has joined its edges, Black being asked first; nothing
/// while neither has.
pub open spec fn winner_of(pos: Position) -> Option<Color> {
    if has_won(pos, Color::Black) {
        Some(Color::Black)
    } else if has_won(pos, Color::White) {
        Some(Color::White)
    } else {
        None
    }
}

/// The label of a cell in a grid of distances.
pub open spec fn label(m: Seq<Seq<Distance>>, p: (int, int)) -> Distance {
    m[p.0][p.1]
}

/// A grid of distances with one label for each cell of the board.
pub open spec fn fits(pos: Position, m: Seq<Seq<Distance>>) -> bool {
    &&& m.len() == pos.size()
    &&& forall|i: int| 0 <= i < m.len() ==> (#[trigger] m[i]).len() == pos.size()
}

/// The label `l` says of cell `p` what is true of it: the least number of
/// stones where a route ends there, `Unreachable` on a stone of the other
/// side, `Unexplored` on a passable cell that no route reaches.
pub open spec fn tells(pos: Position, side: Color, p: (int, int), l: Distance) -> bool {
    match l {
        Distance::Reachable(d) => is_distance(pos, side, p, d as nat),
        Distance::Unreachable => !passable(pos, side, p),
        Distance::Unexplored => passable(pos, side, p) && cut_off(pos, side, p),
    }
}

/// The grid tells the truth about every cell of the board.
pub open spec fn describes(pos: Position, side: Color, m: Seq<Seq<Distance>>) -> bool {
    &&& fits(pos, m)
    &&& forall|p: (int, int)| within(pos.size(), p) ==> tells(pos, side, p, #[trigger] label(m, p))
}

/// Every count in the grid is the cost of a real route to that cell.
pub open spec fn sound(pos: Position, side: Color, m: Seq<Seq<Distance>>) -> bool {
    forall|p: (int, int)|
        within(pos.size(), p) ==> match #[trigger] label(m, p) {
            Distance::Reachable(d) => passable(pos, side, p) && reaches(pos, side, p, d as nat),
            _ => true,
        }
}

/// Every passable cell of the starting edge carries a count no larger
/// than its own toll.
pub open spec fn seeded(pos: Position, side: Color, m: Seq<Seq<Distance>>) -> bool {
    forall|p: (int, int)|
        within(pos.size(), p) && on_start_edge(side, p) && passable(pos, side, p) ==> match
        #[trigger] label(m, p) {
            Distance::Reachable(d) => d <= toll(pos, side, p),
            _ => false,
        }
}

/// The count at `a` has been passed on to the neighbour `b`: if `a`
/// carries a count and `b` is passable, `b` carries one no larger than
/// that of `a` plus its own toll.
pub open spec fn passed_on(
    pos: Position,
    side: Color,
    m: Seq<Seq<Distance>>,
    a: (int, int),
    b: (int, int),
) -> bool {
    match label(m, a) {
        Distance::Reachable(da) => passable(pos, side, b) ==> match label(m, b) {
            Distance::Reachable(db) => db <= da + toll(pos, side, b),
            _ => false,
        },
        _ => true,
    }
}

/// The count at `a` has been passed on to every neighbour on the board.
pub open spec fn settled(pos: Position, side: Color, m: Seq<Seq<Distance>>, a: (int, int)) -> bool {
    forall|b: (int, int)|
        #![trigger adjacent(a, b)]
        within(pos.size(), b) && adjacent(a, b) ==> passed_on(pos, side, m, a, b)
}

/// Every cell of the board is settled.
pub open spec fn all_settled(pos: Position, side: Color, m: Seq<Seq<Distance>>) -> bool {
    forall|a: (int, int)| within(pos.size(), a) ==> #[trigger] settled(pos, side, m, a)
}

/// A single passable cell of the starting edge is a route.
pub proof fn lemma_route_start(pos: Position, side: Color, p: (int, int))
    requires
        passable(pos, side, p),
        on_start_edge(side, p),
    ensures
        is_route(pos, side, seq![p]),
        route_toll(pos, side, seq![p]) == toll(pos, side, p),
        reaches(pos, side, p, toll(pos, side, p)),
{
    let r = seq![p];
    assert(r.drop_last() =~= Seq::<(int, int)>::empty());
    assert(route_toll(pos, side, r.drop_last()) == 0);
    assert(is_route(pos, side, r));
}

/// A route grows by a passable neighbour of its end, at the price of that
/// cell's toll.
pub proof fn lemma_route_push(pos: Position, side: Color, r: Seq<(int, int)>, b: (int, int))
    requires
        is_route(pos, side, r),
        passable(pos, side, b),
        adjacent(r.last(), b),
    ensures
        is_route(pos, side, r.push(b)),
        route_toll(pos, side, r.push(b)) == route_toll(pos, side, r) + toll(pos, side, b),
{
    let s = r.push(b);
    assert(s.drop_last() =~= r);
    assert forall|i: int| 0 < i < s.len() implies adjacent(s[i - 1], #[trigger] s[i]) by {
        if i < r.len() {
            assert(s[i] == r[i]);
            assert(s[i - 1] == r[i - 1]);
        }
    }
    assert forall|i: int| 0 <= i < s.len() implies passable(pos, side, #[trigger] s[i]) by {
        if i < r.len() {
            assert(s[i] == r[i]);
        }
    }
}

/// A route without its last cell is a route that costs no more.
pub proof fn lemma_route_pop(pos: Position, side: Color, r: Seq<(int, int)>)
    requires
        is_route(pos, side, r),
        r.len() > 1,
    ensures
        is_route(pos, side, r.drop_last()),
        route_toll(pos, side, r) == route_toll(pos, side, r.drop_last()) + toll(
            pos,
            side,
            r.last(),
        ),
        adjacent(r.drop_last().last(), r.last()),
{
    let s = r.drop_last();
    assert forall|i: int| 0 <= i < s.len() implies passable(pos, side, #[trigger] s[i]) by {
        assert(s[i] == r[i]);
    }
    assert forall|i: int| 0 < i < s.len() implies adjacent(s[i - 1], #[trigger] s[i]) by {
        assert(s[i] == r[i]);
        assert(s[i - 1] == r[i - 1]);
    }
    assert(s.last() == r[r.len() - 2]);
}

/// Reaching a cell, the side reaches each passable neighbour at the price
/// of the neighbour's toll.
pub proof fn lemma_reaches_step(pos: Position, side: Color, a: (int, int), d: nat, b: (int, int))
    requires
        reaches(pos, side, a, d),
        passable(pos, side, b),
        adjacent(a, b),
    ensures
        reaches(pos, side, b, d + toll(pos, side, b)),
{
    let r = choose|r: Seq<(int, int)>|
        #![trigger is_route(pos, side, r)]
        is_route(pos, side, r) && r.last() == a && route_toll(pos, side, r) <= d;
    lemma_route_push(pos, side, r, b);
    assert(is_route(pos, side, r.push(b)));
}

/// With more stones the side reaches what it reached with fewer.
pub proof fn lemma_reaches_more(pos: Position, side: Color, p: (int, int), d: nat, e: nat)
    requires
        reaches(pos, side, p, d),
        d <= e,
    ensures
        reaches(pos, side, p, e),
{
    let r = choose|r: Seq<(int, int)>|
        #![trigger is_route(pos, side, r)]
        is_route(pos, side, r) && r.last() == p && route_toll(pos, side, r) <= d;
    assert(is_route(pos, side, r));
}

/// With more stones the side joins what it joined with fewer.
pub proof fn lemma_connects_more(pos: Position, side: Color, d: nat, e: nat)
    requires
        connects(pos, side, d),
        d <= e,
    ensures
        connects(pos, side, e),
{
    let p = choose|p: (int, int)|
        #![trigger on_target_edge(pos, side, p)]
        on_target_edge(pos, side, p) && reaches(pos, side, p, d);
    lemma_reaches_more(pos, side, p, d, e);
    assert(on_target_edge(pos, side, p));
}

/// The number of stones a side still needs is zero exactly when the side
/// has won.
pub proof fn lemma_won_iff_nothing_missing(pos: Position, side: Color, r: Option<usize>)
    requires
        is_moves_to_connect(pos, side, r),
    ensures
        r == Some(0usize) <==> has_won(pos, side),
{
    if has_won(pos, side) {
        match r {
            Some(d) => {
                if d > 0 {
                    lemma_connects_more(pos, side, 0, (d - 1) as nat);
                }
            },
            None => {},
        }
    }
}

/// There is one answer to how many stones a side still needs.
pub proof fn lemma_moves_to_connect_unique(
    pos: Position,
    side: Color,
    a: Option<usize>,
    b: Option<usize>,
)
    requires
        is_moves_to_connect(pos, side, a),
        is_moves_to_connect(pos, side, b),
    ensures
        a == b,
{
    match (a, b) {
        (Some(x), Some(y)) => {
            if x < y {
                lemma_connects_more(pos, side, x as nat, (y - 1) as nat);
            }
            if y < x {
                lemma_connects_more(pos, side, y as nat, (x - 1) as nat);
            }
        },
        _ => {},
    }
}

/// A route that costs nothing runs over the side's own stones only.
pub proof fn lemma_free_route(pos: Position, side: Color, r: Seq<(int, int)>)
    requires
        route_toll(pos, side, r) == 0,
    ensures
        forall|i: int| 0 <= i < r.len() ==> pos.at(#[trigger] r[i]) == side,
    decreases r.len(),
{
    if r.len() > 0 {
        lemma_free_route(pos, side, r.drop_last());
        assert forall|i: int| 0 <= i < r.len() implies pos.at(#[trigger] r[i]) == side by {
            if i < r.len() - 1 {
                assert(r.drop_last()[i] == r[i]);
            }
        }
    }
}

/// A walk over the side's own stones costs nothing.
pub proof fn lemma_own_route(pos: Position, side: Color, r: Seq<(int, int)>)
    requires
        forall|i: int| 0 <= i < r.len() ==> pos.at(#[trigger] r[i]) == side,
    ensures
        route_toll(pos, side, r) == 0,
    decreases r.len(),
{
    if r.len() > 0 {
        assert forall|i: int| 0 <= i < r.drop_last().len() implies pos.at(
            #[trigger] r.drop_last()[i],
        ) == side by {
            assert(r.drop_last()[i] == r[i]);
        }
        lemma_own_route(pos, side, r.drop_last());
        assert(pos.at(r[r.len() - 1]) == side);
    }
}

/// A stone placed on an empty cell cannot complete the chain of the
/// other side: if `side` has won after a stone of another colour was
/// placed, it had won before.
pub proof fn lemma_won_before(pos: Position, p: (int, int), stone: Color, side: Color)
    requires
        pos.wf(),
        pos.is_valid(p),
        side.is_side(),
        stone != side,
        has_won(pos.with_stone(p, stone), side),
    ensures
        has_won(pos, side),
{
    let after = pos.with_stone(p, stone);
    let t = choose|t: (int, int)|
        #![trigger on_target_edge(after, side, t)]
        on_target_edge(after, side, t) && reaches(after, side, t, 0);
    let r = choose|r: Seq<(int, int)>|
        #![trigger is_route(after, side, r)]
        is_route(after, side, r) && r.last() == t && route_toll(after, side, r) <= 0;
    lemma_free_route(after, side, r);
    assert(after.size() == pos.size());
    assert forall|i: int| 0 <= i < r.len() implies pos.at(#[trigger] r[i]) == side && passable(
        pos,
        side,
        r[i],
    ) by {
        assert(passable(after, side, r[i]));
        assert(after.at(r[i]) == side);
        if r[i] == p {
            assert(after.cells[p.0][p.1] == stone);
        } else if r[i].0 == p.0 {
            assert(after.cells[p.0][r[i].1] == pos.cells[p.0][r[i].1]);
        }
    }
    lemma_own_route(pos, side, r);
    assert(is_route(pos, side, r));
    assert(on_target_edge(pos, side, t));
    assert(reaches(pos, side, t, 0));
}

/// The move that completes a side's chain wins the game: once the side
/// to move has joined its edges by a stone, and the other side had not
/// joined its own before, the side needs no more stones and is the
/// winner.
pub proof fn lemma_winning_move(pos: Position, p: (int, int))
    requires
        pos.wf(),
        pos.is_valid(p),
        !has_won(pos, pos.next.opponent_spec()),
        has_won(pos.played(p), pos.next),
    ensures
        is_moves_to_connect(pos.played(p), pos.next, Some(0usize)),
        winner_of(pos.played(p)) == Some(pos.next),
        has_won(pos.played(p), pos.played(p).next.opponent_spec()),
{
    let after = pos.played(p);
    let other = pos.next.opponent_spec();
    assert(forall|side: Color, q: (int, int)|
        #![trigger passable(after, side, q)]
        passable(after, side, q) == passable(pos.with_stone(p, pos.next), side, q));
    assert(after.cells == pos.with_stone(p, pos.next).cells);
    if has_won(after, other) {
        lemma_same_cells(after, pos.with_stone(p, pos.next), other);
        lemma_won_before(pos, p, pos.next, other);
    }
}

/// Whether a side has won depends on the cells alone, not on whose turn
/// it is.
pub proof fn lemma_same_cells(a: Position, b: Position, side: Color)
    requires
        a.cells == b.cells,
    ensures
        forall|d: nat| connects(a, side, d) == connects(b, side, d),
        has_won(a, side) == has_won(b, side),
{
    assert forall|d: nat| connects(a, side, d) == connects(b, side, d) by {
        if connects(a, side, d) {
            lemma_same_cells_connects(a, b, side, d);
        }
        if connects(b, side, d) {
            lemma_same_cells_connects(b, a, side, d);
        }
    }
}

/// One direction of `lemma_same_cells`.
pub proof fn lemma_same_cells_connects(a: Position, b: Position, side: Color, d: nat)
    requires
        a.cells == b.cells,
        connects(a, side, d),
    ensures
        connects(b, side, d),
{
    let t = choose|t: (int, int)|
        #![trigger on_target_edge(a, side, t)]
        on_target_edge(a, side, t) && reaches(a, side, t, d);
    let r = choose|r: Seq<(int, int)>|
        #![trigger is_route(a, side, r)]
        is_route(a, side, r) && r.last() == t && route_toll(a, side, r) <= d;
    lemma_same_cells_toll(a, b, side, r);
    assert forall|i: int| 0 <= i < r.len() implies passable(b, side, #[trigger] r[i]) by {
        assert(passable(a, side, r[i]));
    }
    assert(is_route(b, side, r));
    assert(on_target_edge(b, side, t));
    assert(reaches(b, side, t, d));
}

/// The cost of a walk depends on the cells alone.
pub proof fn lemma_same_cells_toll(a: Position, b: Position, side: Color, r: Seq<(int, int)>)
    requires
        a.cells == b.cells,
    ensures
        route_toll(a, side, r) == route_toll(b, side, r),
    decreases r.len(),
{
    if r.len() > 0 {
        lemma_same_cells_toll(a, b, side, r.drop_last());
    }
}

/// In a seeded grid where every cell is settled, the end of every route
/// carries a count no larger than the route's cost.
pub proof fn lemma_label_bound(
    pos: Position,
    side: Color,
    m: Seq<Seq<Distance>>,
    r: Seq<(int, int)>,
)
    requires
        seeded(pos, side, m),
        all_settled(pos, side, m),
        is_route(pos, side, r),
    ensures
        label(m, r.last()) is Reachable,
        label(m, r.last())->Reachable_0 <= route_toll(pos, side, r),
    decreases r.len(),
{
    if r.len() == 1 {
        assert(r =~= seq![r[0]]);
        lemma_route_start(pos, side, r[0]);
        assert(passable(pos, side, r[0]));
    } else {
        lemma_route_pop(pos, side, r);
        let s = r.drop_last();
        lemma_label_bound(pos, side, m, s);
        let a = s.last();
        let b = r.last();
        assert(passable(pos, side, s[s.len() - 1]));
        assert(passable(pos, side, r[r.len() - 1]));
        assert(settled(pos, side, m, a));
        assert(passed_on(pos, side, m, a, b));
    }
}

/// Every count in the grid is the least cost of reaching its cell, and no
/// route ends at a cell without a count.
pub open spec fn exact(pos: Position, side: Color, m: Seq<Seq<Distance>>) -> bool {
    &&& fits(pos, m)
    &&& forall|p: (int, int)|
        within(pos.size(), p) ==> match #[trigger] label(m, p) {
            Distance::Reachable(d) => is_distance(pos, side, p, d as nat),
            _ => cut_off(pos, side, p),
        }
}

/// A grid that is sound, seeded and settled everywhere is exact.
pub proof fn lemma_settled_exact(pos: Position, side: Color, m: Seq<Seq<Distance>>)
    requires
        fits(pos, m),
        sound(pos, side, m),
        seeded(pos, side, m),
        all_settled(pos, side, m),
    ensures
        exact(pos, side, m),
{
    assert forall|p: (int, int)| within(pos.size(), p) implies match #[trigger] label(m, p) {
        Distance::Reachable(d) => is_distance(pos, side, p, d as nat),
        _ => cut_off(pos, side, p),
    } by {
        match label(m, p) {
            Distance::Reachable(d) => {
                if d > 0 && reaches(pos, side, p, (d - 1) as nat) {
                    let r = choose|r: Seq<(int, int)>|
                        #![trigger is_route(pos, side, r)]
                        is_route(pos, side, r) && r.last() == p && route_toll(pos, side, r) <= d
                            - 1;
                    lemma_label_bound(pos, side, m, r);
                }
            },
            _ => {
                assert forall|d: nat| !reaches(pos, side, p, d) by {
                    if reaches(pos, side, p, d) {
                        let r = choose|r: Seq<(int, int)>|
                            #![trigger is_route(pos, side, r)]
                            is_route(pos, side, r) && r.last() == p && route_toll(pos, side, r)
                                <= d;
                        lemma_label_bound(pos, side, m, r);
                    }
                }
            },
        }
    }
}

/// A grid that tells the truth about every cell is exact.
pub proof fn lemma_describes_exact(pos: Position, side: Color, m: Seq<Seq<Distance>>)
    requires
        describes(pos, side, m),
    ensures
        exact(pos, side, m),
{
    assert forall|p: (int, int)| within(pos.size(), p) implies match #[trigger] label(m, p) {
        Distance::Reachable(d) => is_distance(pos, side, p, d as nat),
        _ => cut_off(pos, side, p),
    } by {
        assert(tells(pos, side, p, label(m, p)));
        if label(m, p) is Unreachable {
            assert forall|d: nat| !reaches(pos, side, p, d) by {
                if reaches(pos, side, p, d) {
                    let r = choose|r: Seq<(int, int)>|
                        #![trigger is_route(pos, side, r)]
                        is_route(pos, side, r) && r.last() == p && route_toll(pos, side, r) <= d;
                    assert(passable(pos, side, r[r.len() - 1]));
                }
            }
        }
    }
}

/// A grid that is sound, seeded and settled everywhere, and that marks
/// the cells of the other side as `Unreachable` and no others, tells the
/// truth about every cell.
pub proof fn lemma_settled_describes(pos: Position, side: Color, m: Seq<Seq<Distance>>)
    requires
        fits(pos, m),
        sound(pos, side, m),
        seeded(pos, side, m),
        all_settled(pos, side, m),
        forall|p: (int, int)|
            within(pos.size(), p) ==> (#[trigger] label(m, p) is Unreachable <==> !passable(
                pos,
                side,
                p,
            )),
    ensures
        describes(pos, side, m),
{
    lemma_settled_exact(pos, side, m);
    assert forall|p: (int, int)| within(pos.size(), p) implies tells(
        pos,
        side,
        p,
        #[trigger] label(m, p),
    ) by {
        assert(label(m, p) is Unreachable <==> !passable(pos, side, p));
    }
}

/// The least label on the target edge of an exact grid answers how many
/// stones the side still needs.
pub proof fn lemma_edge_minimum(pos: Position, side: Color, m: Seq<Seq<Distance>>, best: Distance)
    requires
        side.is_side(),
        exact(pos, side, m),
        forall|p: (int, int)|
            within(pos.size(), p) && on_target_edge(pos, side, p) ==> best.rank() <= (
            #[trigger] label(m, p)).rank(),
        best is Reachable ==> exists|p: (int, int)|
            within(pos.size(), p) && on_target_edge(pos, side, p) && #[trigger] label(m, p) == best,
    ensures
        is_moves_to_connect(pos, side, best.steps()),
{
    assert forall|d: nat| #[trigger] connects(pos, side, d) implies best is Reachable && best.rank()
        <= d by {
        let p = choose|p: (int, int)|
            #![trigger on_target_edge(pos, side, p)]
            on_target_edge(pos, side, p) && reaches(pos, side, p, d);
        let r = choose|r: Seq<(int, int)>|
            #![trigger is_route(pos, side, r)]
            is_route(pos, side, r) && r.last() == p && route_toll(pos, side, r) <= d;
        assert(passable(pos, side, r[r.len() - 1]));
        match label(m, p) {
            Distance::Reachable(e) => {
                if e > d {
                    lemma_reaches_more(pos, side, p, d, (e - 1) as nat);
                }
            },
            _ => {},
        }
    }
    match best {
        Distance::Reachable(d) => {
            let p = choose|p: (int, int)|
                within(pos.size(), p) && on_target_edge(pos, side, p) && #[trigger] label(m, p)
                    == best;
            assert(is_distance(pos, side, p, d as nat));
            assert(on_target_edge(pos, side, p) && reaches(pos, side, p, d as nat));
        },
        _ => {},
    }
}

/// The rows of a matrix of distances as a grid.
pub open spec fn grid(m: Vec<Vec<Distance>>) -> Seq<Seq<Distance>> {
    Seq::new(m.len() as nat, |i: int| m@[i]@)
}

/// A matrix whose grid fits the board has a row for each row of the board
/// and a label for each cell.
pub proof fn lemma_grid_fits(pos: Position, m: Vec<Vec<Distance>>)
    requires
        fits(pos, grid(m)),
    ensures
        m.len() == pos.size(),
        forall|i: int| 0 <= i < m.len() ==> (#[trigger] m@[i]).len() == pos.size(),
{
    assert forall|i: int| 0 <= i < m.len() implies (#[trigger] m@[i]).len() == pos.size() by {
        assert(grid(m)[i].len() == pos.size());
    }
}

} // verus!
