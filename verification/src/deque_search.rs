use std::collections::VecDeque;
use vstd::prelude::*;

use crate::board::Board;
use crate::cell::{hex_steps, within};
use crate::color::Color;
use crate::connect::{
    describes, fits, grid, is_moves_to_connect, label, lemma_describes_exact, lemma_edge_minimum,
    lemma_grid_fits, lemma_route_start, on_start_edge, on_target_edge, passable, reaches, sound,
    toll,
};
use crate::distance::Distance;
use crate::labelling::{
    expanding, flooding, lemma_expanded, lemma_flooded, lemma_pass_by, lemma_pass_on,
    lemma_relabelled, lemma_take_front, relabelled, seed_label, toward, waiting,
};
use crate::position::{spot, Position};

verus! {

/// The queue a search starts with holds the passable cells of the starting
/// edge, each once, the side's own stones before the empty cells.
pub open spec fn seeds(pos: Position, side: Color, q: Seq<(usize, usize)>) -> bool {
    &&& forall|i: int|
        0 <= i < q.len() ==> passable(pos, side, spot(#[trigger] q[i])) && on_start_edge(
            side,
            spot(q[i]),
        )
    &&& forall|i: int, j: int|
        0 <= i < j < q.len() ==> q[i] != q[j] && toll(pos, side, spot(q[i])) <= toll(
            pos,
            side,
            spot(q[j]),
        )
}

/// A grid of seed labels, with its starting cells queued and its
/// unexplored cells counted, is a state from which the search can run.
pub proof fn lemma_seeded(
    pos: Position,
    side: Color,
    m: Seq<Seq<Distance>>,
    q: Seq<(usize, usize)>,
    u: Set<(int, int)>,
)
    requires
        side.is_side(),
        pos.size() * pos.size() <= usize::MAX,
        fits(pos, m),
        forall|p: (int, int)|
            within(pos.size(), p) ==> #[trigger] label(m, p) == seed_label(pos, side, p),
        seeds(pos, side, q),
        forall|p: (int, int)|
            passable(pos, side, p) && on_start_edge(side, p) ==> #[trigger] waiting(q, p),
        u.finite(),
        forall|p: (int, int)|
            u.contains(p) <==> within(pos.size(), p) && #[trigger] seed_label(pos, side, p)
                is Unexplored,
        pos.size() > 0 ==> u.len() < pos.size() * pos.size(),
    ensures
        flooding(pos, side, m, q, u, 0),
{
    let n = pos.size();
    assert(sound(pos, side, m)) by {
        assert forall|p: (int, int)| within(n, p) implies match #[trigger] label(m, p) {
            Distance::Reachable(d) => passable(pos, side, p) && reaches(pos, side, p, d as nat),
            _ => true,
        } by {
            assert(label(m, p) == seed_label(pos, side, p));
            if label(m, p) is Reachable {
                lemma_route_start(pos, side, p);
            }
        }
    }
    assert forall|i: int| 0 <= i < q.len() implies within(n, spot(#[trigger] q[i])) && match label(
        m,
        spot(q[i]),
    ) {
        Distance::Reachable(l) => 0 <= l <= 1,
        _ => false,
    } by {
        assert(passable(pos, side, spot(q[i])));
        assert(label(m, spot(q[i])) == seed_label(pos, side, spot(q[i])));
    }
    assert forall|i: int, j: int| 0 <= i < j < q.len() implies q[i] != q[j] && label(
        m,
        spot(q[i]),
    )->Reachable_0 <= label(m, spot(q[j]))->Reachable_0 by {
        assert(passable(pos, side, spot(q[i])));
        assert(passable(pos, side, spot(q[j])));
        assert(label(m, spot(q[i])) == seed_label(pos, side, spot(q[i])));
        assert(label(m, spot(q[j])) == seed_label(pos, side, spot(q[j])));
    }
    assert forall|p: (int, int)| within(n, p) implies match #[trigger] label(m, p) {
        Distance::Reachable(l) => l + u.len() <= n * n,
        _ => true,
    } by {
        assert(label(m, p) == seed_label(pos, side, p));
    }
    assert forall|p: (int, int)| within(n, p) implies match #[trigger] label(m, p) {
        Distance::Reachable(l) => l <= 0 + toll(pos, side, p),
        _ => true,
    } by {
        assert(label(m, p) == seed_label(pos, side, p));
    }
    assert forall|p: (int, int)|
        u.contains(p) <==> within(n, p) && #[trigger] label(m, p) is Unexplored by {
        if within(n, p) {
            assert(label(m, p) == seed_label(pos, side, p));
        }
    }
}

impl<const SIZE: usize> Board<SIZE> {
    /// The cell one hex step from `(x, y)`, where it lies on the board.
    pub(crate) fn neighbor(x: usize, y: usize, k: usize) -> (r: Option<(usize, usize)>)
        requires
            x < SIZE,
            y < SIZE,
            k < 6,
        ensures
            match r {
                Some(b) => spot(b) == toward((x as int, y as int), k as int) && within(
                    SIZE as int,
                    spot(b),
                ),
                None => !within(SIZE as int, toward((x as int, y as int), k as int)),
            },
    {
        let ghost s = hex_steps();
        assert(s[0] == (-1int, 0int) && s[1] == (-1int, 1int) && s[2] == (0int, -1int) && s[3] == (
            0int,
            1int,
        ) && s[4] == (1int, -1int) && s[5] == (1int, 0int));
        if k == 0 {
            if x > 0 {
                Some((x - 1, y))
            } else {
                None
            }
        } else if k == 1 {
            if x > 0 && y + 1 < SIZE {
                Some((x - 1, y + 1))
            } else {
                None
            }
        } else if k == 2 {
            if y > 0 {
                Some((x, y - 1))
            } else {
                None
            }
        } else if k == 3 {
            if y + 1 < SIZE {
                Some((x, y + 1))
            } else {
                None
            }
        } else if k == 4 {
            if x + 1 < SIZE && y > 0 {
                Some((x + 1, y - 1))
            } else {
                None
            }
        } else {
            if x + 1 < SIZE {
                Some((x + 1, y))
            } else {
                None
            }
        }
    }

    /// The label a cell starts with.
    fn seed_of(&self, color: Color, x: usize, y: usize) -> (l: Distance)
        requires
            color.is_side(),
            x < SIZE,
            y < SIZE,
            self.sound(),
        ensures
            l == seed_label(self@, color, (x as int, y as int)),
    {
        let held = self.get(x, y);
        let on_start = match color {
            Color::Black => x == 0,
            Color::White => y == 0,
            Color::Empty => false,
        };
        if held != color && held != Color::Empty {
            Distance::Unreachable
        } else if on_start {
            if held == color {
                Distance::Reachable(0)
            } else {
                Distance::Reachable(1)
            }
        } else {
            Distance::Unexplored
        }
    }

    /// Labels every cell with its seed label and queues the passable
    /// cells of the starting edge, the side's own stones first.
    fn seed(&self, color: Color, queue: &mut VecDeque<(usize, usize)>) -> (r: (
        Vec<Vec<Distance>>,
        Ghost<Set<(int, int)>>,
    ))
        requires
            color.is_side(),
            old(queue)@.len() == 0,
        ensures
            flooding(self@, color, grid(r.0), final(queue)@, r.1@, 0),
    {
        let n = self.size();
        let ghost pos = self@;
        let mut distances: Vec<Vec<Distance>> = Vec::new();
        let ghost mut u: Set<(int, int)> = Set::empty();
        let mut i: usize = 0;
        while i < n
            invariant
                n == SIZE,
                pos == self@,
                self.sound(),
                color.is_side(),
                0 <= i <= n,
                distances.len() == i,
                forall|x: int| 0 <= x < i ==> (#[trigger] distances@[x]).len() == n,
                forall|x: int, y: int|
                    0 <= x < i && 0 <= y < n ==> #[trigger] distances@[x]@[y] == seed_label(
                        pos,
                        color,
                        (x, y),
                    ),
                seeds(pos, color, queue@),
                forall|e: int| 0 <= e < queue@.len() ==> (#[trigger] queue@[e]).0 < i,
                forall|p: (int, int)|
                    passable(pos, color, p) && on_start_edge(color, p) && p.0 < i
                        ==> #[trigger] waiting(queue@, p),
                u.finite(),
                forall|p: (int, int)|
                    u.contains(p) <==> within(n as int, p) && p.0 < i && #[trigger] seed_label(
                        pos,
                        color,
                        p,
                    ) is Unexplored,
                u.len() <= i * n,
                i > 0 ==> u.len() < i * n,
            decreases n - i,
        {
            let mut row: Vec<Distance> = Vec::new();
            let mut j: usize = 0;
            while j < n
                invariant
                    n == SIZE,
                    pos == self@,
                    self.sound(),
                    color.is_side(),
                    0 <= i < n,
                    0 <= j <= n,
                    row.len() == j,
                    forall|y: int|
                        0 <= y < j ==> #[trigger] row@[y] == seed_label(pos, color, (i as int, y)),
                    seeds(pos, color, queue@),
                    forall|e: int|
                        0 <= e < queue@.len() ==> (#[trigger] queue@[e]).0 < i || (queue@[e].0 == i
                            && queue@[e].1 < j),
                    forall|p: (int, int)|
                        passable(pos, color, p) && on_start_edge(color, p) && (p.0 < i || (p.0 == i
                            && p.1 < j)) ==> #[trigger] waiting(queue@, p),
                    u.finite(),
                    forall|p: (int, int)|
                        u.contains(p) <==> within(n as int, p) && (p.0 < i || (p.0 == i && p.1 < j))
                            && #[trigger] seed_label(pos, color, p) is Unexplored,
                    u.len() <= i * n + j,
                    i > 0 || j > 0 ==> u.len() < i * n + j,
                decreases n - j,
            {
                let l = self.seed_of(color, i, j);
                let ghost p = (i as int, j as int);
                let ghost q0 = queue@;
                let ghost u0 = u;
                match l {
                    Distance::Reachable(d) => {
                        if d == 0 {
                            queue.push_front((i, j));
                        } else {
                            queue.push_back((i, j));
                        }
                        proof {
                            let q1 = queue@;
                            let at = if d == 0 {
                                0int
                            } else {
                                q0.len() as int
                            };
                            let shift = if d == 0 {
                                1int
                            } else {
                                0int
                            };
                            assert(q1[at] == (i, j));
                            assert(forall|e: int|
                                0 <= e < q0.len() ==> q1[e + shift] == #[trigger] q0[e]);
                            assert forall|e: int| 0 <= e < q1.len() implies passable(
                                pos,
                                color,
                                spot(#[trigger] q1[e]),
                            ) && on_start_edge(color, spot(q1[e])) && (q1[e].0 < i || (q1[e].0 == i
                                && q1[e].1 < j + 1)) by {
                                if e != at {
                                    assert(q1[e] == q0[e - shift]);
                                }
                            }
                            assert forall|e: int, f: int| 0 <= e < f < q1.len() implies q1[e]
                                != q1[f] && toll(pos, color, spot(q1[e])) <= toll(
                                pos,
                                color,
                                spot(q1[f]),
                            ) by {
                                if e != at {
                                    assert(q1[e] == q0[e - shift]);
                                }
                                if f != at {
                                    assert(q1[f] == q0[f - shift]);
                                }
                            }
                            assert forall|c: (int, int)|
                                passable(pos, color, c) && on_start_edge(color, c) && (c.0 < i || (
                                c.0 == i && c.1 < j + 1)) implies #[trigger] waiting(q1, c) by {
                                if c == p {
                                    assert(spot(q1[at]) == c);
                                } else {
                                    assert(waiting(q0, c));
                                    let e = choose|e: int|
                                        0 <= e < q0.len() && spot(#[trigger] q0[e]) == c;
                                    assert(q1[e + shift] == q0[e]);
                                }
                            }
                        }
                    },
                    Distance::Unexplored => {
                        proof {
                            u = u.insert(p);
                        }
                    },
                    Distance::Unreachable => {},
                }
                row.push(l);
                j += 1;
                proof {
                    assert forall|c: (int, int)|
                        u.contains(c) <==> within(n as int, c) && (c.0 < i || (c.0 == i && c.1 < j))
                            && #[trigger] seed_label(pos, color, c) is Unexplored by {
                        if c != p {
                            assert(u0.contains(c) <==> within(n as int, c) && (c.0 < i || (c.0 == i
                                && c.1 < j - 1)) && seed_label(pos, color, c) is Unexplored);
                        }
                    }
                    if i == 0 && j == 1 {
                        assert(on_start_edge(color, p));
                        assert(u0.len() == 0);
                    }
                }
            }
            distances.push(row);
            proof {
                assert((i + 1) * n == i * n + n) by (nonlinear_arith);
            }
            i += 1;
        }
        proof {
            let m = grid(distances);
            assert(fits(pos, m));
            assert forall|p: (int, int)| within(pos.size(), p) implies #[trigger] label(m, p)
                == seed_label(pos, color, p) by {
                assert(distances@[p.0]@[p.1] == seed_label(pos, color, (p.0, p.1)));
            }
            assert forall|p: (int, int)|
                passable(pos, color, p) && on_start_edge(color, p) implies #[trigger] waiting(
                queue@,
                p,
            ) by {}
            lemma_seeded(pos, color, m, queue@, u);
        }
        (distances, Ghost(u))
    }

    /// Passes the count of the cell `(x, y)`, which has just left the
    /// queue, on to its neighbours.
    fn expand(
        &self,
        color: Color,
        x: usize,
        y: usize,
        distances: &mut Vec<Vec<Distance>>,
        queue: &mut VecDeque<(usize, usize)>,
        Ghost(u): Ghost<Set<(int, int)>>,
    ) -> (u2: Ghost<Set<(int, int)>>)
        requires
            expanding(
                self@,
                color,
                grid(*old(distances)),
                old(queue)@,
                u,
                (x as int, y as int),
                0,
            ),
        ensures
            flooding(
                self@,
                color,
                grid(*final(distances)),
                final(queue)@,
                u2@,
                label(grid(*old(distances)), (x as int, y as int))->Reachable_0 as nat,
            ),
            2 * u2@.len() + final(queue)@.len() <= 2 * u.len() + old(queue)@.len(),
    {
        let n = self.size();
        let ghost pos = self@;
        let ghost a = (x as int, y as int);
        let ghost mut left = u;
        proof {
            lemma_grid_fits(pos, *distances);
        }
        let depth = match distances[x][y] {
            Distance::Reachable(d) => d,
            _ => 0,
        };
        let mut k: usize = 0;
        while k < 6
            invariant
                n == SIZE,
                pos == self@,
                self.sound(),
                a == (x as int, y as int),
                0 <= k <= 6,
                x < n,
                y < n,
                expanding(pos, color, grid(*distances), queue@, left, a, k as int),
                label(grid(*distances), a) == Distance::Reachable(depth),
                2 * left.len() + queue@.len() <= 2 * u.len() + old(queue)@.len(),
            decreases 6 - k,
        {
            let ghost m = grid(*distances);
            let ghost q = queue@;
            proof {
                lemma_grid_fits(pos, *distances);
            }
            match Self::neighbor(x, y, k) {
                Some((bx, by)) => {
                    let ghost b = (bx as int, by as int);
                    match distances[bx][by] {
                        Distance::Unexplored => {
                            proof {
                                lemma_pass_on(pos, color, m, q, left, a, k as int, (bx, by));
                                lemma_relabelled(
                                    pos,
                                    m,
                                    b,
                                    Distance::Reachable(
                                        (depth + toll(pos, color, b)) as usize,
                                    ),
                                );
                            }
                            if self.get(bx, by) == color {
                                distances[bx][by] = Distance::Reachable(depth);
                                queue.push_front((bx, by));
                            } else {
                                distances[bx][by] = Distance::Reachable(depth + 1);
                                queue.push_back((bx, by));
                            }
                            proof {
                                let l = Distance::Reachable(
                                    (depth + toll(pos, color, b)) as usize,
                                );
                                assert(grid(*distances) =~~= relabelled(m, b, l));
                                left = left.remove(b);
                            }
                        },
                        _ => {
                            proof {
                                lemma_pass_by(pos, color, m, q, left, a, k as int);
                            }
                        },
                    }
                },
                None => {
                    proof {
                        lemma_pass_by(pos, color, m, q, left, a, k as int);
                    }
                },
            }
            k += 1;
        }
        proof {
            lemma_expanded(pos, color, grid(*distances), queue@, left, a);
        }
        Ghost(left)
    }

    /// For every cell, the least number of stones `color` must place to
    /// reach it from its starting edge.
    ///
    /// The search first follows the chains of the side's own stones that
    /// touch the starting edge, which cost nothing, and then widens stone
    /// by stone: a queue holds the labelled cells in the order of their
    /// counts, own stones entering at the front and empty cells at the
    /// back.
    pub fn get_dist_matrix(&self, color: Color) -> (distances: Vec<Vec<Distance>>)
        requires
            color.is_side(),
        ensures
            describes(self@, color, grid(distances)),
    {
        let mut queue: VecDeque<(usize, usize)> = VecDeque::new();
        let (mut distances, Ghost(seeded)) = self.seed(color, &mut queue);
        let ghost mut left = seeded;
        let ghost mut depth = 0nat;
        loop
            invariant
                flooding(self@, color, grid(distances), queue@, left, depth),
            decreases 2 * left.len() + queue@.len(),
        {
            if queue.len() == 0 {
                break ;
            }
            let (x, y) = queue[0];
            proof {
                lemma_take_front(self@, color, grid(distances), queue@, left, depth);
                lemma_grid_fits(self@, distances);
            }
            if distances[x][y] != Distance::Reachable(0) {
                break ;
            }
            queue.pop_front();
            let rest = self.expand(color, x, y, &mut distances, &mut queue, Ghost(left));
            proof {
                left = rest@;
                depth = 0;
            }
        }
        while queue.len() > 0
            invariant
                flooding(self@, color, grid(distances), queue@, left, depth),
            decreases 2 * left.len() + queue@.len(),
        {
            let (x, y) = queue[0];
            proof {
                lemma_take_front(self@, color, grid(distances), queue@, left, depth);
                depth = label(grid(distances), (x as int, y as int))->Reachable_0 as nat;
            }
            queue.pop_front();
            let rest = self.expand(color, x, y, &mut distances, &mut queue, Ghost(left));
            proof {
                left = rest@;
            }
        }
        proof {
            assert(queue@ =~= Seq::empty());
            lemma_flooded(self@, color, grid(distances), left, depth);
        }
        distances
    }

    /// The least label on the target edge of `color`.
    pub(crate) fn edge_minimum(&self, color: Color, distances: &Vec<Vec<Distance>>) -> (best:
        Distance)
        requires
            color.is_side(),
            fits(self@, grid(*distances)),
        ensures
            forall|p: (int, int)|
                within(self@.size(), p) && on_target_edge(self@, color, p) ==> best.rank() <= (
                #[trigger] label(grid(*distances), p)).rank(),
            best is Reachable ==> exists|p: (int, int)|
                within(self@.size(), p) && on_target_edge(self@, color, p) && #[trigger] label(
                    grid(*distances),
                    p,
                ) == best,
    {
        let n = self.size();
        let ghost m = grid(*distances);
        let mut best = Distance::Unreachable;
        let mut i: usize = 0;
        proof {
            lemma_grid_fits(self@, *distances);
        }
        while i < n
            invariant
                n == SIZE,
                self.sound(),
                color.is_side(),
                m == grid(*distances),
                fits(self@, m),
                distances.len() == n,
                forall|x: int| 0 <= x < n ==> (#[trigger] distances@[x]).len() == n,
                0 <= i <= n,
                forall|p: (int, int)|
                    within(n as int, p) && on_target_edge(self@, color, p) && (if color
                        == Color::Black {
                        p.1
                    } else {
                        p.0
                    }) < i ==> best.rank() <= (#[trigger] label(m, p)).rank(),
                best is Reachable ==> exists|p: (int, int)|
                    within(n as int, p) && on_target_edge(self@, color, p) && #[trigger] label(m, p)
                        == best,
            decreases n - i,
        {
            let here = match color {
                Color::Black => distances[n - 1][i],
                _ => distances[i][n - 1],
            };
            let ghost p = if color == Color::Black {
                ((n - 1) as int, i as int)
            } else {
                (i as int, (n - 1) as int)
            };
            assert(label(m, p) == here);
            best = best.min(here);
            i += 1;
        }
        best
    }

    /// The least number of stones `color` must place to join its two
    /// edges, found with `get_dist_matrix`; nothing where the other side
    /// has cut every route.
    pub fn missing_move_to_win2(&self, color: Color) -> (r: Option<usize>)
        requires
            color.is_side(),
        ensures
            is_moves_to_connect(self@, color, r),
    {
        let distances = self.get_dist_matrix(color);
        let best = self.edge_minimum(color, &distances);
        proof {
            lemma_describes_exact(self@, color, grid(distances));
            lemma_edge_minimum(self@, color, grid(distances), best);
        }
        best.to_option()
    }
}

} // verus!
