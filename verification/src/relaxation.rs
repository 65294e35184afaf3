use vstd::prelude::*;
use vstd::set_lib::lemma_len_subset;

use crate::board::Board;
use crate::cell::within;
use crate::color::Color;
use crate::connect::{
    fits, grid, is_moves_to_connect, label, lemma_edge_minimum, lemma_grid_fits,
    lemma_route_start, lemma_settled_exact, on_start_edge, passable, reaches, seeded, sound, toll,
};
use crate::distance::Distance;
use crate::labelling::{bounded, layered, pending, relabelled, seed_label, toward};
use crate::relaxing::{
    grown, handed, lemma_relaxed, lemma_sweep_begins, lemma_sweep_ends, lemma_sweep_marks,
    lemma_sweep_moves_on, lemma_sweep_resumes, lemma_sweep_skips, relaxing, round_label, swept,
    sweeping, walled,
};
use crate::position::Position;

verus! {

/// The label a cell has before the first round: its seed label on the
/// starting edge, `Unexplored` elsewhere.
pub open spec fn edge_label(pos: Position, side: Color, p: (int, int)) -> Distance {
    if on_start_edge(side, p) {
        seed_label(pos, side, p)
    } else {
        Distance::Unexplored
    }
}

/// A grid of edge labels, with its unexplored cells counted, is a state
/// from which the rounds can run.
pub proof fn lemma_edge_labelled(
    pos: Position,
    side: Color,
    m: Seq<Seq<Distance>>,
    u: Set<(int, int)>,
)
    requires
        side.is_side(),
        pos.size() * pos.size() <= usize::MAX,
        fits(pos, m),
        forall|p: (int, int)|
            within(pos.size(), p) ==> #[trigger] label(m, p) == edge_label(pos, side, p),
        u.finite(),
        forall|p: (int, int)|
            u.contains(p) <==> within(pos.size(), p) && #[trigger] edge_label(pos, side, p)
                is Unexplored,
        pos.size() > 0 ==> u.len() < pos.size() * pos.size(),
    ensures
        relaxing(pos, side, m, u, 0, 0),
{
    let n = pos.size();
    assert(sound(pos, side, m)) by {
        assert forall|p: (int, int)| within(n, p) implies match #[trigger] label(m, p) {
            Distance::Reachable(d) => passable(pos, side, p) && reaches(pos, side, p, d as nat),
            _ => true,
        } by {
            assert(label(m, p) == edge_label(pos, side, p));
            if label(m, p) is Reachable {
                lemma_route_start(pos, side, p);
            }
        }
    }
    assert(seeded(pos, side, m)) by {
        assert forall|p: (int, int)|
            within(n, p) && on_start_edge(side, p) && passable(pos, side, p) implies match
            #[trigger] label(m, p) {
                Distance::Reachable(e) => e <= toll(pos, side, p),
                _ => false,
            } by {
            assert(label(m, p) == edge_label(pos, side, p));
        }
    }
    assert(walled(pos, side, m)) by {
        assert forall|p: (int, int)|
            within(n, p) && #[trigger] label(m, p) is Unreachable implies !passable(
            pos,
            side,
            p,
        ) by {
            assert(label(m, p) == edge_label(pos, side, p));
        }
    }
    assert(layered(pos, side, m, 0)) by {
        assert forall|p: (int, int)| within(n, p) implies match #[trigger] label(m, p) {
            Distance::Reachable(l) => l <= 0 + toll(pos, side, p),
            _ => true,
        } by {
            assert(label(m, p) == edge_label(pos, side, p));
        }
    }
    assert(pending(pos, m, u)) by {
        assert forall|p: (int, int)|
            u.contains(p) <==> within(n, p) && #[trigger] label(m, p) is Unexplored by {
            if within(n, p) {
                assert(label(m, p) == edge_label(pos, side, p));
            }
        }
    }
    assert(bounded(pos, m, u)) by {
        assert forall|p: (int, int)| within(n, p) implies match #[trigger] label(m, p) {
            Distance::Reachable(l) => l + u.len() <= n * n,
            _ => true,
        } by {
            assert(label(m, p) == edge_label(pos, side, p));
        }
    }
}

impl<const SIZE: usize> Board<SIZE> {
    /// A copy of a matrix of distances.
    fn copy_grid(distances: &Vec<Vec<Distance>>) -> (r: Vec<Vec<Distance>>)
        ensures
            grid(r) == grid(*distances),
    {
        let mut out: Vec<Vec<Distance>> = Vec::new();
        let mut i: usize = 0;
        while i < distances.len()
            invariant
                0 <= i <= distances.len(),
                out.len() == i,
                forall|x: int| 0 <= x < i ==> (#[trigger] out@[x])@ == distances@[x]@,
            decreases distances.len() - i,
        {
            let mut row: Vec<Distance> = Vec::new();
            let mut j: usize = 0;
            while j < distances[i].len()
                invariant
                    i < distances.len(),
                    0 <= j <= distances@[i as int].len(),
                    row.len() == j,
                    forall|y: int| 0 <= y < j ==> #[trigger] row@[y] == distances@[i as int]@[y],
                decreases distances@[i as int].len() - j,
            {
                row.push(distances[i][j]);
                j += 1;
            }
            assert(row@ =~= distances@[i as int]@);
            out.push(row);
            i += 1;
        }
        assert(grid(out) =~= grid(*distances));
        out
    }

    /// Labels the starting edge of `color` and leaves every other cell
    /// unexplored.
    fn edge_labels(&self, color: Color) -> (r: (Vec<Vec<Distance>>, Ghost<Set<(int, int)>>))
        requires
            color.is_side(),
        ensures
            relaxing(self@, color, grid(r.0), r.1@, 0, 0),
            r.1@.len() <= SIZE * SIZE,
            SIZE > 0 ==> r.1@.len() < SIZE * SIZE,
            SIZE * SIZE <= usize::MAX,
    {
        let n = self.size();
        let ghost pos = self@;
        let mut distances: Vec<Vec<Distance>> = Vec::new();
        let ghost mut u: Set<(int, int)> = Set::empty();
        let mut i: usize = 0;
        while i < n
            invariant
                n == SIZE,
                pos == self@,
                self.sound(),
                color.is_side(),
                0 <= i <= n,
                distances.len() == i,
                forall|x: int| 0 <= x < i ==> (#[trigger] distances@[x]).len() == n,
                forall|x: int, y: int|
                    0 <= x < i && 0 <= y < n ==> #[trigger] distances@[x]@[y] == edge_label(
                        pos,
                        color,
                        (x, y),
                    ),
                u.finite(),
                forall|p: (int, int)|
                    u.contains(p) <==> within(n as int, p) && p.0 < i && #[trigger] edge_label(
                        pos,
                        color,
                        p,
                    ) is Unexplored,
                u.len() <= i * n,
                i > 0 ==> u.len() < i * n,
            decreases n - i,
        {
            let mut row: Vec<Distance> = Vec::new();
            let mut j: usize = 0;
            while j < n
                invariant
                    n == SIZE,
                    pos == self@,
                    self.sound(),
                    color.is_side(),
                    0 <= i < n,
                    0 <= j <= n,
                    row.len() == j,
                    forall|y: int|
                        0 <= y < j ==> #[trigger] row@[y] == edge_label(pos, color, (i as int, y)),
                    u.finite(),
                    forall|p: (int, int)|
                        u.contains(p) <==> within(n as int, p) && (p.0 < i || (p.0 == i && p.1 < j))
                            && #[trigger] edge_label(pos, color, p) is Unexplored,
                    u.len() <= i * n + j,
                    i > 0 || j > 0 ==> u.len() < i * n + j,
                decreases n - j,
            {
                let on_start = match color {
                    Color::Black => i == 0,
                    Color::White => j == 0,
                    Color::Empty => false,
                };
                let held = self.get(i, j);
                let l = if !on_start {
                    Distance::Unexplored
                } else if held == Color::Empty {
                    Distance::Reachable(1)
                } else if held == color {
                    Distance::Reachable(0)
                } else {
                    Distance::Unreachable
                };
                let ghost p = (i as int, j as int);
                let ghost u0 = u;
                proof {
                    if l is Unexplored {
                        u = u.insert(p);
                    }
                }
                row.push(l);
                j += 1;
                proof {
                    assert forall|c: (int, int)|
                        u.contains(c) <==> within(n as int, c) && (c.0 < i || (c.0 == i && c.1 < j))
                            && #[trigger] edge_label(pos, color, c) is Unexplored by {
                        if c != p {
                            assert(u0.contains(c) <==> within(n as int, c) && (c.0 < i || (c.0 == i
                                && c.1 < j - 1)) && edge_label(pos, color, c) is Unexplored);
                        }
                    }
                    if i == 0 && j == 1 {
                        assert(on_start_edge(color, p));
                        assert(u0.len() == 0);
                    }
                }
            }
            distances.push(row);
            proof {
                assert((i + 1) * n == i * n + n) by (nonlinear_arith);
            }
            i += 1;
        }
        proof {
            let m = grid(distances);
            assert(fits(pos, m));
            assert forall|p: (int, int)| within(pos.size(), p) implies #[trigger] label(m, p)
                == edge_label(pos, color, p) by {
                assert(distances@[p.0]@[p.1] == edge_label(pos, color, (p.0, p.1)));
            }
            lemma_edge_labelled(pos, color, m, u);
        }
        (distances, Ghost(u))
    }

    /// Whether no cell is left unexplored.
    fn all_explored(&self, distances: &Vec<Vec<Distance>>) -> (r: bool)
        requires
            fits(self@, grid(*distances)),
        ensures
            r <==> forall|p: (int, int)|
                within(self@.size(), p) ==> !(#[trigger] label(grid(*distances), p) is Unexplored),
    {
        let n = self.size();
        let ghost m = grid(*distances);
        proof {
            lemma_grid_fits(self@, *distances);
        }
        let mut i: usize = 0;
        while i < n
            invariant
                n == SIZE,
                self.sound(),
                m == grid(*distances),
                distances.len() == n,
                forall|x: int| 0 <= x < n ==> (#[trigger] distances@[x]).len() == n,
                0 <= i <= n,
                forall|p: (int, int)|
                    within(n as int, p) && p.1 < i ==> !(#[trigger] label(m, p) is Unexplored),
            decreases n - i,
        {
            let mut x: usize = 0;
            while x < n
                invariant
                    n == SIZE,
                    self.sound(),
                    m == grid(*distances),
                    distances.len() == n,
                    forall|x: int| 0 <= x < n ==> (#[trigger] distances@[x]).len() == n,
                    0 <= i < n,
                    0 <= x <= n,
                    forall|p: (int, int)|
                        within(n as int, p) && (p.1 < i || (p.1 == i && p.0 < x)) ==> !(
                        #[trigger] label(m, p) is Unexplored),
                decreases n - x,
            {
                if let Distance::Unexplored = distances[x][i] {
                    assert(label(m, (x as int, i as int)) is Unexplored);
                    return false;
                }
                x += 1;
            }
            i += 1;
        }
        true
    }

    /// One round: passes the count `distance` on from every cell that
    /// carries it to the neighbours that are still unexplored. An empty
    /// neighbour gets `distance + 1`, a stone of the other side becomes
    /// `Unreachable`, and one of the side's own stones gets `distance`
    /// and is followed up at once. Returns the new grid and whether some
    /// cell of the frontier had an unexplored neighbour.
    fn reach(
        &self,
        player: Color,
        distance: usize,
        distances: Vec<Vec<Distance>>,
        Ghost(u): Ghost<Set<(int, int)>>,
    ) -> (r: (Vec<Vec<Distance>>, bool, Ghost<Set<(int, int)>>))
        requires
            relaxing(self@, player, grid(distances), u, distance as nat, distance as nat),
            distance < usize::MAX,
        ensures
            relaxing(self@, player, grid(r.0), r.2@, distance as nat, (distance + 1) as nat),
            grown(self@, player, grid(distances), grid(r.0), distance as nat),
            r.2@.subset_of(u),
            r.1 ==> r.2@.len() < u.len(),
            !r.1 ==> grid(r.0) == grid(distances) && r.2@ == u,
        decreases u.len(),
    {
        let n = self.size();
        let ghost pos = self@;
        let ghost then = grid(distances);
        let ghost d = distance as nat;
        let mut new_distances = Self::copy_grid(&distances);
        let mut changed = false;
        let ghost mut left = u;
        proof {
            lemma_sweep_begins(pos, player, then, u, d);
            lemma_grid_fits(pos, distances);
        }
        let mut i: usize = 0;
        while i < n
            invariant
                n == SIZE,
                pos == self@,
                self.sound(),
                then == grid(distances),
                d == distance,
                distances.len() == n,
                forall|x: int| 0 <= x < n ==> (#[trigger] distances@[x]).len() == n,
                relaxing(pos, player, then, u, d, d),
                0 <= i <= n,
                sweeping(pos, player, then, grid(new_distances), left, d),
                swept(pos, player, then, grid(new_distances), d, i as int, 0),
                left.subset_of(u),
                changed ==> left.len() < u.len(),
                !changed ==> grid(new_distances) == then && left == u,
            decreases n - i,
        {
            let mut j: usize = 0;
            while j < n
                invariant
                    n == SIZE,
                    pos == self@,
                    self.sound(),
                    then == grid(distances),
                    d == distance,
                    distances.len() == n,
                    forall|x: int| 0 <= x < n ==> (#[trigger] distances@[x]).len() == n,
                    relaxing(pos, player, then, u, d, d),
                    0 <= i < n,
                    0 <= j <= n,
                    sweeping(pos, player, then, grid(new_distances), left, d),
                    swept(pos, player, then, grid(new_distances), d, i as int, j as int),
                    left.subset_of(u),
                    changed ==> left.len() < u.len(),
                    !changed ==> grid(new_distances) == then && left == u,
                decreases n - j,
            {
                let ghost a = (i as int, j as int);
                assert(label(then, a) == distances@[i as int]@[j as int]);
                if distances[i][j] == Distance::Reachable(distance) {
                    let mut k: usize = 0;
                    while k < 6
                        invariant
                            n == SIZE,
                            pos == self@,
                            self.sound(),
                            then == grid(distances),
                            d == distance,
                            distances.len() == n,
                            forall|x: int| 0 <= x < n ==> (#[trigger] distances@[x]).len() == n,
                            relaxing(pos, player, then, u, d, d),
                            0 <= i < n,
                            0 <= j < n,
                            0 <= k <= 6,
                            a == (i as int, j as int),
                            label(then, a) == Distance::Reachable(distance),
                            sweeping(pos, player, then, grid(new_distances), left, d),
                            swept(pos, player, then, grid(new_distances), d, i as int, j as int),
                            handed(pos, player, grid(new_distances), a, k as int),
                            left.subset_of(u),
                            changed ==> left.len() < u.len(),
                            !changed ==> grid(new_distances) == then && left == u,
                        decreases 6 - k,
                    {
                        let ghost now = grid(new_distances);
                        match Self::neighbor(i, j, k) {
                            Some((bx, by)) => {
                                let ghost b = (bx as int, by as int);
                                assert(label(then, b) == distances@[bx as int]@[by as int]);
                                if let Distance::Unexplored = distances[bx][by] {
                                    changed = true;
                                    let held = self.get(bx, by);
                                    proof {
                                        lemma_sweep_marks(
                                            pos,
                                            player,
                                            then,
                                            now,
                                            left,
                                            d,
                                            a,
                                            k as int,
                                            i as int,
                                            j as int,
                                        );
                                        lemma_grid_fits(pos, new_distances);
                                        assert(u.contains(b));
                                        assert(left.remove(b).subset_of(u.remove(b)));
                                        lemma_len_subset(left.remove(b), u.remove(b));
                                        left = left.remove(b);
                                    }
                                    if held == Color::Empty {
                                        new_distances[bx][by] = Distance::Reachable(distance + 1);
                                        assert(grid(new_distances) =~~= relabelled(
                                            now,
                                            b,
                                            round_label(pos, player, b, d),
                                        ));
                                    } else if held == player {
                                        new_distances[bx][by] = Distance::Reachable(distance);
                                        assert(grid(new_distances) =~~= relabelled(
                                            now,
                                            b,
                                            round_label(pos, player, b, d),
                                        ));
                                        let ghost mid = grid(new_distances);
                                        let ghost before = left;
                                        let (next, _, rest) = self.reach(
                                            player,
                                            distance,
                                            new_distances,
                                            Ghost(left),
                                        );
                                        new_distances = next;
                                        proof {
                                            lemma_sweep_resumes(
                                                pos,
                                                player,
                                                then,
                                                mid,
                                                grid(new_distances),
                                                rest@,
                                                d,
                                                a,
                                                i as int,
                                                j as int,
                                            );
                                            lemma_len_subset(rest@, before);
                                            left = rest@;
                                        }
                                    } else {
                                        new_distances[bx][by] = Distance::Unreachable;
                                        assert(grid(new_distances) =~~= relabelled(
                                            now,
                                            b,
                                            round_label(pos, player, b, d),
                                        ));
                                    }
                                } else {
                                    proof {
                                        lemma_sweep_skips(
                                            pos,
                                            player,
                                            then,
                                            now,
                                            left,
                                            d,
                                            a,
                                            k as int,
                                        );
                                    }
                                }
                            },
                            None => {
                                proof {
                                    lemma_sweep_skips(
                                        pos,
                                        player,
                                        then,
                                        now,
                                        left,
                                        d,
                                        a,
                                        k as int,
                                    );
                                }
                            },
                        }
                        k += 1;
                    }
                }
                proof {
                    lemma_sweep_moves_on(
                        pos,
                        player,
                        then,
                        grid(new_distances),
                        d,
                        i as int,
                        j as int,
                    );
                }
                j += 1;
            }
            i += 1;
        }
        proof {
            lemma_sweep_ends(pos, player, then, grid(new_distances), left, d);
        }
        (new_distances, changed, Ghost(left))
    }

    /// The least number of stones `color` must place to join its two
    /// edges, found round by round: each round passes the counts of the
    /// current frontier on to the unexplored neighbours, until no cell is
    /// unexplored or a round finds nothing to do. Nothing is returned
    /// where the other side has cut every route.
    pub fn missing_move_to_win(&self, color: Color) -> (r: Option<usize>)
        requires
            color.is_side(),
        ensures
            is_moves_to_connect(self@, color, r),
    {
        let n = self.size();
        let ghost pos = self@;
        let (mut distances, Ghost(unexplored)) = self.edge_labels(color);
        let ghost mut left = unexplored;
        let mut dist: usize = 0;
        loop
            invariant_except_break
                relaxing(
                    pos,
                    color,
                    grid(distances),
                    left,
                    if dist == 0 {
                        0
                    } else {
                        (dist - 1) as nat
                    },
                    dist as nat,
                ),
                dist + left.len() <= n * n,
                dist == 0 && n > 0 ==> left.len() < n * n,
            invariant
                n == SIZE,
                n * n <= usize::MAX,
                pos == self@,
                color.is_side(),
                self.sound(),
                fits(pos, grid(distances)),
                sound(pos, color, grid(distances)),
                seeded(pos, color, grid(distances)),
            ensures
                crate::connect::all_settled(pos, color, grid(distances)),
            decreases
                    2 * left.len() + if dist == 0 {
                        1nat
                    } else {
                        0nat
                    },
        {
            let ghost m = grid(distances);
            let ghost layer = if dist == 0 {
                0
            } else {
                (dist - 1) as nat
            };
            if self.all_explored(&distances) {
                proof {
                    assert forall|p: (int, int)| !left.contains(p) by {
                        if within(pos.size(), p) {
                            assert(!(label(m, p) is Unexplored));
                        }
                    }
                    assert(left =~= Set::empty());
                    lemma_relaxed(pos, color, m, left, layer, dist as nat);
                }
                break ;
            }
            proof {
                let p = choose|p: (int, int)|
                    within(pos.size(), p) && #[trigger] label(m, p) is Unexplored;
                assert(left.contains(p));
                if left.len() == 0 {
                    left.lemma_len0_is_empty();
                }
            }
            let ghost before = left;
            let (next, changed, rest) = self.reach(color, dist, distances, Ghost(left));
            distances = next;
            proof {
                left = rest@;
                lemma_len_subset(rest@, before);
            }
            dist += 1;
            if !changed && dist != 1 {
                proof {
                    assert(grid(distances) == m);
                    assert forall|p: (int, int)| within(pos.size(), p) implies match #[trigger] label(
                        m,
                        p,
                    ) {
                        Distance::Reachable(l) => l < dist,
                        _ => true,
                    } by {}
                    lemma_relaxed(pos, color, m, left, (dist - 1) as nat, dist as nat);
                }
                break ;
            }
        }
        let best = self.edge_minimum(color, &distances);
        proof {
            lemma_settled_exact(pos, color, grid(distances));
            lemma_edge_minimum(pos, color, grid(distances), best);
        }
        best.to_option()
    }
}

} // verus!
