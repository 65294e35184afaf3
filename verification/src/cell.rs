use vstd::prelude::*;
use vstd::std_specs::ops::AddSpecImpl;

verus! {

/// A position on the grid, or a step between two positions.
#[derive(Debug, Clone, Copy, PartialEq, Eq, Structural)]
pub struct Cell {
    pub x: i32,
    pub y: i32,
}

/// The six steps that lead from a cell to its neighbours on a hex grid, in
/// the order in which neighbours are listed.
pub open spec fn hex_steps() -> Seq<(int, int)> {
    seq![(-1, 0), (-1, 1), (0, -1), (0, 1), (1, -1), (1, 0)]
}

/// Two grid positions touch when one of the six hex steps leads from the
/// first to the second.
pub open spec fn adjacent(a: (int, int), b: (int, int)) -> bool {
    exists|k: int| 0 <= k < 6 && #[trigger] hex_steps()[k] == (b.0 - a.0, b.1 - a.1)
}

/// A position lies on a board of side `size` when both coordinates are
/// in `0..size`.
pub open spec fn within(size: int, p: (int, int)) -> bool {
    0 <= p.0 < size && 0 <= p.1 < size
}

/// Adjacency written out step by step.
pub proof fn lemma_adjacent(a: (int, int), b: (int, int))
    ensures
        adjacent(a, b) <==> {
            let d = (b.0 - a.0, b.1 - a.1);
            d == (-1int, 0int) || d == (-1int, 1int) || d == (0int, -1int) || d == (0int, 1int)
                || d == (1int, -1int) || d == (1int, 0int)
        },
        adjacent(a, b) <==> adjacent(b, a),
{
    let s = hex_steps();
    assert(s[0] == (-1int, 0int) && s[1] == (-1int, 1int) && s[2] == (0int, -1int) && s[3] == (
        0int,
        1int,
    ) && s[4] == (1int, -1int) && s[5] == (1int, 0int));
}

impl Cell {
    /// The coordinates as mathematical integers.
    pub open spec fn pos(self) -> (int, int) {
        (self.x as int, self.y as int)
    }

    /// The cell one step away, where both coordinates still fit the type.
    pub open spec fn step_fits(self, step: (int, int)) -> bool {
        i32::MIN <= self.x + step.0 <= i32::MAX && i32::MIN <= self.y + step.1 <= i32::MAX
    }

    pub open spec fn stepped(self, step: (int, int)) -> Cell {
        Cell { x: (self.x + step.0) as i32, y: (self.y + step.1) as i32 }
    }

    /// The neighbours among the first `k` hex steps that lie on a board of
    /// side `size`, in step order.
    pub open spec fn neighbors_upto(self, size: int, k: int) -> Seq<Cell>
        decreases k,
    {
        if k <= 0 {
            Seq::empty()
        } else {
            let rest = self.neighbors_upto(size, k - 1);
            let step = hex_steps()[k - 1];
            if within(size, (self.x + step.0, self.y + step.1)) && self.step_fits(step) {
                rest.push(self.stepped(step))
            } else {
                rest
            }
        }
    }

    pub fn new(x: i32, y: i32) -> (c: Cell)
        ensures
            c.x == x,
            c.y == y,
    {
        Cell { x, y }
    }

    /// Whether the cell lies on a board of side `size`.
    pub fn is_on_board(&self, size: usize) -> (r: bool)
        ensures
            r == within(size as int, self.pos()),
    {
        0 <= self.x && (self.x as usize) < size && 0 <= self.y && (self.y as usize) < size
    }

    /// The cells next to this one that lie on a board of side `board_size`:
    /// at most six, in the order of `hex_steps`.
    pub fn neighbors(&self, board_size: usize) -> (r: Vec<Cell>)
        ensures
            r@ == self.neighbors_upto(board_size as int, 6),
            forall|i: int| 0 <= i < r.len() ==> adjacent(self.pos(), #[trigger] r[i].pos()),
            forall|i: int| 0 <= i < r.len() ==> within(board_size as int, #[trigger] r[i].pos()),
            forall|p: (int, int)|
                adjacent(self.pos(), p) && within(board_size as int, p) && p.0 <= i32::MAX && p.1
                    <= i32::MAX ==> exists|i: int| 0 <= i < r.len() && #[trigger] r[i].pos() == p,
    {
        let dx: [i32; 6] = [-1, -1, 0, 0, 1, 1];
        let dy: [i32; 6] = [0, 1, -1, 1, -1, 0];
        let mut out: Vec<Cell> = Vec::new();
        let mut k: usize = 0;
        proof {
            lemma_adjacent((0, 0), (0, 0));
            assert(hex_steps().len() == 6);
        }
        while k < 6
            invariant
                0 <= k <= 6,
                dx@ == seq![-1i32, -1i32, 0i32, 0i32, 1i32, 1i32],
                dy@ == seq![0i32, 1i32, -1i32, 1i32, -1i32, 0i32],
                out@ == self.neighbors_upto(board_size as int, k as int),
                forall|i: int| 0 <= i < out.len() ==> adjacent(self.pos(), #[trigger] out[i].pos()),
                forall|i: int|
                    0 <= i < out.len() ==> within(board_size as int, #[trigger] out[i].pos()),
                forall|j: int|
                    #![trigger hex_steps()[j]]
                    0 <= j < k && within(
                        board_size as int,
                        (self.x + hex_steps()[j].0, self.y + hex_steps()[j].1),
                    ) && self.step_fits(hex_steps()[j]) ==> exists|i: int|
                        0 <= i < out.len() && #[trigger] out[i].pos() == (
                            self.x + hex_steps()[j].0,
                            self.y + hex_steps()[j].1,
                        ),
            decreases 6 - k,
        {
            let ghost step = hex_steps()[k as int];
            assert(step == (dx[k as int] as int, dy[k as int] as int));
            let ghost before = out@;
            let x: i64 = self.x as i64 + dx[k] as i64;
            let y: i64 = self.y as i64 + dy[k] as i64;
            if 0 <= x && x <= i32::MAX as i64 && (x as usize) < board_size && 0 <= y && y
                <= i32::MAX as i64 && (y as usize) < board_size {
                let c = Cell { x: x as i32, y: y as i32 };
                assert(c == self.stepped(step));
                out.push(c);
                proof {
                    lemma_adjacent(self.pos(), c.pos());
                    assert(out[out.len() - 1].pos() == (self.x + step.0, self.y + step.1));
                    assert forall|j: int|
                        #![trigger hex_steps()[j]]
                        0 <= j < k && within(
                            board_size as int,
                            (self.x + hex_steps()[j].0, self.y + hex_steps()[j].1),
                        ) && self.step_fits(hex_steps()[j]) implies exists|i: int|
                        0 <= i < out.len() && #[trigger] out[i].pos() == (
                            self.x + hex_steps()[j].0,
                            self.y + hex_steps()[j].1,
                        ) by {
                        let i = choose|i: int|
                            0 <= i < before.len() && #[trigger] before[i].pos() == (
                                self.x + hex_steps()[j].0,
                                self.y + hex_steps()[j].1,
                            );
                        assert(out[i] == before[i]);
                    }
                }
            }
            k += 1;
        }
        proof {
            assert forall|p: (int, int)|
                adjacent(self.pos(), p) && within(board_size as int, p) && p.0 <= i32::MAX && p.1
                    <= i32::MAX implies exists|i: int|
                0 <= i < out.len() && #[trigger] out[i].pos() == p by {
                let j = choose|j: int|
                    0 <= j < 6 && #[trigger] hex_steps()[j] == (p.0 - self.x, p.1 - self.y);
                assert(self.step_fits(hex_steps()[j]));
            }
        }
        out
    }
}

impl core::ops::Add for Cell {
    type Output = Cell;

    /// Adds coordinate by coordinate.
    fn add(self, other: Cell) -> (r: Cell) {
        Cell { x: self.x + other.x, y: self.y + other.y }
    }
}

impl AddSpecImpl for Cell {
    open spec fn obeys_add_spec() -> bool {
        true
    }

    open spec fn add_req(self, other: Cell) -> bool {
        i32::MIN <= self.x + other.x <= i32::MAX && i32::MIN <= self.y + other.y <= i32::MAX
    }

    open spec fn add_spec(self, other: Cell) -> Cell {
        Cell { x: (self.x + other.x) as i32, y: (self.y + other.y) as i32 }
    }
}

} // verus!
