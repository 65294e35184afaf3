use vstd::prelude::*;

use crate::cell::within;
use crate::color::Color;

verus! {

/// The mathematical content of a board: what each cell holds and whose
/// turn it is. Cell `(x, y)` is entry `y` of row `x`.
pub struct Position {
    pub cells: Seq<Seq<Color>>,
    pub next: Color,
}

impl Position {
    /// The side length of the board.
    pub open spec fn size(self) -> int {
        self.cells.len() as int
    }

    /// The board is square, its cells can be addressed, and a side is to
    /// move.
    pub open spec fn wf(self) -> bool {
        &&& self.next.is_side()
        &&& self.size() <= usize::MAX
        &&& forall|i: int| 0 <= i < self.cells.len() ==> (#[trigger] self.cells[i]).len()
            == self.cells.len()
    }

    /// What the cell at `p` holds.
    pub open spec fn at(self, p: (int, int)) -> Color {
        self.cells[p.0][p.1]
    }

    /// A stone may be placed at `p`: the cell is on the board and empty.
    pub open spec fn is_valid(self, p: (int, int)) -> bool {
        within(self.size(), p) && self.at(p) == Color::Empty
    }

    /// The position with a stone of `color` at `p` and the same side to
    /// move.
    pub open spec fn with_stone(self, p: (int, int), color: Color) -> Position {
        Position { cells: self.cells.update(p.0, self.cells[p.0].update(p.1, color)), next: self.next }
    }

    /// The position after the side to move has placed a stone at `p`.
    pub open spec fn played(self, p: (int, int)) -> Position {
        Position { cells: self.with_stone(p, self.next).cells, next: self.next.opponent_spec() }
    }

    /// The empty cells among the first `j` of row `x`, left to right.
    pub open spec fn row_moves(self, x: int, j: int) -> Seq<(usize, usize)>
        decreases j,
    {
        if j <= 0 {
            Seq::empty()
        } else if self.at((x, j - 1)) == Color::Empty {
            self.row_moves(x, j - 1).push((x as usize, (j - 1) as usize))
        } else {
            self.row_moves(x, j - 1)
        }
    }

    /// The empty cells of the first `i` rows, row by row.
    pub open spec fn rows_moves(self, i: int) -> Seq<(usize, usize)>
        decreases i,
    {
        if i <= 0 {
            Seq::empty()
        } else {
            self.rows_moves(i - 1) + self.row_moves(i - 1, self.size())
        }
    }

    /// The legal moves: every empty cell, in row-major order.
    pub open spec fn moves(self) -> Seq<(usize, usize)> {
        self.rows_moves(self.size())
    }

    /// No cell is empty.
    pub open spec fn is_full(self) -> bool {
        forall|p: (int, int)| within(self.size(), p) ==> self.at(p) != Color::Empty
    }
}

/// A move as a pair of mathematical integers.
pub open spec fn spot(m: (usize, usize)) -> (int, int) {
    (m.0 as int, m.1 as int)
}

/// The empty cells of a row prefix are exactly the members of `row_moves`.
pub proof fn lemma_row_moves(pos: Position, x: int, j: int)
    requires
        0 <= x <= usize::MAX,
        0 <= j <= usize::MAX + 1,
    ensures
        forall|m: (usize, usize)|
            pos.row_moves(x, j).contains(m) <==> (m.0 == x && m.1 < j && pos.at(spot(m))
                == Color::Empty),
    decreases j,
{
    if j > 0 {
        lemma_row_moves(pos, x, j - 1);
        let prev = pos.row_moves(x, j - 1);
        let last = (x as usize, (j - 1) as usize);
        if pos.at((x, j - 1)) == Color::Empty {
            assert forall|m: (usize, usize)|
                pos.row_moves(x, j).contains(m) <==> (m.0 == x && m.1 < j && pos.at(spot(m))
                    == Color::Empty) by {
                let cur = prev.push(last);
                if cur.contains(m) {
                    let i = choose|i: int| 0 <= i < cur.len() && cur[i] == m;
                    if i < prev.len() {
                        assert(prev[i] == m);
                        assert(prev.contains(m));
                    }
                }
                if m.0 == x && m.1 < j && pos.at(spot(m)) == Color::Empty {
                    if m.1 == j - 1 {
                        assert(cur[prev.len() as int] == m);
                    } else {
                        assert(prev.contains(m));
                        let i = choose|i: int| 0 <= i < prev.len() && prev[i] == m;
                        assert(cur[i] == m);
                    }
                }
            }
        }
    }
}

/// The empty cells of the first rows are exactly the members of
/// `rows_moves`.
pub proof fn lemma_rows_moves(pos: Position, i: int)
    requires
        0 <= i <= pos.size() <= usize::MAX,
    ensures
        forall|m: (usize, usize)|
            pos.rows_moves(i).contains(m) <==> (m.0 < i && m.1 < pos.size() && pos.at(spot(m))
                == Color::Empty),
    decreases i,
{
    if i > 0 {
        lemma_rows_moves(pos, i - 1);
        lemma_row_moves(pos, i - 1, pos.size());
        let a = pos.rows_moves(i - 1);
        let b = pos.row_moves(i - 1, pos.size());
        assert forall|m: (usize, usize)|
            pos.rows_moves(i).contains(m) <==> (m.0 < i && m.1 < pos.size() && pos.at(spot(m))
                == Color::Empty) by {
            let cur = a + b;
            if cur.contains(m) {
                let k = choose|k: int| 0 <= k < cur.len() && cur[k] == m;
                if k < a.len() {
                    assert(a[k] == m);
                    assert(a.contains(m));
                } else {
                    assert(b[k - a.len()] == m);
                    assert(b.contains(m));
                }
            }
            if a.contains(m) {
                let k = choose|k: int| 0 <= k < a.len() && a[k] == m;
                assert(cur[k] == m);
            }
            if b.contains(m) {
                let k = choose|k: int| 0 <= k < b.len() && b[k] == m;
                assert(cur[a.len() + k] == m);
            }
        }
    }
}

/// A legal move leads to a position that is well formed, of the same
/// size, with the other side to move and one more stone.
pub proof fn lemma_played(pos: Position, p: (int, int))
    requires
        pos.wf(),
        pos.is_valid(p),
    ensures
        pos.played(p).wf(),
        pos.played(p).size() == pos.size(),
        pos.played(p).next == pos.next.opponent_spec(),
        pos.played(p).at(p) == pos.next,
        forall|q: (int, int)| within(pos.size(), q) && q != p ==> pos.played(p).at(q) == pos.at(q),
{
    let after = pos.played(p);
    assert forall|i: int| 0 <= i < after.cells.len() implies (#[trigger] after.cells[i]).len()
        == after.cells.len() by {
        if i != p.0 {
            assert(after.cells[i] == pos.cells[i]);
        }
    }
}

/// The legal moves are exactly the cells at which a stone may be placed,
/// and none is left exactly when the board is full.
pub proof fn lemma_moves(pos: Position)
    requires
        pos.size() <= usize::MAX,
    ensures
        forall|m: (usize, usize)| pos.moves().contains(m) <==> pos.is_valid(spot(m)),
        pos.moves().len() == 0 <==> pos.is_full(),
{
    lemma_rows_moves(pos, pos.size());
    if pos.moves().len() == 0 {
        assert forall|p: (int, int)| within(pos.size(), p) implies pos.at(p) != Color::Empty by {
            let m = (p.0 as usize, p.1 as usize);
            assert(spot(m) == p);
            if pos.at(p) == Color::Empty {
                assert(pos.moves().contains(m));
            }
        }
    } else {
        let m = pos.moves()[0];
        assert(pos.moves().contains(m));
        assert(within(pos.size(), spot(m)));
    }
}

/// The empty cells of a row prefix after a stone has been placed at `p`:
/// one fewer where the prefix holds `p`, else as many as before.
pub proof fn lemma_row_moves_played(pos: Position, p: (int, int), x: int, j: int)
    requires
        pos.wf(),
        pos.is_valid(p),
        0 <= x < pos.size(),
        0 <= j <= pos.size(),
    ensures
        pos.played(p).row_moves(x, j).len() == pos.row_moves(x, j).len() - if x == p.0 && p.1 < j {
            1int
        } else {
            0int
        },
    decreases j,
{
    if j > 0 {
        lemma_row_moves_played(pos, p, x, j - 1);
        lemma_played(pos, p);
        if (x, j - 1) != p {
            assert(pos.played(p).at((x, j - 1)) == pos.at((x, j - 1)));
        }
    }
}

/// The empty cells of the first rows after a stone has been placed at
/// `p`: one fewer where the rows hold `p`, else as many as before.
pub proof fn lemma_rows_moves_played(pos: Position, p: (int, int), i: int)
    requires
        pos.wf(),
        pos.is_valid(p),
        0 <= i <= pos.size(),
    ensures
        pos.played(p).rows_moves(i).len() == pos.rows_moves(i).len() - if p.0 < i {
            1int
        } else {
            0int
        },
    decreases i,
{
    if i > 0 {
        lemma_rows_moves_played(pos, p, i - 1);
        lemma_row_moves_played(pos, p, i - 1, pos.size());
        lemma_played(pos, p);
    }
}

/// A move leaves one legal move fewer.
pub proof fn lemma_moves_played(pos: Position, p: (int, int))
    requires
        pos.wf(),
        pos.is_valid(p),
    ensures
        pos.played(p).moves().len() == pos.moves().len() - 1,
{
    lemma_rows_moves_played(pos, p, pos.size());
    lemma_played(pos, p);
}

/// A row prefix has at most as many empty cells as cells.
pub proof fn lemma_row_moves_bound(pos: Position, x: int, j: int)
    requires
        0 <= j,
    ensures
        pos.row_moves(x, j).len() <= j,
    decreases j,
{
    if j > 0 {
        lemma_row_moves_bound(pos, x, j - 1);
    }
}

/// A board has at most as many legal moves as cells.
pub proof fn lemma_moves_bound(pos: Position, i: int)
    requires
        0 <= i <= pos.size(),
    ensures
        pos.rows_moves(i).len() <= i * pos.size(),
        i == pos.size() ==> pos.moves().len() <= pos.size() * pos.size(),
    decreases i,
{
    if i > 0 {
        lemma_moves_bound(pos, i - 1);
        lemma_row_moves_bound(pos, i - 1, pos.size());
        assert((i - 1) * pos.size() + pos.size() == i * pos.size()) by (nonlinear_arith);
    }
}

} // verus!
