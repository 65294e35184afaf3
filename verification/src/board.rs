use vstd::prelude::*;

use crate::cell::within;
use crate::color::Color;
use crate::chance::random_index;
use crate::connect::{has_won, lemma_won_iff_nothing_missing, winner_of};
use crate::position::{lemma_moves, lemma_played, spot, Position};

verus! {

/// The side length of a board of the usual size.
pub const DEFAULT_BOARD_SIZE: usize = 7;

/// A Hex board of side `SIZE` and the side that moves next.
#[derive(Debug, PartialEq, Eq, Hash)]
pub struct Board<const SIZE: usize> {
    board: [[Color; SIZE]; SIZE],
    next_color: Color,
}

impl<const SIZE: usize> View for Board<SIZE> {
    type V = Position;

    closed spec fn view(&self) -> Position {
        Position {
            cells: Seq::new(SIZE as nat, |i: int| self.board@[i]@),
            next: self.next_color,
        }
    }
}

impl<const SIZE: usize> Clone for Board<SIZE> {
    fn clone(&self) -> (r: Self)
        ensures
            r@ == self@,
    {
        proof {
            use_type_invariant(self);
        }
        Board { board: self.board, next_color: self.next_color }
    }
}

impl<const SIZE: usize> Board<SIZE> {
    /// A side is to move, and the cells can be counted.
    #[verifier::type_invariant]
    spec fn inv(self) -> bool {
        self.next_color.is_side() && SIZE * SIZE <= usize::MAX
    }

    /// What every board has: it is square, of side `SIZE`, and a side is
    /// to move.
    pub open spec fn sound(&self) -> bool {
        self@.wf() && self@.size() == SIZE && SIZE * SIZE <= usize::MAX
    }

    /// An empty board with White to move.
    pub fn new() -> (b: Board<SIZE>)
        requires
            SIZE * SIZE <= usize::MAX,
        ensures
            b.sound(),
            b@.next == Color::White,
            forall|p: (int, int)| within(SIZE as int, p) ==> b@.at(p) == Color::Empty,
    {
        Board { board: [[Color::Empty; SIZE]; SIZE], next_color: Color::White }
    }

    /// The side length.
    pub fn size(&self) -> (n: usize)
        ensures
            n == SIZE,
            self.sound(),
    {
        proof {
            use_type_invariant(self);
        }
        SIZE
    }

    /// Places a stone of the side to move at `(x, y)` and hands the turn to
    /// the other side.
    pub fn play(&mut self, x: usize, y: usize)
        requires
            old(self)@.is_valid((x as int, y as int)),
        ensures
            final(self)@ == old(self)@.played((x as int, y as int)),
            final(self)@.next == old(self)@.next.opponent_spec(),
            final(self)@.at((x as int, y as int)) == old(self)@.next,
            forall|q: (int, int)|
                within(SIZE as int, q) && q != (x as int, y as int) ==> final(self)@.at(q) == old(
                    self,
                )@.at(q),
    {
        proof {
            use_type_invariant(&*self);
            lemma_played(self@, (x as int, y as int));
        }
        self.board[x][y] = self.next_color;
        self.next_color = self.next_color.opponent();
        assert(self@.cells =~~= old(self)@.played((x as int, y as int)).cells);
    }

    /// Places a stone of the given side at `(x, y)`, whoever was to move,
    /// and hands the turn to the other side.
    pub fn set(&mut self, x: usize, y: usize, color: Color)
        requires
            old(self)@.is_valid((x as int, y as int)),
            color.is_side(),
        ensures
            final(self)@.cells == old(self)@.with_stone((x as int, y as int), color).cells,
            final(self)@.next == color.opponent_spec(),
            final(self)@.at((x as int, y as int)) == color,
            forall|q: (int, int)|
                within(SIZE as int, q) && q != (x as int, y as int) ==> final(self)@.at(q) == old(
                    self,
                )@.at(q),
    {
        proof {
            use_type_invariant(&*self);
        }
        self.board[x][y] = color;
        self.next_color = color.opponent();
        assert(self@.cells =~~= old(self)@.with_stone((x as int, y as int), color).cells);
    }

    /// The cells, row by row.
    pub fn get_board(&self) -> (cells: &[[Color; SIZE]; SIZE])
        ensures
            forall|p: (int, int)| within(SIZE as int, p) ==> cells@[p.0]@[p.1] == self@.at(p),
    {
        &self.board
    }

    /// What the cell at `(x, y)` holds.
    pub fn get(&self, x: usize, y: usize) -> (c: Color)
        requires
            x < SIZE,
            y < SIZE,
        ensures
            c == self@.at((x as int, y as int)),
    {
        self.board[x][y]
    }

    /// Whether a stone may be placed at `(x, y)`.
    pub fn is_valid(&self, x: usize, y: usize) -> (r: bool)
        ensures
            r == self@.is_valid((x as int, y as int)),
    {
        if x >= SIZE || y >= SIZE {
            return false;
        }
        self.board[x][y] == Color::Empty
    }

    /// The side that moves next.
    pub fn next_color(&self) -> (c: Color)
        ensures
            c == self@.next,
            self.sound(),
    {
        proof {
            use_type_invariant(self);
        }
        self.next_color
    }

    /// The legal moves: every empty cell, in row-major order.
    pub fn possible_moves(&self) -> (moves: Vec<(usize, usize)>)
        ensures
            moves@ == self@.moves(),
            forall|i: int| 0 <= i < moves.len() ==> self@.is_valid(spot(#[trigger] moves[i])),
    {
        let mut moves: Vec<(usize, usize)> = Vec::new();
        let mut i: usize = 0;
        while i < SIZE
            invariant
                0 <= i <= SIZE,
                moves@ == self@.rows_moves(i as int),
            decreases SIZE - i,
        {
            let mut j: usize = 0;
            let ghost before = moves@;
            while j < SIZE
                invariant
                    0 <= j <= SIZE,
                    i < SIZE,
                    moves@ == before + self@.row_moves(i as int, j as int),
                decreases SIZE - j,
            {
                if self.board[i][j] == Color::Empty {
                    moves.push((i, j));
                }
                j += 1;
            }
            i += 1;
        }
        proof {
            lemma_moves(self@);
            assert forall|i: int| 0 <= i < moves.len() implies self@.is_valid(
                spot(#[trigger] moves[i]),
            ) by {
                assert(self@.moves().contains(moves[i]));
            }
        }
        moves
    }

    /// The first legal move in row-major order, if there is one.
    pub fn first_possible_move(&self) -> (r: Option<(usize, usize)>)
        ensures
            r == if self@.moves().len() > 0 {
                Some(self@.moves()[0])
            } else {
                None
            },
            r is Some ==> self@.is_valid(spot(r.unwrap())),
            r is None <==> self@.is_full(),
    {
        let moves = self.possible_moves();
        proof {
            lemma_moves(self@);
        }
        if moves.len() > 0 {
            Some(moves[0])
        } else {
            None
        }
    }

    /// Whether no legal move is left.
    pub fn is_full(&self) -> (r: bool)
        ensures
            r == self@.is_full(),
    {
        self.first_possible_move().is_none()
    }

    /// Whether two boards hold the same position: the same stones, and
    /// the same side to move.
    pub fn same_position(&self, other: &Board<SIZE>) -> (r: bool)
        ensures
            r == (self@ == other@),
    {
        if self.next_color != other.next_color {
            return false;
        }
        let mut i: usize = 0;
        while i < SIZE
            invariant
                0 <= i <= SIZE,
                self.next_color == other.next_color,
                forall|x: int, y: int|
                    0 <= x < i && 0 <= y < SIZE ==> #[trigger] self.board@[x]@[y]
                        == other.board@[x]@[y],
            decreases SIZE - i,
        {
            let mut j: usize = 0;
            while j < SIZE
                invariant
                    0 <= i < SIZE,
                    0 <= j <= SIZE,
                    self.next_color == other.next_color,
                    forall|x: int, y: int|
                        0 <= x < i && 0 <= y < SIZE ==> #[trigger] self.board@[x]@[y]
                            == other.board@[x]@[y],
                    forall|y: int|
                        0 <= y < j ==> #[trigger] self.board@[i as int]@[y] == other.board@[i as int]@[y],
                decreases SIZE - j,
            {
                if self.board[i][j] != other.board[i][j] {
                    assert(self@.cells[i as int][j as int] != other@.cells[i as int][j as int]);
                    return false;
                }
                j += 1;
            }
            i += 1;
        }
        assert(self@.cells =~~= other@.cells);
        true
    }

    /// Whether the side that moved last has joined its edges.
    pub fn is_win(&self) -> (r: bool)
        ensures
            r == has_won(self@, self@.next.opponent_spec()),
    {
        let last = self.next_color().opponent();
        let missing = self.missing_move_to_win2(last);
        proof {
            lemma_won_iff_nothing_missing(self@, last, missing);
        }
        match missing {
            Some(d) => d == 0,
            None => false,
        }
    }

    /// Whether `color` has joined its edges.
    pub fn has_won(&self, color: Color) -> (r: bool)
        requires
            color.is_side(),
        ensures
            r == has_won(self@, color),
    {
        let missing = self.missing_move_to_win2(color);
        proof {
            lemma_won_iff_nothing_missing(self@, color, missing);
        }
        match missing {
            Some(d) => d == 0,
            None => false,
        }
    }

    /// The side that has joined its edges, if one has. Black is asked
    /// first.
    pub fn winner(&self) -> (r: Option<Color>)
        ensures
            r == winner_of(self@),
    {
        if self.has_won(Color::Black) {
            Some(Color::Black)
        } else if self.has_won(Color::White) {
            Some(Color::White)
        } else {
            None
        }
    }

    /// Whether the game is over because a side has won.
    pub fn is_finished(&self) -> (r: bool)
        ensures
            r == winner_of(self@).is_some(),
    {
        !self.winner().is_none()
    }

    /// Plays the legal move with the given index in row-major order.
    pub fn play_nth_move(&mut self, index: usize)
        requires
            index < old(self)@.moves().len(),
        ensures
            final(self)@ == old(self)@.played(spot(old(self)@.moves()[index as int])),
    {
        let moves = self.possible_moves();
        let (x, y) = moves[index];
        self.play(x, y);
    }

    /// Plays a legal move chosen at random; does nothing on a full board.
    pub fn play_random_move(&mut self)
        ensures
            follows(old(self)@, final(self)@),
    {
        let possible_moves = self.possible_moves();
        if possible_moves.len() == 0 {
            proof {
                lemma_moves(self@);
            }
            return ;
        }
        let index = random_index(possible_moves.len());
        self.play_nth_move(index);
        proof {
            let m = old(self)@.moves()[index as int];
            assert(old(self)@.is_valid(spot(m)));
        }
    }

    /// A board on which `nb_moves` random moves have been played from the
    /// empty board, or as many as the board has room for.
    pub fn random_board(nb_moves: usize) -> (b: Board<SIZE>)
        requires
            SIZE * SIZE <= usize::MAX,
        ensures
            b.sound(),
            exists|start: Position|
                start.wf() && start.size() == SIZE && start.next == Color::White && (forall|
                    p: (int, int),
                |
                    within(SIZE as int, p) ==> start.at(p) == Color::Empty) && arises(
                    start,
                    b@,
                    nb_moves as nat,
                ),
    {
        let mut board = Board::new();
        let ghost start = board@;
        let mut i: usize = 0;
        while i < nb_moves
            invariant
                0 <= i <= nb_moves,
                arises(start, board@, i as nat),
            decreases nb_moves - i,
        {
            let ghost before = board@;
            board.play_random_move();
            i += 1;
            assert(arises(start, before, (i - 1) as nat) && follows(before, board@));
        }
        let n = board.size();
        board
    }
}

/// One turn leads from `before` to `after`: a stone of the side to move
/// on some empty cell, or nothing where the board is full.
pub open spec fn follows(before: Position, after: Position) -> bool {
    if before.is_full() {
        after == before
    } else {
        exists|m: (usize, usize)| before.is_valid(spot(m)) && after == #[trigger] before.played(
            spot(m),
        )
    }
}

/// `k` turns lead from `start` to `end`.
pub open spec fn arises(start: Position, end: Position, k: nat) -> bool
    decreases k,
{
    if k == 0 {
        end == start
    } else {
        exists|mid: Position| arises(start, mid, (k - 1) as nat) && #[trigger] follows(mid, end)
    }
}

} // verus!
