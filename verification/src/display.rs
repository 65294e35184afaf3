//! Boards, scores and distances as text.

use vstd::prelude::*;
use vstd::string::StringExecFns;

use crate::board::Board;
use crate::color::Color;
use crate::connect::{fits, grid, label, lemma_grid_fits};
use crate::distance::Distance;
use crate::position::Position;
use crate::score::Score;

verus! {

/// `String::push` appends one character to the end of the string.
pub assume_specification[ String::push ](s: &mut String, c: char)
    ensures
        final(s)@ == old(s)@.push(c),
;

/// The character of a decimal digit.
pub open spec fn digit(d: nat) -> char {
    if d == 0 {
        '0'
    } else if d == 1 {
        '1'
    } else if d == 2 {
        '2'
    } else if d == 3 {
        '3'
    } else if d == 4 {
        '4'
    } else if d == 5 {
        '5'
    } else if d == 6 {
        '6'
    } else if d == 7 {
        '7'
    } else if d == 8 {
        '8'
    } else {
        '9'
    }
}

/// A number in decimal notation, without leading zeros.
pub open spec fn decimal(n: nat) -> Seq<char>
    decreases n,
{
    if n < 10 {
        seq![digit(n)]
    } else {
        decimal(n / 10).push(digit(n % 10))
    }
}

/// A number in decimal notation, with a blank in front where it has one
/// digit only.
pub open spec fn padded(n: nat) -> Seq<char> {
    if n < 10 {
        seq![' ', digit(n)]
    } else {
        decimal(n)
    }
}

/// A whole number in decimal notation, with a minus sign where it is
/// negative.
pub open spec fn signed(x: int) -> Seq<char> {
    if x < 0 {
        seq!['-'] + decimal((-x) as nat)
    } else {
        decimal(x as nat)
    }
}

/// So many blanks.
pub open spec fn blanks(length: nat) -> Seq<char> {
    Seq::new(length, |i: int| ' ')
}

/// The labels of the first `k` columns, each between two blanks.
pub open spec fn labels(k: nat) -> Seq<char>
    decreases k,
{
    if k == 0 {
        Seq::empty()
    } else {
        labels((k - 1) as nat) + seq![' '] + decimal(k) + seq![' ']
    }
}

/// The line of column labels above or below a board.
pub open spec fn column_labels(board_size: nat, indent: nat) -> Seq<char> {
    blanks(indent) + seq![' '] + labels(board_size) + seq!['\n']
}

/// The glyphs of the first `k` cells of a row, two blanks between
/// neighbours.
pub open spec fn cells(pos: Position, row: int, k: nat) -> Seq<char>
    decreases k,
{
    if k == 0 {
        Seq::empty()
    } else if k == 1 {
        seq![pos.at((row, 0)).glyph()]
    } else {
        cells(pos, row, (k - 1) as nat) + seq![' ', ' ', pos.at((row, k - 1)).glyph()]
    }
}

/// One row of a board: the row's number at both ends, and the row pushed
/// one place to the right for each row above it.
pub open spec fn row_line(pos: Position, row: nat) -> Seq<char> {
    blanks(row) + padded(row + 1) + seq!['\\'] + cells(pos, row as int, pos.size() as nat) + seq![
        '\\',
    ] + padded(row + 1) + seq!['\n']
}

/// The first `k` rows of a board.
pub open spec fn rows(pos: Position, k: nat) -> Seq<char>
    decreases k,
{
    if k == 0 {
        Seq::empty()
    } else {
        rows(pos, (k - 1) as nat) + row_line(pos, (k - 1) as nat)
    }
}

/// A board as text: the column labels, the rows, and the column labels
/// again under the last row.
pub open spec fn board_text(pos: Position) -> Seq<char> {
    column_labels(pos.size() as nat, 0) + rows(pos, pos.size() as nat) + column_labels(
        pos.size() as nat,
        (pos.size() + 1) as nat,
    )
}

/// A score as text.
pub open spec fn score_text(s: Score) -> Seq<char> {
    match s {
        Score::Undefined => "Undefined"@,
        Score::Advantage(x) => signed(x as int) + ".00"@,
        Score::BlackMateIn(n) => "Black mate in "@ + decimal(n as nat),
        Score::WhiteMateIn(n) => "White mate in "@ + decimal(n as nat),
        Score::BlackCheckMate => "Black checkmate"@,
        Score::WhiteCheckMate => "White checkmate"@,
    }
}

/// A distance as text: the count, `X` for a cell that cannot be entered,
/// `.` for one that no route reaches.
pub open spec fn distance_text(d: Distance) -> Seq<char> {
    match d {
        Distance::Reachable(n) => decimal(n as nat),
        Distance::Unreachable => seq!['X'],
        Distance::Unexplored => seq!['.'],
    }
}

/// The first `k` labels of a row of distances, a blank behind each.
pub open spec fn distance_cells(row: Seq<Distance>, k: nat) -> Seq<char>
    decreases k,
{
    if k == 0 {
        Seq::empty()
    } else {
        distance_cells(row, (k - 1) as nat) + distance_text(row[k - 1]) + seq![' ']
    }
}

/// The first `k` rows of a grid of distances, each pushed one place to
/// the right for each row above it.
pub open spec fn distance_rows(m: Seq<Seq<Distance>>, k: nat) -> Seq<char>
    decreases k,
{
    if k == 0 {
        Seq::empty()
    } else {
        distance_rows(m, (k - 1) as nat) + blanks((k - 1) as nat) + seq![' '] + distance_cells(
            m[k - 1],
            m[k - 1].len(),
        ) + seq!['\n']
    }
}

fn digit_char(d: u64) -> (c: char)
    requires
        d < 10,
    ensures
        c == digit(d as nat),
{
    if d == 0 {
        '0'
    } else if d == 1 {
        '1'
    } else if d == 2 {
        '2'
    } else if d == 3 {
        '3'
    } else if d == 4 {
        '4'
    } else if d == 5 {
        '5'
    } else if d == 6 {
        '6'
    } else if d == 7 {
        '7'
    } else if d == 8 {
        '8'
    } else {
        '9'
    }
}

/// Appends a number in decimal notation.
pub fn push_decimal(s: &mut String, n: u64)
    ensures
        final(s)@ == old(s)@ + decimal(n as nat),
    decreases n,
{
    if n >= 10 {
        push_decimal(s, n / 10);
    }
    s.push(digit_char(n % 10));
    assert(s@ =~= old(s)@ + decimal(n as nat));
}

/// Appends a number in decimal notation, at least two characters wide.
pub fn push_padded(s: &mut String, n: u64)
    ensures
        final(s)@ == old(s)@ + padded(n as nat),
{
    if n < 10 {
        s.push(' ');
    }
    push_decimal(s, n);
    assert(s@ =~= old(s)@ + padded(n as nat));
}

/// Appends so many blanks.
pub fn push_blanks(s: &mut String, length: usize)
    ensures
        final(s)@ == old(s)@ + blanks(length as nat),
{
    let mut i: usize = 0;
    assert(s@ =~= old(s)@ + blanks(0));
    while i < length
        invariant
            0 <= i <= length,
            s@ == old(s)@ + blanks(i as nat),
        decreases length - i,
    {
        s.push(' ');
        i += 1;
        assert(s@ =~= old(s)@ + blanks(i as nat));
    }
}

/// So many blanks.
pub fn write_indent(length: usize) -> (s: String)
    ensures
        s@ == blanks(length as nat),
{
    let mut s = String::new();
    push_blanks(&mut s, length);
    assert(s@ =~= blanks(length as nat));
    s
}

/// The line of column labels of a board of side `board_size`, pushed
/// `indent` places to the right.
pub fn write_column_labels(board_size: usize, indent: usize) -> (s: String)
    ensures
        s@ == column_labels(board_size as nat, indent as nat),
{
    let mut s = String::new();
    push_blanks(&mut s, indent);
    s.push(' ');
    let ghost head = s@;
    assert(head =~= blanks(indent as nat) + seq![' ']);
    let mut column: usize = 0;
    assert(s@ =~= head + labels(0));
    while column < board_size
        invariant
            0 <= column <= board_size,
            s@ == head + labels(column as nat),
        decreases board_size - column,
    {
        s.push(' ');
        push_decimal(&mut s, (column + 1) as u64);
        s.push(' ');
        column += 1;
        assert(s@ =~= head + labels(column as nat));
    }
    s.push('\n');
    assert(s@ =~= column_labels(board_size as nat, indent as nat));
    s
}

/// One row of a board as text.
pub fn write_row<const SIZE: usize>(board: &Board<SIZE>, row: usize) -> (s: String)
    requires
        row < SIZE,
    ensures
        s@ == row_line(board@, row as nat),
{
    let n = board.size();
    let mut s = String::new();
    push_blanks(&mut s, row);
    push_padded(&mut s, (row + 1) as u64);
    s.push('\\');
    let ghost head = s@;
    assert(head =~= blanks(row as nat) + padded((row + 1) as nat) + seq!['\\']);
    let mut column: usize = 0;
    assert(s@ =~= head + cells(board@, row as int, 0));
    while column < n
        invariant
            n == SIZE,
            row < SIZE,
            0 <= column <= n,
            s@ == head + cells(board@, row as int, column as nat),
        decreases n - column,
    {
        if column > 0 {
            s.push(' ');
            s.push(' ');
        }
        s.push(board.get(row, column).to_char());
        column += 1;
        assert(s@ =~= head + cells(board@, row as int, column as nat));
    }
    s.push('\\');
    push_padded(&mut s, (row + 1) as u64);
    s.push('\n');
    assert(s@ =~= row_line(board@, row as nat));
    s
}

/// Appends the characters of a string.
pub fn push_text(s: &mut String, text: &String)
    ensures
        final(s)@ == old(s)@ + text@,
{
    s.append(text.as_str());
}

impl<const SIZE: usize> Board<SIZE> {
    /// The board as text.
    pub fn to_string(&self) -> (s: String)
        ensures
            s@ == board_text(self@),
    {
        let n = self.size();
        let mut s = write_column_labels(n, 0);
        let ghost head = s@;
        let mut row: usize = 0;
        assert(s@ =~= head + rows(self@, 0));
        while row < n
            invariant
                n == SIZE,
                0 <= row <= n,
                s@ == head + rows(self@, row as nat),
            decreases n - row,
        {
            let line = write_row(self, row);
            push_text(&mut s, &line);
            row += 1;
            assert(s@ =~= head + rows(self@, row as nat));
        }
        assert(n < usize::MAX) by (nonlinear_arith)
            requires
                n * n <= usize::MAX,
                usize::MAX >= 0xffff_ffff,
        ;
        let foot = write_column_labels(n, n + 1);
        push_text(&mut s, &foot);
        assert(s@ =~= board_text(self@));
        s
    }
}

impl Score {
    /// The score as text.
    pub fn to_string(&self) -> (s: String)
        ensures
            s@ == score_text(*self),
    {
        let mut s = String::new();
        match *self {
            Score::Undefined => {
                s.append("Undefined");
            },
            Score::Advantage(x) => {
                if x < 0 {
                    s.push('-');
                    push_decimal(&mut s, (-(x as i128)) as u64);
                } else {
                    push_decimal(&mut s, x as u64);
                }
                s.append(".00");
            },
            Score::BlackMateIn(n) => {
                s.append("Black mate in ");
                push_decimal(&mut s, n as u64);
            },
            Score::WhiteMateIn(n) => {
                s.append("White mate in ");
                push_decimal(&mut s, n as u64);
            },
            Score::BlackCheckMate => {
                s.append("Black checkmate");
            },
            Score::WhiteCheckMate => {
                s.append("White checkmate");
            },
        }
        assert(s@ =~= score_text(*self));
        s
    }
}

impl Color {
    /// The side's name as text.
    pub fn to_string(&self) -> (s: String)
        ensures
            s@ == match self {
                Color::Black => "Black"@,
                Color::White => "White"@,
                Color::Empty => "None"@,
            },
    {
        let name = self.name();
        let mut s = String::new();
        s.append(name);
        assert(s@ =~= name@);
        s
    }
}

impl Distance {
    /// The distance as text.
    pub fn to_string(&self) -> (s: String)
        ensures
            s@ == distance_text(*self),
    {
        let mut s = String::new();
        match *self {
            Distance::Reachable(d) => {
                push_decimal(&mut s, d as u64);
            },
            Distance::Unreachable => {
                s.push('X');
            },
            Distance::Unexplored => {
                s.push('.');
            },
        }
        assert(s@ =~= distance_text(*self));
        s
    }
}

/// A grid of distances as text: one line for each row, pushed one place
/// to the right for each row above it, as the rows of a board are.
pub fn format_distances(distances: &Vec<Vec<Distance>>) -> (s: String)
    ensures
        s@ == distance_rows(grid(*distances), distances.len() as nat),
{
    let ghost m = grid(*distances);
    let mut s = String::new();
    let mut row: usize = 0;
    assert(s@ =~= distance_rows(m, 0));
    while row < distances.len()
        invariant
            0 <= row <= distances.len(),
            m == grid(*distances),
            s@ == distance_rows(m, row as nat),
        decreases distances.len() - row,
    {
        let ghost before = s@;
        push_blanks(&mut s, row);
        s.push(' ');
        let ghost head = s@;
        let mut column: usize = 0;
        assert(s@ =~= head + distance_cells(m[row as int], 0));
        while column < distances[row].len()
            invariant
                row < distances.len(),
                m == grid(*distances),
                0 <= column <= distances@[row as int].len(),
                s@ == head + distance_cells(m[row as int], column as nat),
            decreases distances@[row as int].len() - column,
        {
            let text = distances[row][column].to_string();
            push_text(&mut s, &text);
            s.push(' ');
            column += 1;
            assert(s@ =~= head + distance_cells(m[row as int], column as nat));
        }
        s.push('\n');
        row += 1;
        assert(s@ =~= distance_rows(m, row as nat));
    }
    s
}

} // verus!
