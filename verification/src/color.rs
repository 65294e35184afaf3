use vstd::prelude::*;

use crate::score::Score;

verus! {

/// What a cell of the board holds, and the name of a side.
///
/// `White` joins the first column to the last, `Black` the first row to the
/// last. `Empty` is the state of a free cell; it is not a side.
#[derive(Debug, Copy, Clone, Hash, Eq, PartialEq, Structural)]
pub enum Color {
    White,
    Black,
    Empty,
}

impl Color {
    /// True of the two sides, false of `Empty`.
    pub open spec fn is_side(self) -> bool {
        self != Color::Empty
    }

    pub open spec fn opponent_spec(&self) -> Color {
        match self {
            Color::White => Color::Black,
            Color::Black => Color::White,
            Color::Empty => Color::Empty,
        }
    }

    /// The score of a game this side has won. `Empty` wins nothing: its
    /// score is a level advantage.
    pub open spec fn win_score_spec(&self) -> Score {
        match self {
            Color::White => Score::WhiteCheckMate,
            Color::Black => Score::BlackCheckMate,
            Color::Empty => Score::Advantage(0),
        }
    }

    /// The glyph that stands for this state when a board is drawn.
    pub open spec fn glyph(self) -> char {
        match self {
            Color::Black => '○',
            Color::White => '●',
            Color::Empty => '.',
        }
    }

    /// The other side; `Empty` has no opponent and maps to itself.
    #[verifier::when_used_as_spec(opponent_spec)]
    pub fn opponent(&self) -> (r: Color)
        ensures
            r == self.opponent_spec(),
    {
        match self {
            Color::White => Color::Black,
            Color::Black => Color::White,
            Color::Empty => Color::Empty,
        }
    }

    #[verifier::when_used_as_spec(glyph)]
    pub fn to_char(self) -> (c: char)
        ensures
            c == self.glyph(),
    {
        match self {
            Color::Black => '○',
            Color::White => '●',
            Color::Empty => '.',
        }
    }

    #[verifier::when_used_as_spec(win_score_spec)]
    pub fn win_score(&self) -> (s: Score)
        ensures
            s == self.win_score_spec(),
    {
        match self {
            Color::White => Score::WhiteCheckMate,
            Color::Black => Score::BlackCheckMate,
            Color::Empty => Score::Advantage(0),
        }
    }

    /// Hands the turn over: a side becomes its opponent, which is returned.
    /// `Empty` stays `Empty` and yields nothing.
    pub fn next(&mut self) -> (r: Option<Color>)
        ensures
            *final(self) == old(self).opponent_spec(),
            r == if *old(self) == Color::Empty {
                None
            } else {
                Some(old(self).opponent_spec())
            },
    {
        *self = self.opponent();
        match *self {
            Color::Empty => None,
            c => Some(c),
        }
    }

    /// The side's name.
    pub fn name(&self) -> (s: &'static str)
        ensures
            s@ == match self {
                Color::Black => "Black"@,
                Color::White => "White"@,
                Color::Empty => "None"@,
            },
    {
        match self {
            Color::Black => "Black",
            Color::White => "White",
            Color::Empty => "None",
        }
    }
}

/// Taking the opponent twice gives the side back.
pub proof fn lemma_opponent_involution(c: Color)
    ensures
        c.opponent_spec().opponent_spec() == c,
        c.is_side() ==> c.opponent_spec().is_side() && c.opponent_spec() != c,
{
}

} // verus!
