//! Static evaluation: the score of one position, without looking ahead.

pub mod evaluation1;
pub mod evaluation2;
pub mod evaluation3;
pub mod evaluation4;

pub use evaluation1::Evaluation1;
pub use evaluation2::Evaluation2;
pub use evaluation3::Evaluation3;
pub use evaluation4::Evaluation4;

use vstd::prelude::*;

use crate::board::Board;
use crate::color::Color;
use crate::connect::{is_moves_to_connect, lemma_moves_to_connect_unique};
use crate::position::Position;
use crate::score::Score;

verus! {

/// A way of scoring a position as it stands.
///
/// The score depends on the position alone, and it is static: an
/// advantage, or a game that is decided, never a count of plies, which
/// only a search can know.
pub trait Evaluation {
    /// The score of a position.
    spec fn value(&self, pos: Position) -> Score;

    fn score<const SIZE: usize>(&self, board: &Board<SIZE>) -> (s: Score)
        ensures
            s == self.value(board@),
            s.is_static(),
    ;
}

/// The number of stones a side still needs to join its edges; nothing
/// where no number of stones will do.
pub open spec fn moves_to_connect(pos: Position, side: Color) -> Option<usize> {
    choose|r: Option<usize>| is_moves_to_connect(pos, side, r)
}

/// An answer to how many stones a side still needs is the answer.
pub proof fn lemma_moves_to_connect(pos: Position, side: Color, r: Option<usize>)
    requires
        is_moves_to_connect(pos, side, r),
    ensures
        moves_to_connect(pos, side) == r,
{
    lemma_moves_to_connect_unique(pos, side, r, moves_to_connect(pos, side));
}

/// A number brought into the range of an advantage: itself where it
/// fits, else the nearest end of the range.
pub open spec fn clamped(x: int) -> i64 {
    if x > i64::MAX {
        i64::MAX
    } else if x < i64::MIN {
        i64::MIN
    } else {
        x as i64
    }
}

/// The difference of two weighted counts of stones, as an advantage.
pub fn weighed(a: usize, wa: u8, b: usize, wb: u8) -> (d: i64)
    ensures
        d == clamped(wa * a - wb * b),
{
    assert(wa * a <= 255 * usize::MAX && wb * b <= 255 * usize::MAX) by (nonlinear_arith)
        requires
            wa <= 255,
            wb <= 255,
            a <= usize::MAX,
            b <= usize::MAX,
    ;
    let x: i128 = (wa as i128) * (a as i128) - (wb as i128) * (b as i128);
    if x > i64::MAX as i128 {
        i64::MAX
    } else if x < i64::MIN as i128 {
        i64::MIN
    } else {
        x as i64
    }
}

/// How much nearer White is to joining its edges than Black: the stones
/// Black still needs less those White needs. A side that can no longer
/// join its edges has lost.
pub open spec fn differential(pos: Position) -> Score {
    match (moves_to_connect(pos, Color::Black), moves_to_connect(pos, Color::White)) {
        (None, _) => Score::WhiteCheckMate,
        (_, None) => Score::BlackCheckMate,
        (Some(black), Some(white)) => Score::Advantage(clamped(black - white)),
    }
}

/// The differential with the stones of the side that has just moved
/// counted twice: the side to move is a stone ahead of what the counts
/// show.
pub open spec fn tempo_differential(pos: Position) -> Score {
    match (moves_to_connect(pos, Color::Black), moves_to_connect(pos, Color::White)) {
        (None, _) => Score::WhiteCheckMate,
        (_, None) => Score::BlackCheckMate,
        (Some(black), Some(white)) => if pos.next == Color::Black {
            Score::Advantage(clamped(black - 2 * white))
        } else {
            Score::Advantage(clamped(2 * black - white))
        },
    }
}

} // verus!
