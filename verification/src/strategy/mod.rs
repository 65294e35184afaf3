//! Ways of choosing a move.

pub mod alpha_beta;
pub mod alpha_beta_2;
pub mod alpha_beta_3;
pub mod alpha_beta_4;
pub mod human;
pub mod mini_max;
pub mod random;

pub use alpha_beta::AlphaBeta;
pub use alpha_beta_2::AlphaBeta2;
pub use alpha_beta_3::AlphaBeta3;
pub use alpha_beta_4::AlphaBeta4;
pub use human::Human;
pub use mini_max::MiniMax;
pub use random::Random;

use std::time::{Duration, Instant};
use vstd::prelude::*;

use crate::board::Board;
use crate::position::spot;

verus! {

/// A way of choosing the next move on a board.
pub trait Strategy {
    /// A legal move for the side to move. The board must have room for
    /// one. The time given, if any, is a budget that the strategy tries
    /// to keep, not a promise.
    fn next_move<const SIZE: usize>(&self, board: &Board<SIZE>, duration: Option<Duration>) -> (mv:
        (usize, usize))
        requires
            !board@.is_full(),
        ensures
            board@.is_valid(spot(mv)),
    ;
}

/// `std::time::Instant`, a moment on the system's clock. Nothing is known
/// of what it holds.
#[verifier::external_type_specification]
#[verifier::external_body]
pub struct ExInstant(Instant);

/// The moment of the call, read from the system clock with
/// `std::time::Instant::now`.
#[verifier::external_body]
pub(crate) fn now() -> Instant {
    Instant::now()
}

/// The time that has passed since `start`, by
/// `std::time::Instant::elapsed`. It is what the clock says, and nothing
/// is claimed of it.
#[verifier::external_body]
pub(crate) fn elapsed(start: &Instant) -> Duration {
    start.elapsed()
}

/// Whether the first span of time is shorter than the second, by the
/// order that std gives to `Duration`.
#[verifier::external_body]
pub(crate) fn shorter(a: &Duration, b: &Duration) -> bool {
    a < b
}

/// The whole milliseconds in a span of time, as
/// `std::time::Duration::as_millis` counts them.
pub uninterp spec fn whole_millis(d: Duration) -> u128;

/// The whole milliseconds in a span of time, by
/// `std::time::Duration::as_millis`: a number that depends on the span
/// alone.
#[verifier::external_body]
pub(crate) fn millis(d: &Duration) -> (ms: u128)
    ensures
        ms == whole_millis(*d),
{
    d.as_millis()
}

/// Below this many milliseconds for a move a search does not look ahead.
pub const SHORTEST_SEARCH_MILLIS: u128 = 100;

/// A budget is brief when it is given and holds fewer whole milliseconds
/// than `SHORTEST_SEARCH_MILLIS`: too short for a search to look ahead.
pub open spec fn brief(budget: Option<Duration>) -> bool {
    match budget {
        Some(d) => whole_millis(d) < SHORTEST_SEARCH_MILLIS,
        None => false,
    }
}

/// Whether so many milliseconds are too few for a search to look ahead.
pub fn too_few_millis(ms: u128) -> (quick: bool)
    ensures
        quick == (ms < SHORTEST_SEARCH_MILLIS),
{
    ms < SHORTEST_SEARCH_MILLIS
}

/// Whether a budget is too short for a search to look ahead. Without a
/// budget none is.
pub(crate) fn too_short(duration: &Option<Duration>) -> (quick: bool)
    ensures
        quick == brief(*duration),
{
    match duration {
        Some(d) => too_few_millis(millis(d)),
        None => false,
    }
}

} // verus!
