use std::rc::Rc;
use std::time::Duration;
use vstd::prelude::*;
use vstd::string::StringExecFns;

use crate::board::Board;
use crate::chance::random_byte;
use crate::display::{decimal, push_decimal};
use crate::position::spot;
use crate::strategy::{Random, Strategy};

verus! {

/// Another pointer to the same value, made by `Rc::clone`.
#[verifier::external_body]
pub(crate) fn share<T>(p: &Rc<T>) -> (r: Rc<T>)
    ensures
        r == *p,
{
    Rc::clone(p)
}

/// Someone who plays: a name, a way of choosing moves, and the time
/// allowed for each move.
pub struct Player<S: Strategy> {
    pub name: String,
    pub strategy: Rc<S>,
    pub time_by_move: Option<Duration>,
}

impl<S: Strategy> Player<S> {
    pub fn new(name: String, strategy: Rc<S>, time_by_move: Option<Duration>) -> (p: Player<S>)
        ensures
            p.name == name,
            p.strategy == strategy,
            p.time_by_move == time_by_move,
    {
        Player { name, strategy, time_by_move }
    }

    /// The move the player's strategy chooses within the player's time.
    pub fn next_move<const SIZE: usize>(&self, board: &Board<SIZE>) -> (mv: (usize, usize))
        requires
            !board@.is_full(),
        ensures
            board@.is_valid(spot(mv)),
    {
        self.strategy.next_move(board, self.time_by_move)
    }
}

/// The name of a player who was given none: `Player` and a number.
pub fn numbered_name(number: u8) -> (name: String)
    ensures
        name@ == "Player"@ + decimal(number as nat),
{
    let mut name = String::new();
    name.append("Player");
    push_decimal(&mut name, number as u64);
    assert(name@ =~= "Player"@ + decimal(number as nat));
    name
}

impl Default for Player<Random> {
    /// A player who moves at random, under a name with a number drawn at
    /// random.
    fn default() -> (p: Player<Random>)
        ensures
            p.time_by_move is None,
            exists|number: u8| p.name@ == "Player"@ + #[trigger] decimal(number as nat),
    {
        let number = random_byte();
        Player { name: numbered_name(number), strategy: Rc::new(Random::new()), time_by_move: None }
    }
}

} // verus!
