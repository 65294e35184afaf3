use std::rc::Rc;
use std::time::Duration;
use vstd::prelude::*;

use crate::board::{arises, follows, Board};
use crate::color::Color;
use crate::connect::winner_of;
use crate::log::LogLevel;
use crate::player::Player;
use crate::position::{lemma_moves, lemma_moves_played, lemma_played, spot, Position};
use crate::strategy::{Random, Strategy};

verus! {

/// A game between two players. A side without a player moves at random.
pub struct Game<const SIZE: usize, W: Strategy, B: Strategy> {
    board: Board<SIZE>,
    white: Option<Rc<Player<W>>>,
    black: Option<Rc<Player<B>>>,
    duration: Option<Duration>,
    log_level: LogLevel,
}

/// The game cannot go on: a side has won or no move is left.
pub open spec fn is_over(pos: Position) -> bool {
    winner_of(pos) is Some || pos.is_full()
}

/// Stones stay where they were put.
pub open spec fn keeps_stones(before: Position, after: Position) -> bool {
    &&& after.size() == before.size()
    &&& forall|p: (int, int)|
        crate::cell::within(before.size(), p) && before.at(p) != Color::Empty ==> after.at(p)
            == before.at(p)
}

impl<const SIZE: usize, W: Strategy, B: Strategy> Game<SIZE, W, B> {
    /// The position on the board.
    pub closed spec fn position(&self) -> Position {
        self.board@
    }

    /// What the game reports.
    pub closed spec fn flags(&self) -> LogLevel {
        self.log_level
    }

    /// The time the game has been given, if it has been given any.
    pub closed spec fn budget(&self) -> Option<Duration> {
        self.duration
    }

    /// A game on an empty board.
    pub fn new(white: Option<Rc<Player<W>>>, black: Option<Rc<Player<B>>>) -> (g: Game<SIZE, W, B>)
        requires
            SIZE * SIZE <= usize::MAX,
        ensures
            g.position().wf(),
            g.position().size() == SIZE,
            g.position().next == Color::White,
            forall|p: (int, int)|
                crate::cell::within(SIZE as int, p) ==> g.position().at(p) == Color::Empty,
            g.flags()@ == Set::<crate::log::LogFlag>::empty(),
            g.budget() is None,
    {
        Game { board: Board::new(), white, black, duration: None, log_level: LogLevel::new() }
    }

    /// The side that has won, if one has.
    pub fn winner(&self) -> (r: Option<Color>)
        ensures
            r == winner_of(self.position()),
    {
        self.board.winner()
    }

    pub fn board(&self) -> (b: &Board<SIZE>)
        ensures
            b@ == self.position(),
    {
        &self.board
    }

    /// Begins from the given board instead of the empty one.
    pub fn set_starting_position(&mut self, board: Board<SIZE>)
        ensures
            final(self).position() == board@,
            final(self).flags() == old(self).flags(),
            final(self).budget() == old(self).budget(),
    {
        self.board = board;
    }

    /// Gives the game so much time.
    pub fn set_duration(&mut self, duration: Duration)
        ensures
            final(self).budget() == Some(duration),
            final(self).position() == old(self).position(),
            final(self).flags() == old(self).flags(),
    {
        self.duration = Some(duration);
    }

    /// The time the game has been given, if it has been given any.
    pub fn duration(&self) -> (d: Option<Duration>)
        ensures
            d == self.budget(),
    {
        self.duration
    }

    pub fn set_log_level(&mut self, log_level: LogLevel)
        ensures
            final(self).position() == old(self).position(),
            final(self).flags() == log_level,
            final(self).budget() == old(self).budget(),
    {
        self.log_level = log_level;
    }

    /// What the game is to report.
    pub fn log_level(&self) -> (l: LogLevel)
        ensures
            l == self.flags(),
    {
        self.log_level
    }

    /// Plays a legal move chosen at random; does nothing on a full board.
    pub fn play_random_move(&mut self)
        ensures
            follows(old(self).position(), final(self).position()),
            final(self).flags() == old(self).flags(),
            final(self).budget() == old(self).budget(),
    {
        self.board.play_random_move();
    }

    /// Lets the player of the side to move choose a move and plays it.
    /// Returns the move.
    pub fn play_turn(&mut self) -> (mv: (usize, usize))
        requires
            !old(self).position().is_full(),
        ensures
            old(self).position().is_valid(spot(mv)),
            final(self).position() == old(self).position().played(spot(mv)),
            final(self).flags() == old(self).flags(),
            final(self).budget() == old(self).budget(),
    {
        let (x, y) = match self.board.next_color() {
            Color::White => match &self.white {
                Some(player) => player.next_move(&self.board),
                None => Random::new().next_move(&self.board, None),
            },
            _ => match &self.black {
                Some(player) => player.next_move(&self.board),
                None => Random::new().next_move(&self.board, None),
            },
        };
        self.board.play(x, y);
        (x, y)
    }

    /// Plays the game to its end: a random first move, then the players
    /// in turn until a side has won or the board is full.
    pub fn play(&mut self)
        ensures
            is_over(final(self).position()),
            exists|k: nat| arises(old(self).position(), final(self).position(), k),
            keeps_stones(old(self).position(), final(self).position()),
            final(self).flags() == old(self).flags(),
            final(self).budget() == old(self).budget(),
    {
        let _ = self.board.size();
        proof {
            if !self.board@.is_full() {
                lemma_moves(self.board@);
            }
        }
        self.play_random_move();
        proof {
            let before = old(self).position();
            if !before.is_full() {
                let m = choose|m: (usize, usize)|
                    before.is_valid(spot(m)) && self.board@ == #[trigger] before.played(spot(m));
                lemma_played(before, spot(m));
            }
            assert(arises(before, before, 0));
            assert(arises(before, self.board@, 1));
        }
        let ghost mut turns: nat = 1;
        loop
            invariant
                self.board.sound(),
                arises(old(self).position(), self.board@, turns),
                keeps_stones(old(self).position(), self.board@),
                self.log_level == old(self).log_level,
                self.duration == old(self).duration,
            ensures
                is_over(self.board@),
            decreases self.board@.moves().len(),
        {
            if self.board.winner().is_some() || self.board.is_full() {
                break ;
            }
            let ghost before = self.board@;
            let mv = self.play_turn();
            let _ = self.board.size();
            proof {
                lemma_played(before, spot(mv));
                lemma_moves_played(before, spot(mv));
                assert(follows(before, self.board@));
                turns = turns + 1;
                assert(arises(old(self).position(), self.board@, turns));
            }
        }
    }
}

} // verus!
