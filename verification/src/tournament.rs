use std::rc::Rc;
use vstd::prelude::*;

use crate::color::Color;
use crate::game::{is_over, Game};
use crate::log::LogLevel;
use crate::player::{share, Player};
use crate::strategy::Strategy;

verus! {

/// Every player against every player, as White and as Black, a number of
/// games each.
pub struct Tournament<const SIZE: usize, S: Strategy> {
    players: Vec<Rc<Player<S>>>,
    games: Vec<Game<SIZE, S, S>>,
    results: Vec<Vec<usize>>,
    nb_games: usize,
    log_level: LogLevel,
}

impl<const SIZE: usize, S: Strategy> Tournament<SIZE, S> {
    /// The number of players.
    pub closed spec fn entrants(&self) -> nat {
        self.players@.len()
    }

    /// The number of games that have been set up.
    pub closed spec fn fixtures(&self) -> nat {
        self.games@.len()
    }

    /// The number of games each pair plays with the same colours.
    pub closed spec fn rounds(&self) -> nat {
        self.nb_games as nat
    }

    /// The table of White's wins: row by White's player, column by
    /// Black's.
    pub closed spec fn table(&self) -> Seq<Seq<usize>> {
        Seq::new(self.results@.len(), |i: int| self.results@[i]@)
    }

    /// The position of the game with the given number.
    pub closed spec fn fixture(&self, k: int) -> crate::position::Position {
        self.games@[k].position()
    }

    /// The games and the table match the players: each pair has its games
    /// and its cell of the table.
    pub closed spec fn wf(&self) -> bool {
        &&& self.games@.len() == self.players@.len() * self.players@.len() * self.nb_games
        &&& self.results@.len() == self.players@.len()
        &&& forall|i: int|
            0 <= i < self.results@.len() ==> (#[trigger] self.results@[i])@.len()
                == self.players@.len()
    }

    /// A tournament without players or games.
    pub fn new() -> (t: Tournament<SIZE, S>)
        ensures
            t.entrants() == 0,
            t.fixtures() == 0,
            t.rounds() == 0,
            t.wf(),
    {
        Tournament {
            players: Vec::new(),
            games: Vec::new(),
            results: Vec::new(),
            nb_games: 0,
            log_level: LogLevel::new(),
        }
    }

    pub fn set_players(&mut self, players: Vec<Rc<Player<S>>>)
        ensures
            final(self).entrants() == players@.len(),
            final(self).fixtures() == old(self).fixtures(),
            final(self).rounds() == old(self).rounds(),
    {
        self.players = players;
    }

    /// Sets up the games: for each player as White and each player as
    /// Black, `nb_games` games on empty boards, in that order, after the
    /// games that were set up before. The table of results starts at
    /// zero.
    pub fn create_games(&mut self, nb_games: usize)
        requires
            SIZE * SIZE <= usize::MAX,
        ensures
            final(self).entrants() == old(self).entrants(),
            final(self).rounds() == nb_games,
            final(self).fixtures() == old(self).fixtures() + old(self).entrants() * old(self).entrants()
                * nb_games,
            old(self).fixtures() == 0 ==> final(self).wf(),
            final(self).table().len() == old(self).entrants(),
            forall|i: int|
                0 <= i < old(self).entrants() ==> (#[trigger] final(self).table()[i]).len() == old(
                    self,
                ).entrants(),
            forall|i: int, j: int|
                0 <= i < old(self).entrants() && 0 <= j < old(self).entrants()
                    ==> #[trigger] final(self).table()[i][j] == 0,
            forall|k: int|
                old(self).fixtures() <= k < final(self).fixtures() ==> {
                    let pos = #[trigger] final(self).fixture(k);
                    pos.wf() && pos.size() == SIZE && pos.next == Color::White && forall|
                        p: (int, int),
                    |
                        crate::cell::within(SIZE as int, p) ==> pos.at(p) == Color::Empty
                },
    {
        self.nb_games = nb_games;
        let n = self.players.len();
        let ghost base = self.games@.len();
        let mut a: usize = 0;
        assert(0 * n * nb_games == 0) by (nonlinear_arith);
        while a < n
            invariant
                0 <= a <= n,
                n == self.players@.len(),
                self.players == old(self).players,
                self.nb_games == nb_games,
                SIZE * SIZE <= usize::MAX,
                base == old(self).games@.len(),
                self.games@.len() == base + a * n * nb_games,
                forall|k: int|
                    base <= k < self.games@.len() ==> {
                        let pos = (#[trigger] self.games@[k]).position();
                        pos.wf() && pos.size() == SIZE && pos.next == Color::White && forall|
                            p: (int, int),
                        |
                            crate::cell::within(SIZE as int, p) ==> pos.at(p) == Color::Empty
                    },
            decreases n - a,
        {
            let mut b: usize = 0;
            assert(0 * nb_games == 0) by (nonlinear_arith);
            while b < n
                invariant
                    0 <= a < n,
                    0 <= b <= n,
                    n == self.players@.len(),
                    self.players == old(self).players,
                    self.nb_games == nb_games,
                    SIZE * SIZE <= usize::MAX,
                    base == old(self).games@.len(),
                    self.games@.len() == base + a * n * nb_games + b * nb_games,
                    forall|k: int|
                        base <= k < self.games@.len() ==> {
                            let pos = (#[trigger] self.games@[k]).position();
                            pos.wf() && pos.size() == SIZE && pos.next == Color::White && forall|
                                p: (int, int),
                            |
                                crate::cell::within(SIZE as int, p) ==> pos.at(p) == Color::Empty
                        },
                decreases n - b,
            {
                let mut g: usize = 0;
                while g < nb_games
                    invariant
                        0 <= a < n,
                        0 <= b < n,
                        0 <= g <= nb_games,
                        n == self.players@.len(),
                        self.players == old(self).players,
                        self.nb_games == nb_games,
                        SIZE * SIZE <= usize::MAX,
                        base == old(self).games@.len(),
                        self.games@.len() == base + a * n * nb_games + b * nb_games + g,
                        forall|k: int|
                            base <= k < self.games@.len() ==> {
                                let pos = (#[trigger] self.games@[k]).position();
                                pos.wf() && pos.size() == SIZE && pos.next == Color::White
                                    && forall|p: (int, int)|
                                    crate::cell::within(SIZE as int, p) ==> pos.at(p)
                                        == Color::Empty
                            },
                    decreases nb_games - g,
                {
                    let player1 = share(&self.players[a]);
                    let player2 = share(&self.players[b]);
                    let mut game = Game::new(Some(player1), Some(player2));
                    game.set_log_level(self.log_level);
                    self.games.push(game);
                    g += 1;
                }
                proof {
                    assert(b * nb_games + nb_games == (b + 1) * nb_games) by (nonlinear_arith);
                }
                b += 1;
            }
            proof {
                assert(a * n * nb_games + n * nb_games == (a + 1) * n * nb_games)
                    by (nonlinear_arith);
            }
            a += 1;
        }
        let mut results: Vec<Vec<usize>> = Vec::new();
        let mut i: usize = 0;
        while i < n
            invariant
                0 <= i <= n,
                results@.len() == i,
                forall|x: int, y: int|
                    0 <= x < i && 0 <= y < n ==> #[trigger] results@[x]@[y] == 0,
                forall|x: int| 0 <= x < i ==> (#[trigger] results@[x])@.len() == n,
            decreases n - i,
        {
            let mut row: Vec<usize> = Vec::new();
            let mut j: usize = 0;
            while j < n
                invariant
                    0 <= j <= n,
                    row@.len() == j,
                    forall|y: int| 0 <= y < j ==> row@[y] == 0,
                decreases n - j,
            {
                row.push(0);
                j += 1;
            }
            results.push(row);
            i += 1;
        }
        self.results = results;
    }

    /// Plays every game that has been set up, and counts in the table
    /// the games that White has won.
    pub fn play(&mut self)
        requires
            old(self).wf(),
        ensures
            final(self).wf(),
            final(self).entrants() == old(self).entrants(),
            final(self).fixtures() == old(self).fixtures(),
            final(self).rounds() == old(self).rounds(),
            forall|k: int| 0 <= k < final(self).fixtures() ==> is_over(#[trigger] final(self).fixture(k)),
    {
        let n = self.players.len();
        let total = self.games.len();
        let mut id: usize = 0;
        while id < total
            invariant
                0 <= id <= total,
                total == self.games@.len(),
                n == self.players@.len(),
                self.players == old(self).players,
                self.nb_games == old(self).nb_games,
                self.wf(),
                forall|k: int| 0 <= k < id ==> is_over((#[trigger] self.games@[k]).position()),
            decreases total - id,
        {
            proof {
                assert(self.nb_games > 0 && n > 0) by (nonlinear_arith)
                    requires
                        id < n * n * self.nb_games,
                        n >= 0,
                        self.nb_games >= 0,
                ;
            }
            let cell_id = id / self.nb_games;
            proof {
                assert(cell_id < n * n) by (nonlinear_arith)
                    requires
                        id < n * n * self.nb_games,
                        cell_id == (id as int) / (self.nb_games as int),
                        self.nb_games > 0,
                ;
                assert(cell_id / n < n) by (nonlinear_arith)
                    requires
                        cell_id < n * n,
                        n > 0,
                ;
            }
            let ghost before = self.games@;
            self.games[id].play();
            let white_won = match self.games[id].winner() {
                Some(Color::White) => true,
                _ => false,
            };
            if white_won {
                let row = cell_id / n;
                let column = cell_id % n;
                let count = self.results[row][column];
                if count < usize::MAX {
                    self.results[row][column] = count + 1;
                }
            }
            proof {
                assert forall|k: int| 0 <= k < id + 1 implies is_over(
                    (#[trigger] self.games@[k]).position(),
                ) by {
                    if k < id {
                        assert(self.games@[k] == before[k]);
                    }
                }
            }
            id += 1;
        }
    }

    /// The number of games that the player with number `white` has won
    /// as White against the player with number `black`.
    pub fn wins(&self, white: usize, black: usize) -> (count: usize)
        requires
            self.wf(),
            white < self.entrants(),
            black < self.entrants(),
        ensures
            count == self.table()[white as int][black as int],
    {
        self.results[white][black]
    }

    /// The number of players.
    pub fn nb_players(&self) -> (n: usize)
        ensures
            n == self.entrants(),
    {
        self.players.len()
    }
}

} // verus!
