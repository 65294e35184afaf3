use vstd::prelude::*;

use super::{clamped, lemma_moves_to_connect, moves_to_connect, Evaluation};
use crate::board::Board;
use crate::cell::within;
use crate::color::Color;
use crate::connect::{
    describes, grid, is_distance, label, lemma_grid_fits, lemma_reaches_more, tells,
};
use crate::distance::Distance;
use crate::position::Position;
use crate::score::Score;

verus! {

/// Scores a position by how the stones a side still needs are spread
/// over its target edge: for each side, the sum of the squares of the
/// counts on the edge over their sum, in whole stones. A side whose
/// counts are low in one place and high elsewhere weighs more than one
/// whose counts are the same everywhere.
#[derive(Clone, Copy)]
pub struct Evaluation4;

/// The cell with index `i` on the target edge of a side.
pub open spec fn target_cell(pos: Position, side: Color, i: int) -> (int, int) {
    if side == Color::Black {
        (pos.size() - 1, i)
    } else {
        (i, pos.size() - 1)
    }
}

/// The least number of stones with which a side reaches a cell, or zero
/// where it does not reach it.
pub open spec fn count_at(pos: Position, side: Color, p: (int, int)) -> nat {
    if exists|d: nat| is_distance(pos, side, p, d) {
        choose|d: nat| is_distance(pos, side, p, d)
    } else {
        0
    }
}

/// The sum of the counts of the first `k` cells of the target edge.
pub open spec fn edge_sum(pos: Position, side: Color, k: nat) -> nat
    decreases k,
{
    if k == 0 {
        0
    } else {
        edge_sum(pos, side, (k - 1) as nat) + count_at(pos, side, target_cell(pos, side, k - 1))
    }
}

/// The sum of the squares of the counts of the first `k` cells of the
/// target edge.
pub open spec fn edge_square_sum(pos: Position, side: Color, k: nat) -> nat
    decreases k,
{
    if k == 0 {
        0
    } else {
        let c = count_at(pos, side, target_cell(pos, side, k - 1));
        edge_square_sum(pos, side, (k - 1) as nat) + c * c
    }
}

/// A sum kept within sixteen bytes: itself, or the largest number that
/// fits.
pub open spec fn capped(x: nat) -> nat {
    if x > u128::MAX {
        u128::MAX as nat
    } else {
        x
    }
}

/// The sum of the squares of a side's counts over their sum, rounded
/// down; zero where the sum is zero.
pub open spec fn spread(pos: Position, side: Color) -> nat {
    let n = pos.size() as nat;
    if edge_sum(pos, side, n) == 0 {
        0
    } else {
        capped(edge_square_sum(pos, side, n)) / edge_sum(pos, side, n)
    }
}

/// The difference of the two spreads, White's less Black's. A side that
/// can no longer join its edges has lost.
pub open spec fn dispersion(pos: Position) -> Score {
    match (moves_to_connect(pos, Color::Black), moves_to_connect(pos, Color::White)) {
        (None, _) => Score::WhiteCheckMate,
        (_, None) => Score::BlackCheckMate,
        (Some(_), Some(_)) => Score::Advantage(
            clamped(spread(pos, Color::White) - spread(pos, Color::Black)),
        ),
    }
}

/// A cell has one least number of stones.
pub proof fn lemma_count_at(pos: Position, side: Color, p: (int, int), d: nat)
    requires
        is_distance(pos, side, p, d),
    ensures
        count_at(pos, side, p) == d,
{
    let c = choose|c: nat| is_distance(pos, side, p, c);
    if c < d {
        lemma_reaches_more(pos, side, p, c, (d - 1) as nat);
    }
    if d < c {
        lemma_reaches_more(pos, side, p, d, (c - 1) as nat);
    }
}

impl Evaluation4 {
    pub fn new() -> Evaluation4 {
        Evaluation4 {  }
    }

    /// The spread of a side's counts over its target edge.
    pub fn spread<const SIZE: usize>(board: &Board<SIZE>, color: Color) -> (q: u128)
        requires
            color.is_side(),
        ensures
            q == spread(board@, color),
    {
        let n = board.size();
        let ghost pos = board@;
        let distances = board.get_dist_matrix(color);
        let ghost m = grid(distances);
        proof {
            lemma_grid_fits(pos, distances);
        }
        let mut sum: u128 = 0;
        let mut squares: u128 = 0;
        let mut i: usize = 0;
        while i < n
            invariant
                n == SIZE,
                pos == board@,
                board.sound(),
                color.is_side(),
                m == grid(distances),
                describes(pos, color, m),
                distances.len() == n,
                forall|x: int| 0 <= x < n ==> (#[trigger] distances@[x]).len() == n,
                0 <= i <= n,
                sum == edge_sum(pos, color, i as nat),
                sum <= i * usize::MAX,
                squares == capped(edge_square_sum(pos, color, i as nat)),
            decreases n - i,
        {
            let here = match color {
                Color::Black => distances[n - 1][i],
                _ => distances[i][n - 1],
            };
            let ghost p = target_cell(pos, color, i as int);
            proof {
                assert(label(m, p) == here);
                assert(within(pos.size(), p));
                assert(tells(pos, color, p, label(m, p)));
            }
            let d: usize = match here {
                Distance::Reachable(d) => {
                    proof {
                        lemma_count_at(pos, color, p, d as nat);
                    }
                    d
                },
                _ => {
                    proof {
                        if exists|c: nat| is_distance(pos, color, p, c) {
                            let c = choose|c: nat| is_distance(pos, color, p, c);
                            assert(crate::connect::reaches(pos, color, p, c));
                        }
                    }
                    0
                },
            };
            proof {
                assert((i + 1) * usize::MAX == i * usize::MAX + usize::MAX) by (nonlinear_arith);
                assert(i * usize::MAX <= (usize::MAX - 1) * usize::MAX) by (nonlinear_arith)
                    requires
                        i <= usize::MAX - 1,
                ;
                assert(d * d <= usize::MAX * usize::MAX) by (nonlinear_arith)
                    requires
                        0 <= d <= usize::MAX,
                ;
            }
            sum = sum + d as u128;
            let square: u128 = (d as u128) * (d as u128);
            if square > u128::MAX - squares {
                squares = u128::MAX;
            } else {
                squares = squares + square;
            }
            i += 1;
        }
        if sum == 0 {
            0
        } else {
            squares / sum
        }
    }
}

impl Evaluation for Evaluation4 {
    open spec fn value(&self, pos: Position) -> Score {
        dispersion(pos)
    }

    fn score<const SIZE: usize>(&self, board: &Board<SIZE>) -> (s: Score) {
        let black = board.missing_move_to_win2(Color::Black);
        let white = board.missing_move_to_win2(Color::White);
        proof {
            lemma_moves_to_connect(board@, Color::Black, black);
            lemma_moves_to_connect(board@, Color::White, white);
        }
        match (black, white) {
            (None, _) => Score::WhiteCheckMate,
            (_, None) => Score::BlackCheckMate,
            (Some(_), Some(_)) => {
                let score_white = Self::spread(board, Color::White);
                let score_black = Self::spread(board, Color::Black);
                let most: u128 = 0x7fff_ffff_ffff_ffff;
                if score_white >= score_black {
                    let ahead = score_white - score_black;
                    if ahead > most {
                        Score::Advantage(i64::MAX)
                    } else {
                        Score::Advantage(ahead as i64)
                    }
                } else {
                    let behind = score_black - score_white;
                    if behind > most {
                        Score::Advantage(i64::MIN)
                    } else {
                        Score::Advantage(-(behind as i64))
                    }
                }
            },
        }
    }
}

impl Default for Evaluation4 {
    fn default() -> Self {
        Self::new()
    }
}

} // verus!
