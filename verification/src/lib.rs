//! Hex: the board, the connectivity engine that measures how far each side
//! is from joining its two edges, a totally ordered score, and adversarial
//! search over the game tree.

pub mod cell;
mod chance;
pub mod color;
pub mod connect;
pub mod deque_search;
pub mod display;
pub mod distance;
pub mod evaluation;
pub mod game;
pub mod game_tree;
pub mod labelling;
pub mod log;
pub mod memo;
pub mod memo_search;
pub mod player;
pub mod score;
pub mod strategy;
pub mod tournament;
pub mod best_list;
pub mod board;
pub mod position;
pub mod pruning;
pub mod pruning_laws;
pub mod ranking;
pub mod relaxation;
pub mod relaxing;
