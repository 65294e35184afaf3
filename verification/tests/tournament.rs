use rust_hex::board::Board;
use rust_hex::color::Color;
use rust_hex::evaluation::Evaluation1;
use rust_hex::game::Game;
use rust_hex::log::{LogFlag, LogLevel};
use rust_hex::player::{numbered_name, Player};
use rust_hex::strategy::{AlphaBeta, MiniMax, Random};
use rust_hex::tournament::Tournament;
use std::rc::Rc;
use std::time::Duration;

#[test]
fn test() {
    for id in 0..4 {
        println!("{} {} {}", id, id / 2, id % 2);
    }
}

#[test]
fn a_game_is_played_to_its_end() {
    let mut game: Game<3, Random, Random> = Game::new(None, None);
    assert_eq!(game.winner(), None);
    assert!(!game.board().is_full());
    game.play();
    assert!(game.winner().is_some() || game.board().is_full());
    // On a full board of Hex one side has joined its edges.
    assert!(game.winner().is_some());
}

#[test]
fn players_take_turns() {
    let white = Rc::new(Player::new(
        "minimax".to_string(),
        Rc::new(MiniMax::new(Evaluation1::new(), 2)),
        None,
    ));
    let black = Rc::new(Player::new(
        "pruning".to_string(),
        Rc::new(AlphaBeta::new(Evaluation1::new(), 2)),
        Some(Duration::from_millis(200)),
    ));
    let mut game: Game<3, MiniMax<Evaluation1>, AlphaBeta<Evaluation1>> =
        Game::new(Some(white.clone()), Some(black));
    let first = game.play_turn();
    assert_eq!(game.board().get(first.0, first.1), Color::White);
    assert_eq!(game.board().next_color(), Color::Black);
    let second = game.play_turn();
    assert_eq!(game.board().get(second.0, second.1), Color::Black);
    assert_eq!(game.board().possible_moves().len(), 7);
    game.play();
    assert!(game.winner().is_some());
    assert_eq!(game.board().get(first.0, first.1), Color::White);
    assert_eq!(white.name, "minimax");
    let empty = Board::<3>::new();
    assert_eq!(
        Some(white.next_move(&empty)),
        white.strategy._minimax(&empty, 2, false).1
    );
}

#[test]
fn a_game_can_start_from_a_position() {
    let mut board = Board::<2>::new();
    board.play(0, 0);
    board.play(1, 1);
    board.play(0, 1);
    let mut game: Game<2, Random, Random> = Game::new(None, None);
    assert_eq!(game.duration(), None);
    game.set_starting_position(board);
    game.set_duration(Duration::from_millis(10));
    assert_eq!(game.duration(), Some(Duration::from_millis(10)));
    game.set_duration(Duration::from_millis(25));
    assert_eq!(game.duration(), Some(Duration::from_millis(25)));
    let mut level = LogLevel::new();
    level.add(LogFlag::Moves);
    game.set_log_level(level);
    assert!(game.log_level().is(LogFlag::Moves));
    assert!(!game.log_level().is(LogFlag::Score));
    assert_eq!(game.winner(), Some(Color::White));
    game.play();
    assert_eq!(game.duration(), Some(Duration::from_millis(25)));
    assert_eq!(game.winner(), Some(Color::White));
    assert_eq!(game.board().get(0, 0), Color::White);
    assert_eq!(game.board().get(1, 1), Color::Black);
}

#[test]
fn a_random_opening_move() {
    let mut game: Game<3, Random, Random> = Game::new(None, None);
    game.play_random_move();
    assert_eq!(game.board().possible_moves().len(), 8);
    assert_eq!(game.board().next_color(), Color::Black);
}

#[test]
fn a_player_without_a_name_gets_a_number() {
    assert_eq!(numbered_name(0), "Player0");
    assert_eq!(numbered_name(255), "Player255");
    let player: Player<Random> = Player::default();
    assert!(player.name.starts_with("Player"));
    assert!(player.name[6..].parse::<u8>().is_ok());
    assert_eq!(player.time_by_move, None);
}

#[test]
fn every_pair_plays_its_games() {
    let mut tournament: Tournament<3, Random> = Tournament::new();
    assert_eq!(tournament.nb_players(), 0);
    let players = vec![
        Rc::new(Player::new("a".to_string(), Rc::new(Random::new()), None)),
        Rc::new(Player::new("b".to_string(), Rc::new(Random::new()), None)),
    ];
    tournament.set_players(players);
    assert_eq!(tournament.nb_players(), 2);
    tournament.create_games(3);
    for white in 0..2 {
        for black in 0..2 {
            assert_eq!(tournament.wins(white, black), 0);
        }
    }
    tournament.play();
    let mut total = 0;
    for white in 0..2 {
        for black in 0..2 {
            assert!(tournament.wins(white, black) <= 3);
            total += tournament.wins(white, black);
        }
    }
    assert!(total <= 12);
}
