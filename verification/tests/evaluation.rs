use rust_hex::board::Board;
use rust_hex::color::Color;
use rust_hex::evaluation::{
    weighed, Evaluation, Evaluation1, Evaluation2, Evaluation3, Evaluation4,
};
use rust_hex::score::Score;

#[test]
fn the_empty_board_is_level() {
    let board = Board::<4>::new();
    assert_eq!(Evaluation1::new().score(&board), Score::Advantage(0));
    assert_eq!(Evaluation2::new().score(&board), Score::Advantage(0));
    assert_eq!(Evaluation4::new().score(&board), Score::Advantage(0));
}

#[test]
fn a_stone_is_an_advantage() {
    let mut board = Board::<4>::new();
    board.play(0, 0);
    // White needs three more stones, Black four.
    assert_eq!(Evaluation1::new().score(&board), Score::Advantage(1));
    assert_eq!(Evaluation2::default().score(&board), Score::Advantage(1));
    board.play(1, 0);
    // Black needs three as well now.
    assert_eq!(Evaluation1::default().score(&board), Score::Advantage(0));
    assert_eq!(Evaluation2::new().score(&board), Score::Advantage(0));
}

#[test]
fn the_side_that_moved_counts_twice() {
    let mut board = Board::<4>::new();
    // White to move: twice Black's four less White's four.
    assert_eq!(Evaluation3::new().score(&board), Score::Advantage(4));
    board.play(0, 0);
    // Black to move: Black's four less twice White's three.
    assert_eq!(Evaluation3::default().score(&board), Score::Advantage(-2));
}

#[test]
fn a_side_that_is_cut_off_has_lost() {
    let mut board = Board::<2>::new();
    board.play(0, 0);
    board.play(0, 1);
    board.play(1, 1);
    board.play(1, 0);
    // Black has joined its edges: White has no route left.
    assert_eq!(Evaluation1::new().score(&board), Score::BlackCheckMate);
    assert_eq!(Evaluation2::new().score(&board), Score::BlackCheckMate);
    assert_eq!(Evaluation3::new().score(&board), Score::BlackCheckMate);
    assert_eq!(Evaluation4::new().score(&board), Score::BlackCheckMate);

    let mut board = Board::<2>::new();
    board.play(0, 0);
    board.play(1, 1);
    board.play(0, 1);
    // White has joined its edges along row 0.
    assert_eq!(Evaluation1::new().score(&board), Score::WhiteCheckMate);
    assert_eq!(Evaluation2::new().score(&board), Score::WhiteCheckMate);
    assert_eq!(Evaluation3::new().score(&board), Score::WhiteCheckMate);
    assert_eq!(Evaluation4::default().score(&board), Score::WhiteCheckMate);
}

#[test]
fn spread_of_the_counts() {
    let mut board = Board::<4>::new();
    assert_eq!(Evaluation4::spread(&board, Color::White), 4);
    assert_eq!(Evaluation4::spread(&board, Color::Black), 4);
    board.play(0, 0);
    // White's counts on its last column are 3, 4, 4, 4: 57 over 15.
    assert_eq!(Evaluation4::spread(&board, Color::White), 3);
    assert_eq!(Evaluation4::spread(&board, Color::Black), 4);
    assert_eq!(Evaluation4::new().score(&board), Score::Advantage(-1));
}

#[test]
fn weighed_differences_stay_in_range() {
    assert_eq!(weighed(4, 1, 3, 1), 1);
    assert_eq!(weighed(3, 1, 4, 2), -5);
    assert_eq!(weighed(0, 2, 0, 1), 0);
    assert_eq!(weighed(usize::MAX, 2, 0, 1), i64::MAX);
    assert_eq!(weighed(0, 1, usize::MAX, 2), i64::MIN);
}
