use rust_hex::board::Board;
use rust_hex::evaluation::Evaluation1;
use rust_hex::memo::{appraise, remembered};
use rust_hex::memo_search::{as_advantage, memo_root, weigh};
use rust_hex::ranking::possible_moves_ranked;
use rust_hex::score::Score;
use rust_hex::strategy::{AlphaBeta3, Strategy};
use std::time::Duration;

fn white_to_win() -> Board<3> {
    let mut board = Board::<3>::new();
    board.play(1, 0);
    board.play(0, 0);
    board.play(1, 1);
    board.play(0, 1);
    board
}

#[test]
fn boards_are_compared_by_their_position() {
    let mut a = Board::<3>::new();
    let mut b = Board::<3>::new();
    assert!(a.same_position(&b));
    a.play(1, 1);
    assert!(!a.same_position(&b));
    b.play(1, 1);
    assert!(a.same_position(&b));
    // The same stones with another side to move are another position.
    a.play(0, 0);
    a.play(2, 2);
    b.play(2, 2);
    b.play(0, 0);
    assert!(!a.same_position(&b));
    assert!(a.same_position(&a.clone()));
}

#[test]
fn the_latest_score_is_remembered() {
    let mut board = Board::<3>::new();
    let mut other = Board::<3>::new();
    other.play(0, 0);
    let mut memo = Vec::new();
    assert_eq!(remembered(&board, &memo), None);
    memo.push((board.clone(), Score::Advantage(3)));
    memo.push((other.clone(), Score::BlackMateIn(2)));
    memo.push((board.clone(), Score::Advantage(5)));
    assert_eq!(remembered(&board, &memo), Some(Score::Advantage(5)));
    assert_eq!(remembered(&other, &memo), Some(Score::BlackMateIn(2)));
    let eval = Evaluation1::new();
    assert_eq!(appraise(&eval, &board, &memo), Score::Advantage(5));
    board.play(2, 2);
    assert_eq!(remembered(&board, &memo), None);
    assert_eq!(appraise(&eval, &board, &memo), Score::Advantage(1));
    let player = AlphaBeta3::new(Evaluation1::new(), 2);
    assert_eq!(player.get_score(&other, &memo), Score::BlackMateIn(2));
    assert_eq!(player.get_score(&board, &memo), Score::Advantage(1));
}

#[test]
fn weights_of_scores() {
    assert_eq!(weigh(Score::Undefined), 0);
    assert_eq!(weigh(Score::Advantage(-7)), -7);
    assert_eq!(weigh(Score::BlackCheckMate), -1000);
    assert_eq!(weigh(Score::WhiteCheckMate), 1000);
    assert_eq!(weigh(Score::BlackMateIn(3)), -997);
    assert_eq!(weigh(Score::WhiteMateIn(3)), 997);
    assert_eq!(as_advantage(42), Score::Advantage(42));
    assert_eq!(as_advantage(i128::MAX), Score::Advantage(i64::MAX));
    assert_eq!(as_advantage(i128::MIN), Score::Advantage(i64::MIN));
}

#[test]
fn remembered_scores_rank_the_moves() {
    let mut board = Board::<2>::new();
    board.play(0, 0);
    let eval = Evaluation1::new();
    // Black to move: lowest first; by evaluation (0, 1) leads.
    assert_eq!(
        possible_moves_ranked(&eval, &board, &Vec::new()),
        vec![(0, 1), (1, 0), (1, 1)]
    );
    let mut after = board.clone();
    after.play(1, 1);
    let memo = vec![(after, Score::BlackMateIn(1))];
    assert_eq!(
        possible_moves_ranked(&eval, &board, &memo),
        vec![(1, 1), (0, 1), (1, 0)]
    );
}

#[test]
fn the_search_with_memory_tries_the_best_ranked_moves_only() {
    // A fifth of nine cells is one move: the best ranked one, (1, 2).
    let board = white_to_win();
    let player = AlphaBeta3::new(Evaluation1::new(), 1);
    let mut dict = Vec::new();
    let found = player._alpha_beta(&board, 1, i128::MIN, i128::MAX, false, &mut dict);
    assert_eq!(found, (Score::Advantage(1000), Some((1, 2))));
    assert_eq!(dict.len(), 1);
    assert_eq!(dict[0].1, Score::WhiteCheckMate);
    let mut won = board.clone();
    won.play(1, 2);
    assert!(dict[0].0.same_position(&won));
    assert_eq!(player.alpha_beta(&board, 1, false), (1, 2));
    assert_eq!(player.next_move(&board, None), (1, 2));
    assert_eq!(memo_root(&Evaluation1::new(), 5, &board, 1, false), (1, 2));
}

#[test]
fn a_shortlist_of_no_moves_leaves_the_first_move() {
    // A fifth of four cells is none: nothing is tried.
    let mut board = Board::<2>::new();
    board.play(0, 0);
    let mut player = AlphaBeta3::new(Evaluation1::new(), 0);
    player.set_max_depth(3);
    let mut dict = Vec::new();
    let found = player._alpha_beta(&board, 3, i128::MIN, i128::MAX, false, &mut dict);
    assert_eq!(found, (Score::Advantage(i64::MAX), Some((0, 1))));
    assert!(dict.is_empty());
    assert_eq!(player.next_move(&board, None), (0, 1));
    assert_eq!(
        player.next_move(&board, Some(Duration::from_millis(0))),
        (0, 1)
    );
}

#[test]
fn the_search_with_memory_plays_legal_moves() {
    let mut board = Board::<4>::new();
    let player = AlphaBeta3::new(Evaluation1::new(), 3);
    for _ in 0..6 {
        if board.winner().is_some() {
            break;
        }
        let (x, y) = player.next_move(&board, None);
        assert!(board.is_valid(x, y));
        board.play(x, y);
    }
}
