use rust_hex::board::Board;
use rust_hex::color::Color;
use rust_hex::evaluation::{Evaluation, Evaluation1, Evaluation2, Evaluation3};
use rust_hex::pruning::{alpha_beta_root, alpha_beta_search};
use rust_hex::ranking::{candidate_moves, keep_bests_moves, possible_moves_sorted, MoveOrder};
use rust_hex::score::Score;
use rust_hex::strategy::{
    too_few_millis, AlphaBeta, AlphaBeta2, AlphaBeta4, Human, MiniMax, Random, Strategy,
};
use std::time::Duration;

/// White holds (1, 0) and (1, 1) on a board of side three and is to move:
/// (0, 2) and (1, 2) both win at once.
fn white_to_win() -> Board<3> {
    let mut board = Board::<3>::new();
    board.play(1, 0);
    board.play(0, 0);
    board.play(1, 1);
    board.play(0, 1);
    board
}

/// Some positions of a board, reached by moves drawn from a fixed
/// sequence.
fn positions<const N: usize>(count: u64) -> Vec<Board<N>> {
    let mut out = Vec::new();
    for seed in 0..count {
        let mut state: u64 = seed
            .wrapping_mul(6364136223846793005)
            .wrapping_add(1442695040888963407);
        let mut board = Board::<N>::new();
        for _ in 0..(seed % 5) {
            let moves = board.possible_moves();
            if moves.is_empty() || board.winner().is_some() {
                break;
            }
            state = state
                .wrapping_mul(6364136223846793005)
                .wrapping_add(1442695040888963407);
            let m = moves[((state >> 33) as usize) % moves.len()];
            board.play(m.0, m.1);
        }
        out.push(board);
    }
    out
}

fn outcome(s: Score) -> (i8, i64) {
    match s {
        Score::BlackCheckMate | Score::BlackMateIn(_) => (-1, 0),
        Score::Undefined => (0, 0),
        Score::Advantage(x) => (0, x),
        Score::WhiteMateIn(_) | Score::WhiteCheckMate => (1, 0),
    }
}

#[test]
fn minimax_finds_the_winning_move() {
    let board = white_to_win();
    let player = MiniMax::new(Evaluation1::new(), 1);
    assert_eq!(player._minimax(&board, 1, false), (Score::WhiteMateIn(1), Some((0, 2))));
    assert_eq!(player.minimax(&board, 1, false), (0, 2));
    assert_eq!(player.next_move(&board, None), (0, 2));
    let deeper = MiniMax::new(Evaluation1::new(), 3);
    assert_eq!(deeper._minimax(&board, 3, false), (Score::WhiteMateIn(1), Some((0, 2))));
    assert_eq!(deeper.next_move(&board, None), (0, 2));
}

#[test]
fn minimax_sees_the_loss_coming() {
    // Black to move cannot stop White, who wins at (0, 2) or (1, 2).
    let mut board = white_to_win();
    board.play(2, 2);
    let player = MiniMax::new(Evaluation1::new(), 2);
    let (score, chosen) = player._minimax(&board, 2, false);
    assert_eq!(score, Score::WhiteMateIn(2));
    assert_eq!(chosen, Some((0, 2)));
}

#[test]
fn a_decided_position_has_no_move() {
    let mut board = white_to_win();
    board.play(0, 2);
    let player = MiniMax::new(Evaluation1::new(), 4);
    assert_eq!(player._minimax(&board, 4, false), (Score::WhiteCheckMate, None));
    let pruning = AlphaBeta::new(Evaluation1::new(), 4);
    assert_eq!(
        pruning._alpha_beta(&board, 4, Score::BlackCheckMate, Score::WhiteCheckMate, false),
        (Score::WhiteCheckMate, None)
    );
    // The root still answers with a legal move.
    assert_eq!(player.minimax(&board, 4, false), (1, 2));
    assert_eq!(alpha_beta_root(&Evaluation1::new(), MoveOrder::RowMajor, &board, 4, false), (1, 2));
}

#[test]
fn depth_zero_is_the_evaluation() {
    let mut board = Board::<4>::new();
    board.play(0, 0);
    let player = MiniMax::new(Evaluation1::new(), 0);
    assert_eq!(player._minimax(&board, 0, false), (Score::Advantage(1), None));
    assert_eq!(player._minimax(&board, 5, true), (Score::Advantage(1), None));
    assert_eq!(player.next_move(&board, None), (0, 1));
    let pruning = AlphaBeta::new(Evaluation3::new(), 0);
    assert_eq!(
        pruning._alpha_beta(&board, 0, Score::BlackCheckMate, Score::WhiteCheckMate, false),
        (Score::Advantage(-2), None)
    );
    assert_eq!(pruning.next_move(&board, None), (0, 1));
}

#[test]
fn a_budget_of_no_time_still_gives_a_legal_move() {
    let mut board = Board::<4>::new();
    board.play(1, 1);
    let none = Some(Duration::from_millis(0));
    let short = Some(Duration::from_millis(99));
    let minimax = MiniMax::new(Evaluation1::new(), 6);
    let plain = AlphaBeta::new(Evaluation1::new(), 6);
    let ranked = AlphaBeta2::new(Evaluation2::new(), 6, None);
    let shortlist = AlphaBeta4::new(Evaluation3::new(), 6);
    for budget in [none, short] {
        assert_eq!(minimax.next_move(&board, budget), (0, 0));
        assert_eq!(plain.next_move(&board, budget), (0, 0));
        assert_eq!(shortlist.next_move(&board, budget), (0, 0));
        assert!(board.is_valid(0, 0));
        let mv = ranked.next_move(&board, budget);
        assert!(board.is_valid(mv.0, mv.1));
    }
    let hurried = AlphaBeta2::new(Evaluation2::new(), 6, Some(Duration::from_millis(1)));
    assert_eq!(hurried.next_move(&board, None), (0, 0));
}

#[test]
fn a_budget_searches_at_least_one_ply() {
    let board = white_to_win();
    let budget = Some(Duration::from_millis(150));
    assert_eq!(MiniMax::new(Evaluation1::new(), 0).next_move(&board, budget), (0, 2));
    assert_eq!(AlphaBeta::new(Evaluation1::new(), 1).next_move(&board, budget), (0, 2));
    assert_eq!(AlphaBeta::new(Evaluation1::new(), 2).next_move(&board, budget), (0, 2));
}

#[test]
fn alpha_beta_and_minimax_give_the_same_score() {
    let minimax = MiniMax::new(Evaluation1::new(), 4);
    let pruning = AlphaBeta::new(Evaluation1::new(), 4);
    for board in positions::<3>(10) {
        for depth in 1..=4 {
            let full = minimax._minimax(&board, depth, false).0;
            let pruned = pruning
                ._alpha_beta(&board, depth, Score::BlackCheckMate, Score::WhiteCheckMate, false)
                .0;
            assert_eq!(full, pruned);
        }
    }
    for board in positions::<4>(6) {
        for depth in 1..=4 {
            let full = minimax._minimax(&board, depth, false).0;
            let pruned = pruning
                ._alpha_beta(&board, depth, Score::BlackCheckMate, Score::WhiteCheckMate, false)
                .0;
            assert_eq!(full, pruned);
        }
    }
    for board in positions::<5>(3) {
        for depth in 1..=3 {
            let full = minimax._minimax(&board, depth, false).0;
            let pruned = pruning
                ._alpha_beta(&board, depth, Score::BlackCheckMate, Score::WhiteCheckMate, false)
                .0;
            assert_eq!(full, pruned);
        }
    }
}

#[test]
fn deep_searches_agree_on_the_outcome() {
    // On the empty board of side three both searches find that White
    // wins, but seven plies deep they count the plies differently.
    let board = Board::<3>::new();
    let minimax = MiniMax::new(Evaluation1::new(), 7);
    let pruning = AlphaBeta::new(Evaluation1::new(), 7);
    let full = minimax._minimax(&board, 7, false).0;
    let pruned = pruning
        ._alpha_beta(&board, 7, Score::BlackCheckMate, Score::WhiteCheckMate, false)
        .0;
    assert_eq!(full, Score::WhiteMateIn(5));
    assert_eq!(pruned, Score::WhiteMateIn(7));
    for depth in 1..=8 {
        let full = minimax._minimax(&board, depth, false).0;
        let pruned = pruning
            ._alpha_beta(&board, depth, Score::BlackCheckMate, Score::WhiteCheckMate, false)
            .0;
        assert_eq!(outcome(full), outcome(pruned));
    }
}

#[test]
fn ranked_search_agrees_on_the_outcome() {
    let minimax = MiniMax::new(Evaluation1::new(), 3);
    let ranked = AlphaBeta2::new(Evaluation1::new(), 3, None);
    for board in positions::<3>(8) {
        for depth in 1..=3 {
            let full = minimax._minimax(&board, depth, false).0;
            let pruned = ranked
                ._alpha_beta(&board, depth, Score::BlackCheckMate, Score::WhiteCheckMate, false)
                .0;
            assert_eq!(outcome(full), outcome(pruned));
        }
    }
}

#[test]
fn alpha_beta_finds_the_winning_move() {
    let board = white_to_win();
    let plain = AlphaBeta::new(Evaluation1::new(), 3);
    assert_eq!(plain.next_move(&board, None), (0, 2));
    assert_eq!(
        plain._alpha_beta(&board, 3, Score::BlackCheckMate, Score::WhiteCheckMate, false),
        (Score::WhiteMateIn(1), Some((0, 2)))
    );
    let ranked = AlphaBeta2::new(Evaluation1::new(), 3, None);
    let mv = ranked.next_move(&board, None);
    assert!(mv == (0, 2) || mv == (1, 2));
    let mut after = board.clone();
    after.play(mv.0, mv.1);
    assert_eq!(after.winner(), Some(Color::White));
}

#[test]
fn the_window_cuts_the_search_short() {
    // With a window that White's first reply already fills, the search
    // stops at that reply.
    let board = white_to_win();
    let eval = Evaluation1::new();
    let (score, chosen) = alpha_beta_search(
        &eval,
        MoveOrder::RowMajor,
        &board,
        1,
        Score::BlackCheckMate,
        Score::Advantage(-5),
        false,
    );
    // The first move, (0, 2), wins: its score is not below beta.
    assert_eq!(score, Score::WhiteMateIn(1));
    assert_eq!(chosen, Some((0, 2)));
}

#[test]
fn moves_are_ranked_by_their_evaluation() {
    let mut board = Board::<2>::new();
    board.play(0, 0);
    // Black to move: the lowest score first. Each of Black's moves leaves
    // Black one stone short; at (0, 1) it also costs White a stone more.
    let eval = Evaluation1::new();
    let mut scored = Vec::new();
    for m in board.possible_moves() {
        let mut next = board.clone();
        next.play(m.0, m.1);
        scored.push((m, eval.score(&next)));
    }
    assert_eq!(
        scored,
        vec![
            ((0, 1), Score::Advantage(-1)),
            ((1, 0), Score::Advantage(0)),
            ((1, 1), Score::Advantage(0))
        ]
    );
    assert_eq!(possible_moves_sorted(&eval, &board), vec![(0, 1), (1, 0), (1, 1)]);

    let mut board = Board::<3>::new();
    board.play(1, 1);
    board.play(0, 0);
    // White to move: the highest score first, and of equal scores the
    // later move first.
    let sorted = possible_moves_sorted(&eval, &board);
    let mut scores = Vec::new();
    for m in sorted.iter() {
        let mut next = board.clone();
        next.play(m.0, m.1);
        scores.push(eval.score(&next));
    }
    for pair in scores.windows(2) {
        assert!(pair[0] >= pair[1]);
    }
    let mut all = sorted.clone();
    all.sort();
    assert_eq!(all, board.possible_moves());
    assert_eq!(sorted.len(), 7);
    // (1, 0) and (2, 0) both leave White one stone short and Black three.
    assert_eq!(sorted[0], (2, 0));
    assert_eq!(sorted[1], (1, 0));
    assert_eq!(scores[0], Score::Advantage(2));
    assert_eq!(scores[1], Score::Advantage(2));
}

#[test]
fn only_the_best_moves_are_kept() {
    let board = Board::<4>::new();
    let moves = board.possible_moves();
    assert_eq!(keep_bests_moves(&board, 4, moves.clone()), moves[0..4].to_vec());
    assert_eq!(keep_bests_moves(&board, 1, moves.clone()), moves);
    assert_eq!(keep_bests_moves(&board, 0, moves.clone()), moves);
    assert_eq!(keep_bests_moves(&board, 100, moves.clone()), vec![]);
    let eval = Evaluation1::new();
    assert_eq!(candidate_moves(&eval, MoveOrder::RowMajor, &board), moves);
    assert_eq!(
        candidate_moves(&eval, MoveOrder::Ranked { divisor: 4 }, &board).len(),
        4
    );
    assert_eq!(
        candidate_moves(&eval, MoveOrder::Ranked { divisor: 1 }, &board).len(),
        16
    );
}

#[test]
fn the_shortlist_search_plays_a_legal_move() {
    let mut board = Board::<4>::new();
    board.play(1, 1);
    board.play(2, 2);
    let player = AlphaBeta4::new(Evaluation3::new(), 3);
    let mv = player.next_move(&board, None);
    assert!(board.is_valid(mv.0, mv.1));
    let (score, chosen) =
        player._alpha_beta(&board, 3, Score::BlackCheckMate, Score::WhiteCheckMate, false);
    assert_eq!(chosen, Some(mv));
    assert!(score > Score::BlackCheckMate);
}

#[test]
fn the_depth_can_be_changed() {
    let board = white_to_win();
    let mut player = MiniMax::new(Evaluation1::new(), 0);
    assert_eq!(player.next_move(&board, None), (0, 2));
    let mut board = Board::<3>::new();
    board.play(1, 1);
    board.play(0, 0);
    board.play(2, 2);
    // Black to move, two plies deep.
    player.set_max_depth(2);
    let mv = player.next_move(&board, None);
    assert_eq!(Some(mv), player._minimax(&board, 2, false).1);
    let mut pruning = AlphaBeta::new(Evaluation1::new(), 0);
    pruning.set_max_depth(2);
    assert_eq!(
        Some(pruning.next_move(&board, None)),
        pruning
            ._alpha_beta(&board, 2, Score::BlackCheckMate, Score::WhiteCheckMate, false)
            .1
    );
    let mut ranked = AlphaBeta2::new(Evaluation1::new(), 0, None);
    ranked.set_max_depth(1);
    ranked.set_duration(Some(Duration::from_millis(5)));
    assert_eq!(ranked.next_move(&board, None), (0, 1));
    ranked.set_duration(None);
    let mv = ranked.next_move(&board, None);
    assert!(board.is_valid(mv.0, mv.1));
    let mut shortlist = AlphaBeta4::new(Evaluation1::new(), 0);
    shortlist.set_max_depth(1);
    let mv = shortlist.next_move(&board, None);
    assert!(board.is_valid(mv.0, mv.1));
}

#[test]
fn random_moves_are_legal() {
    let mut board = Board::<3>::new();
    let player = Random::new();
    for _ in 0..9 {
        let (x, y) = player.next_move(&board, None);
        assert!(board.is_valid(x, y));
        board.play(x, y);
    }
    assert!(board.is_full());
}

#[test]
fn two_numbers_on_a_line() {
    assert_eq!(Human::read_coord("1 2"), Some((1, 2)));
    assert_eq!(Human::read_coord("  3\t14 \n"), Some((3, 14)));
    assert_eq!(Human::read_coord("+7 007"), Some((7, 7)));
    assert_eq!(Human::read_coord("0 0"), Some((0, 0)));
    assert_eq!(
        Human::read_coord("18446744073709551615 1"),
        Some((18446744073709551615, 1))
    );
    assert_eq!(Human::read_coord(""), None);
    assert_eq!(Human::read_coord("   "), None);
    assert_eq!(Human::read_coord("1"), None);
    assert_eq!(Human::read_coord("1 2 3"), None);
    assert_eq!(Human::read_coord("a 2"), None);
    assert_eq!(Human::read_coord("1 2b"), None);
    assert_eq!(Human::read_coord("-1 2"), None);
    assert_eq!(Human::read_coord("+ 2"), None);
    assert_eq!(Human::read_coord("1,2"), None);
    assert_eq!(Human::read_coord("18446744073709551616 1"), None);
    assert_eq!(Human::read_coord("1 99999999999999999999999"), None);
}

#[test]
fn a_line_names_a_free_cell() {
    let mut board = Board::<3>::new();
    board.play(1, 1);
    assert_eq!(Human::accept("1 1", &board), Some((0, 0)));
    assert_eq!(Human::accept("3 3\n", &board), Some((2, 2)));
    assert_eq!(Human::accept("2 2", &board), None);
    assert_eq!(Human::accept("0 1", &board), None);
    assert_eq!(Human::accept("1 0", &board), None);
    assert_eq!(Human::accept("4 1", &board), None);
    assert_eq!(Human::accept("one two", &board), None);
    let human = Human::new("Me".to_string());
    assert_eq!(human.name(), "Me");
}

#[test]
fn under_a_hundred_milliseconds_is_too_few() {
    assert!(too_few_millis(0));
    assert!(too_few_millis(99));
    assert!(!too_few_millis(100));
    assert!(!too_few_millis(u128::MAX));
}

#[test]
fn a_brief_budget_does_not_look_ahead() {
    // White to move wins at (1, 2); the first legal move, (0, 0), does
    // not.
    let mut board = Board::<3>::new();
    board.play(1, 0);
    board.play(0, 2);
    board.play(1, 1);
    board.play(0, 1);
    assert_eq!(board.first_possible_move(), Some((0, 0)));
    let brief = Some(Duration::from_millis(99));
    let edge = Some(Duration::from_millis(100));
    let ample = Some(Duration::from_millis(150));
    let minimax = MiniMax::new(Evaluation1::new(), 1);
    assert_eq!(minimax.next_move(&board, brief), (0, 0));
    assert_eq!(minimax.next_move(&board, edge), (1, 2));
    assert_eq!(minimax.next_move(&board, ample), (1, 2));
    assert_eq!(minimax.next_move(&board, None), (1, 2));
    let plain = AlphaBeta::new(Evaluation1::new(), 1);
    assert_eq!(plain.next_move(&board, brief), (0, 0));
    assert_eq!(plain.next_move(&board, edge), (1, 2));
    // The budget that counts for this one is its own.
    let mut ranked = AlphaBeta2::new(Evaluation1::new(), 1, brief);
    assert_eq!(ranked.next_move(&board, ample), (0, 0));
    assert_eq!(ranked.next_move(&board, None), (0, 0));
    ranked.set_duration(edge);
    assert_eq!(ranked.next_move(&board, brief), (1, 2));
    ranked.set_duration(None);
    assert_eq!(ranked.next_move(&board, None), (1, 2));
}
