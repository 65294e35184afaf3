use rust_hex::board::Board;
use rust_hex::color::Color;
use rust_hex::distance::Distance;

#[test]
fn test_board() {
    let mut board = Board::<2>::new();
    board.play(0, 0);
    board.play(0, 1);
    board.play(1, 1);
    board.play(1, 0);

    assert!(board.is_win());
    assert!(board.is_full());
}

#[test]
fn is_game_over() {
    let board = Board::<4>::new();
    assert_eq!(board.missing_move_to_win(Color::White), Some(4));

    assert!(!board.is_win());
}

#[test]
fn first_possible_move() {
    let mut board = Board::<2>::new();
    board.play(0, 0);

    assert_eq!(board.first_possible_move().unwrap(), (0, 1));
}

#[test]
fn is_game_over1() {
    let mut board = Board::<4>::new();
    board.play(3, 0);
    board.play(0, 0);
    board.play(3, 1);
    board.play(0, 1);
    board.play(2, 2);
    board.play(1, 0);
    board.play(1, 2);
    board.play(1, 1);
    board.play(0, 3);

    assert_eq!(board.missing_move_to_win(Color::White), Some(0));

    assert!(board.is_win());
}

#[test]
fn is_game_over2() {
    let mut board = Board::<4>::new();
    board.play(3, 0);
    board.play(0, 0);
    board.play(3, 1);
    board.play(0, 1);
    board.play(2, 2);
    board.play(1, 0);
    board.play(1, 3);

    assert_eq!(board.missing_move_to_win(Color::White), Some(0));

    assert!(board.is_win());
}

#[test]
fn missing_moves() {
    let board = Board::<4>::new();

    assert_eq!(board.missing_move_to_win(Color::White), Some(4));
    assert_eq!(board.missing_move_to_win(Color::Black), Some(4));

    let mut board = Board::<4>::new();
    board.play(3, 0);
    board.play(0, 0);
    board.play(3, 1);

    assert_eq!(board.missing_move_to_win(Color::White), Some(2));
    assert_eq!(board.missing_move_to_win(Color::Black), Some(4));
}

#[test]
fn dist_matrix() {
    let mut board = Board::<2>::new();
    board.play(0, 0);

    let dist_matrix_white = board.get_dist_matrix(Color::White);
    assert_eq!(
        dist_matrix_white,
        vec![
            vec![Distance::Reachable(0), Distance::Reachable(1)],
            vec![Distance::Reachable(1), Distance::Reachable(2)]
        ]
    );

    let dist_matrix_black = board.get_dist_matrix(Color::Black);
    assert_eq!(
        dist_matrix_black,
        vec![
            vec![Distance::Unreachable, Distance::Reachable(1)],
            vec![Distance::Reachable(2), Distance::Reachable(2)]
        ]
    );
}

#[test]
fn missing_moves_to_win2() {
    let mut board = Board::<4>::new();

    assert_eq!(board.missing_move_to_win2(Color::White), Some(4));
    assert_eq!(board.missing_move_to_win2(Color::Black), Some(4));

    board.play(3, 0);
    board.play(0, 0);
    board.play(3, 1);

    assert_eq!(board.missing_move_to_win2(Color::White), Some(2));
    assert_eq!(board.missing_move_to_win2(Color::Black), Some(4));
}

#[test]
fn possible_moves() {
    let mut board = Board::<2>::new();
    board.play(0, 0);

    assert_eq!(board.possible_moves(), vec![(0, 1), (1, 0), (1, 1)]);
}

#[test]
fn full_board_has_one_connected_side() {
    let mut board = Board::<2>::new();
    board.play(0, 0);
    board.play(0, 1);
    board.play(1, 1);
    board.play(1, 0);

    assert!(board.is_full());
    assert!(board.has_won(Color::Black));
    assert!(!board.has_won(Color::White));
    assert_eq!(board.winner(), Some(Color::Black));
    assert!(board.is_finished());
    assert_eq!(board.missing_move_to_win(Color::Black), Some(0));
    assert_eq!(board.missing_move_to_win(Color::White), None);
    assert_eq!(board.missing_move_to_win2(Color::White), None);
}

#[test]
fn empty_board_needs_a_full_line() {
    let board = Board::<4>::new();
    assert_eq!(board.missing_move_to_win(Color::White), Some(4));
    assert_eq!(board.missing_move_to_win(Color::Black), Some(4));
    assert_eq!(board.missing_move_to_win2(Color::White), Some(4));
    assert_eq!(board.missing_move_to_win2(Color::Black), Some(4));
    assert_eq!(board.winner(), None);
    assert!(!board.is_finished());
    assert!(!board.is_full());
    assert_eq!(board.size(), 4);
    assert_eq!(board.next_color(), Color::White);
}

#[test]
fn a_complete_line_wins() {
    // White stones along row 0 join the first column to the last; Black's
    // stones sit in row 3 and leave the line alone.
    let mut board = Board::<4>::new();
    board.play(0, 0);
    board.play(3, 0);
    board.play(0, 1);
    board.play(3, 1);
    board.play(0, 2);
    board.play(3, 2);
    assert_eq!(board.missing_move_to_win(Color::White), Some(1));
    assert!(!board.has_won(Color::White));
    board.play(0, 3);

    assert_eq!(board.missing_move_to_win(Color::White), Some(0));
    assert_eq!(board.missing_move_to_win2(Color::White), Some(0));
    assert!(board.has_won(Color::White));
    assert!(board.is_win());
    assert_eq!(board.winner(), Some(Color::White));
    // Black's way down is cut by the white line.
    assert_eq!(board.missing_move_to_win(Color::Black), None);
    assert_eq!(board.missing_move_to_win2(Color::Black), None);
}

#[test]
fn a_line_of_the_other_side_leaves_the_distance_alone() {
    // White stones down column 0 do not join White's edges and do not
    // block every way of Black from row 0 to row 3.
    let mut board = Board::<4>::new();
    board.play(1, 1);
    board.play(3, 3);
    assert_eq!(board.missing_move_to_win(Color::White), Some(3));
    assert_eq!(board.missing_move_to_win(Color::Black), Some(3));
    assert_eq!(board.missing_move_to_win2(Color::White), Some(3));
    assert_eq!(board.missing_move_to_win2(Color::Black), Some(3));
}

#[test]
fn own_stones_off_the_edge_cost_their_approach() {
    // A black stone below an empty first row is one stone away, not none.
    let mut board = Board::<2>::new();
    board.play(0, 0);
    board.play(1, 0);
    let black = board.get_dist_matrix(Color::Black);
    assert_eq!(
        black,
        vec![
            vec![Distance::Unreachable, Distance::Reachable(1)],
            vec![Distance::Reachable(1), Distance::Reachable(2)]
        ]
    );
    assert_eq!(board.missing_move_to_win2(Color::Black), Some(1));
    assert_eq!(board.missing_move_to_win(Color::Black), Some(1));
}

#[test]
fn both_searches_agree() {
    let mut board = Board::<5>::new();
    let moves = [(2, 2), (1, 3), (3, 1), (0, 4), (4, 0), (2, 3), (1, 2), (3, 3)];
    for (x, y) in moves {
        assert!(board.is_valid(x, y));
        board.play(x, y);
        for color in [Color::White, Color::Black] {
            assert_eq!(
                board.missing_move_to_win(color),
                board.missing_move_to_win2(color)
            );
        }
    }
}

#[test]
fn is_valid_checks_bounds_and_emptiness() {
    let mut board = Board::<3>::new();
    assert!(board.is_valid(2, 2));
    assert!(!board.is_valid(3, 0));
    assert!(!board.is_valid(0, 3));
    board.play(2, 2);
    assert!(!board.is_valid(2, 2));
    assert_eq!(board.get(2, 2), Color::White);
    assert_eq!(board.get_board()[2][2], Color::White);
    assert_eq!(board.next_color(), Color::Black);
}

#[test]
fn unreached_cells_stay_unexplored() {
    // White owns the whole of row 1: Black cannot pass, and the cells
    // below are passable but cut off.
    let mut board = Board::<3>::new();
    board.play(1, 0);
    board.play(0, 0);
    board.play(1, 1);
    board.play(0, 1);
    board.play(1, 2);
    let black = board.get_dist_matrix(Color::Black);
    assert_eq!(
        black,
        vec![
            vec![Distance::Reachable(0), Distance::Reachable(0), Distance::Reachable(1)],
            vec![Distance::Unreachable, Distance::Unreachable, Distance::Unreachable],
            vec![Distance::Unexplored, Distance::Unexplored, Distance::Unexplored]
        ]
    );
}

#[test]
fn random_moves_fill_the_board() {
    let board = Board::<3>::random_board(4);
    assert_eq!(board.possible_moves().len(), 5);
    assert_eq!(board.next_color(), Color::White);
    let full = Board::<2>::random_board(10);
    assert!(full.is_full());
    let mut one = Board::<2>::new();
    one.play_random_move();
    assert_eq!(one.possible_moves().len(), 3);
    one.play_nth_move(0);
    assert_eq!(one.possible_moves().len(), 2);
}

#[test]
fn a_stone_of_either_side_can_be_set() {
    let mut board = Board::<3>::new();
    board.set(1, 1, Color::Black);
    assert_eq!(board.get(1, 1), Color::Black);
    assert_eq!(board.next_color(), Color::White);
    board.set(0, 0, Color::Black);
    assert_eq!(board.get(0, 0), Color::Black);
    assert_eq!(board.next_color(), Color::White);
    board.set(2, 2, Color::White);
    assert_eq!(board.next_color(), Color::Black);
    assert_eq!(board.possible_moves().len(), 6);
}
