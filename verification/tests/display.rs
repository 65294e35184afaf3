use rust_hex::board::Board;
use rust_hex::color::Color;
use rust_hex::display::{write_column_labels, write_indent, write_row};
use rust_hex::score::Score;

#[test]
fn indent_is_blanks() {
    assert_eq!(write_indent(0), "");
    assert_eq!(write_indent(3), "   ");
}

#[test]
fn column_labels_count_from_one() {
    assert_eq!(write_column_labels(2, 0), "  1  2 \n");
    assert_eq!(write_column_labels(2, 3), "     1  2 \n");
    assert_eq!(write_column_labels(0, 0), " \n");
    assert_eq!(
        write_column_labels(11, 1),
        "   1  2  3  4  5  6  7  8  9  10  11 \n"
    );
}

#[test]
fn rows_show_their_number_at_both_ends() {
    let mut board = Board::<2>::new();
    board.play(0, 0);
    board.play(1, 1);
    assert_eq!(write_row(&board, 0), " 1\\●  .\\ 1\n");
    assert_eq!(write_row(&board, 1), "  2\\.  ○\\ 2\n");
}

#[test]
fn a_board_as_text() {
    let mut board = Board::<2>::new();
    board.play(0, 0);
    assert_eq!(
        board.to_string(),
        "  1  2 \n 1\\●  .\\ 1\n  2\\.  .\\ 2\n     1  2 \n"
    );
}

#[test]
fn wide_row_numbers_are_not_padded() {
    let board = Board::<10>::new();
    assert_eq!(
        write_row(&board, 9),
        "         10\\.  .  .  .  .  .  .  .  .  .\\10\n"
    );
}

#[test]
fn scores_as_text() {
    assert_eq!(Score::Undefined.to_string(), "Undefined");
    assert_eq!(Score::Advantage(2).to_string(), "2.00");
    assert_eq!(Score::Advantage(-13).to_string(), "-13.00");
    assert_eq!(Score::Advantage(0).to_string(), "0.00");
    assert_eq!(
        Score::Advantage(i64::MIN).to_string(),
        "-9223372036854775808.00"
    );
    assert_eq!(Score::BlackMateIn(3).to_string(), "Black mate in 3");
    assert_eq!(Score::WhiteMateIn(12).to_string(), "White mate in 12");
    assert_eq!(Score::BlackCheckMate.to_string(), "Black checkmate");
    assert_eq!(Score::WhiteCheckMate.to_string(), "White checkmate");
}

#[test]
fn colors_as_text() {
    assert_eq!(Color::Black.to_string(), "Black");
    assert_eq!(Color::White.to_string(), "White");
    assert_eq!(Color::Empty.to_string(), "None");
}
