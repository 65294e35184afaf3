use rust_hex::color::Color;
use rust_hex::score::Score;

#[test]
fn color_iterator() {
    let mut color = Color::White;
    assert_eq!(color.next().unwrap(), Color::Black);
    assert_eq!(color.next().unwrap(), Color::White);
    assert_eq!(color.next().unwrap(), Color::Black);
}

#[test]
fn empty_has_no_next() {
    let mut color = Color::Empty;
    assert_eq!(color.next(), None);
    assert_eq!(color, Color::Empty);
}

#[test]
fn opponent_swaps_the_sides() {
    assert_eq!(Color::White.opponent(), Color::Black);
    assert_eq!(Color::Black.opponent(), Color::White);
    assert_eq!(Color::Empty.opponent(), Color::Empty);
}

#[test]
fn glyphs_and_names() {
    assert_eq!(Color::Black.to_char(), '○');
    assert_eq!(Color::White.to_char(), '●');
    assert_eq!(Color::Empty.to_char(), '.');
    assert_eq!(Color::Black.name(), "Black");
    assert_eq!(Color::White.name(), "White");
    assert_eq!(Color::Empty.name(), "None");
}

#[test]
fn win_scores() {
    assert_eq!(Color::White.win_score(), Score::WhiteCheckMate);
    assert_eq!(Color::Black.win_score(), Score::BlackCheckMate);
    assert_eq!(Color::Empty.win_score(), Score::Advantage(0));
}
