use rust_hex::score::Score;

#[test]
fn order() {
    assert!(Score::Advantage(1) > Score::Advantage(0));
    assert!(Score::Advantage(0) < Score::Advantage(1));
    assert!(Score::Advantage(0) == Score::Advantage(0));

    assert!(Score::BlackMateIn(1) < Score::BlackMateIn(2));
    assert!(Score::BlackMateIn(2) > Score::BlackMateIn(1));
    assert!(Score::BlackMateIn(1) == Score::BlackMateIn(1));

    assert!(Score::WhiteMateIn(1) > Score::WhiteMateIn(2));
    assert!(Score::WhiteMateIn(2) < Score::WhiteMateIn(1));
    assert!(Score::WhiteMateIn(1) == Score::WhiteMateIn(1));

    assert!(Score::BlackCheckMate < Score::WhiteCheckMate);
    assert!(Score::WhiteCheckMate > Score::BlackCheckMate);
    assert!(Score::BlackCheckMate == Score::BlackCheckMate);
    assert!(Score::WhiteCheckMate == Score::WhiteCheckMate);

    assert!(Score::Advantage(0) > Score::BlackMateIn(1));
    assert!(Score::Advantage(0) < Score::WhiteMateIn(1));
    assert!(Score::Advantage(0) > Score::BlackCheckMate);
    assert!(Score::Advantage(0) < Score::WhiteCheckMate);
}

#[test]
fn add_score() {
    let score = Score::Advantage(1) + Score::Advantage(1);
    assert_eq!(score, Score::Advantage(2));

    let score = Score::Advantage(1) + Score::Advantage(-1);
    assert_eq!(score, Score::Advantage(0));

    let score = Score::Advantage(1) + Score::BlackMateIn(1);
    assert_eq!(score, Score::BlackMateIn(1));

    let score = Score::WhiteMateIn(2) + Score::BlackMateIn(1);
    assert_eq!(score, Score::BlackMateIn(1));
}

#[test]
fn score_iterator() {
    let score = Score::BlackCheckMate.next_back().unwrap();
    assert_eq!(score, Score::BlackMateIn(1));

    let score = Score::WhiteCheckMate.next_back().unwrap();
    assert_eq!(score, Score::WhiteMateIn(1));

    let score = Score::BlackMateIn(1).next_back().unwrap();
    assert_eq!(score, Score::BlackMateIn(2));

    let score = Score::WhiteMateIn(1).next_back().unwrap();
    assert_eq!(score, Score::WhiteMateIn(2));

    let score = Score::Advantage(1).next_back().unwrap();
    assert_eq!(score, Score::Advantage(1));

    let scores: Vec<_> = Score::BlackCheckMate.rev_take(3);
    assert_eq!(
        scores,
        vec![
            Score::BlackMateIn(1),
            Score::BlackMateIn(2),
            Score::BlackMateIn(3)
        ]
    )
}

#[test]
fn stepping_towards_the_leaves() {
    assert_eq!(Score::BlackMateIn(2).next(), Some(Score::BlackMateIn(1)));
    assert_eq!(Score::BlackMateIn(1).next(), Some(Score::BlackCheckMate));
    assert_eq!(Score::WhiteMateIn(1).next(), Some(Score::WhiteCheckMate));
    assert_eq!(Score::WhiteCheckMate.next(), None);
    assert_eq!(Score::BlackCheckMate.next(), None);
    assert_eq!(Score::Advantage(3).next(), Some(Score::Advantage(3)));
    assert_eq!(Score::Undefined.next(), Some(Score::Undefined));
    assert_eq!(Score::Undefined.next_back(), Some(Score::Undefined));
}

#[test]
fn undefined_is_neutral() {
    let all = [
        Score::Undefined,
        Score::Advantage(-3),
        Score::Advantage(0),
        Score::BlackMateIn(2),
        Score::WhiteMateIn(5),
        Score::BlackCheckMate,
        Score::WhiteCheckMate,
    ];
    for s in all {
        assert_eq!(s + Score::Undefined, s);
        assert_eq!(Score::Undefined + s, s);
    }
}

#[test]
fn combination_rules() {
    assert_eq!(Score::WhiteCheckMate + Score::BlackCheckMate, Score::WhiteCheckMate);
    assert_eq!(Score::BlackCheckMate + Score::WhiteCheckMate, Score::WhiteCheckMate);
    assert_eq!(Score::BlackCheckMate + Score::WhiteMateIn(1), Score::BlackCheckMate);
    assert_eq!(Score::BlackMateIn(4) + Score::BlackMateIn(2), Score::BlackMateIn(2));
    assert_eq!(Score::WhiteMateIn(4) + Score::WhiteMateIn(7), Score::WhiteMateIn(4));
    assert_eq!(Score::BlackMateIn(2) + Score::WhiteMateIn(2), Score::WhiteMateIn(2));
    assert_eq!(Score::WhiteMateIn(2) + Score::BlackMateIn(2), Score::BlackMateIn(2));
    assert_eq!(Score::WhiteMateIn(1) + Score::BlackMateIn(2), Score::WhiteMateIn(1));
    assert_eq!(Score::WhiteMateIn(3) + Score::Advantage(9), Score::WhiteMateIn(3));
    assert_eq!(Score::Advantage(-4) + Score::Advantage(-5), Score::Advantage(-9));
}

#[test]
fn order_across_bands() {
    let ascending = [
        Score::BlackCheckMate,
        Score::BlackMateIn(1),
        Score::BlackMateIn(9),
        Score::Advantage(i64::MIN),
        Score::Advantage(-1),
        Score::Advantage(0),
        Score::Advantage(1),
        Score::Advantage(i64::MAX),
        Score::WhiteMateIn(9),
        Score::WhiteMateIn(1),
        Score::WhiteCheckMate,
    ];
    for i in 0..ascending.len() {
        for j in 0..ascending.len() {
            assert_eq!(ascending[i] < ascending[j], i < j);
            assert_eq!(ascending[i] > ascending[j], i > j);
            assert_eq!(ascending[i] <= ascending[j], i <= j);
        }
    }
    assert!(!(Score::Undefined < Score::Advantage(0)));
    assert!(!(Score::Undefined > Score::Advantage(0)));
    assert!(Score::Undefined < Score::Advantage(1));
    assert!(Score::Undefined > Score::Advantage(-1));
}
