use rust_hex::log::{LogFlag, LogLevel};

#[test]
fn log_level() {
    let mut log_level = LogLevel::new();

    log_level.add(LogFlag::Position).add(LogFlag::MatchResult);

    assert!(log_level.is(LogFlag::MatchResult));
    assert!(log_level.is(LogFlag::Position));

    log_level.remove(LogFlag::Position);
    assert!(!log_level.is(LogFlag::Position));
}

#[test]
fn flags_are_independent() {
    let all = [
        LogFlag::SearchDepth,
        LogFlag::Score,
        LogFlag::Moves,
        LogFlag::Position,
        LogFlag::GameResult,
        LogFlag::MatchResult,
    ];
    for set in all {
        let mut level = LogLevel::default();
        level.add(set);
        for asked in all {
            assert_eq!(level.is(asked), asked == set);
        }
        level.add(set).remove(set).remove(set);
        for asked in all {
            assert!(!level.is(asked));
        }
    }
}
