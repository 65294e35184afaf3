use rust_hex::distance::Distance;
use std::cmp::Ordering;

#[test]
fn cmp() {
    // Equal
    assert_eq!(
        Distance::Reachable(1).cmp(&Distance::Reachable(1)),
        Ordering::Equal
    );
    assert_eq!(
        Distance::Unreachable.cmp(&Distance::Unreachable),
        Ordering::Equal
    );
    assert_eq!(
        Distance::Unexplored.cmp(&Distance::Unexplored),
        Ordering::Equal
    );

    // Less
    assert_eq!(
        Distance::Reachable(1).cmp(&Distance::Reachable(2)),
        Ordering::Less
    );
    assert_eq!(
        Distance::Unexplored.cmp(&Distance::Unreachable),
        Ordering::Less
    );

    // Greater
    assert_eq!(
        Distance::Reachable(2).cmp(&Distance::Reachable(1)),
        Ordering::Greater
    );
    assert_eq!(
        Distance::Unreachable.cmp(&Distance::Reachable(1)),
        Ordering::Greater
    );
    assert_eq!(
        Distance::Unexplored.cmp(&Distance::Reachable(1)),
        Ordering::Greater
    );

    let distances = vec![
        Distance::Reachable(1),
        Distance::Unexplored,
        Distance::Unreachable,
        Distance::Reachable(0),
    ];
    assert_eq!(distances.iter().min(), Some(&Distance::Reachable(0)));
}

#[test]
fn operators_follow_cmp() {
    assert!(Distance::Reachable(1) < Distance::Reachable(2));
    assert!(Distance::Reachable(7) < Distance::Unexplored);
    assert!(Distance::Unexplored < Distance::Unreachable);
    assert!(Distance::Unreachable > Distance::Reachable(usize::MAX));
    assert_eq!(
        Distance::Reachable(3).partial_cmp(&Distance::Reachable(3)),
        Some(Ordering::Equal)
    );
}

#[test]
fn min_and_option() {
    assert_eq!(
        Distance::Reachable(3).min(Distance::Reachable(2)),
        Distance::Reachable(2)
    );
    assert_eq!(
        Distance::Unreachable.min(Distance::Unexplored),
        Distance::Unexplored
    );
    assert_eq!(Distance::Reachable(3).to_option(), Some(3));
    assert_eq!(Distance::Unreachable.to_option(), None);
    assert_eq!(Distance::Unexplored.to_option(), None);
    let steps: Option<usize> = Distance::Reachable(3).into();
    assert_eq!(steps, Some(3));
    let none: Option<usize> = Distance::Unreachable.into();
    assert_eq!(none, None);
}

#[test]
fn test_format_distance_vec() {
    let distances = vec![
        vec![
            Distance::Reachable(0),
            Distance::Reachable(1),
            Distance::Reachable(2),
        ],
        vec![
            Distance::Reachable(1),
            Distance::Unreachable,
            Distance::Unreachable,
        ],
        vec![
            Distance::Reachable(2),
            Distance::Unreachable,
            Distance::Unreachable,
        ],
    ];

    let text = rust_hex::display::format_distances(&distances);
    assert_eq!(text, " 0 1 2 \n  1 X X \n   2 X X \n");
}

#[test]
fn distances_as_text() {
    assert_eq!(Distance::Reachable(0).to_string(), "0");
    assert_eq!(Distance::Reachable(1234567890).to_string(), "1234567890");
    assert_eq!(Distance::Unreachable.to_string(), "X");
    assert_eq!(Distance::Unexplored.to_string(), ".");
}
