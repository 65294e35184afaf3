use rust_hex::cell::Cell;

#[test]
fn test_cell_is_on_board() {
    let cell = Cell::new(0, 0);
    assert!(cell.is_on_board(3));
    let cell = Cell::new(2, 2);
    assert!(cell.is_on_board(3));
    let cell = Cell::new(3, 3);
    assert!(!cell.is_on_board(3));
    let cell = Cell::new(-1, 0);
    assert!(!cell.is_on_board(3));
}

#[test]
fn test_cell_add() {
    let cell1 = Cell::new(0, 0);
    let cell2 = Cell::new(1, 1);
    let cell3 = cell1 + cell2;
    assert_eq!(cell3, Cell::new(1, 1));
}

#[test]
fn neighbors_in_the_middle() {
    let cell = Cell::new(1, 1);
    assert_eq!(
        cell.neighbors(3),
        vec![
            Cell::new(0, 1),
            Cell::new(0, 2),
            Cell::new(1, 0),
            Cell::new(1, 2),
            Cell::new(2, 0),
            Cell::new(2, 1)
        ]
    );
}

#[test]
fn neighbors_in_a_corner() {
    assert_eq!(Cell::new(0, 0).neighbors(3), vec![Cell::new(0, 1), Cell::new(1, 0)]);
    assert_eq!(
        Cell::new(2, 2).neighbors(3),
        vec![Cell::new(1, 2), Cell::new(2, 1)]
    );
    assert_eq!(Cell::new(0, 0).neighbors(1), vec![]);
    assert_eq!(Cell::new(i32::MAX, i32::MAX).neighbors(5), vec![]);
}
