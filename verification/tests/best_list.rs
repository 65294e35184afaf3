use rust_hex::best_list::BestList;

#[test]
fn add_test() {
    let mut max_values = BestList::new(3);
    let values = vec![10, 2, 5, 4, 5, 8, 7, 8, 9];

    for value in values {
        max_values.add(value);
    }

    assert_eq!(*max_values.get(), vec![10, 9, 8]);
}

#[test]
fn from_vec() {
    let values = vec![10, 2, 5, 4, 5, 8, 7, 8, 9];

    let max_values = BestList::from_vec(&values, 3);

    assert_eq!(values.get(0), Some(&10));
    assert_eq!(*max_values.get(), vec![10, 9, 8]);
}

#[test]
fn from_iter() {
    let values = vec![10, 2, 5, 4, 5, 8, 7, 8, 9];

    let max_values = BestList::from_iter(values.iter().cloned().collect(), 3);

    assert_eq!(*max_values.get(), vec![10, 9, 8]);
}

#[test]
fn reversed_list_keeps_the_least() {
    let mut min_values = BestList::new_rev(3);
    for value in vec![10, 2, 5, 4, 5, 8, 7, 8, 9] {
        min_values.add(value);
    }
    assert_eq!(*min_values.get(), vec![2, 4, 5]);
    assert_eq!(min_values.into_vec(), vec![2, 4, 5]);
}

#[test]
fn a_better_item_moves_to_the_front() {
    let mut best = BestList::new(3);
    best.add(1);
    best.add(5);
    assert_eq!(*best.get(), vec![5, 1]);
    best.add(3);
    assert_eq!(*best.get(), vec![5, 3, 1]);
    best.add(0);
    assert_eq!(*best.get(), vec![5, 3, 1]);
    best.add(1);
    assert_eq!(*best.get(), vec![5, 3, 1]);
    best.add(7);
    assert_eq!(*best.get(), vec![7, 5, 3]);
}

#[test]
fn a_list_without_room_stays_empty() {
    let mut none: BestList<i32> = BestList::new(0);
    none.add(4);
    assert_eq!(*none.get(), Vec::<i32>::new());
    let one = BestList::from_vec(&[3, 9, 1], 1);
    assert_eq!(*one.get(), vec![9]);
    let items: Vec<i32> = one.into();
    assert_eq!(items, vec![9]);
}
