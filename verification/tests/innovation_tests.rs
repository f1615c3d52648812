use neat::InnovationCounter;

#[test]
fn test_counter() {
    let mut test = InnovationCounter::new(4);

    assert_eq!(test.add((0, 3)), 4);
    assert_eq!(test.add((2, 3)), 5);
    assert_eq!(test.add((0, 3)), 4);
}

#[test]
fn counter_get_before_and_after_add() {
    let mut reg = InnovationCounter::new(3);

    assert_eq!(reg.get((0, 2)), None);
    let id = reg.add((0, 2));
    assert_eq!(id, 3);
    assert_eq!(reg.get((0, 2)), Some(3));
    assert_eq!(reg.get((2, 0)), None);
}

#[test]
fn counter_issues_increasing_ids_in_order_of_first_request() {
    let mut reg = InnovationCounter::new(10);

    let a = reg.add((1, 5));
    let b = reg.add((5, 6));
    let c = reg.add((6, 2));
    assert_eq!((a, b, c), (10, 11, 12));
    // asking again changes nothing
    assert_eq!(reg.add((5, 6)), 11);
    assert_eq!(reg.add((1, 5)), 10);
}
