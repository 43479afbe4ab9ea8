use workpool::puzzle::Permutations;

#[test]
fn first_order_reaching_ten() {
    let mut p = Permutations::new();
    p.create_permutations(vec![1, 2, 3, 4, 5]);
    let found = p.find_match();
    assert_eq!(found, Some((vec![1, 3, 2, 4, 5], vec!['/', '-', '+', '*'])));
}

#[test]
fn fewer_than_five_numbers_give_no_candidate() {
    let mut p = Permutations::new();
    p.create_permutations(vec![10, 0, 0, 0]);
    assert_eq!(p.find_match(), None);
}

#[test]
fn division_by_zero_and_overflow_are_not_matches() {
    let mut p = Permutations::new();
    p.create_permutations(vec![0, 0, 0, 0, i32::MAX]);
    assert_eq!(p.find_match(), None);
}

#[test]
fn no_order_reaches_ten() {
    let mut p = Permutations::new();
    p.create_permutations(vec![100, 100, 100, 100, 100]);
    assert_eq!(p.find_match(), None);
}
