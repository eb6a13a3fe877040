use kb::sorting::stable_sort_by;

#[test]
fn sorting_by_a_comparison_orders_and_keeps_ties_in_place() {
    let mut v: Vec<(u32, &str)> = vec![(3, "c"), (1, "a"), (2, "x"), (1, "b"), (2, "y"), (0, "z")];
    stable_sort_by(&mut v, |a, b| a.0.cmp(&b.0));
    assert_eq!(v, vec![(0, "z"), (1, "a"), (1, "b"), (2, "x"), (2, "y"), (3, "c")]);
}

#[test]
fn sorting_by_a_reversed_comparison_gives_descending_order() {
    let mut v: Vec<i64> = vec![5, -1, 9, 0, 9, 3];
    stable_sort_by(&mut v, |a, b| b.cmp(a));
    assert_eq!(v, vec![9, 9, 5, 3, 0, -1]);
}

#[test]
fn sorting_empty_and_single_element_lists_changes_nothing() {
    let mut empty: Vec<u8> = Vec::new();
    stable_sort_by(&mut empty, |a, b| a.cmp(b));
    assert!(empty.is_empty());
    let mut one = vec![String::from("only")];
    stable_sort_by(&mut one, |a, b| a.cmp(b));
    assert_eq!(one, vec![String::from("only")]);
}
