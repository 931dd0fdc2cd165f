use advent_of_code::location_lists::{parse, part_one, part_two, sort_column};

const EXAMPLE: &str = "3   4\n4   3\n2   5\n1   3\n3   9\n3   3";

#[test]
fn location_lists_test_part_one() {
    let result = part_one(EXAMPLE);
    assert_eq!(result, Some(11));
}

#[test]
fn location_lists_test_part_two() {
    let result = part_two(EXAMPLE);
    assert_eq!(result, Some(31));
}

#[test]
fn location_lists_parse_and_sort() {
    let (a, b) = parse(EXAMPLE);
    assert_eq!(a, vec![3, 4, 2, 1, 3, 3]);
    assert_eq!(b, vec![4, 3, 5, 3, 9, 3]);
    assert_eq!(sort_column(&a), vec![1, 2, 3, 3, 3, 4]);
    assert_eq!(sort_column(&b), vec![3, 3, 3, 4, 5, 9]);
}

#[test]
fn location_lists_negatives() {
    assert_eq!(part_one("-3 4\n10 -2"), Some(7));
    assert_eq!(part_two("-2 -2\n5 7"), Some(2));
}
