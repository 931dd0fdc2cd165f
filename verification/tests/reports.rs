use advent_of_code::reports::{check_sequence_no_skip, part_one, part_two, row_safe};

const EXAMPLE: &str = "7 6 4 2 1\n1 2 7 8 9\n9 7 6 2 1\n1 3 2 4 5\n8 6 4 4 1\n1 3 6 7 9";

#[test]
fn reports_test_part_one() {
    let result = part_one(EXAMPLE);
    assert_eq!(result, Some(2));
}

#[test]
fn reports_test_part_two() {
    let result = part_two(EXAMPLE);
    assert_eq!(result, Some(4));
}

#[test]
fn reports_check_sequence() {
    let row = vec![Some(7i64), Some(6), Some(4), Some(2), Some(1)];
    assert_eq!(check_sequence_no_skip(&row), (false, true, true));
    assert!(row_safe(&row));
    let jump = vec![Some(1i64), Some(2), Some(7), Some(8), Some(9)];
    assert_eq!(check_sequence_no_skip(&jump), (true, false, false));
    assert!(!row_safe(&jump));
    // A missing cell ends the pass early.
    let cut = vec![Some(1i64), Some(2), None, Some(9)];
    assert_eq!(check_sequence_no_skip(&cut), (true, false, true));
}

#[test]
fn reports_dampener_cases() {
    // Removing the 3 fixes 1 3 2 4 5; nothing fixes 9 7 6 2 1's big drop.
    assert_eq!(part_one("1 3 2 4 5"), Some(0));
    assert_eq!(part_two("1 3 2 4 5"), Some(1));
    assert_eq!(part_two("9 7 6 2 1"), Some(0));
}
