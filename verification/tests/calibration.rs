use advent_of_code::calibration::{part_one, part_two, solve};

const EXAMPLE: &str = "190: 10 19\n3267: 81 40 27\n83: 17 5\n156: 15 6\n7290: 6 8 6 15\n161011: 16 10 13\n192: 17 8 14\n21037: 9 7 18\n292: 11 6 16 20";

#[test]
fn calibration_test_part_one() {
    let result = part_one(EXAMPLE);
    assert_eq!(result, Some(3749));
}

#[test]
fn calibration_test_part_two() {
    let result = part_two(EXAMPLE);
    assert_eq!(result, Some(11387));
}

#[test]
fn calibration_solve_cases() {
    assert!(solve(190, &vec![10, 19], false));
    assert!(!solve(83, &vec![17, 5], false));
    assert!(solve(156, &vec![15, 6], true));
    assert!(!solve(156, &vec![15, 6], false));
    assert!(solve(7290, &vec![6, 8, 6, 15], true));
    assert!(!solve(21037, &vec![9, 7, 18], true));
    assert!(!solve(5, &vec![], false));
}

#[test]
fn calibration_skips_bad_lines() {
    // No colon, and an unparseable target, are both skipped.
    assert_eq!(part_one("10 19\nx: 1 2\n190: 10 19"), Some(190));
}
