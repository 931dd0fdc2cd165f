use advent_of_code::mul_scan::{collect_do_dont, part_one, part_two};

#[test]
fn mul_scan_test_part_one() {
    let input = "xmul(2,4)%&mul[3,7]!@^do_not_mul(5,5)+mul(32,64]then(mul(11,8)mul(8,5))";
    let result = part_one(input);
    assert_eq!(result, Some(161));
}

#[test]
fn mul_scan_test_part_two() {
    let input = "xmul(2,4)&mul[3,7]!^don't()_mul(5,5)+mul(32,64](mul(11,8)undo()?mul(8,5))";
    let result = part_two(input);
    assert_eq!(result, Some(48));
}

#[test]
fn mul_scan_exact_forms_only() {
    assert_eq!(part_one("mul(2,4)"), Some(8));
    assert_eq!(part_one("mul(1234,5)"), Some(0));
    assert_eq!(part_one("mul( 2,4)"), Some(0));
    assert_eq!(part_one("mul(2,4"), Some(0));
    assert_eq!(part_one("mul(999,999)"), Some(998001));
    assert_eq!(part_one("mul(2,4)mul(3,3)"), Some(17));
}

#[test]
fn mul_scan_do_dont_chunks() {
    let chars: Vec<char> = "amul(1,1)don't()bdo()c".chars().collect();
    let chunks = collect_do_dont(&chars);
    let strings: Vec<String> = chunks.iter().map(|c| c.iter().collect()).collect();
    assert_eq!(strings, vec!["amul(1,1)".to_string(), "c".to_string()]);
}

#[test]
fn mul_scan_disabled_at_end() {
    assert_eq!(part_two("mul(2,3)don't()mul(4,5)"), Some(6));
    assert_eq!(part_two("don't()mul(4,5)do()mul(2,3)"), Some(6));
}
