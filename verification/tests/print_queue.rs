use advent_of_code::print_queue::{check_rules, correctly_sort, parse, part_one, part_two};

const EXAMPLE: &str = "47|53\n97|13\n97|61\n97|47\n75|29\n61|13\n75|53\n29|13\n97|29\n53|29\n61|53\n97|53\n61|29\n47|13\n75|47\n97|75\n47|61\n75|61\n47|29\n75|13\n53|13\n\n75,47,61,53,29\n97,61,53,29,13\n75,29,13\n75,97,47,61,53\n61,13,29\n97,13,75,29,47";

#[test]
fn print_queue_test_part_one() {
    let result = part_one(EXAMPLE);
    assert_eq!(result, Some(143));
}

#[test]
fn print_queue_test_part_two() {
    let result = part_two(EXAMPLE);
    assert_eq!(result, Some(123));
}

#[test]
fn print_queue_parse_shapes() {
    let (rules, records) = parse(EXAMPLE);
    assert_eq!(rules.len(), 21);
    assert_eq!(records.len(), 6);
    assert_eq!(rules[0], (47, 53));
    assert_eq!(records[0], vec![75, 47, 61, 53, 29]);
}

#[test]
fn print_queue_check_and_sort() {
    let (rules, records) = parse(EXAMPLE);
    assert!(check_rules(&records[0], &rules));
    assert!(!check_rules(&records[3], &rules));
    let sorted = correctly_sort(records[3].clone(), &rules);
    assert_eq!(sorted, vec![97, 75, 47, 61, 53]);
    let sorted2 = correctly_sort(records[4].clone(), &rules);
    assert_eq!(sorted2, vec![61, 29, 13]);
}
