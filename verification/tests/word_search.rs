use advent_of_code::word_search::{part_one, part_two};

const EXAMPLE: &str = "MMMSXXMASM\nMSAMXMSMSA\nAMXSXMAAMM\nMSAMASMSMX\nXMASAMXAMM\nXXAMMXXAMA\nSMSMSASXSS\nSAXAMASAAA\nMAMMMXMMMM\nMXMXAXMASX";

#[test]
fn word_search_test_part_one() {
    let result = part_one(EXAMPLE);
    assert_eq!(result, Some(18));
}

#[test]
fn word_search_test_part_two() {
    let result = part_two(EXAMPLE);
    assert_eq!(result, Some(9));
}

#[test]
fn word_search_small_grids() {
    // Too small for a four-letter window.
    assert_eq!(part_one("XMA\nSAM\nXXX"), None);
    // A single straight hit in each direction family.
    assert_eq!(part_one("XMAS\n....\n....\n...."), Some(1));
    assert_eq!(part_one("SAMX\n....\n....\n...."), Some(1));
    assert_eq!(part_one("X...\n.M..\n..A.\n...S"), Some(1));
    assert_eq!(part_one("X...\nM...\nA...\nS..."), Some(1));
}

#[test]
fn word_search_crossed_example() {
    assert_eq!(part_two("M.S\n.A.\nM.S"), Some(1));
    assert_eq!(part_two("M.M\n.A.\nS.S"), Some(1));
    assert_eq!(part_two("M.S\n.A.\nS.M"), Some(0));
}

#[test]
fn word_search_ragged_rejected() {
    assert_eq!(part_one("XMAS\nXM\nXMAS\nXMAS"), None);
    assert_eq!(part_two("M.S\n.A\nM.S"), None);
}
