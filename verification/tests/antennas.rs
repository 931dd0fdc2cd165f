use advent_of_code::antennas::{part_one, part_two};

const EXAMPLE: &str = "............\n........0...\n.....0......\n.......0....\n....0.......\n......A.....\n............\n............\n........A...\n.........A..\n............\n............";

#[test]
fn antennas_test_part_one() {
    let result = part_one(EXAMPLE);
    assert_eq!(result, Some(14));
}

#[test]
fn antennas_test_part_two() {
    let result = part_two(EXAMPLE);
    assert_eq!(result, None);
}

#[test]
fn antennas_pair_basics() {
    // Two antennas in one row: both outer antinodes land on the map.
    assert_eq!(part_one("..a.a.."), Some(2));
    // At the edge only one antinode fits.
    assert_eq!(part_one("a.a...."), Some(1));
    assert_eq!(part_one("a.a"), Some(0));
    // Different frequencies never pair.
    assert_eq!(part_one("..a.b.."), Some(0));
    // A single antenna has no pair.
    assert_eq!(part_one("...a..."), Some(0));
}
