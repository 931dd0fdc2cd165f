use advent_of_code::disk::{part_one, part_two, DiskMap};

const EXAMPLE: &str = "2333133121414131402";

#[test]
fn disk_test_part_one() {
    let result = part_one(EXAMPLE);
    assert_eq!(result, Some(1928));
}

#[test]
fn disk_test_part_two() {
    let result = part_two(EXAMPLE);
    assert_eq!(result, None);
}

#[test]
fn disk_small_map() {
    // "12345": one block of file 0, then 111 pulled left, then 22222.
    assert_eq!(part_one("12345"), Some(60));
}

#[test]
fn disk_pipeline_steps() {
    let parsed = DiskMap::from("12345");
    assert_eq!(parsed.disk.len(), 5);
    let decompressed = parsed.decompress();
    assert_eq!(decompressed.disk.len(), 15);
    let mut d = decompressed;
    let compacted = d.defragment();
    assert_eq!(d.disk.len(), 0);
    assert_eq!(compacted.disk.len(), 9);
    assert_eq!(compacted.checksum(), Some(60));
}

#[test]
fn disk_trailing_newline_ignored() {
    assert_eq!(part_one("2333133121414131402\n"), Some(1928));
}
