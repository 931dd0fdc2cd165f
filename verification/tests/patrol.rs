use advent_of_code::grid::{Cell, GridError, GridModel, Position};
use advent_of_code::patrol::{part_one, part_two, PatrolSimulator};

const EXAMPLE: &str = "....#.....\n.........#\n..........\n..#.......\n.......#..\n..........\n.#..^.....\n........#.\n#.........\n......#...";

#[test]
fn patrol_test_part_one() {
    let result = part_one(EXAMPLE);
    assert_eq!(result, Some(41));
}

#[test]
fn patrol_test_part_two() {
    let result = part_two(EXAMPLE);
    assert_eq!(result, Some(6));
}

#[test]
fn patrol_no_start_marker() {
    assert_eq!(part_one("....\n.#..\n...."), None);
    assert_eq!(part_two("....\n.#..\n...."), None);
}

#[test]
fn patrol_ragged_grid_rejected() {
    assert_eq!(part_one("...\n..\n^.."), None);
    assert!(matches!(GridModel::load("...\n.."), Err(GridError::MalformedGrid)));
}

#[test]
fn patrol_boundary_exit_is_single_cell() {
    // Start one cell from the edge, facing outward: one transition, one
    // visited position.
    assert_eq!(part_one("^.."), Some(1));
    let g = GridModel::load("^..").unwrap();
    let start = g.find_start().unwrap();
    let sim = PatrolSimulator::new(start);
    let visited = sim.walk(&g);
    assert_eq!(visited.len(), 1);
    assert_eq!(visited[0], start.pos);
}

#[test]
fn patrol_walk_contains_start() {
    let g = GridModel::load(EXAMPLE).unwrap();
    let start = g.find_start().unwrap();
    let sim = PatrolSimulator::new(start);
    let visited = sim.walk(&g);
    assert!(visited.contains(&start.pos));
    assert_eq!(visited[0], start.pos);
}

#[test]
fn patrol_walk_is_deterministic() {
    let g1 = GridModel::load(EXAMPLE).unwrap();
    let g2 = GridModel::load(EXAMPLE).unwrap();
    let s1 = g1.find_start().unwrap();
    let s2 = g2.find_start().unwrap();
    assert_eq!(s1, s2);
    let v1 = PatrolSimulator::new(s1).walk(&g1);
    let v2 = PatrolSimulator::new(s2).walk(&g2);
    assert_eq!(v1, v2);
    assert_eq!(part_one(EXAMPLE), part_one(EXAMPLE));
    assert_eq!(part_two(EXAMPLE), part_two(EXAMPLE));
}

#[test]
fn patrol_obstruction_behind_start_keeps_first_step() {
    // The agent faces up; the cell behind it is below. An obstruction there
    // cannot change anything the walk does.
    let text = "...\n.^.\n...";
    let g1 = GridModel::load(text).unwrap();
    let mut g2 = GridModel::load(text).unwrap();
    let start = g1.find_start().unwrap();
    let behind = Position { row: start.pos.row + 1, col: start.pos.col };
    g2.place_obstruction(behind);
    assert_eq!(g2.get(behind), Some(Cell::TemporaryObstruction));
    let v1 = PatrolSimulator::new(start).walk(&g1);
    let v2 = PatrolSimulator::new(start).walk(&g2);
    assert_eq!(v1, v2);
    assert_eq!(v1.len(), 2);
}

#[test]
fn patrol_place_then_clear_restores_every_cell() {
    let mut g = GridModel::load(EXAMPLE).unwrap();
    let start = g.find_start().unwrap();
    for row in 0..10i64 {
        for col in 0..10i64 {
            let p = Position { row, col };
            let before = g.get(p);
            g.place_obstruction(p);
            g.clear_obstruction(p);
            assert_eq!(g.get(p), before);
        }
    }
    // The start cell itself is never obstructed.
    g.place_obstruction(start.pos);
    assert_eq!(g.get(start.pos), Some(Cell::Open));
}

#[test]
fn patrol_detects_loop_modes() {
    let mut g = GridModel::load(EXAMPLE).unwrap();
    let start = g.find_start().unwrap();
    let sim = PatrolSimulator::new(start);
    assert!(!sim.detects_loop(&g, start));
    // A known loop-inducing placement from the example.
    let p = Position { row: 6, col: 3 };
    g.place_obstruction(p);
    assert!(sim.detects_loop(&g, start));
    g.clear_obstruction(p);
    assert!(!sim.detects_loop(&g, start));
}
