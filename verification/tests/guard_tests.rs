use solvers::guard::{find_loop_obstruction_placements, get_visited_positions, Direction, Tile, World};
use std::collections::HashSet;

fn placements(input: &str) -> HashSet<(usize, usize)> {
    let mut world = World::read(input).unwrap();
    find_loop_obstruction_placements(&mut world).into_iter().collect()
}

#[test]
fn test_read_world_empty() {
    let input = "\n...\n.^.\n...\n        ";
    let world = World::read(input).unwrap();
    assert_eq!(world.map.width(), 3);
    assert_eq!(world.map.height(), 3);
    assert!(world.map.tiles.iter().flatten().all(|tile| *tile == Tile::Empty));
    assert_eq!(world.guard_x, 1);
    assert_eq!(world.guard_y, 1);
    assert_eq!(world.guard_direction, Direction::Up);
}

#[test]
fn test_read_world_simple() {
    let input = "\n.#...\n###..\n.>...\n...##\n        ";
    let world = World::read(input).unwrap();
    assert_eq!(world.map.width(), 5);
    assert_eq!(world.map.height(), 4);
    assert_eq!(world.map.get_tile(0, 0), Tile::Empty);
    assert_eq!(world.map.get_tile(1, 0), Tile::Wall);
    assert_eq!(world.map.get_tile(2, 0), Tile::Empty);
    assert_eq!(world.map.get_tile(3, 0), Tile::Empty);
    assert_eq!(world.map.get_tile(4, 0), Tile::Empty);
    assert_eq!(world.map.get_tile(0, 1), Tile::Wall);
    assert_eq!(world.map.get_tile(1, 1), Tile::Wall);
    assert_eq!(world.map.get_tile(2, 1), Tile::Wall);
    assert_eq!(world.map.get_tile(3, 1), Tile::Empty);
    assert_eq!(world.map.get_tile(4, 1), Tile::Empty);
    assert_eq!(world.map.get_tile(0, 2), Tile::Empty);
    assert_eq!(world.map.get_tile(1, 2), Tile::Empty);
    assert_eq!(world.map.get_tile(2, 2), Tile::Empty);
    assert_eq!(world.map.get_tile(3, 2), Tile::Empty);
    assert_eq!(world.map.get_tile(4, 2), Tile::Empty);
    assert_eq!(world.map.get_tile(0, 3), Tile::Empty);
    assert_eq!(world.map.get_tile(1, 3), Tile::Empty);
    assert_eq!(world.map.get_tile(2, 3), Tile::Empty);
    assert_eq!(world.map.get_tile(3, 3), Tile::Wall);
    assert_eq!(world.map.get_tile(4, 3), Tile::Wall);
    assert_eq!(world.guard_x, 1);
    assert_eq!(world.guard_y, 2);
    assert_eq!(world.guard_direction, Direction::Right);
}

#[test]
fn test_simulation_up_unobstructed() {
    let input = "\n...\n.^.\n...\n        ";
    let mut world = World::read(input).unwrap();
    assert_eq!(world.guard_direction, Direction::Up);
    assert_eq!(world.guard_in_world, true);
    assert_eq!(world.guard_x, 1);
    assert_eq!(world.guard_y, 1);
    world.step();
    assert_eq!(world.guard_direction, Direction::Up);
    assert_eq!(world.guard_in_world, true);
    assert_eq!(world.guard_x, 1);
    assert_eq!(world.guard_y, 0);
    world.step();
    assert_eq!(world.guard_direction, Direction::Up);
    assert_eq!(world.guard_in_world, false);
}

#[test]
fn test_simulation_right_unobstructed() {
    let input = "\n...\n.>.\n...\n        ";
    let mut world = World::read(input).unwrap();
    assert_eq!(world.guard_direction, Direction::Right);
    assert_eq!(world.guard_in_world, true);
    assert_eq!(world.guard_x, 1);
    assert_eq!(world.guard_y, 1);
    world.step();
    assert_eq!(world.guard_direction, Direction::Right);
    assert_eq!(world.guard_in_world, true);
    assert_eq!(world.guard_x, 2);
    assert_eq!(world.guard_y, 1);
    world.step();
    assert_eq!(world.guard_direction, Direction::Right);
    assert_eq!(world.guard_in_world, false);
}

#[test]
fn test_simulation_down_unobstructed() {
    let input = "\n...\n.v.\n...\n        ";
    let mut world = World::read(input).unwrap();
    assert_eq!(world.guard_direction, Direction::Down);
    assert_eq!(world.guard_in_world, true);
    assert_eq!(world.guard_x, 1);
    assert_eq!(world.guard_y, 1);
    world.step();
    assert_eq!(world.guard_direction, Direction::Down);
    assert_eq!(world.guard_in_world, true);
    assert_eq!(world.guard_x, 1);
    assert_eq!(world.guard_y, 2);
    world.step();
    assert_eq!(world.guard_direction, Direction::Down);
    assert_eq!(world.guard_in_world, false);
}

#[test]
fn test_simulation_left_unobstructed() {
    let input = "\n...\n.<.\n...\n        ";
    let mut world = World::read(input).unwrap();
    assert_eq!(world.guard_direction, Direction::Left);
    assert_eq!(world.guard_in_world, true);
    assert_eq!(world.guard_x, 1);
    assert_eq!(world.guard_y, 1);
    world.step();
    assert_eq!(world.guard_direction, Direction::Left);
    assert_eq!(world.guard_in_world, true);
    assert_eq!(world.guard_x, 0);
    assert_eq!(world.guard_y, 1);
    world.step();
    assert_eq!(world.guard_direction, Direction::Left);
    assert_eq!(world.guard_in_world, false);
}

#[test]
fn test_simulation_snake() {
    let input = "\n#####\n#...#\n#^..#\n....#\n#####\n        ";
    let mut world = World::read(input).unwrap();
    let visited_positions = get_visited_positions(&mut world, 100000).unwrap();
    assert_eq!(
        visited_positions,
        vec![
            (1, 2),
            (1, 1),
            (2, 1),
            (3, 1),
            (3, 2),
            (3, 3),
            (2, 3),
            (1, 3),
            (0, 3)
        ]
    );
}

#[test]
fn test_find_loop_obstruction_placements_empty_up() {
    assert_eq!(placements("\n..\n^.\n        "), HashSet::new());
}

#[test]
fn test_find_loop_obstruction_placements_empty_down() {
    assert_eq!(placements("\nv.\n..\n        "), HashSet::new());
}

#[test]
fn test_find_loop_obstruction_placements_empty_right() {
    assert_eq!(placements("\n>.\n..\n        "), HashSet::new());
}

#[test]
fn test_find_loop_obstruction_placements_empty_left() {
    assert_eq!(placements("\n..\n.<\n        "), HashSet::new());
}

#[test]
fn test_find_loop_obstruction_placements_single_option_right() {
    let expected = vec![(2, 1)].into_iter().collect::<HashSet<_>>();
    assert_eq!(placements("\n.#.\n#v.\n.#.\n        "), expected);
}

#[test]
fn test_find_loop_obstruction_placements_single_option_top() {
    let expected = vec![(1, 0)].into_iter().collect::<HashSet<_>>();
    assert_eq!(placements("\n...\n#v#\n.#.\n        "), expected);
}

#[test]
fn test_find_loop_obstruction_placements_single_option_bottom() {
    let expected = vec![(1, 2)].into_iter().collect::<HashSet<_>>();
    assert_eq!(placements("\n.#.\n#v#\n...\n        "), expected);
}

#[test]
fn test_find_loop_obstruction_placements_single_option_left() {
    let expected = vec![(0, 1)].into_iter().collect::<HashSet<_>>();
    assert_eq!(placements("\n.#.\n.v#\n.#.\n        "), expected);
}

#[test]
fn test_find_loop_obstruction_placements_simple() {
    let expected = vec![(1, 3), (0, 3), (2, 3)].into_iter().collect::<HashSet<_>>();
    assert_eq!(placements("\n.####\n....#\n.^..#\n....#\n.####\n        "), expected);
}

#[test]
fn test_find_loop_obstruction_placements_complex() {
    let input = "\n....#.....\n.........#\n..........\n..#.......\n.......#..\n..........\n.#..^.....\n........#.\n#.........\n......#...\n        ";
    let expected = vec![(3, 6), (6, 7), (7, 7), (1, 8), (3, 8), (7, 9)]
        .into_iter()
        .collect::<HashSet<_>>();
    assert_eq!(placements(input), expected);
}
