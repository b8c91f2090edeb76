use solvers::trails::{Graph, TrailMap};

#[test]
fn test_get_reachable_positions_with_height() {
    let input = "\n...0...\n...1...\n...2...\n6543456\n7.....7\n8.....8\n9.....9\n        ";
    let map = TrailMap::parse(&input);
    let graph = Graph::new(map);
    let positions = graph.get_reachable_positions_with_height(3, 0, 9);
    assert_eq!(positions, vec![(0, 6), (6, 6)]);
}

#[test]
fn find_all_trailheads_first() {
    let input = "\n...0...\n...1...\n...2...\n6543456\n7.....7\n8.....8\n9.....9\n        ";
    let map = TrailMap::parse(&input);
    let graph = Graph::new(map);
    let trailheads = graph.find_all_trailheads();
    assert_eq!(trailheads.len(), 1);
    assert_eq!(trailheads[0].0, (3, 0));
    assert_eq!(trailheads[0].1, vec![(0, 6), (6, 6)]);
}

#[test]
fn find_all_trailheads_second() {
    let input = "\n10..9..\n2...8..\n3...7..\n4567654\n...8..3\n...9..2\n.....01\n        ";
    let map = TrailMap::parse(&input);
    let graph = Graph::new(map);
    let trailheads = graph.find_all_trailheads();
    assert_eq!(trailheads.len(), 2);
    assert_eq!(trailheads[0].0, (1, 0));
    assert_eq!(trailheads[0].1, vec![(3, 5)]);
    assert_eq!(trailheads[1].0, (5, 6));
    assert_eq!(trailheads[1].1, vec![(4, 0), (3, 5)]);
}

#[test]
fn find_all_trailheads_third() {
    let input = "\n89010123\n78121874\n87430965\n96549874\n45678903\n32019012\n01329801\n10456732\n        ";
    let map = TrailMap::parse(&input);
    let graph = Graph::new(map);
    let trailheads = graph.find_all_trailheads();
    let result: usize = trailheads.iter().map(|x| x.1.len()).sum();
    assert_eq!(result, 36);
}

#[test]
fn find_all_unique_paths_first() {
    let input = "\n...0...\n...1...\n...2...\n6543456\n7.....7\n8.....8\n9.....9\n        ";
    let map = TrailMap::parse(&input);
    let graph = Graph::new(map);
    assert_eq!(graph.find_unique_paths(), 2);
}

#[test]
fn find_all_unique_paths_second() {
    let input = "\n.....0.\n..4321.\n..5..2.\n..6543.\n..7..4.\n..8765.\n..9....\n        ";
    let map = TrailMap::parse(&input);
    let graph = Graph::new(map);
    assert_eq!(graph.find_unique_paths(), 3);
}

#[test]
fn find_all_unique_paths_third() {
    let input = "\n..90..9\n...1.98\n...2..7\n6543456\n765.987\n876....\n987....\n        ";
    let map = TrailMap::parse(&input);
    let graph = Graph::new(map);
    assert_eq!(graph.find_unique_paths(), 13);
}

#[test]
fn find_all_unique_paths_fourth() {
    let input = "\n012345\n123456\n234567\n345678\n4.6789\n56789.\n        ";
    let map = TrailMap::parse(&input);
    let graph = Graph::new(map);
    assert_eq!(graph.find_unique_paths(), 227);
}

#[test]
fn find_all_unique_paths_fifth() {
    let input = "\n89010123\n78121874\n87430965\n96549874\n45678903\n32019012\n01329801\n10456732\n        ";
    let map = TrailMap::parse(&input);
    let graph = Graph::new(map);
    assert_eq!(graph.find_unique_paths(), 81);
}
