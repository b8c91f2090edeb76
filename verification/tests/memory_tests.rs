use solvers::memory::{parse_coordinates, MemorySpace};

#[test]
fn test_example_one() {
    let input = "\n5,4\n4,2\n4,5\n3,0\n2,1\n6,3\n2,4\n1,5\n0,6\n3,3\n2,6\n5,1\n1,2\n5,5\n2,5\n6,5\n1,4\n0,4\n6,4\n1,1\n6,1\n1,0\n0,5\n1,6\n2,0\n        ";
    let coordinates = parse_coordinates(&input).unwrap();
    let mut memspace = MemorySpace::new(7);
    for coordinate in &coordinates[0..12] {
        memspace.set(coordinate, true);
    }
    let expected: Vec<Vec<bool>> = vec![
        vec!['.', '.', '.', '#', '.', '.', '.'],
        vec!['.', '.', '#', '.', '.', '#', '.'],
        vec!['.', '.', '.', '.', '#', '.', '.'],
        vec!['.', '.', '.', '#', '.', '.', '#'],
        vec!['.', '.', '#', '.', '.', '#', '.'],
        vec!['.', '#', '.', '.', '#', '.', '.'],
        vec!['#', '.', '#', '.', '.', '.', '.'],
    ]
    .into_iter()
    .map(|row| row.into_iter().map(|c| c == '#').collect::<Vec<_>>())
    .collect();
    assert_eq!(memspace.tiles, expected);
    let shortest_path = memspace.find_shortest_path_len(&(0, 0), &(6, 6));
    assert_eq!(shortest_path, Some(22));
}
