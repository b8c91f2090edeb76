use solvers::encoder::{calculate_checksums, encode, find_shortest_encoding, parse_code, ChainEncoder};
use solvers::keypad::{DirectionalCommand, PairwisePathTable};

fn code(text: &str) -> Vec<solvers::keypad::Key> {
    parse_code(&text.chars().collect()).unwrap()
}

fn flip(d: DirectionalCommand) -> DirectionalCommand {
    match d {
        DirectionalCommand::Up => DirectionalCommand::Down,
        DirectionalCommand::Down => DirectionalCommand::Up,
        DirectionalCommand::Left => DirectionalCommand::Right,
        DirectionalCommand::Right => DirectionalCommand::Left,
        DirectionalCommand::Activate => DirectionalCommand::Activate,
    }
}

/// Breadth-first distance between two cells of a keypad, independent of
/// the library's own search.
fn bfs_distance(
    width: usize,
    height: usize,
    gap: (usize, usize),
    from: (usize, usize),
    to: (usize, usize),
) -> Option<usize> {
    let mut dist = vec![vec![usize::MAX; width]; height];
    let mut queue = std::collections::VecDeque::new();
    dist[from.1][from.0] = 0;
    queue.push_back(from);
    while let Some((x, y)) = queue.pop_front() {
        let d = dist[y][x];
        let mut neighbors = vec![];
        if x > 0 {
            neighbors.push((x - 1, y));
        }
        if y > 0 {
            neighbors.push((x, y - 1));
        }
        if x + 1 < width {
            neighbors.push((x + 1, y));
        }
        if y + 1 < height {
            neighbors.push((x, y + 1));
        }
        for (nx, ny) in neighbors {
            if (nx, ny) != gap && dist[ny][nx] == usize::MAX {
                dist[ny][nx] = d + 1;
                queue.push_back((nx, ny));
            }
        }
    }
    if dist[to.1][to.0] == usize::MAX {
        None
    } else {
        Some(dist[to.1][to.0])
    }
}

fn direction_changes(p: &[DirectionalCommand]) -> usize {
    let mut n = 0;
    for i in 1..p.len() {
        if p[i - 1] != p[i] {
            n += 1;
        }
    }
    n
}

fn check_table(table: &PairwisePathTable, gap: (usize, usize), bend_limited: bool) {
    let n = table.positions.len();
    for i in 0..n {
        for j in 0..n {
            let entry = &table.entries[i][j];
            if i == j {
                assert!(entry.is_empty());
                continue;
            }
            let a = (table.positions[i].0 as usize, table.positions[i].1 as usize);
            let b = (table.positions[j].0 as usize, table.positions[j].1 as usize);
            let d = bfs_distance(
                table.topology.width as usize,
                table.topology.height as usize,
                gap,
                a,
                b,
            )
            .unwrap();
            assert!(!entry.is_empty());
            for p in entry {
                // every stored route has the breadth-first length
                assert_eq!(p.len(), d);
                if bend_limited {
                    assert!(direction_changes(p) <= 1);
                }
                // the way back is stored for the opposite pair
                let back: Vec<DirectionalCommand> = p.iter().rev().map(|&c| flip(c)).collect();
                assert!(table.entries[j][i].iter().any(|q| *q == back));
            }
        }
    }
}

#[test]
fn tied_minimal_lengths_match_breadth_first_search() {
    let enc = ChainEncoder::new().unwrap();
    check_table(&enc.num_table, (0, 3), true);
    check_table(&enc.dir_table, (0, 0), false);
}

#[test]
fn self_pairs_are_empty() {
    let enc = ChainEncoder::new().unwrap();
    for i in 0..enc.num_table.positions.len() {
        assert!(enc.num_table.entries[i][i].is_empty());
    }
    for i in 0..enc.dir_table.positions.len() {
        assert!(enc.dir_table.entries[i][i].is_empty());
    }
}

#[test]
fn directional_table_keeps_multi_bend_routes() {
    let enc = ChainEncoder::new().unwrap();
    // the numeric table is bend-filtered, the directional one is not
    assert!(enc.num_table.bend_limited);
    assert!(!enc.dir_table.bend_limited);
    let mut saw_multi_bend = false;
    for row in &enc.dir_table.entries {
        for entry in row {
            for p in entry {
                if direction_changes(p) > 1 {
                    saw_multi_bend = true;
                }
            }
        }
    }
    assert!(saw_multi_bend);
}

#[test]
fn level_zero_contains_a_twelve_press_candidate() {
    let cands = encode(0, &code("029A")).unwrap();
    let min = cands.iter().map(|c| c.len()).min().unwrap();
    assert_eq!(min, 12);
}

#[test]
fn shortest_encodings_at_depth_two() {
    assert_eq!(find_shortest_encoding(&code("029A"), 2).unwrap().len(), 68);
    assert_eq!(find_shortest_encoding(&code("980A"), 2).unwrap().len(), 60);
    assert_eq!(find_shortest_encoding(&code("179A"), 2).unwrap().len(), 68);
    assert_eq!(find_shortest_encoding(&code("456A"), 2).unwrap().len(), 64);
    assert_eq!(find_shortest_encoding(&code("379A"), 2).unwrap().len(), 64);
}

#[test]
fn batch_checksum_example() {
    let codes = vec![code("029A"), code("980A"), code("179A"), code("456A"), code("379A")];
    assert_eq!(calculate_checksums(&codes, 2), Some(126384));
}

#[test]
fn checksum_is_deterministic() {
    let codes = vec![code("029A"), code("980A"), code("179A"), code("456A"), code("379A")];
    let a = calculate_checksums(&codes, 2);
    let b = calculate_checksums(&codes, 2);
    assert_eq!(a, b);
    assert!(a.is_some());
}

#[test]
fn deeper_chains_never_shorten_the_encoding() {
    let mut last = 0;
    for depth in 0..5 {
        let len = find_shortest_encoding(&code("029A"), depth).unwrap().len();
        assert!(len >= last);
        last = len;
    }
}

#[test]
fn every_key_code_encodes() {
    let all = code("0123456789A");
    assert!(find_shortest_encoding(&all, 1).is_some());
}
