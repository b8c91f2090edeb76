use solvers::locks::{count_combinations, Key, KeyOrLock, Lock};

#[test]
fn test_parse_key() {
    let input = "\n#####\n.####\n.####\n.####\n.#.#.\n.#...\n.....\n        ";
    let r = KeyOrLock::parse(&input).unwrap();
    assert_eq!(r, KeyOrLock::Lock(Lock(vec![0, 5, 3, 4, 3])));
}

#[test]
fn test_parse_lock() {
    let input = "\n.....\n#....\n#....\n#...#\n#.#.#\n#.###\n#####\n        ";
    let r = KeyOrLock::parse(&input).unwrap();
    assert_eq!(r, KeyOrLock::Key(Key(vec![5, 0, 2, 1, 3])));
}

#[test]
fn test_count_combinations() {
    let input = vec![
        KeyOrLock::Lock(Lock(vec![0, 5, 3, 4, 3])),
        KeyOrLock::Lock(Lock(vec![1, 2, 0, 5, 3])),
        KeyOrLock::Key(Key(vec![5, 0, 2, 1, 3])),
        KeyOrLock::Key(Key(vec![4, 3, 4, 0, 2])),
        KeyOrLock::Key(Key(vec![3, 0, 2, 0, 1])),
    ];
    assert_eq!(count_combinations(&input), 3);
}
