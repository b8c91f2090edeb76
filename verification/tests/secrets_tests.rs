use solvers::secrets::{generate_nth_secret_number, get_next_secret_number, mix, prune};

#[test]
fn test_mix() {
    assert_eq!(mix(42, 15), 37);
}

#[test]
fn test_prune() {
    assert_eq!(prune(100000000), 16113920);
}

#[test]
fn test_generate_nth_secret_number() {
    assert_eq!(generate_nth_secret_number(1, 2000), 8685429);
    assert_eq!(generate_nth_secret_number(10, 2000), 4700978);
    assert_eq!(generate_nth_secret_number(100, 2000), 15273692);
    assert_eq!(generate_nth_secret_number(2024, 2000), 8667524);
}

#[test]
fn test_calculate_next_number() {
    let mut secret_number = 123;
    let mut next_10 = vec![];
    for _ in 0..10 {
        secret_number = get_next_secret_number(secret_number);
        next_10.push(secret_number);
    }
    assert_eq!(
        next_10,
        vec![
            15887950, 16495136, 527345, 704524, 1553684, 12683156, 11100544, 12249484, 7753432,
            5908254,
        ]
    );
}
