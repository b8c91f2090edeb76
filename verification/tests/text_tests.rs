use solvers::text::{chars_of, parse_u64, split_lines, trim};

#[test]
fn trim_and_split() {
    let cs = chars_of("  a\nbc\n  ");
    let t = trim(&cs);
    assert_eq!(t, vec!['a', '\n', 'b', 'c']);
    let lines = split_lines(&t);
    assert_eq!(lines, vec![vec!['a'], vec!['b', 'c']]);
}

#[test]
fn parse_digits() {
    assert_eq!(parse_u64(&chars_of("042")), Some(42));
    assert_eq!(parse_u64(&chars_of("")), None);
    assert_eq!(parse_u64(&chars_of("4x2")), None);
    assert_eq!(parse_u64(&chars_of("18446744073709551615")), Some(u64::MAX));
    assert_eq!(parse_u64(&chars_of("18446744073709551616")), None);
}
