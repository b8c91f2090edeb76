use solvers::wordsearch::{
    count_word_occurences, count_word_occurences_in_iter, find_cross_occurences, DiagonalDirection,
    DiagonalIter,
};

fn chars(s: &str) -> Vec<char> {
    s.chars().collect()
}

fn scan(text: &str, word: &str) -> usize {
    count_word_occurences_in_iter(&chars(text), &chars(word))
}

#[test]
fn test_count_words_in_iter() {
    assert_eq!(scan("XMAS", "XMAS"), 1);
    assert_eq!(scan("SAMX", "XMAS"), 1);
    assert_eq!(scan("....XXMAS.", "XMAS"), 1);
    assert_eq!(scan("XMASAS", "XMAS"), 1);
    assert_eq!(scan("AAXMAS", "XMAS"), 1);
    assert_eq!(scan("..SAMX", "XMAS"), 1);
    assert_eq!(scan("XMASAMX", "XMAS"), 2);
}

#[test]
fn test_diagonal_iter_top_left_square() {
    let input = "ABC\nDEF\nGHI";
    let cs: Vec<char> = input.chars().filter(|c| c != &'\n').collect();
    for (x, y, expected) in [
        (0, 2, vec!['G']),
        (0, 1, vec!['D', 'H']),
        (0, 0, vec!['A', 'E', 'I']),
        (1, 0, vec!['B', 'F']),
        (2, 0, vec!['C']),
    ] {
        let mut it = DiagonalIter::new(&cs, DiagonalDirection::TopLeftToBottomRight, 3, 3, x, y);
        assert_eq!(it.collect_chars(), expected);
    }
    for (x, y, expected) in [
        (2, 2, vec!['I']),
        (2, 1, vec!['F', 'H']),
        (2, 0, vec!['C', 'E', 'G']),
        (1, 0, vec!['B', 'D']),
        (0, 0, vec!['A']),
    ] {
        let mut it = DiagonalIter::new(&cs, DiagonalDirection::TopRightToBottomLeft, 3, 3, x, y);
        assert_eq!(it.collect_chars(), expected);
    }
}

#[test]
fn test_diagonal_iter_tall() {
    let input = "AB\nCD\nEF\nGH";
    let cs: Vec<char> = input.chars().filter(|c| c != &'\n').collect();
    for (x, y, expected) in [
        (0, 3, vec!['G']),
        (0, 2, vec!['E', 'H']),
        (0, 1, vec!['C', 'F']),
        (0, 0, vec!['A', 'D']),
        (1, 0, vec!['B']),
    ] {
        let mut it = DiagonalIter::new(&cs, DiagonalDirection::TopLeftToBottomRight, 2, 4, x, y);
        assert_eq!(it.collect_chars(), expected);
    }
    for (x, y, expected) in [
        (0, 0, vec!['A']),
        (1, 0, vec!['B', 'C']),
        (1, 1, vec!['D', 'E']),
        (1, 2, vec!['F', 'G']),
        (1, 3, vec!['H']),
    ] {
        let mut it = DiagonalIter::new(&cs, DiagonalDirection::TopRightToBottomLeft, 2, 4, x, y);
        assert_eq!(it.collect_chars(), expected);
    }
}

#[test]
fn test_diagonal_iter_wide() {
    let input = "ABCD\nEFGH";
    let cs: Vec<char> = input.chars().filter(|c| c != &'\n').collect();
    for (x, y, expected) in [
        (0, 1, vec!['E']),
        (0, 0, vec!['A', 'F']),
        (1, 0, vec!['B', 'G']),
        (2, 0, vec!['C', 'H']),
        (3, 0, vec!['D']),
    ] {
        let mut it = DiagonalIter::new(&cs, DiagonalDirection::TopLeftToBottomRight, 4, 2, x, y);
        assert_eq!(it.collect_chars(), expected);
    }
    for (x, y, expected) in [
        (0, 0, vec!['A']),
        (1, 0, vec!['B', 'E']),
        (2, 0, vec!['C', 'F']),
        (3, 0, vec!['D', 'G']),
        (3, 1, vec!['H']),
    ] {
        let mut it = DiagonalIter::new(&cs, DiagonalDirection::TopRightToBottomLeft, 4, 2, x, y);
        assert_eq!(it.collect_chars(), expected);
    }
}

#[test]
fn test_count_word_occurences_top_left() {
    let input = "\nXMAS\nMM..\nA.A.\nS..S\n        ".trim();
    assert_eq!(count_word_occurences(input, "XMAS"), 3);
}

#[test]
fn test_count_word_occurences_top_right() {
    let input = "\nSAMX\n..MM\n.A.A\nS..S\n        ".trim();
    assert_eq!(count_word_occurences(input, "XMAS"), 3);
}

#[test]
fn test_count_word_occurences_bottom_right() {
    let input = "\nS..S\n.A.A\n..MM\nSAMX\n        ".trim();
    assert_eq!(count_word_occurences(input, "XMAS"), 3);
}

#[test]
fn test_count_word_occurences_bottom_left() {
    let input = "\nS..S\nA.A.\nMM..\nXMAS\n        ".trim();
    assert_eq!(count_word_occurences(input, "XMAS"), 3);
}

#[test]
fn test_count_word_occurences_small() {
    let input = "\n..X...\n.SAMX.\n.A..A.\nXMAS.S\n.X....\n        ".trim();
    let horizontal_forward = 1;
    let horizontal_backward = 1;
    let vertical_forward = 0;
    let vertical_backward = 1;
    let diagonal_forward = 1;
    let total = horizontal_forward + horizontal_backward + vertical_forward + vertical_backward
        + diagonal_forward;
    assert_eq!(count_word_occurences(input, "XMAS"), total);
}

#[test]
fn test_count_word_occurences_large() {
    let input = "\n....XXMAS.\n.SAMXMS...\n...S..A...\n..A.A.MS.X\nXMASAMX.MM\nX.....XA.A\nS.S.S.S.SS\n.A.A.A.A.A\n..M.M.M.MM\n.X.X.XMASX\n            ".trim();
    assert_eq!(count_word_occurences(input, "XMAS"), 18);
}

#[test]
fn find_crosses_single() {
    let input = "\nM.S\n.A.\nM.S\n            ".trim();
    assert_eq!(find_cross_occurences(input, "MAS"), 1);
}

#[test]
fn find_crosses_large() {
    let input = "\n.M.S......\n..A..MSMS.\n.M.S.MAA..\n..A.ASMSM.\n.M.S.M....\n..........\nS.S.S.S.S.\n.A.A.A.A..\nM.M.M.M.M.\n..........\n            ".trim();
    assert_eq!(find_cross_occurences(input, "MAS"), 9);
}
