use solvers::disk::{checksum, compact_blocks_fragmented, compact_blocks_whole, discmap_to_blocks, Block};

fn serialize_blocks(blocks: &[Block]) -> String {
    blocks
        .iter()
        .map(|b| match b {
            Block::Empty => '.',
            Block::File(file_id) => std::char::from_digit(*file_id as u32, 10).unwrap(),
        })
        .collect()
}

fn parse_blocks(input: &str) -> Vec<Block> {
    let mut result = vec![];
    for c in input.chars() {
        match c {
            '.' => result.push(Block::Empty),
            _ => result.push(Block::File(c.to_digit(10).unwrap() as usize)),
        }
    }
    result
}

#[test]
fn test_discmap_to_blocks() {
    assert_eq!(discmap_to_blocks("12345"), parse_blocks("0..111....22222"));
    assert_eq!(
        discmap_to_blocks("2333133121414131402"),
        parse_blocks("00...111...2...333.44.5555.6666.777.888899")
    );
}

#[test]
fn test_compact_blocks() {
    assert_eq!(
        compact_blocks_fragmented(&parse_blocks("0..111....22222")),
        parse_blocks("022111222......")
    );
    assert_eq!(
        compact_blocks_fragmented(&parse_blocks("00...111...2...333.44.5555.6666.777.888899")),
        parse_blocks("0099811188827773336446555566..............")
    );
}

#[test]
fn test_compact_blocks_whole() {
    assert_eq!(
        serialize_blocks(&compact_blocks_whole(&parse_blocks(
            "00...111...2...333.44.5555.6666.777.888899"
        ))),
        "00992111777.44.333....5555.6666.....8888.."
    );
}

#[test]
fn test_checksum() {
    assert_eq!(
        checksum(&parse_blocks("0099811188827773336446555566..............")),
        1928
    );
    assert_eq!(
        checksum(&parse_blocks("00992111777.44.333....5555.6666.....8888..")),
        2858
    );
}
