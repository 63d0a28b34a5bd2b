use grid_puzzles::disk::{
    checksum, compact_blocks, create_block, parse_disk_map, shift_blocks, single_block_checksum, Block,
};

#[test]
fn main_test_create_block() {
    let block = create_block(3, "9".to_string());
    assert_eq!(block, vec!["9", "9", "9"]);
}

#[test]
fn test_create_empty_space() {
    let block = create_block(5, ".".to_string());
    assert_eq!(block, vec![".", ".", ".", ".", "."]);
}

#[test]
fn test_create_block() {
    let block = Block::new(3, Some(9));
    assert_eq!(
        block,
        Block {
            size: 3,
            val: Some(9)
        }
    );
}

#[test]
fn create_no_blocks() {
    assert!(create_block(0, "1".to_string()).is_empty());
}

#[test]
fn test_shift_blocks() {
    let mut blocks = vec![
        Block::new(2, Some(0)),
        Block::new(3, None),
        Block::new(3, Some(1)),
    ];
    shift_blocks(&mut blocks);

    assert_eq!(
        blocks,
        vec![
            Block::new(2, Some(0)),
            Block::new(3, Some(1)),
            Block::new(3, None)
        ]
    );
}

#[test]
fn shift_blocks_moves_whole_files_left() {
    let mut blocks = parse_disk_map("2333133121414131402").unwrap();
    shift_blocks(&mut blocks);
    assert_eq!(checksum(&blocks), 2858);
    assert_eq!(blocks[1], Block::new(2, Some(9)));
    assert_eq!(blocks[2], Block::new(1, Some(2)));
}

#[test]
fn shift_blocks_leaves_files_without_room() {
    let mut blocks = vec![Block::new(1, Some(0)), Block::new(1, None), Block::new(2, Some(1))];
    shift_blocks(&mut blocks);
    assert_eq!(blocks, vec![Block::new(1, Some(0)), Block::new(1, None), Block::new(2, Some(1))]);
    let mut empty: Vec<Block> = Vec::new();
    shift_blocks(&mut empty);
    assert!(empty.is_empty());
}

#[test]
fn compact_moves_last_blocks_into_gaps() {
    let mut blocks: Vec<String> = Vec::new();
    for (idx, size) in [1usize, 2, 3, 4, 5].iter().enumerate() {
        let val = if idx % 2 == 0 { (idx / 2).to_string() } else { ".".to_string() };
        blocks.extend(create_block(*size, val));
    }
    compact_blocks(&mut blocks);
    let text: String = blocks.concat();
    assert_eq!(text, "022111222......");
}

#[test]
fn compact_without_free_space_keeps_blocks() {
    let mut blocks = vec!["0".to_string(), "1".to_string()];
    compact_blocks(&mut blocks);
    assert_eq!(blocks, vec!["0", "1"]);
    let mut blocks = vec![".".to_string(), ".".to_string()];
    compact_blocks(&mut blocks);
    assert_eq!(blocks, vec![".", "."]);
}

#[test]
fn disk_map_checksums() {
    let runs = parse_disk_map("2333133121414131402").unwrap();
    assert_eq!(runs[0], Block::new(2, Some(0)));
    assert_eq!(runs[1], Block::new(3, None));
    assert_eq!(runs[18], Block::new(2, Some(9)));
    let mut blocks: Vec<String> = Vec::new();
    for run in &runs {
        let val = match run.val {
            Some(file) => file.to_string(),
            None => ".".to_string(),
        };
        blocks.extend(create_block(usize::from(run.size), val));
    }
    compact_blocks(&mut blocks);
    assert_eq!(single_block_checksum(&blocks), Some(1928));
    let mut runs = runs;
    shift_blocks(&mut runs);
    assert_eq!(checksum(&runs), 2858);
}

#[test]
fn disk_map_errors() {
    assert_eq!(parse_disk_map("12a"), None);
    assert_eq!(parse_disk_map(""), Some(Vec::new()));
    assert_eq!(single_block_checksum(&vec!["0".to_string(), "x".to_string()]), None);
    assert_eq!(checksum(&vec![Block::new(0, Some(5)), Block::new(3, Some(2))]), 6);
}
