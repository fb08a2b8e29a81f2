use aocr2024::disk::{compact_blocks, compact_files, compute_checksum, parse_disk_map, FileBlock};

fn sample_blocks() -> Vec<FileBlock> {
    //00...111...2...333.44.5555.6666.777.888899
    vec![
        FileBlock { id: 0, position: 0 },
        FileBlock { id: 0, position: 1 },
        FileBlock { id: 1, position: 5 },
        FileBlock { id: 1, position: 6 },
        FileBlock { id: 1, position: 7 },
        FileBlock { id: 2, position: 11 },
        FileBlock { id: 3, position: 15 },
        FileBlock { id: 3, position: 16 },
        FileBlock { id: 3, position: 17 },
        FileBlock { id: 4, position: 19 },
        FileBlock { id: 4, position: 20 },
        FileBlock { id: 5, position: 22 },
        FileBlock { id: 5, position: 23 },
        FileBlock { id: 5, position: 24 },
        FileBlock { id: 5, position: 25 },
        FileBlock { id: 6, position: 27 },
        FileBlock { id: 6, position: 28 },
        FileBlock { id: 6, position: 29 },
        FileBlock { id: 6, position: 30 },
        FileBlock { id: 7, position: 32 },
        FileBlock { id: 7, position: 33 },
        FileBlock { id: 7, position: 34 },
        FileBlock { id: 8, position: 36 },
        FileBlock { id: 8, position: 37 },
        FileBlock { id: 8, position: 38 },
        FileBlock { id: 8, position: 39 },
        FileBlock { id: 9, position: 40 },
        FileBlock { id: 9, position: 41 },
    ]
}

#[test]
fn main_test_parse_input() {
    assert_eq!(parse_disk_map("2333133121414131402").unwrap(), sample_blocks());
}

#[test]
fn test_parse_disk_map_rejects_letters() {
    assert_eq!(parse_disk_map("23x3"), None);
}

#[test]
fn test_compacting_blocks() {
    let compacted_blocks = compact_blocks(&sample_blocks());
    // 0099811188827773336446555566
    let expected = vec![
        FileBlock { id: 0, position: 0 },
        FileBlock { id: 0, position: 1 },
        FileBlock { id: 9, position: 2 },
        FileBlock { id: 9, position: 3 },
        FileBlock { id: 8, position: 4 },
        FileBlock { id: 1, position: 5 },
        FileBlock { id: 1, position: 6 },
        FileBlock { id: 1, position: 7 },
        FileBlock { id: 8, position: 8 },
        FileBlock { id: 8, position: 9 },
        FileBlock { id: 8, position: 10 },
        FileBlock { id: 2, position: 11 },
        FileBlock { id: 7, position: 12 },
        FileBlock { id: 7, position: 13 },
        FileBlock { id: 7, position: 14 },
        FileBlock { id: 3, position: 15 },
        FileBlock { id: 3, position: 16 },
        FileBlock { id: 3, position: 17 },
        FileBlock { id: 6, position: 18 },
        FileBlock { id: 4, position: 19 },
        FileBlock { id: 4, position: 20 },
        FileBlock { id: 6, position: 21 },
        FileBlock { id: 5, position: 22 },
        FileBlock { id: 5, position: 23 },
        FileBlock { id: 5, position: 24 },
        FileBlock { id: 5, position: 25 },
        FileBlock { id: 6, position: 26 },
        FileBlock { id: 6, position: 27 },
    ];
    assert_eq!(compacted_blocks, expected);
}

#[test]
fn test_compacting_files() {
    let compacted_files = compact_files(&sample_blocks());
    // 00992111777.44.333....5555.6666.....8888..
    let expected = vec![
        FileBlock { id: 0, position: 0 },
        FileBlock { id: 0, position: 1 },
        FileBlock { id: 9, position: 2 },
        FileBlock { id: 9, position: 3 },
        FileBlock { id: 2, position: 4 },
        FileBlock { id: 1, position: 5 },
        FileBlock { id: 1, position: 6 },
        FileBlock { id: 1, position: 7 },
        FileBlock { id: 7, position: 8 },
        FileBlock { id: 7, position: 9 },
        FileBlock { id: 7, position: 10 },
        FileBlock { id: 4, position: 12 },
        FileBlock { id: 4, position: 13 },
        FileBlock { id: 3, position: 15 },
        FileBlock { id: 3, position: 16 },
        FileBlock { id: 3, position: 17 },
        FileBlock { id: 5, position: 22 },
        FileBlock { id: 5, position: 23 },
        FileBlock { id: 5, position: 24 },
        FileBlock { id: 5, position: 25 },
        FileBlock { id: 6, position: 27 },
        FileBlock { id: 6, position: 28 },
        FileBlock { id: 6, position: 29 },
        FileBlock { id: 6, position: 30 },
        FileBlock { id: 8, position: 36 },
        FileBlock { id: 8, position: 37 },
        FileBlock { id: 8, position: 38 },
        FileBlock { id: 8, position: 39 },
    ];
    assert_eq!(compacted_files, expected);
}

#[test]
fn test_checksum() {
    let compacted_blocks = compact_blocks(&sample_blocks());
    let checksum = compute_checksum(compacted_blocks);
    assert_eq!(checksum, 1928);
}

#[test]
fn test_sample_input_part_1() {
    let blocks = parse_disk_map("2333133121414131402").unwrap();
    let compacted_blocks = compact_blocks(&blocks);
    let checksum = compute_checksum(compacted_blocks);
    assert_eq!(checksum, 1928);
}

#[test]
fn test_sample_input_part_2() {
    let blocks = parse_disk_map("2333133121414131402").unwrap();
    let compacted_blocks = compact_files(&blocks);
    let checksum = compute_checksum(compacted_blocks);
    assert_eq!(checksum, 2858);
}
