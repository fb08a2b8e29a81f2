use aocr2024::wordsearch::{count_of_x_mas, count_of_xmas, get_offset, parse_grid};

fn sample_grid() -> Vec<Vec<char>> {
    vec![
        vec!['M', 'M', 'M', 'S', 'X', 'X', 'M', 'A', 'S', 'M'],
        vec!['M', 'S', 'A', 'M', 'X', 'M', 'S', 'M', 'S', 'A'],
        vec!['A', 'M', 'X', 'S', 'X', 'M', 'A', 'A', 'M', 'M'],
        vec!['M', 'S', 'A', 'M', 'A', 'S', 'M', 'S', 'M', 'X'],
        vec!['X', 'M', 'A', 'S', 'A', 'M', 'X', 'A', 'M', 'M'],
        vec!['X', 'X', 'A', 'M', 'M', 'X', 'X', 'A', 'M', 'A'],
        vec!['S', 'M', 'S', 'M', 'S', 'A', 'S', 'X', 'S', 'S'],
        vec!['S', 'A', 'X', 'A', 'M', 'A', 'S', 'A', 'A', 'A'],
        vec!['M', 'A', 'M', 'M', 'M', 'X', 'M', 'M', 'M', 'M'],
        vec!['M', 'X', 'M', 'X', 'A', 'X', 'M', 'A', 'S', 'X'],
    ]
}

#[test]
fn test_parse_grid() {
    let content = "MMMSXXMASM\nMSAMXMSMSA\nAMXSXMAAMM\nMSAMASMSMX\nXMASAMXAMM\n\
XXAMMXXAMA\nSMSMSASXSS\nSAXAMASAAA\nMAMMMXMMMM\nMXMXAXMASX";
    assert_eq!(parse_grid(content), sample_grid());
}

#[test]
fn test_count_of_xmas() {
    assert_eq!(count_of_xmas(&sample_grid()), 18);
}

#[test]
fn test_count_of_x_mas() {
    assert_eq!(count_of_x_mas(&sample_grid()), 9);
}

#[test]
fn test_get_offset() {
    assert_eq!(get_offset(0), (1, 0));
    assert_eq!(get_offset(1), (1, 1));
    assert_eq!(get_offset(2), (0, 1));
    assert_eq!(get_offset(3), (-1, 1));
    assert_eq!(get_offset(4), (-1, 0));
    assert_eq!(get_offset(5), (-1, -1));
    assert_eq!(get_offset(6), (0, -1));
    assert_eq!(get_offset(7), (1, -1));
}
