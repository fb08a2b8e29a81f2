use aocr2024::stones::{apply_rule, apply_rules, blink, blink_count, has_even_digits, parse_stones, split_in_half};

#[test]
fn test_parse_stones() {
    let expected = vec![125, 17];
    let result = parse_stones("125 17").unwrap();
    assert_eq!(result, expected);
}

#[test]
fn test_has_even_digits() {
    assert!(!has_even_digits(1));
    assert!(has_even_digits(10));
    assert!(!has_even_digits(100));
    assert!(has_even_digits(1000));
    assert!(!has_even_digits(10_000));
    assert!(has_even_digits(100_000));
    assert!(!has_even_digits(1_000_000));
    assert!(has_even_digits(10_000_000));
    assert!(!has_even_digits(100_000_000));
}

#[test]
fn test_split_in_half() {
    assert_eq!(split_in_half(1234), (12, 34));
    assert_eq!(split_in_half(567890), (567, 890));
}

#[test]
fn test_apply_rule() {
    assert_eq!(apply_rule(0), vec![1]);
    assert_eq!(apply_rule(10), vec![1, 0]);
    assert_eq!(apply_rule(1234), vec![12, 34]);
    assert_eq!(apply_rule(5), vec![5 * 2024]);
}

#[test]
fn test_apply_rules() {
    assert_eq!(apply_rules(&vec![0, 10, 1234, 5]), vec![1, 1, 0, 12, 34, 5 * 2024]);
}

#[test]
fn test_blink() {
    let stones = vec![10, 1234, 5];
    let result = blink(1, &stones);
    assert_eq!(result, vec![1, 0, 12, 34, 5 * 2024]);

    let result = blink(2, &stones);
    assert_eq!(result, vec![1 * 2024, 1, 1, 2, 3, 4, 5 * 2024 * 2024]);
}

#[test]
fn test_blink_count() {
    let stones = vec![10, 1234, 5];
    let result = blink_count(1, &stones);
    assert_eq!(result, 5);

    let result = blink_count(2, &stones);
    assert_eq!(result, 7);
}

#[test]
fn test_part_1() {
    let stones = parse_stones("125 17").unwrap();
    assert_eq!(blink(6, &stones).len(), 22);
    assert_eq!(blink(25, &stones).len(), 55312);
}

#[test]
fn test_blink_count_matches_blink() {
    let stones = parse_stones("125 17").unwrap();
    assert_eq!(blink_count(6, &stones), blink(6, &stones).len());
}

#[test]
fn test_parse_stones_rejects_bad_token() {
    assert_eq!(parse_stones("125 x"), None);
    assert_eq!(parse_stones("125 -17"), None);
}
