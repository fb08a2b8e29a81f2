use aocr2024::distances::{parse_location_lists, simularity_score, sum_of_distances};

#[test]
fn test_sum_of_distances() {
    let left_list = vec![1, 2, 3, 3, 3, 4];
    let right_list = vec![3, 3, 3, 4, 5, 9];
    assert_eq!(sum_of_distances(&left_list, &right_list), 11);
}

#[test]
fn test_simularity_score() {
    let left_list = vec![1, 2, 3, 3, 3, 4];
    let right_list = vec![3, 3, 3, 4, 5, 9];
    assert_eq!(simularity_score(&left_list, &right_list), 31);
}

#[test]
fn test_parse_file() {
    let content = "3   4\n4   3\n2   5\n1   3\n3   9\n3   3";
    let left_list = vec![1, 2, 3, 3, 3, 4];
    let right_list = vec![3, 3, 3, 4, 5, 9];
    assert_eq!(parse_location_lists(content).unwrap(), (left_list, right_list));
}

#[test]
fn test_parse_skips_short_lines() {
    let content = "1 2\nnote\n3 4";
    assert_eq!(parse_location_lists(content), None);
    let content = "1 2\n7\n3 4";
    assert_eq!(parse_location_lists(content).unwrap(), (vec![1, 3], vec![2, 4]));
}

#[test]
fn test_negative_distances() {
    let left_list = vec![-5];
    let right_list = vec![5];
    assert_eq!(sum_of_distances(&left_list, &right_list), 10);
}
