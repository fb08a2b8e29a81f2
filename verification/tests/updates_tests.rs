use std::collections::HashMap;
use aocr2024::updates::{parse_update_text, split_valid_and_invalid_updates, sum_of_middle_updates, valid_sort};

const SAMPLE: &str = "47|53\n97|13\n97|61\n97|47\n75|29\n61|13\n75|53\n29|13\n97|29\n53|29\n\
61|53\n97|53\n61|29\n47|13\n75|47\n97|75\n47|61\n75|61\n47|29\n75|13\n53|13\n\
\n\
75,47,61,53,29\n97,61,53,29,13\n75,29,13\n75,97,47,61,53\n61,13,29\n97,13,75,29,47";

fn sample_rules() -> HashMap<usize, Vec<usize>> {
    [
        (47, vec![53, 13, 61, 29]),
        (97, vec![13, 61, 47, 29, 53, 75]),
        (75, vec![29, 53, 47, 61, 13]),
        (61, vec![13, 53, 29]),
        (29, vec![13]),
        (53, vec![29, 13]),
    ]
    .into_iter()
    .collect()
}

fn sample_updates() -> Vec<Vec<usize>> {
    vec![
        vec![75, 47, 61, 53, 29],
        vec![97, 61, 53, 29, 13],
        vec![75, 29, 13],
        vec![75, 97, 47, 61, 53],
        vec![61, 13, 29],
        vec![97, 13, 75, 29, 47],
    ]
}

#[test]
fn test_parse_update_text() {
    assert_eq!(parse_update_text(SAMPLE).unwrap(), (sample_rules(), sample_updates()));
}

#[test]
fn test_parse_update_text_rejects_missing_separator() {
    assert_eq!(parse_update_text("47|53\n1,2,3"), None);
}

#[test]
fn test_split_valid_and_invalid_updates() {
    let rules = sample_rules();
    let updates = sample_updates();
    let valid_updates = vec![
        vec![75, 47, 61, 53, 29],
        vec![97, 61, 53, 29, 13],
        vec![75, 29, 13],
    ];
    let invalid_updates = vec![
        vec![75, 97, 47, 61, 53],
        vec![61, 13, 29],
        vec![97, 13, 75, 29, 47],
    ];

    assert_eq!(
        split_valid_and_invalid_updates(&rules, &updates),
        (valid_updates, invalid_updates)
    );
}

#[test]
fn test_valid_sort() {
    let rules = sample_rules();
    let invalid_updates = vec![
        vec![75, 97, 47, 61, 53],
        vec![61, 13, 29],
        vec![97, 13, 75, 29, 47],
    ];
    let sorted_updates = vec![
        vec![97, 75, 47, 61, 53],
        vec![61, 29, 13],
        vec![97, 75, 47, 29, 13],
    ];

    assert_eq!(valid_sort(&rules, &invalid_updates), sorted_updates)
}

#[test]
fn test_sum_of_middle_updates() {
    let valid_updates = vec![
        vec![75, 47, 61, 53, 29],
        vec![97, 61, 53, 29, 13],
        vec![75, 29, 13],
    ];
    let corrected_invalid_updates = vec![
        vec![97, 75, 47, 61, 53],
        vec![61, 29, 13],
        vec![97, 75, 47, 29, 13],
    ];

    assert_eq!(sum_of_middle_updates(&valid_updates), 143);
    assert_eq!(sum_of_middle_updates(&corrected_invalid_updates), 123);
}
