use aocr2024::reports::{count_safe_reports, count_safe_reports_dampened, is_safe, is_safe_dampened, parse_reports};

const SAMPLE: &str = "7 6 4 2 1\n1 2 7 8 9\n9 7 6 2 1\n1 3 2 4 5\n8 6 4 4 1\n1 3 6 7 9";

#[test]
fn test_parse_input() {
    let reports = vec![
        vec![7, 6, 4, 2, 1],
        vec![1, 2, 7, 8, 9],
        vec![9, 7, 6, 2, 1],
        vec![1, 3, 2, 4, 5],
        vec![8, 6, 4, 4, 1],
        vec![1, 3, 6, 7, 9],
    ];
    assert_eq!(parse_reports(SAMPLE).unwrap(), reports);
}

#[test]
fn test_parse_input_rejects_bad_token() {
    assert_eq!(parse_reports("1 2 x 4"), None);
}

#[test]
fn test_is_safe() {
    let report1 = vec![7, 6, 4, 2, 1];
    let report2 = vec![1, 2, 7, 8, 9];
    let report3 = vec![9, 7, 6, 2, 1];
    let report4 = vec![1, 3, 2, 4, 5];
    let report5 = vec![8, 6, 4, 4, 1];
    let report6 = vec![1, 3, 6, 7, 9];

    assert_eq!(is_safe(&report1), true, "Report 1");
    assert_eq!(is_safe(&report2), false, "Report 2");
    assert_eq!(is_safe(&report3), false, "Report 3");
    assert_eq!(is_safe(&report4), false, "Report 4");
    assert_eq!(is_safe(&report5), false, "Report 5");
    assert_eq!(is_safe(&report6), true, "Report 6");
}

#[test]
fn test_count_safe_reports() {
    let reports = vec![
        vec![7, 6, 4, 2, 1],
        vec![1, 2, 7, 8, 9],
        vec![9, 7, 6, 2, 1],
        vec![1, 3, 2, 4, 5],
        vec![8, 6, 4, 4, 1],
        vec![1, 3, 6, 7, 9],
    ];

    assert_eq!(count_safe_reports(&reports), 2);
}

#[test]
fn test_is_safe_dampened() {
    let report1 = vec![7, 6, 4, 2, 1];
    let report2 = vec![1, 2, 7, 8, 9];
    let report3 = vec![9, 7, 6, 2, 1];
    let report4 = vec![1, 3, 2, 4, 5];
    let report5 = vec![8, 6, 4, 4, 1];
    let report6 = vec![1, 3, 6, 7, 9];

    assert_eq!(is_safe_dampened(&report1), true, "Report 1");
    assert_eq!(is_safe_dampened(&report2), false, "Report 2");
    assert_eq!(is_safe_dampened(&report3), false, "Report 3");
    assert_eq!(is_safe_dampened(&report4), true, "Report 4");
    assert_eq!(is_safe_dampened(&report5), true, "Report 5");
    assert_eq!(is_safe_dampened(&report6), true, "Report 6");
}

#[test]
fn test_count_safe_reports_dampened() {
    let reports = vec![
        vec![7, 6, 4, 2, 1],
        vec![1, 2, 7, 8, 9],
        vec![9, 7, 6, 2, 1],
        vec![1, 3, 2, 4, 5],
        vec![8, 6, 4, 4, 1],
        vec![1, 3, 6, 7, 9],
    ];

    assert_eq!(count_safe_reports_dampened(&reports), 4);
}
