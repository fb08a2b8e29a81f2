use aocr2024::trails::{parse_elevations, rate_trailheads, score_trailheads};

fn sample_map() -> Vec<Vec<u32>> {
    vec![
        vec![8, 9, 0, 1, 0, 1, 2, 3],
        vec![7, 8, 1, 2, 1, 8, 7, 4],
        vec![8, 7, 4, 3, 0, 9, 6, 5],
        vec![9, 6, 5, 4, 9, 8, 7, 4],
        vec![4, 5, 6, 7, 8, 9, 0, 3],
        vec![3, 2, 0, 1, 9, 0, 1, 2],
        vec![0, 1, 3, 2, 9, 8, 0, 1],
        vec![1, 0, 4, 5, 6, 7, 3, 2],
    ]
}

#[test]
fn test_parse_elevations() {
    let content = "89010123\n78121874\n87430965\n96549874\n45678903\n32019012\n01329801\n10456732";
    assert_eq!(parse_elevations(content).unwrap(), sample_map());
}

#[test]
fn test_parse_elevations_rejects_letters() {
    assert_eq!(parse_elevations("0123\n45a7"), None);
}

#[test]
fn test_score_trailheads() {
    assert_eq!(score_trailheads(&sample_map()), 36);
}

#[test]
fn test_rate_trailheads() {
    assert_eq!(rate_trailheads(&sample_map()), 81);
}

#[test]
fn test_single_cell_trailhead() {
    let tiny = vec![vec![0]];
    assert_eq!(score_trailheads(&tiny), 0);
    assert_eq!(rate_trailheads(&tiny), 0);
}
