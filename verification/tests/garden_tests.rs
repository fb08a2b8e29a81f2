use aocr2024::garden::{get_cost_to_fence, get_discounted_cost_to_fence, get_regions};

fn sample_grid() -> Vec<Vec<char>> {
    vec![
        vec!['R', 'R', 'R', 'R', 'I', 'I', 'C', 'C', 'F', 'F'],
        vec!['R', 'R', 'R', 'R', 'I', 'I', 'C', 'C', 'C', 'F'],
        vec!['V', 'V', 'R', 'R', 'R', 'C', 'C', 'F', 'F', 'F'],
        vec!['V', 'V', 'R', 'C', 'C', 'C', 'J', 'F', 'F', 'F'],
        vec!['V', 'V', 'V', 'V', 'C', 'J', 'J', 'C', 'F', 'E'],
        vec!['V', 'V', 'I', 'V', 'C', 'C', 'J', 'J', 'E', 'E'],
        vec!['V', 'V', 'I', 'I', 'I', 'C', 'J', 'J', 'E', 'E'],
        vec!['M', 'I', 'I', 'I', 'I', 'I', 'J', 'J', 'E', 'E'],
        vec!['M', 'I', 'I', 'I', 'S', 'I', 'J', 'E', 'E', 'E'],
        vec!['M', 'M', 'M', 'I', 'S', 'S', 'J', 'E', 'E', 'E'],
    ]
}

fn sorted(mut v: Vec<(usize, usize)>) -> Vec<(usize, usize)> {
    v.sort();
    v
}

#[test]
fn test_get_regions() {
    let regions = get_regions(&sample_grid());
    let expected: Vec<Vec<(usize, usize)>> = vec![
        // R
        vec![
            (0, 0), (1, 0), (2, 0), (3, 0),
            (0, 1), (1, 1), (2, 1), (3, 1),
                            (2, 2), (3, 2), (4, 2),
                            (2, 3),
        ],
        // I
        vec![
            (4, 0), (5, 0),
            (4, 1), (5, 1),
        ],
        // C
        vec![
                                    (6, 0), (7, 0),
                                    (6, 1), (7, 1), (8, 1),
                            (5, 2), (6, 2),
            (3, 3), (4, 3), (5, 3),
                    (4, 4),
                    (4, 5), (5, 5),
                            (5, 6),
        ],
        // F
        vec![
                            (8, 0), (9, 0),
                                    (9, 1),
                    (7, 2), (8, 2), (9, 2),
                    (7, 3), (8, 3), (9, 3),
                            (8, 4),
        ],
        // V
        vec![
            (0, 2), (1, 2),
            (0, 3), (1, 3),
            (0, 4), (1, 4), (2, 4), (3, 4),
            (0, 5), (1, 5),         (3, 5),
            (0, 6), (1, 6),
        ],
        // J
        vec![
                    (6, 3),
            (5, 4), (6, 4),
                    (6, 5), (7, 5),
                    (6, 6), (7, 6),
                    (6, 7), (7, 7),
                    (6, 8),
                    (6, 9),
        ],
        // C
        vec![(7, 4)],
        // E
        vec![
                            (9, 4),
                    (8, 5), (9, 5),
                    (8, 6), (9, 6),
                    (8, 7), (9, 7),
            (7, 8), (8, 8), (9, 8),
            (7, 9), (8, 9), (9, 9),
        ],
        // I
        vec![
                    (2, 5),
                    (2, 6), (3, 6), (4, 6),
            (1, 7), (2, 7), (3, 7), (4, 7), (5, 7),
            (1, 8), (2, 8), (3, 8),         (5, 8),
                            (3, 9),
        ],
        // M
        vec![
            (0, 7),
            (0, 8),
            (0, 9), (1, 9), (2, 9),
        ],
        // S
        vec![
            (4, 8),
            (4, 9), (5, 9),
        ],
    ];
    assert_eq!(regions.len(), expected.len());
    for (index, region) in regions.iter().enumerate() {
        assert_eq!(sorted(region.clone()), sorted(expected[index].clone()));
    }
}

#[test]
fn test_get_cost_to_fence() {
    let regions = get_regions(&sample_grid());
    let costs: Vec<usize> = regions.iter().map(|r| get_cost_to_fence(r)).collect();
    assert_eq!(costs[0], 216, "Cost of region R is not correct");
    assert_eq!(costs[1], 32, "Cost of region I (1) is not correct");
    assert_eq!(costs[2], 392, "Cost of region C (1) is not correct");
    assert_eq!(costs[3], 180, "Cost of region F is not correct");
    assert_eq!(costs[4], 260, "Cost of region V is not correct");
    assert_eq!(costs[5], 220, "Cost of region J is not correct");
    assert_eq!(costs[6], 4, "Cost of region C (2) is not correct");
    assert_eq!(costs[7], 234, "Cost of region E is not correct");
    assert_eq!(costs[8], 308, "Cost of region I (2) is not correct");
    assert_eq!(costs[9], 60, "Cost of region M is not correct");
    assert_eq!(costs[10], 24, "Cost of region S is not correct");
}

#[test]
fn test_get_discounted_cost_to_fence() {
    let regions = get_regions(&sample_grid());
    let costs: Vec<usize> = regions.iter().map(|r| get_discounted_cost_to_fence(r)).collect();
    assert_eq!(costs[0], 120, "Cost of region R is not correct");
    assert_eq!(costs[1], 16, "Cost of region I (1) is not correct");
    assert_eq!(costs[2], 308, "Cost of region C (1) is not correct");
    assert_eq!(costs[3], 120, "Cost of region F is not correct");
    assert_eq!(costs[4], 130, "Cost of region V is not correct");
    assert_eq!(costs[5], 132, "Cost of region J is not correct");
    assert_eq!(costs[6], 4, "Cost of region C (2) is not correct");
    assert_eq!(costs[7], 104, "Cost of region E is not correct");
    assert_eq!(costs[8], 224, "Cost of region I (2) is not correct");
    assert_eq!(costs[9], 30, "Cost of region M is not correct");
    assert_eq!(costs[10], 18, "Cost of region S is not correct");
}

#[test]
fn test_single_plot_region() {
    let grid = vec![vec!['A']];
    let regions = get_regions(&grid);
    assert_eq!(regions, vec![vec![(0, 0)]]);
    assert_eq!(get_cost_to_fence(&regions[0]), 4);
    assert_eq!(get_discounted_cost_to_fence(&regions[0]), 4);
}
