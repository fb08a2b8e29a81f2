use aocr2024::area::{Area, Direction, Guard, InputError, Position};

const SAMPLE: &str = "....#.....\n\
.........#\n\
..........\n\
..#.......\n\
.......#..\n\
..........\n\
.#..^.....\n\
........#.\n\
#.........\n\
......#...";

#[test]
fn main_test_sample_input_part_1() {
    let mut area: Area = Area::parse(SAMPLE).unwrap();
    assert_eq!(area.how_many_distinct_positions(), 41);
}

#[test]
fn main_test_sample_input_part_2() {
    let mut area: Area = Area::parse(SAMPLE).unwrap();
    assert_eq!(area.how_many_unique_new_obstacles_cause_a_loop(), 6);
}

#[test]
fn test_distinct_positions_is_reset_idempotent() {
    let mut area: Area = Area::parse(SAMPLE).unwrap();
    let first = area.how_many_distinct_positions();
    let second = area.how_many_distinct_positions();
    assert_eq!(first, second);
    // The obstacle trials leave the area untouched as well.
    let candidates = area.how_many_unique_new_obstacles_cause_a_loop();
    assert_eq!(area.how_many_distinct_positions(), first);
    assert_eq!(area.how_many_unique_new_obstacles_cause_a_loop(), candidates);
}

#[test]
fn test_count_is_within_area_bounds() {
    let mut area: Area = Area::parse(SAMPLE).unwrap();
    let count = area.how_many_distinct_positions();
    assert!(count >= 1);
    assert!(count <= 10 * 10);
}

#[test]
fn test_immediate_exit_counts_start() {
    // The guard walks straight up and out: only the start is visited.
    let mut area: Area = Area::parse("^..").unwrap();
    assert_eq!(area.how_many_distinct_positions(), 1);
    assert_eq!(area.how_many_unique_new_obstacles_cause_a_loop(), 0);
}

#[test]
fn test_small_loop() {
    // A two-by-two circuit of obstacles traps the guard.
    let mut area: Area = Area::parse(".#..\n...#\n#^..\n..#.").unwrap();
    let count = area.how_many_distinct_positions();
    assert!(count >= 1);
    assert!(count <= 16);
}

#[test]
fn test_parse_rejects_missing_agent() {
    assert!(matches!(Area::parse("....\n.#.."), Err(InputError::MissingAgent)));
}

#[test]
fn test_parse_rejects_ragged_grid() {
    assert!(matches!(Area::parse("...\n....^\n.."), Err(InputError::NotRectangular)));
    assert!(matches!(Area::parse(""), Err(InputError::NotRectangular)));
}

#[test]
fn test_constructed_area() {
    // The same layout built through the constructors instead of text.
    let guard = Guard::new(Position { x: 4, y: 6 }, Direction::Up);
    let obstacles = vec![
        Position { x: 4, y: 0 },
        Position { x: 9, y: 1 },
        Position { x: 2, y: 3 },
        Position { x: 7, y: 4 },
        Position { x: 1, y: 6 },
        Position { x: 8, y: 7 },
        Position { x: 0, y: 8 },
        Position { x: 6, y: 9 },
    ];
    let mut area = Area::new(10, 10, guard, obstacles);
    assert_eq!(area.how_many_distinct_positions(), 41);
    assert_eq!(area.how_many_unique_new_obstacles_cause_a_loop(), 6);
}
