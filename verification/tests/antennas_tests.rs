use aocr2024::antennas::{get_antinodes, parse_antenna_map, AntennaMap, Position};

#[test]
fn test_get_antinodes() {
    let antenna1 = Position { x: 1, y: 1 };
    let antenna2 = Position { x: 3, y: 3 };
    let antinodes = get_antinodes(&antenna1, &antenna2);
    assert_eq!(antinodes[0], Position { x: -1, y: -1 });
    assert_eq!(antinodes[1], Position { x: 5, y: 5 });
}

#[test]
fn test_in_bounds() {
    let map = AntennaMap::new(10, 10);
    assert!(map.in_bounds(&Position { x: 5, y: 5 }));
    assert!(!map.in_bounds(&Position { x: 10, y: 10 }));
    assert!(!map.in_bounds(&Position { x: -1, y: -1 }));
}

#[test]
fn test_count_all_antinodes_in_bounds() {
    let mut map = AntennaMap::new(10, 10);
    map.insert_antenna('A', Position { x: 3, y: 3 });
    map.insert_antenna('A', Position { x: 5, y: 5 });
    assert_eq!(map.count_all_antinodes_in_bounds(), 2);
}

#[test]
fn test_count_all_antinodes_out_of_bounds() {
    let mut map = AntennaMap::new(10, 10);
    map.insert_antenna('A', Position { x: 1, y: 1 });
    map.insert_antenna('A', Position { x: 9, y: 9 });
    assert_eq!(map.count_all_antinodes_in_bounds(), 0);
}

fn sample_map() -> AntennaMap {
    // The widely used reference layout: a 12 by 12 grid with four `0`
    // antennas and three `A` antennas.
    let mut map = AntennaMap::new(12, 12);
    map.insert_antenna('0', Position { x: 8, y: 1 });
    map.insert_antenna('0', Position { x: 5, y: 2 });
    map.insert_antenna('0', Position { x: 7, y: 3 });
    map.insert_antenna('0', Position { x: 4, y: 4 });
    map.insert_antenna('A', Position { x: 6, y: 5 });
    map.insert_antenna('A', Position { x: 8, y: 8 });
    map.insert_antenna('A', Position { x: 9, y: 9 });
    map
}

#[test]
fn test_sample_input() {
    let map = sample_map();
    assert_eq!(map.count_all_antinodes_in_bounds(), 14);
}

#[test]
fn test_sample_input_resonant_harmonics() {
    let map = sample_map();
    assert_eq!(map.count_all_antinodes_with_resonant_harmonics_in_bounds(), 34);
}

#[test]
fn test_parse_antenna_map() {
    let content = "............\n........0...\n.....0......\n.......0....\n....0.......\n\
......A.....\n............\n............\n........A...\n.........A..\n............\n............";
    let map = parse_antenna_map(content).unwrap();
    assert_eq!(map.count_all_antinodes_in_bounds(), 14);
    assert_eq!(map.count_all_antinodes_with_resonant_harmonics_in_bounds(), 34);
}

#[test]
fn test_get_antinodes_with_resonant_harmonics() {
    let map = AntennaMap::new(10, 10);
    let antenna1 = Position { x: 2, y: 2 };
    let antenna2 = Position { x: 4, y: 4 };
    let antinodes = map.get_antinodes_with_resonant_harmonics(&antenna1, &antenna2);
    // Every point of the diagonal at multiples of (2, 2) from either
    // antenna, inside the grid.
    let mut found: Vec<(i32, i32)> = antinodes.iter().map(|p| (p.x, p.y)).collect();
    found.sort();
    assert_eq!(found, vec![(0, 0), (2, 2), (4, 4), (6, 6), (8, 8)]);
}

#[test]
fn test_duplicate_antenna_ignored() {
    let mut map = AntennaMap::new(10, 10);
    map.insert_antenna('A', Position { x: 3, y: 3 });
    map.insert_antenna('A', Position { x: 3, y: 3 });
    map.insert_antenna('A', Position { x: 5, y: 5 });
    assert_eq!(map.count_all_antinodes_in_bounds(), 2);
}
