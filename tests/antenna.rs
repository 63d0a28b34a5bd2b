use grid_puzzles::antenna::AntennaMap;

fn expected_map(rows: &[&str], antenna_locs: Vec<(char, Vec<(usize, usize)>)>) -> AntennaMap {
    AntennaMap {
        map: rows.iter().map(|row| row.chars().collect()).collect(),
        antenna_locs,
    }
}

#[test]
fn antenna_map_creation() {
    let input = ".aa.\n....\n....";
    let map = AntennaMap::new(input);
    let expected = AntennaMap {
        map: vec![
            vec!['.', 'a', 'a', '.'],
            vec!['.', '.', '.', '.'],
            vec!['.', '.', '.', '.'],
        ],
        antenna_locs: vec![('a', vec![(0, 1), (0, 2)])],
    };

    assert_eq!(map, expected);
}

#[test]
fn main_test_antinode_creation_horizontal() {
    let input = ".aa.\n....\n....";
    let map = AntennaMap::new(input);
    let filled_map = map.fill_antinodes();
    let expected = AntennaMap {
        map: vec![
            vec!['#', 'a', 'a', '#'],
            vec!['.', '.', '.', '.'],
            vec!['.', '.', '.', '.'],
        ],
        antenna_locs: vec![('a', vec![(0, 1), (0, 2)])],
    };

    assert_eq!(filled_map, expected);
}

#[test]
fn main_test_antinode_creation_vertical() {
    let input = ".a..\n.a..\n....";
    let map = AntennaMap::new(input);
    let filled_map = map.fill_antinodes();
    let expected = AntennaMap {
        map: vec![
            vec!['.', 'a', '.', '.'],
            vec!['.', 'a', '.', '.'],
            vec!['.', '#', '.', '.'],
        ],
        antenna_locs: vec![('a', vec![(0, 1), (1, 1)])],
    };

    assert_eq!(filled_map, expected);
}

#[test]
fn main_test_antinode_creation_diagonal() {
    let input = ".a..\n..a.\n....";
    let map = AntennaMap::new(input);
    let filled_map = map.fill_antinodes();
    let expected = AntennaMap {
        map: vec![
            vec!['.', 'a', '.', '.'],
            vec!['.', '.', 'a', '.'],
            vec!['.', '.', '.', '#'],
        ],
        antenna_locs: vec![('a', vec![(0, 1), (1, 2)])],
    };

    assert_eq!(filled_map, expected);
}

#[test]
fn resonant_map_creation() {
    let input = ".aa.\n....\n....";
    let map = AntennaMap::new(input);
    let expected = expected_map(&[".aa.", "....", "...."], vec![('a', vec![(0, 1), (0, 2)])]);
    assert_eq!(map, expected);
}

#[test]
fn test_antinode_creation_horizontal() {
    let input = ".aa..\n.....\n.....";
    let map = AntennaMap::new(input);
    let filled_map = map.fill_resonant_antinodes();
    let expected = AntennaMap {
        map: vec![
            vec!['#', '#', '#', '#', '#'],
            vec!['.', '.', '.', '.', '.'],
            vec!['.', '.', '.', '.', '.'],
        ],
        antenna_locs: vec![('a', vec![(0, 1), (0, 2)])],
    };

    assert_eq!(filled_map, expected);
}

#[test]
fn test_antinode_creation_vertical() {
    let input = ".a..\n.a..\n....\n....";
    let map = AntennaMap::new(input);
    let filled_map = map.fill_resonant_antinodes();
    let expected = AntennaMap {
        map: vec![
            vec!['.', '#', '.', '.'],
            vec!['.', '#', '.', '.'],
            vec!['.', '#', '.', '.'],
            vec!['.', '#', '.', '.'],
        ],
        antenna_locs: vec![('a', vec![(0, 1), (1, 1)])],
    };

    assert_eq!(filled_map, expected);
}

#[test]
fn test_antinode_creation_diagonal() {
    let input = ".a...\n..a..\n.....\n.....";
    let map = AntennaMap::new(input);
    let filled_map = map.fill_resonant_antinodes();
    let expected = AntennaMap {
        map: vec![
            vec!['.', '#', '.', '.', '.'],
            vec!['.', '.', '#', '.', '.'],
            vec!['.', '.', '.', '#', '.'],
            vec!['.', '.', '.', '.', '#'],
        ],
        antenna_locs: vec![('a', vec![(0, 1), (1, 2)])],
    };

    assert_eq!(filled_map, expected);
}

#[test]
fn test_antinode_creation_diagonal_inbetween() {
    let input = ".....\n.a...\n.....\n...a.\n.....";
    let map = AntennaMap::new(input);
    let filled_map = map.fill_resonant_antinodes();
    let expected = AntennaMap {
        map: vec![
            vec!['#', '.', '.', '.', '.'],
            vec!['.', '#', '.', '.', '.'],
            vec!['.', '.', '#', '.', '.'],
            vec!['.', '.', '.', '#', '.'],
            vec!['.', '.', '.', '.', '#'],
        ],
        antenna_locs: vec![('a', vec![(1, 1), (3, 3)])],
    };

    assert_eq!(filled_map, expected);
}

#[test]
fn test_antinode_creation_horizontal_inbetween() {
    let input = ".....\n.....\n.a.a.\n.....\n.....";
    let map = AntennaMap::new(input);
    let filled_map = map.fill_resonant_antinodes();
    let expected = AntennaMap {
        map: vec![
            vec!['.', '.', '.', '.', '.'],
            vec!['.', '.', '.', '.', '.'],
            vec!['#', '#', '#', '#', '#'],
            vec!['.', '.', '.', '.', '.'],
            vec!['.', '.', '.', '.', '.'],
        ],
        antenna_locs: vec![('a', vec![(2, 1), (2, 3)])],
    };

    assert_eq!(filled_map, expected);
}

#[test]
fn test_antinode_single_antenna() {
    let input = ".....\n.....\n..a..\n.....\n.....";
    let map = AntennaMap::new(input);
    let filled_map = map.fill_resonant_antinodes();
    let expected = AntennaMap {
        map: vec![
            vec!['.', '.', '.', '.', '.'],
            vec!['.', '.', '.', '.', '.'],
            vec!['.', '.', 'a', '.', '.'],
            vec!['.', '.', '.', '.', '.'],
            vec!['.', '.', '.', '.', '.'],
        ],
        antenna_locs: vec![('a', vec![(2, 2)])],
    };

    assert_eq!(filled_map, expected);
}

#[test]
fn reflection_two_apart_lands_on_both_sides() {
    // Antennas two columns apart: the mirror images lie two further out on each
    // side, exactly where the line through them meets those columns.
    let map = AntennaMap::new(".......\n.a.a...\n.......");
    let mirrored = map.fill_antinodes();
    assert_eq!(mirrored.map[1], vec!['.', 'a', '.', 'a', '.', '#', '.']);
    let map = AntennaMap::new("#......\n.......\n.a.....\n.......\n...a...\n.......\n.......");
    let mirrored = map.fill_antinodes();
    assert_eq!(mirrored.map[6][5], '#');
    assert_eq!(mirrored.map[0][0], '#');
}

#[test]
fn labels_group_separately() {
    let map = AntennaMap::new("a.b\n.b.\na..");
    assert_eq!(map.antenna_locs, vec![('a', vec![(0, 0), (2, 0)]), ('b', vec![(0, 2), (1, 1)])]);
    assert_eq!(map.num_rows(), 3);
    assert_eq!(map.num_cols(), 3);
    let filled = map.fill_antinodes();
    assert_eq!(filled.map, vec![vec!['a', '.', 'b'], vec!['.', 'b', '.'], vec!['#', '.', '.']]);
}
