use grid_puzzles::word_search::{count_x_mas, count_xmas};

#[test]
fn horizontal() {
    let input_grid = vec![vec!['X', 'M', 'A', 'S']];
    let result = count_xmas(&input_grid);
    assert_eq!(result, 1);
}

#[test]
fn horizontal_reverse() {
    let input_grid = vec![vec!['S', 'A', 'M', 'X']];
    let result = count_xmas(&input_grid);
    assert_eq!(result, 1);
}

#[test]
fn vertical() {
    let input_grid = vec![vec!['X'], vec!['M'], vec!['A'], vec!['S']];
    let result = count_xmas(&input_grid);
    assert_eq!(result, 1);
}

#[test]
fn vertical_reverse() {
    let input_grid = vec![vec!['S'], vec!['A'], vec!['M'], vec!['X']];
    let result = count_xmas(&input_grid);
    assert_eq!(result, 1);
}

#[test]
fn diagonal_bottom_right() {
    let input_grid = vec![
        vec!['X', 'B', 'B', 'B'],
        vec!['B', 'M', 'B', 'B'],
        vec!['B', 'B', 'A', 'B'],
        vec!['B', 'B', 'B', 'S'],
    ];
    let result = count_xmas(&input_grid);
    assert_eq!(result, 1);
}

#[test]
fn diagonal_bottom_right_reverse() {
    let input_grid = vec![
        vec!['S', 'B', 'B', 'B'],
        vec!['B', 'A', 'B', 'B'],
        vec!['B', 'B', 'M', 'B'],
        vec!['B', 'B', 'B', 'X'],
    ];
    let result = count_xmas(&input_grid);
    assert_eq!(result, 1);
}

#[test]
fn diagonal_bottom_left() {
    let input_grid = vec![
        vec!['B', 'B', 'B', 'X'],
        vec!['B', 'B', 'M', 'B'],
        vec!['B', 'A', 'B', 'B'],
        vec!['S', 'B', 'B', 'B'],
    ];
    let result = count_xmas(&input_grid);
    assert_eq!(result, 1);
}

#[test]
fn diagonal_bottom_left_reverse() {
    let input_grid = vec![
        vec!['B', 'B', 'B', 'S'],
        vec!['B', 'B', 'A', 'B'],
        vec!['B', 'M', 'B', 'B'],
        vec!['X', 'B', 'B', 'B'],
    ];
    let result = count_xmas(&input_grid);
    assert_eq!(result, 1);
}

#[test]
fn forwards() {
    let input_grid = vec![
        vec!['B', 'M', 'B', 'M'],
        vec!['B', 'B', 'A', 'B'],
        vec!['B', 'S', 'B', 'S'],
        vec!['B', 'B', 'B', 'B'],
    ];
    let result = count_x_mas(&input_grid);
    assert_eq!(result, 1);
}

#[test]
fn reverse() {
    let input_grid = vec![
        vec!['B', 'S', 'B', 'S'],
        vec!['B', 'B', 'A', 'B'],
        vec!['B', 'M', 'B', 'M'],
        vec!['B', 'B', 'B', 'B'],
    ];
    let result = count_x_mas(&input_grid);
    assert_eq!(result, 1);
}

#[test]
fn word_search_edges() {
    let empty: Vec<Vec<char>> = Vec::new();
    assert_eq!(count_xmas(&empty), 0);
    assert_eq!(count_xmas(&vec![vec!['X', 'M', 'A']]), 0);
    // Ragged rows: the column template leaves the short second row.
    assert_eq!(count_xmas(&vec![vec!['X', 'B'], vec!['B'], vec!['A', 'B'], vec!['S', 'B']]), 0);
    assert_eq!(count_xmas(&vec![vec!['X', 'M', 'A', 'S', 'A', 'M', 'X']]), 2);
    assert_eq!(count_x_mas(&vec![vec!['M', 'B', 'S'], vec!['B', 'A', 'B'], vec!['M', 'B', 'S']]), 1);
    assert_eq!(count_x_mas(&vec![vec!['M', 'B', 'M'], vec!['B', 'A', 'B'], vec!['M', 'B', 'S']]), 0);
}
