use grid_puzzles::grid::{get, set_cell};

#[test]
fn lookup_is_total() {
    let grid = vec![vec!['a', 'b'], vec!['c']];
    assert_eq!(get(&grid, 0, 1), Some('b'));
    assert_eq!(get(&grid, 1, 0), Some('c'));
    assert_eq!(get(&grid, 1, 1), None);
    assert_eq!(get(&grid, 2, 0), None);
    assert_eq!(get(&grid, usize::MAX, usize::MAX), None);
    let empty: Vec<Vec<u32>> = Vec::new();
    assert_eq!(get(&empty, 0, 0), None);
}

#[test]
fn set_rewrites_one_cell() {
    let mut grid = vec![vec!['.', '.', '<']];
    set_cell(&mut grid, 0, 2, 'X');
    assert_eq!(grid, vec![vec!['.', '.', 'X']]);
}
