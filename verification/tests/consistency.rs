use picross_solver::cell::Cell;
use picross_solver::cell::Cell::{Empty, Filled, Unknown};
use picross_solver::consistency::{is_consistent, is_line_consistent, is_valid};
use picross_solver::grid::Grid;

fn single_column(column: Vec<Cell>, spec: Vec<usize>) -> Grid {
    Grid {
        height: column.len(),
        length: 1,
        cells: column.iter().map(|cell| vec![*cell]).collect(),
        row_spec: vec![vec![]; column.len()],
        col_spec: vec![spec],
    }
}

fn passes(column: Vec<Cell>, spec: Vec<usize>) -> bool {
    let in_grid = is_consistent(&single_column(column.clone(), spec.clone()));
    assert_eq!(is_line_consistent(&column, &spec), in_grid);
    in_grid
}

#[test]
fn nothing_known_is_consistent() {
    assert!(passes(vec![Unknown; 4], vec![2]));
    assert!(passes(vec![Unknown; 4], vec![]));
    assert!(passes(vec![Unknown; 2], vec![5]));
}

#[test]
fn ended_runs_must_be_the_first_blocks() {
    assert!(passes(vec![Filled, Filled, Empty, Unknown], vec![2, 1]));
    assert!(!passes(vec![Filled, Empty, Unknown, Unknown], vec![2]));
    assert!(!passes(vec![Filled, Filled, Filled, Empty, Unknown], vec![2, 1]));
    assert!(passes(vec![Empty, Filled, Empty, Filled, Filled, Empty, Unknown], vec![1, 2]));
    assert!(!passes(vec![Empty, Filled, Empty, Filled, Filled, Empty, Unknown], vec![2, 1]));
}

#[test]
fn an_ended_run_beyond_the_last_block_fails() {
    assert!(!passes(vec![Filled, Empty, Filled, Empty, Unknown], vec![1]));
    assert!(!passes(vec![Filled, Empty, Unknown], vec![]));
}

#[test]
fn a_run_in_progress_may_be_shorter_than_its_block() {
    assert!(passes(vec![Filled, Unknown, Unknown], vec![2]));
    assert!(passes(vec![Filled, Filled, Unknown], vec![2]));
    assert!(passes(vec![Empty, Filled, Unknown, Unknown, Unknown], vec![3]));
}

#[test]
fn a_run_in_progress_must_not_be_longer_than_its_block() {
    assert!(!passes(vec![Filled, Filled, Unknown], vec![1]));
    assert!(!passes(vec![Filled, Empty, Filled, Filled, Unknown], vec![1, 1]));
}

#[test]
fn a_run_in_progress_beyond_the_last_block_fails() {
    assert!(!passes(vec![Filled, Empty, Filled, Unknown], vec![1]));
    assert!(!passes(vec![Filled, Unknown], vec![]));
}

#[test]
fn fewer_blocks_than_asked_pass_while_a_cell_is_unknown() {
    assert!(passes(vec![Filled, Empty, Unknown], vec![1, 1]));
    assert!(passes(vec![Empty, Empty, Unknown], vec![1]));
    assert!(passes(vec![Filled, Empty, Empty, Unknown], vec![1, 3]));
}

#[test]
fn cells_after_the_first_unknown_one_are_not_read() {
    assert!(passes(vec![Unknown, Filled, Filled, Filled], vec![1]));
    assert!(passes(vec![Filled, Empty, Unknown, Filled, Empty, Filled], vec![1, 1]));
}

#[test]
fn a_resolved_line_must_hold_exactly_the_blocks() {
    assert!(passes(vec![Filled, Empty, Filled], vec![1, 1]));
    assert!(passes(vec![Empty, Filled, Filled], vec![2]));
    assert!(passes(vec![Empty, Empty], vec![]));
    assert!(!passes(vec![Filled, Empty, Empty], vec![1, 1]));
    assert!(!passes(vec![Filled, Empty, Filled], vec![1]));
    assert!(!passes(vec![Filled, Filled, Filled], vec![2]));
    assert!(!passes(vec![Empty, Filled, Empty], vec![2]));
    assert!(!passes(vec![Empty, Empty], vec![1]));
    assert!(!passes(vec![Filled, Empty], vec![]));
}

#[test]
fn a_line_of_no_cell() {
    assert!(passes(vec![], vec![]));
    assert!(!passes(vec![], vec![1]));
}

#[test]
fn every_column_is_checked() {
    let mut grid = Grid::new(vec![vec![1], vec![1]], vec![vec![1], vec![1], vec![2]]).unwrap();
    grid.cells = vec![vec![Filled, Empty, Filled], vec![Empty, Unknown, Filled]];
    assert!(is_consistent(&grid));
    grid.cells[1][2] = Empty;
    assert!(!is_consistent(&grid));
    grid.cells[1][2] = Filled;
    grid.cells[1][0] = Filled;
    assert!(!is_consistent(&grid));
}

#[test]
fn rows_are_not_checked() {
    let mut grid = Grid::new(vec![vec![1], vec![1]], vec![vec![1], vec![1]]).unwrap();
    grid.cells = vec![vec![Filled, Filled], vec![Empty, Empty]];
    assert!(is_consistent(&grid));
    assert!(!is_valid(&grid));
}

#[test]
fn a_solved_grid_is_valid() {
    let mut grid = Grid::new(vec![vec![1], vec![2]], vec![vec![1], vec![2]]).unwrap();
    grid.cells = vec![vec![Empty, Filled], vec![Filled, Filled]];
    assert!(is_valid(&grid));
    assert!(is_valid(&Grid::new(vec![], vec![]).unwrap()));
}

#[test]
fn a_grid_with_an_unknown_cell_is_not_valid() {
    let mut grid = Grid::new(vec![vec![1], vec![2]], vec![vec![1], vec![2]]).unwrap();
    assert!(!is_valid(&grid));
    grid.cells = vec![vec![Empty, Filled], vec![Filled, Unknown]];
    assert!(is_consistent(&grid));
    assert!(!is_valid(&grid));
    grid.cells = vec![vec![Unknown, Filled], vec![Filled, Filled]];
    assert!(!is_valid(&grid));
}

#[test]
fn a_grid_with_a_wrong_line_is_not_valid() {
    let mut grid = Grid::new(vec![vec![1], vec![2]], vec![vec![1], vec![2]]).unwrap();
    grid.cells = vec![vec![Filled, Empty], vec![Filled, Filled]];
    assert!(!is_valid(&grid));
    grid.cells = vec![vec![Empty, Filled], vec![Empty, Filled]];
    assert!(!is_valid(&grid));
    grid.cells = vec![vec![Empty, Empty], vec![Empty, Empty]];
    assert!(!is_valid(&grid));
}

#[test]
fn a_grid_without_columns_is_consistent() {
    assert!(is_consistent(&Grid::new(vec![vec![], vec![]], vec![]).unwrap()));
}
