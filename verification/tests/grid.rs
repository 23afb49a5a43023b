use picross_solver::cell::Cell::{Empty, Filled, Unknown};
use picross_solver::grid::Grid;

fn unchecked(row_spec: Vec<Vec<usize>>, col_spec: Vec<Vec<usize>>) -> Grid {
    let height = row_spec.len();
    let length = col_spec.len();
    Grid { height, length, cells: vec![vec![Unknown; length]; height], row_spec, col_spec }
}

#[test]
fn new_grid_knows_nothing() {
    let grid = Grid::new(vec![vec![1], vec![2]], vec![vec![1], vec![1], vec![1]]).unwrap();
    assert_eq!(grid.height, 2);
    assert_eq!(grid.length, 3);
    assert_eq!(grid.cells, vec![vec![Unknown; 3]; 2]);
    assert_eq!(grid.row_spec, vec![vec![1], vec![2]]);
    assert_eq!(grid.col_spec, vec![vec![1], vec![1], vec![1]]);
    assert!(grid.is_well_formed());
}

#[test]
fn empty_grid_is_well_formed() {
    let grid = Grid::new(vec![], vec![]).unwrap();
    assert_eq!(grid.height, 0);
    assert_eq!(grid.length, 0);
    assert!(grid.is_well_formed());
}

#[test]
fn lines_without_blocks_are_accepted() {
    let grid = Grid::new(vec![vec![], vec![]], vec![vec![]]).unwrap();
    assert_eq!(grid.cells, vec![vec![Unknown], vec![Unknown]]);
    assert!(Grid::new(vec![], vec![vec![], vec![]]).is_some());
}

#[test]
fn a_block_of_no_cell_is_malformed() {
    assert!(Grid::new(vec![vec![0]], vec![vec![1]]).is_none());
    assert!(Grid::new(vec![vec![1]], vec![vec![0]]).is_none());
    assert!(Grid::new(vec![vec![1, 0, 1], vec![]], vec![vec![1], vec![], vec![1]]).is_none());
    assert!(!unchecked(vec![vec![0]], vec![vec![1]]).is_well_formed());
    assert!(!unchecked(vec![vec![1]], vec![vec![1, 0]]).is_well_formed());
}

#[test]
fn blocks_without_room_are_malformed() {
    assert!(Grid::new(vec![vec![4], vec![1]], vec![vec![1], vec![1], vec![1]]).is_none());
    assert!(Grid::new(vec![vec![2, 1], vec![1]], vec![vec![1], vec![1], vec![1]]).is_none());
    assert!(Grid::new(vec![vec![1], vec![1]], vec![vec![1], vec![1, 1]]).is_none());
    assert!(Grid::new(vec![vec![1], vec![1]], vec![vec![3], vec![1]]).is_none());
    assert!(Grid::new(vec![], vec![vec![1]]).is_none());
    assert!(Grid::new(vec![vec![usize::MAX, 1]], vec![vec![1], vec![1]]).is_none());
    assert!(Grid::new(vec![vec![usize::MAX]], vec![vec![1]]).is_none());
}

#[test]
fn blocks_that_just_fit_are_accepted() {
    assert!(Grid::new(vec![vec![3], vec![1, 1]], vec![vec![2], vec![1], vec![2]]).is_some());
    let columns = vec![vec![1], vec![], vec![1], vec![], vec![1]];
    assert!(Grid::new(vec![vec![1, 1, 1]], columns).is_some());
}

#[test]
fn blocks_without_room_are_still_a_well_formed_grid() {
    assert!(unchecked(vec![vec![4], vec![1]], vec![vec![1], vec![1], vec![1]]).is_well_formed());
}

#[test]
fn wrong_sizes_are_not_well_formed() {
    let mut grid = Grid::new(vec![vec![1], vec![1]], vec![vec![1], vec![1]]).unwrap();
    grid.height = 3;
    assert!(!grid.is_well_formed());
    let mut grid = Grid::new(vec![vec![1], vec![1]], vec![vec![1], vec![1]]).unwrap();
    grid.length = 1;
    assert!(!grid.is_well_formed());
    let mut grid = Grid::new(vec![vec![1], vec![1]], vec![vec![1], vec![1]]).unwrap();
    grid.cells[1].push(Unknown);
    assert!(!grid.is_well_formed());
    let mut grid = Grid::new(vec![vec![1], vec![1]], vec![vec![1], vec![1]]).unwrap();
    grid.cells.pop();
    assert!(!grid.is_well_formed());
    let mut grid = Grid::new(vec![vec![1], vec![1]], vec![vec![1], vec![1]]).unwrap();
    grid.col_spec.push(vec![1]);
    assert!(!grid.is_well_formed());
    let mut grid = Grid::new(vec![vec![1], vec![1]], vec![vec![1], vec![1]]).unwrap();
    grid.row_spec.pop();
    assert!(!grid.is_well_formed());
}

#[test]
fn known_cells_do_not_matter_to_well_formedness() {
    let mut grid = Grid::new(vec![vec![1], vec![1]], vec![vec![1], vec![1]]).unwrap();
    grid.cells = vec![vec![Filled, Filled], vec![Empty, Unknown]];
    assert!(grid.is_well_formed());
}

#[test]
fn column_reads_from_top_to_bottom() {
    let mut grid = Grid::new(vec![vec![1], vec![1], vec![1]], vec![vec![1], vec![2]]).unwrap();
    grid.cells = vec![vec![Filled, Empty], vec![Unknown, Filled], vec![Empty, Filled]];
    assert_eq!(grid.column(0), vec![Filled, Unknown, Empty]);
    assert_eq!(grid.column(1), vec![Empty, Filled, Filled]);
}

#[test]
fn set_col_writes_one_column_only() {
    let mut grid = Grid::new(vec![vec![1], vec![1], vec![1]], vec![vec![1], vec![2]]).unwrap();
    grid.set_col(1, vec![Empty, Filled, Filled]);
    assert_eq!(
        grid.cells,
        vec![vec![Unknown, Empty], vec![Unknown, Filled], vec![Unknown, Filled]]
    );
    grid.set_col(0, vec![Filled, Empty, Unknown]);
    assert_eq!(grid.cells, vec![vec![Filled, Empty], vec![Empty, Filled], vec![Unknown, Filled]]);
    assert_eq!(grid.height, 3);
    assert_eq!(grid.length, 2);
}
