use picross_solver::cell::Cell;
use picross_solver::cell::Cell::{Empty, Filled, Unknown};
use picross_solver::display::{NoDisplay, Redraw};
use picross_solver::grid::Grid;
use picross_solver::propagate::{combex_cols, combex_rows, propagate};

fn puzzle(row_spec: Vec<Vec<usize>>, col_spec: Vec<Vec<usize>>) -> Grid {
    Grid::new(row_spec, col_spec).unwrap()
}

struct Counter {
    calls: usize,
    unknown_at_last_call: usize,
}

impl Redraw for Counter {
    fn redraw(&mut self, picross: &Grid) {
        self.calls += 1;
        self.unknown_at_last_call =
            picross.cells.iter().flatten().filter(|c| **c == Unknown).count();
    }
}

fn frame() -> Grid {
    puzzle(
        vec![vec![5], vec![1, 1], vec![5], vec![1, 1], vec![5]],
        vec![vec![5], vec![1, 1, 1], vec![1, 1, 1], vec![1, 1, 1], vec![5]],
    )
}

fn frame_cells() -> Vec<Vec<Cell>> {
    vec![
        vec![Filled; 5],
        vec![Filled, Empty, Empty, Empty, Filled],
        vec![Filled; 5],
        vec![Filled, Empty, Empty, Empty, Filled],
        vec![Filled; 5],
    ]
}

#[test]
fn one_row_of_three_resolves_by_propagation() {
    let mut grid = puzzle(vec![vec![3]], vec![vec![1], vec![1], vec![1]]);
    assert!(propagate(&mut grid, &mut NoDisplay));
    assert_eq!(grid.cells, vec![vec![Filled, Filled, Filled]]);
}

#[test]
fn rows_are_reduced_from_top_to_bottom() {
    let mut grid = puzzle(vec![vec![3], vec![1], vec![2]], vec![vec![2], vec![2], vec![2]]);
    assert_eq!(combex_rows(&mut grid, &mut NoDisplay), Some(true));
    assert_eq!(
        grid.cells,
        vec![vec![Filled, Filled, Filled], vec![Unknown; 3], vec![Unknown, Filled, Unknown]]
    );
    assert_eq!(combex_rows(&mut grid, &mut NoDisplay), Some(false));
}

#[test]
fn columns_are_reduced_from_left_to_right() {
    let mut grid = puzzle(vec![vec![2], vec![2], vec![2]], vec![vec![3], vec![1], vec![2]]);
    assert_eq!(combex_cols(&mut grid, &mut NoDisplay), Some(true));
    assert_eq!(
        grid.cells,
        vec![
            vec![Filled, Unknown, Unknown],
            vec![Filled, Unknown, Filled],
            vec![Filled, Unknown, Unknown]
        ]
    );
    assert_eq!(combex_cols(&mut grid, &mut NoDisplay), Some(false));
}

#[test]
fn a_row_without_candidate_stops_the_pass() {
    let mut grid = puzzle(vec![vec![3], vec![2], vec![3]], vec![vec![3], vec![3], vec![2]]);
    grid.cells[1] = vec![Filled, Unknown, Filled];
    assert_eq!(combex_rows(&mut grid, &mut NoDisplay), None);
    assert_eq!(
        grid.cells,
        vec![vec![Filled, Filled, Filled], vec![Filled, Unknown, Filled], vec![Unknown; 3]]
    );
}

#[test]
fn a_column_without_candidate_stops_the_pass() {
    let mut grid = puzzle(vec![vec![3], vec![3], vec![2]], vec![vec![3], vec![2], vec![3]]);
    grid.cells[0][1] = Filled;
    grid.cells[2][1] = Filled;
    assert_eq!(combex_cols(&mut grid, &mut NoDisplay), None);
    assert_eq!(
        grid.cells,
        vec![
            vec![Filled, Filled, Unknown],
            vec![Filled, Unknown, Unknown],
            vec![Filled, Filled, Unknown]
        ]
    );
}

#[test]
fn propagation_solves_the_frame() {
    let mut grid = frame();
    assert!(propagate(&mut grid, &mut NoDisplay));
    assert_eq!(grid.cells, frame_cells());
}

#[test]
fn propagation_twice_changes_nothing() {
    let mut grid = frame();
    assert!(propagate(&mut grid, &mut NoDisplay));
    let once = grid.cells.clone();
    assert!(propagate(&mut grid, &mut NoDisplay));
    assert_eq!(grid.cells, once);

    let mut open = puzzle(
        vec![vec![2], vec![1], vec![1, 1]],
        vec![vec![1, 1], vec![1], vec![1], vec![1]],
    );
    assert!(propagate(&mut open, &mut NoDisplay));
    let once = open.cells.clone();
    assert!(propagate(&mut open, &mut NoDisplay));
    assert_eq!(open.cells, once);
    assert_eq!(combex_rows(&mut open, &mut NoDisplay), Some(false));
    assert_eq!(combex_cols(&mut open, &mut NoDisplay), Some(false));

    let mut dead = puzzle(vec![vec![2], vec![2]], vec![vec![1], vec![1]]);
    assert!(!propagate(&mut dead, &mut NoDisplay));
    let once = dead.cells.clone();
    assert!(!propagate(&mut dead, &mut NoDisplay));
    assert_eq!(dead.cells, once);
}

#[test]
fn propagation_leaves_what_it_cannot_decide() {
    let mut grid = puzzle(vec![vec![1], vec![1]], vec![vec![1], vec![1]]);
    assert!(propagate(&mut grid, &mut NoDisplay));
    assert_eq!(grid.cells, vec![vec![Unknown; 2]; 2]);
}

#[test]
fn propagation_goes_on_until_nothing_changes() {
    let mut grid = puzzle(vec![vec![2], vec![1]], vec![vec![2], vec![1]]);
    assert!(propagate(&mut grid, &mut NoDisplay));
    assert_eq!(grid.cells, vec![vec![Filled, Filled], vec![Filled, Empty]]);
}

#[test]
fn failed_propagation_leaves_the_cells_as_they_were() {
    let mut grid = puzzle(vec![vec![2], vec![2]], vec![vec![1], vec![1]]);
    assert!(!propagate(&mut grid, &mut NoDisplay));
    assert_eq!(grid.cells, vec![vec![Unknown; 2]; 2]);

    let mut grid = puzzle(vec![vec![1], vec![1]], vec![vec![1], vec![1]]);
    grid.cells[0][0] = Filled;
    grid.cells[1][0] = Filled;
    let before = grid.cells.clone();
    assert!(!propagate(&mut grid, &mut NoDisplay));
    assert_eq!(grid.cells, before);
}

#[test]
fn propagation_keeps_what_is_known() {
    let mut grid = puzzle(vec![vec![1], vec![1]], vec![vec![1], vec![1]]);
    grid.cells[0][1] = Filled;
    assert!(propagate(&mut grid, &mut NoDisplay));
    assert_eq!(grid.cells, vec![vec![Empty, Filled], vec![Filled, Empty]]);
}

#[test]
fn the_grid_is_shown_after_each_change() {
    let mut grid = puzzle(vec![vec![3]], vec![vec![1], vec![1], vec![1]]);
    let mut counter = Counter { calls: 0, unknown_at_last_call: 3 };
    assert!(propagate(&mut grid, &mut counter));
    assert!(counter.calls >= 1);
    assert_eq!(counter.unknown_at_last_call, 0);

    let mut still = puzzle(vec![vec![1], vec![1]], vec![vec![1], vec![1]]);
    let mut counter = Counter { calls: 0, unknown_at_last_call: 4 };
    assert!(propagate(&mut still, &mut counter));
    assert_eq!(counter.calls, 0);
}
