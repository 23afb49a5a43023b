use picross_solver::cell::Cell;
use picross_solver::cell::Cell::{Empty, Filled, Unknown};
use picross_solver::consistency::{is_consistent, is_valid};
use picross_solver::display::{NoDisplay, Redraw};
use picross_solver::grid::Grid;
use picross_solver::search::{backtrack_from, solve};

fn puzzle(row_spec: Vec<Vec<usize>>, col_spec: Vec<Vec<usize>>) -> Grid {
    Grid::new(row_spec, col_spec).unwrap()
}

fn unchecked(row_spec: Vec<Vec<usize>>, col_spec: Vec<Vec<usize>>) -> Grid {
    let height = row_spec.len();
    let length = col_spec.len();
    Grid { height, length, cells: vec![vec![Unknown; length]; height], row_spec, col_spec }
}

struct Counter {
    calls: usize,
}

impl Redraw for Counter {
    fn redraw(&mut self, _picross: &Grid) {
        self.calls += 1;
    }
}

fn runs(line: &Vec<Cell>) -> Vec<usize> {
    let mut found = Vec::new();
    let mut current = 0;
    for cell in line {
        if *cell == Filled {
            current += 1;
        } else if current > 0 {
            found.push(current);
            current = 0;
        }
    }
    if current > 0 {
        found.push(current);
    }
    found
}

fn column(cells: &Vec<Vec<Cell>>, c: usize) -> Vec<Cell> {
    cells.iter().map(|row| row[c]).collect()
}

fn puzzle_of(picture: &Vec<Vec<Cell>>) -> Grid {
    let length = if picture.is_empty() { 0 } else { picture[0].len() };
    let row_spec = picture.iter().map(|row| runs(row)).collect();
    let col_spec = (0..length).map(|c| runs(&column(picture, c))).collect();
    puzzle(row_spec, col_spec)
}

fn assert_solved(grid: &Grid) {
    assert_eq!(grid.cells.len(), grid.height);
    for r in 0..grid.height {
        assert_eq!(grid.cells[r].len(), grid.length);
        assert!(grid.cells[r].iter().all(|c| *c != Unknown));
        assert_eq!(runs(&grid.cells[r]), grid.row_spec[r]);
    }
    for c in 0..grid.length {
        assert_eq!(runs(&column(&grid.cells, c)), grid.col_spec[c]);
    }
    assert!(is_consistent(grid));
    assert!(is_valid(grid));
}

fn picture_from_bits(bits: usize, height: usize, length: usize) -> Vec<Vec<Cell>> {
    (0..height)
        .map(|r| {
            (0..length)
                .map(|c| if (bits >> (r * length + c)) & 1 == 1 { Filled } else { Empty })
                .collect()
        })
        .collect()
}

fn count_solutions(grid: &Grid) -> usize {
    let cells = grid.height * grid.length;
    let mut found = 0;
    for bits in 0..(1usize << cells) {
        let picture = picture_from_bits(bits, grid.height, grid.length);
        let rows_ok = (0..grid.height).all(|r| runs(&picture[r]) == grid.row_spec[r]);
        let cols_ok = (0..grid.length).all(|c| runs(&column(&picture, c)) == grid.col_spec[c]);
        let agrees = (0..grid.height).all(|r| {
            (0..grid.length)
                .all(|c| grid.cells[r][c] == Unknown || grid.cells[r][c] == picture[r][c])
        });
        if rows_ok && cols_ok && agrees {
            found += 1;
        }
    }
    found
}

#[test]
fn one_row_of_three_is_solved_without_search() {
    let mut grid = puzzle(vec![vec![3]], vec![vec![1], vec![1], vec![1]]);
    assert!(solve(&mut grid, &mut NoDisplay));
    assert_eq!(grid.cells, vec![vec![Filled, Filled, Filled]]);
    assert_solved(&grid);
}

#[test]
fn contradictory_specifications_have_no_solution() {
    let mut grid = puzzle(vec![vec![2], vec![2]], vec![vec![1], vec![1]]);
    assert!(!solve(&mut grid, &mut NoDisplay));
    assert_eq!(grid.cells, vec![vec![Unknown; 2]; 2]);
    assert_eq!(grid.row_spec, vec![vec![2], vec![2]]);
    assert_eq!(grid.col_spec, vec![vec![1], vec![1]]);
}

#[test]
fn no_solution_found_by_search_leaves_the_cells_as_they_were() {
    // Every line has candidates and propagation deduces nothing, but no
    // colouring fits rows and columns together.
    let mut grid =
        puzzle(vec![vec![1], vec![1], vec![1]], vec![vec![1], vec![1], vec![]]);
    assert_eq!(count_solutions(&grid), 0);
    let before = grid.cells.clone();
    assert!(!solve(&mut grid, &mut NoDisplay));
    assert_eq!(grid.cells, before);
}

#[test]
fn the_first_solution_in_search_order_is_returned() {
    let mut grid = puzzle(vec![vec![1], vec![1]], vec![vec![1], vec![1]]);
    assert!(solve(&mut grid, &mut NoDisplay));
    assert_eq!(grid.cells, vec![vec![Filled, Empty], vec![Empty, Filled]]);
    assert_solved(&grid);

    let mut grid =
        puzzle(vec![vec![1], vec![1], vec![1]], vec![vec![1], vec![1], vec![1]]);
    assert!(solve(&mut grid, &mut NoDisplay));
    assert_eq!(
        grid.cells,
        vec![
            vec![Filled, Empty, Empty],
            vec![Empty, Filled, Empty],
            vec![Empty, Empty, Filled]
        ]
    );
}

#[test]
fn known_cells_are_kept() {
    let mut grid = puzzle(vec![vec![1], vec![1]], vec![vec![1], vec![1]]);
    grid.cells[0][1] = Filled;
    assert!(solve(&mut grid, &mut NoDisplay));
    assert_eq!(grid.cells, vec![vec![Empty, Filled], vec![Filled, Empty]]);

    let mut grid =
        puzzle(vec![vec![1], vec![1], vec![1]], vec![vec![1], vec![1], vec![1]]);
    grid.cells[2][0] = Filled;
    assert!(solve(&mut grid, &mut NoDisplay));
    assert_eq!(
        grid.cells,
        vec![
            vec![Empty, Filled, Empty],
            vec![Empty, Empty, Filled],
            vec![Filled, Empty, Empty]
        ]
    );
}

#[test]
fn known_cells_that_fit_no_solution_are_left_as_they_were() {
    let mut grid = puzzle(vec![vec![1], vec![1]], vec![vec![1], vec![1]]);
    grid.cells[0][0] = Filled;
    grid.cells[1][0] = Filled;
    let before = grid.cells.clone();
    assert!(!solve(&mut grid, &mut NoDisplay));
    assert_eq!(grid.cells, before);

    let mut grid =
        puzzle(vec![vec![1], vec![1], vec![1]], vec![vec![1, 1], vec![1], vec![]]);
    grid.cells[0][1] = Filled;
    assert_eq!(count_solutions(&grid), 0);
    let before = grid.cells.clone();
    assert!(!solve(&mut grid, &mut NoDisplay));
    assert_eq!(grid.cells, before);
}

#[test]
fn a_grid_without_rows_is_solved() {
    let mut grid = puzzle(vec![], vec![]);
    assert!(solve(&mut grid, &mut NoDisplay));
    assert_eq!(grid.cells, Vec::<Vec<Cell>>::new());
    let mut grid = puzzle(vec![], vec![vec![], vec![]]);
    assert!(solve(&mut grid, &mut NoDisplay));
    let mut grid = unchecked(vec![], vec![vec![1]]);
    assert!(!solve(&mut grid, &mut NoDisplay));
}

#[test]
fn blocks_that_cannot_fit_have_no_solution() {
    let mut grid = unchecked(vec![vec![4], vec![1]], vec![vec![1], vec![1], vec![1]]);
    assert!(grid.is_well_formed());
    assert!(!solve(&mut grid, &mut NoDisplay));
    assert_eq!(grid.cells, vec![vec![Unknown; 3]; 2]);
    let mut grid = unchecked(vec![vec![1], vec![1]], vec![vec![1], vec![1, 1]]);
    assert!(!solve(&mut grid, &mut NoDisplay));
    assert_eq!(grid.cells, vec![vec![Unknown; 2]; 2]);
}

#[test]
fn every_picture_of_three_by_three_is_solvable() {
    for bits in 0..512 {
        let picture = picture_from_bits(bits, 3, 3);
        let mut grid = puzzle_of(&picture);
        assert!(solve(&mut grid, &mut NoDisplay));
        assert_solved(&grid);
        if count_solutions(&puzzle_of(&picture)) == 1 {
            assert_eq!(grid.cells, picture);
        }
    }
}

#[test]
fn every_picture_of_four_by_three_is_solvable() {
    for bits in 0..4096 {
        let picture = picture_from_bits(bits, 4, 3);
        let mut grid = puzzle_of(&picture);
        assert!(solve(&mut grid, &mut NoDisplay));
        assert_solved(&grid);
    }
}

#[test]
fn solve_answers_whether_a_solution_exists() {
    let lines: Vec<Vec<usize>> = vec![vec![], vec![1], vec![2], vec![1, 1], vec![3]];
    let mut solvable = 0;
    for a in &lines {
        for b in &lines {
            for c in &lines {
                for d in &lines {
                    let mut grid = puzzle(
                        vec![a.clone(), b.clone(), c.clone()],
                        vec![d.clone(), vec![1], vec![1, 1]],
                    );
                    let expected = count_solutions(&grid) > 0;
                    let found = solve(&mut grid, &mut NoDisplay);
                    assert_eq!(found, expected);
                    if found {
                        solvable += 1;
                        assert_solved(&grid);
                    } else {
                        assert_eq!(grid.cells, vec![vec![Unknown; 3]; 3]);
                    }
                }
            }
        }
    }
    assert!(solvable > 0);
}

#[test]
fn a_larger_picture_is_solved() {
    let rows = ["..##..", ".####.", "##..##", "##..##", ".####.", "..##.."];
    let picture: Vec<Vec<Cell>> = rows
        .iter()
        .map(|row| row.chars().map(|c| if c == '#' { Filled } else { Empty }).collect())
        .collect();
    let mut grid = puzzle_of(&picture);
    assert!(solve(&mut grid, &mut NoDisplay));
    assert_solved(&grid);
    // The ring is not the only picture with these blocks: the search meets
    // the one that keeps the blocks of the upper rows furthest to the left.
    let first = [".##...", "####..", "##.##.", ".##.##", "..####", "...##."];
    let expected: Vec<Vec<Cell>> = first
        .iter()
        .map(|row| row.chars().map(|c| if c == '#' { Filled } else { Empty }).collect())
        .collect();
    assert_eq!(grid.cells, expected);
}

#[test]
fn a_picture_of_ten_by_ten_is_solved() {
    let rows = [
        "...####...",
        "..######..",
        ".##.##.##.",
        ".########.",
        "..#....#..",
        "..##..##..",
        "...####...",
        "#..#..#..#",
        "##......##",
        ".########.",
    ];
    let picture: Vec<Vec<Cell>> = rows
        .iter()
        .map(|row| row.chars().map(|c| if c == '#' { Filled } else { Empty }).collect())
        .collect();
    let mut grid = puzzle_of(&picture);
    assert!(solve(&mut grid, &mut NoDisplay));
    assert_solved(&grid);
    assert_eq!(grid.row_spec[2], vec![2, 2, 2]);
    assert_eq!(grid.col_spec[0], vec![2]);
}

#[test]
fn a_picture_with_one_solution_is_found() {
    let rows = ["#####", "#...#", "#.#.#", "#...#", "#####"];
    let picture: Vec<Vec<Cell>> = rows
        .iter()
        .map(|row| row.chars().map(|c| if c == '#' { Filled } else { Empty }).collect())
        .collect();
    let mut grid = puzzle_of(&picture);
    assert!(solve(&mut grid, &mut NoDisplay));
    assert_eq!(grid.cells, picture);
}

#[test]
fn search_from_the_first_row() {
    let mut grid = puzzle(vec![vec![1], vec![1]], vec![vec![1], vec![1]]);
    assert!(backtrack_from(&mut grid, 0, &mut NoDisplay));
    assert_eq!(grid.cells, vec![vec![Filled, Empty], vec![Empty, Filled]]);
}

#[test]
fn search_skips_resolved_rows() {
    let mut grid = puzzle(vec![vec![1], vec![1]], vec![vec![1], vec![1]]);
    grid.cells[0] = vec![Empty, Filled];
    assert!(backtrack_from(&mut grid, 0, &mut NoDisplay));
    assert_eq!(grid.cells, vec![vec![Empty, Filled], vec![Filled, Empty]]);

    let mut grid = puzzle(vec![vec![1], vec![1]], vec![vec![1], vec![1]]);
    grid.cells[0] = vec![Empty, Filled];
    assert!(backtrack_from(&mut grid, 1, &mut NoDisplay));
    assert_eq!(grid.cells, vec![vec![Empty, Filled], vec![Filled, Empty]]);
}

#[test]
fn search_from_the_end_changes_nothing() {
    let mut grid = puzzle(vec![vec![1], vec![1]], vec![vec![1], vec![1]]);
    grid.cells = vec![vec![Empty, Filled], vec![Filled, Empty]];
    assert!(backtrack_from(&mut grid, 2, &mut NoDisplay));
    assert_eq!(grid.cells, vec![vec![Empty, Filled], vec![Filled, Empty]]);
}

#[test]
fn failed_search_restores_the_rows() {
    let mut grid =
        puzzle(vec![vec![1], vec![1], vec![1]], vec![vec![1], vec![1], vec![]]);
    grid.cells[0] = vec![Filled, Empty, Empty];
    let before = grid.cells.clone();
    assert!(!backtrack_from(&mut grid, 1, &mut NoDisplay));
    assert_eq!(grid.cells, before);
    let mut grid =
        puzzle(vec![vec![1], vec![1], vec![1]], vec![vec![1], vec![1], vec![]]);
    let before = grid.cells.clone();
    assert!(!backtrack_from(&mut grid, 0, &mut NoDisplay));
    assert_eq!(grid.cells, before);
}

#[test]
fn the_grid_is_shown_before_each_row_decision() {
    let mut grid = puzzle(vec![vec![1], vec![1]], vec![vec![1], vec![1]]);
    let mut counter = Counter { calls: 0 };
    assert!(solve(&mut grid, &mut counter));
    assert!(counter.calls >= 2);
}
