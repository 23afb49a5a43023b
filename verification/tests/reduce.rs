use picross_solver::cell::Cell;
use picross_solver::cell::Cell::{Empty, Filled, Unknown};
use picross_solver::cell::{is_blank, is_resolved, is_row_consistent_with};
use picross_solver::reduce::gcd;
use picross_solver::rows::gen_picross_rows;

fn reduce(known: Vec<Cell>, spec: Vec<usize>) -> Option<(Vec<Cell>, bool)> {
    gcd(&known, gen_picross_rows(known.len(), &spec))
}

#[test]
fn unknown_cells_agree_with_anything() {
    assert!(is_row_consistent_with(&vec![Unknown, Unknown], &vec![Filled, Empty]));
    assert!(is_row_consistent_with(&vec![], &vec![]));
}

#[test]
fn known_cells_must_be_matched() {
    assert!(is_row_consistent_with(&vec![Filled, Unknown, Empty], &vec![Filled, Filled, Empty]));
    assert!(!is_row_consistent_with(&vec![Filled, Unknown, Empty], &vec![Empty, Filled, Empty]));
    assert!(!is_row_consistent_with(&vec![Filled, Unknown, Empty], &vec![Filled, Filled, Filled]));
}

#[test]
fn a_known_cell_is_not_matched_by_an_unknown_one() {
    assert!(!is_row_consistent_with(&vec![Filled], &vec![Unknown]));
    assert!(is_row_consistent_with(&vec![Unknown], &vec![Unknown]));
}

#[test]
fn resolved_and_blank_lines() {
    assert!(is_resolved(&vec![Filled, Empty]));
    assert!(!is_resolved(&vec![Filled, Unknown]));
    assert!(is_resolved(&vec![]));
    assert!(is_blank(&vec![Unknown, Unknown]));
    assert!(!is_blank(&vec![Unknown, Empty]));
    assert!(is_blank(&vec![]));
}

#[test]
fn overlap_of_all_candidates_is_deduced() {
    assert_eq!(
        reduce(vec![Unknown; 5], vec![3]),
        Some((vec![Unknown, Unknown, Filled, Unknown, Unknown], true))
    );
    assert_eq!(
        reduce(vec![Unknown; 5], vec![4]),
        Some((vec![Unknown, Filled, Filled, Filled, Unknown], true))
    );
}

#[test]
fn a_single_candidate_resolves_the_line() {
    assert_eq!(
        reduce(vec![Unknown; 5], vec![2, 2]),
        Some((vec![Filled, Filled, Empty, Filled, Filled], true))
    );
    assert_eq!(reduce(vec![Unknown; 3], vec![]), Some((vec![Empty, Empty, Empty], true)));
}

#[test]
fn known_cells_rule_candidates_out() {
    assert_eq!(
        reduce(vec![Filled, Unknown, Unknown, Unknown, Unknown], vec![3]),
        Some((vec![Filled, Filled, Filled, Empty, Empty], true))
    );
    assert_eq!(
        reduce(vec![Empty, Unknown, Unknown, Unknown, Unknown], vec![3]),
        Some((vec![Empty, Unknown, Filled, Filled, Unknown], true))
    );
}

#[test]
fn nothing_new_is_not_dirty() {
    assert_eq!(
        reduce(vec![Unknown, Unknown, Filled, Unknown, Unknown], vec![3]),
        Some((vec![Unknown, Unknown, Filled, Unknown, Unknown], false))
    );
    assert_eq!(
        reduce(vec![Filled, Filled, Empty], vec![2]),
        Some((vec![Filled, Filled, Empty], false))
    );
    assert_eq!(reduce(vec![Unknown; 4], vec![1]), Some((vec![Unknown; 4], false)));
}

#[test]
fn no_candidate_agrees() {
    assert_eq!(reduce(vec![Empty; 5], vec![3]), None);
    assert_eq!(reduce(vec![Filled, Unknown, Filled], vec![2]), None);
    assert_eq!(reduce(vec![Unknown; 3], vec![2, 2]), None);
    assert_eq!(reduce(vec![Filled, Unknown], vec![]), None);
}

#[test]
fn reduction_keeps_what_is_known() {
    let known = vec![Unknown, Filled, Unknown, Unknown, Empty, Unknown, Unknown];
    let spec = vec![2, 1];
    let (line, _) = reduce(known.clone(), spec.clone()).unwrap();
    for p in 0..known.len() {
        if known[p] != Unknown {
            assert_eq!(line[p], known[p]);
        }
    }
    let mut gen = gen_picross_rows(known.len(), &spec);
    while let Some(row) = gen.next() {
        if is_row_consistent_with(&known, &row) {
            for p in 0..known.len() {
                if line[p] != Unknown {
                    assert_eq!(row[p], line[p]);
                }
            }
        }
    }
}

#[test]
fn reduction_uses_only_the_lines_that_are_left() {
    let known = vec![Unknown; 3];
    let spec = vec![1];
    let mut gen = gen_picross_rows(3, &spec);
    assert_eq!(gen.next(), Some(vec![Filled, Empty, Empty]));
    assert_eq!(gcd(&known, gen), Some((vec![Empty, Unknown, Unknown], true)));
}
