use picross_solver::series::gen_increasing_series;

fn collect(n: usize, size: usize) -> Vec<Vec<usize>> {
    let mut gen = gen_increasing_series(n, size);
    let mut all = Vec::new();
    while let Some(series) = gen.next() {
        all.push(series);
    }
    all
}

fn binomial(n: usize, k: usize) -> usize {
    if k == 0 {
        1
    } else if n == 0 {
        0
    } else {
        binomial(n - 1, k - 1) + binomial(n - 1, k)
    }
}

#[test]
fn two_of_three_in_order() {
    assert_eq!(collect(2, 3), vec![vec![0, 1], vec![0, 2], vec![1, 2]]);
}

#[test]
fn three_of_five_in_lexicographic_order() {
    assert_eq!(
        collect(3, 5),
        vec![
            vec![0, 1, 2],
            vec![0, 1, 3],
            vec![0, 1, 4],
            vec![0, 2, 3],
            vec![0, 2, 4],
            vec![0, 3, 4],
            vec![1, 2, 3],
            vec![1, 2, 4],
            vec![1, 3, 4],
            vec![2, 3, 4],
        ]
    );
}

#[test]
fn no_value_gives_the_empty_series_once() {
    assert_eq!(collect(0, 4), vec![Vec::<usize>::new()]);
    assert_eq!(collect(0, 0), vec![Vec::<usize>::new()]);
}

#[test]
fn more_values_than_slots_gives_nothing() {
    assert_eq!(collect(3, 2), Vec::<Vec<usize>>::new());
    assert_eq!(collect(1, 0), Vec::<Vec<usize>>::new());
}

#[test]
fn as_many_values_as_slots_gives_one_series() {
    assert_eq!(collect(4, 4), vec![vec![0, 1, 2, 3]]);
}

#[test]
fn one_value_walks_through_all_slots() {
    assert_eq!(collect(1, 4), vec![vec![0], vec![1], vec![2], vec![3]]);
}

#[test]
fn exhausted_generator_stays_exhausted() {
    let mut gen = gen_increasing_series(2, 3);
    for _ in 0..3 {
        assert!(gen.next().is_some());
    }
    assert_eq!(gen.next(), None);
    assert_eq!(gen.next(), None);
    let mut empty = gen_increasing_series(2, 1);
    assert_eq!(empty.next(), None);
    assert_eq!(empty.next(), None);
}

#[test]
fn count_is_the_binomial_coefficient() {
    for size in 0..8 {
        for n in 0..9 {
            assert_eq!(collect(n, size).len(), binomial(size, n));
        }
    }
    assert_eq!(collect(3, 7).len(), 35);
    assert_eq!(collect(5, 10).len(), 252);
}

#[test]
fn every_series_is_strictly_increasing_and_in_range() {
    for series in collect(4, 7) {
        assert_eq!(series.len(), 4);
        for i in 0..4 {
            assert!(series[i] < 7);
            if i > 0 {
                assert!(series[i - 1] < series[i]);
            }
        }
    }
}

#[test]
fn series_come_in_strictly_increasing_order() {
    let all = collect(3, 6);
    for i in 1..all.len() {
        assert!(all[i - 1] < all[i]);
    }
}
