use puzzles::countdown::count_countdowns;

#[test]
fn counts_full_countdowns() {
    let xs = vec![3, 2, 1, 3, 2, 1, 1];
    assert_eq!(count_countdowns(&xs, 3), 2);
    let xs = vec![5, 4, 3, 2, 1];
    assert_eq!(count_countdowns(&xs, 5), 1);
    assert_eq!(count_countdowns(&xs, 3), 1);
    let xs = vec![2, 1, 2, 1];
    assert_eq!(count_countdowns(&xs, 2), 2);
}

#[test]
fn broken_runs_are_not_counted() {
    let xs = vec![3, 2, 2, 1];
    assert_eq!(count_countdowns(&xs, 3), 0);
    let xs = vec![3, 2];
    assert_eq!(count_countdowns(&xs, 3), 0);
    let xs = vec![3, 3, 2, 1];
    assert_eq!(count_countdowns(&xs, 3), 1);
}

#[test]
fn short_targets_count_nothing() {
    let xs = vec![1, 1, 1];
    assert_eq!(count_countdowns(&xs, 1), 0);
    assert_eq!(count_countdowns(&xs, 0), 0);
    let xs: Vec<i32> = vec![];
    assert_eq!(count_countdowns(&xs, 3), 0);
}
