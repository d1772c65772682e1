use puzzles::longest_run::longest_arithmetic_run;

#[test]
fn finds_longest_arithmetic_window() {
    let xs = vec![1, 3, 5, 7, 8];
    assert_eq!(longest_arithmetic_run(&xs), 4);
    let xs = vec![5, 5, 5];
    assert_eq!(longest_arithmetic_run(&xs), 3);
    let xs = vec![1, 2, 4, 8];
    assert_eq!(longest_arithmetic_run(&xs), 2);
    let xs = vec![10, 7, 4, 1, 2, 3, 4, 5];
    assert_eq!(longest_arithmetic_run(&xs), 5);
}

#[test]
fn short_sequences_report_two() {
    let xs: Vec<i32> = vec![];
    assert_eq!(longest_arithmetic_run(&xs), 2);
    let xs = vec![9];
    assert_eq!(longest_arithmetic_run(&xs), 2);
    let xs = vec![9, -4];
    assert_eq!(longest_arithmetic_run(&xs), 2);
}
