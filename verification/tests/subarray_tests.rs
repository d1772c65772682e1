use puzzles::squares::generate_squares;
use puzzles::subarray::count_squares_in_subarrays;

#[test]
fn main_single() {
    let squares = generate_squares(100);
    let xs = vec![-9];
    assert_eq!(count_squares_in_subarrays(&xs, &squares), 0);
    let xs = vec![-4];
    assert_eq!(count_squares_in_subarrays(&xs, &squares), 0);
    let xs = vec![-3];
    assert_eq!(count_squares_in_subarrays(&xs, &squares), 0);
    let xs = vec![-2];
    assert_eq!(count_squares_in_subarrays(&xs, &squares), 0);
    let xs = vec![-1];
    assert_eq!(count_squares_in_subarrays(&xs, &squares), 0);
    let xs = vec![0];
    assert_eq!(count_squares_in_subarrays(&xs, &squares), 1);
    let xs = vec![1];
    assert_eq!(count_squares_in_subarrays(&xs, &squares), 1);
    let xs = vec![2];
    assert_eq!(count_squares_in_subarrays(&xs, &squares), 0);
    let xs = vec![3];
    assert_eq!(count_squares_in_subarrays(&xs, &squares), 0);
    let xs = vec![4];
    assert_eq!(count_squares_in_subarrays(&xs, &squares), 1);
    let xs = vec![5];
    assert_eq!(count_squares_in_subarrays(&xs, &squares), 0);
    let xs = vec![9];
    assert_eq!(count_squares_in_subarrays(&xs, &squares), 1);
}

#[test]
fn main_positive_easy() {
    let squares = generate_squares(100);
    let xs = vec![2, 2, 6];
    assert_eq!(count_squares_in_subarrays(&xs, &squares), 1);
    let xs = vec![30, 30, 9, 1, 30];
    assert_eq!(count_squares_in_subarrays(&xs, &squares), 3);
    let xs = vec![4, 0, 0, 16];
    assert_eq!(count_squares_in_subarrays(&xs, &squares), 9);
    let xs = vec![2, 3, 1];
    assert_eq!(count_squares_in_subarrays(&xs, &squares), 2);
    let xs = vec![4, 4];
    assert_eq!(count_squares_in_subarrays(&xs, &squares), 2);
}

#[test]
fn main_repeated_zeroes() {
    let squares = generate_squares(100);
    let xs = vec![0, 0];
    assert_eq!(count_squares_in_subarrays(&xs, &squares), 3);
    let xs = vec![0, 0, 0];
    assert_eq!(count_squares_in_subarrays(&xs, &squares), 6);
    let xs = vec![0, 0, 0, 0];
    assert_eq!(count_squares_in_subarrays(&xs, &squares), 10);
    let xs = vec![0, 0, 0, 0, 0];
    assert_eq!(count_squares_in_subarrays(&xs, &squares), 15);
}

#[test]
fn main_repeated_ones() {
    let squares = generate_squares(100);
    let xs = vec![1, 1];
    assert_eq!(count_squares_in_subarrays(&xs, &squares), 2);
    let xs = vec![1, 1, 1];
    assert_eq!(count_squares_in_subarrays(&xs, &squares), 3);
    let xs = vec![1, 1, 1, 1];
    assert_eq!(count_squares_in_subarrays(&xs, &squares), 5);
    let xs = vec![1, 1, 1, 1, 1];
    assert_eq!(count_squares_in_subarrays(&xs, &squares), 7);
    let xs = vec![1, 1, 1, 1, 1, 1];
    assert_eq!(count_squares_in_subarrays(&xs, &squares), 6 + 3);
}

#[test]
fn main_small_sum_zero() {
    let squares = generate_squares(100);

    let xs = vec![1, -1];
    assert_eq!(count_squares_in_subarrays(&xs, &squares), 2);
    let xs = vec![2, -2];
    assert_eq!(count_squares_in_subarrays(&xs, &squares), 1);
    let xs = vec![3, -3];
    assert_eq!(count_squares_in_subarrays(&xs, &squares), 1);

    let xs = vec![-1, 1];
    assert_eq!(count_squares_in_subarrays(&xs, &squares), 2);
    let xs = vec![-2, 2];
    assert_eq!(count_squares_in_subarrays(&xs, &squares), 1);
    let xs = vec![-3, 3];
    assert_eq!(count_squares_in_subarrays(&xs, &squares), 1);

    let xs = vec![1, 0, -1];
    assert_eq!(count_squares_in_subarrays(&xs, &squares), 1 + 2 + 1);
    let xs = vec![2, 0, -2];
    assert_eq!(count_squares_in_subarrays(&xs, &squares), 1 + 1);
    let xs = vec![3, 0, -3];
    assert_eq!(count_squares_in_subarrays(&xs, &squares), 1 + 1);

    let xs = vec![-1, 0, 1];
    assert_eq!(count_squares_in_subarrays(&xs, &squares), 1 + 2 + 1);
    let xs = vec![-2, 0, 2];
    assert_eq!(count_squares_in_subarrays(&xs, &squares), 1 + 1);
    let xs = vec![-3, 0, 3];
    assert_eq!(count_squares_in_subarrays(&xs, &squares), 1 + 1);

    let xs = vec![-2, 1, 1];
    assert_eq!(count_squares_in_subarrays(&xs, &squares), 3);
    let xs = vec![-2, 0, 1, 1];
    assert_eq!(count_squares_in_subarrays(&xs, &squares), 1 + 2 + 1 + 1);
    let xs = vec![5, -2, -3];
    assert_eq!(count_squares_in_subarrays(&xs, &squares), 1);
}

#[test]
fn main_small_negatives() {
    let squares = generate_squares(100);
    let xs = vec![-1, -2];
    assert_eq!(count_squares_in_subarrays(&xs, &squares), 0);
    let xs = vec![-1, -2, -3];
    assert_eq!(count_squares_in_subarrays(&xs, &squares), 0);
    let xs = vec![-1, -2, -3, -4];
    assert_eq!(count_squares_in_subarrays(&xs, &squares), 0);
    let xs = vec![-1, -2, -3, -4, -5];
    assert_eq!(count_squares_in_subarrays(&xs, &squares), 0);
}

#[test]
fn main_mixed() {
    let squares = generate_squares(100);
    let xs = vec![-2, 0];
    assert_eq!(count_squares_in_subarrays(&xs, &squares), 1);
    let xs = vec![-2, 0, 0];
    assert_eq!(count_squares_in_subarrays(&xs, &squares), 3);
    let xs = vec![-2, 0, 0, 2];
    assert_eq!(count_squares_in_subarrays(&xs, &squares), 4);
    let xs = vec![-2, 1, 1, 4];
    assert_eq!(count_squares_in_subarrays(&xs, &squares), 3 + 2);
    let xs = vec![-2, 0, 1, 1, 4];
    assert_eq!(count_squares_in_subarrays(&xs, &squares), 1 + 2 + 1 + 1 + 2);

    let xs = vec![2, 0];
    assert_eq!(count_squares_in_subarrays(&xs, &squares), 1);
    let xs = vec![0, 2];
    assert_eq!(count_squares_in_subarrays(&xs, &squares), 1);
    let xs = vec![0, 0, 2];
    assert_eq!(count_squares_in_subarrays(&xs, &squares), 3);
    let xs = vec![4, 0];
    assert_eq!(count_squares_in_subarrays(&xs, &squares), 3);
    let xs = vec![0, 4];
    assert_eq!(count_squares_in_subarrays(&xs, &squares), 3);
    let xs = vec![0, 0, 4];
    assert_eq!(count_squares_in_subarrays(&xs, &squares), 3 + 2 + 1);
}

#[test]
fn empty_array_counts_nothing() {
    let squares = generate_squares(100);
    let xs: Vec<i32> = vec![];
    assert_eq!(count_squares_in_subarrays(&xs, &squares), 0);
}

#[test]
fn repeated_invocations_agree() {
    let squares = generate_squares(100);
    let xs = vec![4, -3, 2, 0, 1, -4, 9];
    let first = count_squares_in_subarrays(&xs, &squares);
    let second = count_squares_in_subarrays(&xs, &squares);
    assert_eq!(first, second);
}

#[test]
fn negative_minimum_prefix_counts_correctly() {
    let squares = generate_squares(100);
    // prefix sums dip to -5 before any match is registered
    let xs = vec![-5, 6, 3, -4, 4];
    assert_eq!(count_squares_in_subarrays(&xs, &squares), 8);
}
