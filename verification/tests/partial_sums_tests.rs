use puzzles::partial_sums::PartialSums;

#[test]
fn get_min_max_partial_sum_1() {
    let xs = vec![1, 2, 3, 4, 5];
    assert_eq!(
        PartialSums::get_min_max_partial_sum(&xs),
        (1, 1 + 2 + 3 + 4 + 5)
    );
}

#[test]
fn get_min_max_partial_sum_2() {
    let xs = vec![1, 2, 3, -4, -5, -6];
    assert_eq!(PartialSums::get_min_max_partial_sum(&xs), (-9, 1 + 2 + 3));
}

#[test]
fn get_min_max_partial_sum_3() {
    let xs = vec![-1, -2, -3];
    assert_eq!(PartialSums::get_min_max_partial_sum(&xs), (-6, -1));
}

#[test]
fn counter_reads_and_increments() {
    // prefix sums of [1, -2] are 1 and -1, so the offset is 1
    let xs = vec![1, -2];
    let mut counter = PartialSums::new(&xs);
    assert_eq!(counter.real_index(-1), 0);
    assert_eq!(counter.read(-1), 0);
    assert_eq!(counter.read(0), 0);
    counter.increment(-1);
    counter.increment(1);
    counter.increment(-1);
    assert_eq!(counter.read(-1), 2);
    assert_eq!(counter.read(1), 1);
    assert_eq!(counter.read(0), 0);
    // far outside the pre-sized range: never written, still zero
    assert_eq!(counter.read(100), 0);
}

#[test]
fn counter_grows_past_its_initial_extent() {
    let xs = vec![1];
    let mut counter = PartialSums::new(&xs);
    counter.increment(5);
    assert_eq!(counter.read(5), 1);
    assert_eq!(counter.read(1), 0);
}
