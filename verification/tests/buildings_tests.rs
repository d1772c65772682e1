use puzzles::buildings::{check, hidden};
use puzzles::buildings;

#[test]
fn check_calc() {
    for n in 1..6 {
        for c in 1..(n + 1) {
            for a in c..(n + 1) {
                for b in c..(n + 1) {
                    let xs = buildings::calc(n, a, b, c);
                    assert!(check(n, a, b, c, xs));
                }
            }
        }
    }
}

#[test]
fn hidden_counts() {
    assert_eq!(hidden(4, 1, 2, 1), Some(2));
    assert_eq!(hidden(1, 2, 2, 1), None);
    assert_eq!(hidden(3, 2, 2, 1), Some(0));
}

#[test]
fn calc_builds_expected_rows() {
    // one tallest block, one extra visible from the right, two hidden
    assert_eq!(buildings::calc(4, 1, 2, 1), Some(vec![4, 1, 1, 3]));
    // impossible: more visible than buildings and overlap allow
    assert_eq!(buildings::calc(1, 2, 2, 1), None);
    // impossible: hidden buildings but nothing to hide them behind
    assert_eq!(buildings::calc(3, 1, 1, 1), None);
    // every building visible from both sides
    assert_eq!(buildings::calc(2, 2, 2, 2), Some(vec![2, 2]));
    assert_eq!(buildings::calc(1, 1, 1, 1), Some(vec![1]));
}

#[test]
fn check_judges_missing_answers() {
    assert!(check(1, 2, 2, 1, None));
    assert!(!check(3, 2, 2, 1, None));
    assert!(check(3, 1, 1, 1, None));
    assert!(check(3, 2, 2, 1, Some(vec![1, 3, 2])));
}
