use puzzles::isqrt::{isqrt_binary, isqrt_newton};
use puzzles::squares::generate_squares;

#[test]
fn oracles_agree_up_to_1023() {
    for a in 0u32..1024 {
        let newton = isqrt_newton(a);
        let binary = isqrt_binary(a);
        assert_eq!(newton, binary);
        let floor_root = (0u32..=a).take_while(|k| k * k <= a).last().unwrap_or(0);
        match newton {
            Some(r) => {
                assert_eq!(r * r, a);
                assert_eq!(floor_root * floor_root, a);
            }
            None => {
                assert_ne!(floor_root * floor_root, a);
            }
        }
    }
}

#[test]
fn oracle_exact_roots() {
    assert_eq!(isqrt_newton(0), Some(0));
    assert_eq!(isqrt_newton(1), Some(1));
    assert_eq!(isqrt_newton(2), None);
    assert_eq!(isqrt_newton(3), None);
    assert_eq!(isqrt_newton(4), Some(2));
    assert_eq!(isqrt_newton(99980001), Some(9999));
    assert_eq!(isqrt_newton(99980002), None);
    assert_eq!(isqrt_binary(0), Some(0));
    assert_eq!(isqrt_binary(1), Some(1));
    assert_eq!(isqrt_binary(2), None);
    assert_eq!(isqrt_binary(99980001), Some(9999));
    assert_eq!(isqrt_binary(u32::MAX), None);
    assert_eq!(isqrt_newton(u32::MAX), None);
    assert_eq!(isqrt_binary(65535 * 65535), Some(65535));
    assert_eq!(isqrt_newton(65535 * 65535), Some(65535));
}

#[test]
fn square_table_exact() {
    let squares = generate_squares(100);
    assert_eq!(squares, vec![0, 1, 4, 9, 16, 25, 36, 49, 64, 81, 100]);
    let squares = generate_squares(0);
    assert_eq!(squares, vec![0]);
    let squares = generate_squares(99);
    assert_eq!(squares, vec![0, 1, 4, 9, 16, 25, 36, 49, 64, 81]);
}

#[test]
fn square_table_large_bound() {
    let squares = generate_squares(1_000_000 * 100);
    assert_eq!(squares.len(), 10001);
    assert_eq!(squares[0], 0);
    assert_eq!(squares[1], 1);
    assert_eq!(squares[2], 4);
    assert_eq!(squares[3], 9);
    assert_eq!(squares[squares.len() - 1], 10_000 * 10_000);
    assert_eq!(squares[squares.len() - 2], 9999 * 9999);
    assert_eq!(squares[squares.len() - 3], 9998 * 9998);
}
