use puzzles::scanner::{parse_i32, Scanner};

#[test]
fn tokens_split_on_whitespace() {
    let input = b"12 -7\n  9\tabc\r\n".to_vec();
    let mut scanner = Scanner::new(input);
    assert_eq!(scanner.token(), Some(b"12".to_vec()));
    assert_eq!(scanner.token(), Some(b"-7".to_vec()));
    assert_eq!(scanner.token(), Some(b"9".to_vec()));
    assert_eq!(scanner.token(), Some(b"abc".to_vec()));
    assert_eq!(scanner.token(), None);
    assert_eq!(scanner.token(), None);
}

#[test]
fn tokens_of_empty_and_blank_input() {
    let mut scanner = Scanner::new(Vec::new());
    assert_eq!(scanner.token(), None);
    let mut scanner = Scanner::new(b"   \n\t ".to_vec());
    assert_eq!(scanner.token(), None);
}

#[test]
fn parse_i32_accepts_signed_decimals() {
    assert_eq!(parse_i32(&b"12".to_vec()), Some(12));
    assert_eq!(parse_i32(&b"-7".to_vec()), Some(-7));
    assert_eq!(parse_i32(&b"0".to_vec()), Some(0));
    assert_eq!(parse_i32(&b"007".to_vec()), Some(7));
    assert_eq!(parse_i32(&b"2147483647".to_vec()), Some(i32::MAX));
    assert_eq!(parse_i32(&b"-2147483648".to_vec()), Some(i32::MIN));
}

#[test]
fn parse_i32_rejects_malformed_and_overflowing() {
    assert_eq!(parse_i32(&b"".to_vec()), None);
    assert_eq!(parse_i32(&b"-".to_vec()), None);
    assert_eq!(parse_i32(&b"12a".to_vec()), None);
    assert_eq!(parse_i32(&b"- 2".to_vec()), None);
    assert_eq!(parse_i32(&b"2147483648".to_vec()), None);
    assert_eq!(parse_i32(&b"-2147483649".to_vec()), None);
    assert_eq!(parse_i32(&b"99999999999999999999".to_vec()), None);
}
