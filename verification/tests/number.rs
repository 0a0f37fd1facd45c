use mini_redis::number::{only_digits, parse_integer};
use mini_redis::wire::{push_bytes, push_decimal};

#[test]
fn parses_digits_only() {
    assert_eq!(parse_integer(b"0"), Some(0));
    assert_eq!(parse_integer(b"007"), Some(7));
    assert_eq!(parse_integer(b"18446744073709551615"), Some(u64::MAX));
    assert_eq!(parse_integer(b"18446744073709551616"), None);
    assert_eq!(parse_integer(b"00000000000000000000000000001"), Some(1));
    assert_eq!(parse_integer(b""), None);
    assert_eq!(parse_integer(b"+1"), None);
    assert_eq!(parse_integer(b"-0"), None);
    assert_eq!(parse_integer(b"1 "), None);
    assert_eq!(parse_integer(b"12abc"), None);
}

#[test]
fn tells_digits() {
    assert!(only_digits(b""));
    assert!(only_digits(b"0123456789"));
    assert!(!only_digits(b"/"));
    assert!(!only_digits(b":"));
    assert!(!only_digits(b"1a"));
}

#[test]
fn writes_decimal_digits() {
    let cases: [(u64, &str); 7] = [
        (0, "0"),
        (9, "9"),
        (10, "10"),
        (99, "99"),
        (100, "100"),
        (1_000_000_007, "1000000007"),
        (u64::MAX, "18446744073709551615"),
    ];
    for (n, text) in cases {
        let mut out = b"x".to_vec();
        push_decimal(&mut out, n);
        assert_eq!(out, format!("x{}", text).into_bytes());
        assert_eq!(parse_integer(&out[1..]), Some(n));
    }
}

#[test]
fn appends_bytes() {
    let mut out = vec![1];
    push_bytes(&mut out, &[2, 3]);
    push_bytes(&mut out, &[]);
    assert_eq!(out, vec![1, 2, 3]);
}
