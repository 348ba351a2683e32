use cpu::parse::parse_integer;
use cpu::parse::parse_online_count;

#[test]
fn integer_plain() {
    assert_eq!(parse_integer(b"42"), Some(42));
}

#[test]
fn integer_trailing_newline() {
    assert_eq!(parse_integer(b"7\n"), Some(7));
}

#[test]
fn integer_surrounding_whitespace() {
    assert_eq!(parse_integer(b" \t 123 \r\n"), Some(123));
}

#[test]
fn integer_zero() {
    assert_eq!(parse_integer(b"0"), Some(0));
}

#[test]
fn integer_empty() {
    assert_eq!(parse_integer(b""), None);
    assert_eq!(parse_integer(b"   \n"), None);
}

#[test]
fn integer_malformed() {
    assert_eq!(parse_integer(b"abc"), None);
    assert_eq!(parse_integer(b"1x"), None);
    assert_eq!(parse_integer(b"-3"), None);
    assert_eq!(parse_integer(b"1 2"), None);
}

#[test]
fn integer_u64_max() {
    assert_eq!(parse_integer(b"18446744073709551615"), Some(u64::MAX));
}

#[test]
fn integer_overflow() {
    assert_eq!(parse_integer(b"18446744073709551616"), None);
}

#[test]
fn online_basic_range() {
    assert_eq!(parse_online_count(b"0-3\n"), Some(4));
}

#[test]
fn online_single_core() {
    assert_eq!(parse_online_count(b"0-0"), Some(1));
}

#[test]
fn online_whitespace() {
    assert_eq!(parse_online_count(b" 2-7 \n"), Some(6));
}

#[test]
fn online_reversed() {
    assert_eq!(parse_online_count(b"5-4"), None);
}

#[test]
fn online_no_dash() {
    assert_eq!(parse_online_count(b"0"), None);
}

#[test]
fn online_two_dashes() {
    assert_eq!(parse_online_count(b"0-3-5"), None);
}

#[test]
fn online_missing_side() {
    assert_eq!(parse_online_count(b"-3"), None);
    assert_eq!(parse_online_count(b"3-"), None);
}

#[test]
fn online_non_digit() {
    assert_eq!(parse_online_count(b"a-b"), None);
    assert_eq!(parse_online_count(b"0-3x"), None);
}

#[test]
fn online_empty() {
    assert_eq!(parse_online_count(b""), None);
}
