use aoc2022::numbers::{find_only, parse_i32, parse_u32};

#[test]
fn unsigned_numbers() {
    assert_eq!(parse_u32("0"), Some(0));
    assert_eq!(parse_u32("4294967295"), Some(4294967295));
    assert_eq!(parse_u32("4294967296"), None);
    assert_eq!(parse_u32("+17"), Some(17));
    assert_eq!(parse_u32("-1"), None);
    assert_eq!(parse_u32(""), None);
    assert_eq!(parse_u32("+"), None);
    assert_eq!(parse_u32("1a"), None);
    assert_eq!(parse_u32("007"), Some(7));
}

#[test]
fn signed_numbers() {
    assert_eq!(parse_i32("-2147483648"), Some(i32::MIN));
    assert_eq!(parse_i32("2147483647"), Some(i32::MAX));
    assert_eq!(parse_i32("2147483648"), None);
    assert_eq!(parse_i32("-2147483649"), None);
    assert_eq!(parse_i32("-15"), Some(-15));
    assert_eq!(parse_i32("+15"), Some(15));
    assert_eq!(parse_i32("-"), None);
    assert_eq!(parse_i32("1 "), None);
    for s in ["0", "-0", "123", "-99999", "x", "--1"] {
        assert_eq!(parse_i32(s), s.parse::<i32>().ok());
        assert_eq!(parse_u32(s), s.parse::<u32>().ok());
    }
}

#[test]
fn single_separator() {
    assert_eq!(find_only("2-4", '-'), Some(1));
    assert_eq!(find_only("24", '-'), None);
    assert_eq!(find_only("2-4-", '-'), None);
    assert_eq!(find_only("-", '-'), Some(0));
}
