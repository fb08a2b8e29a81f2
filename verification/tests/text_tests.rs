use aocr2024::{string_to_i32, string_to_u64};

#[test]
fn test_string_to_i32() {
    assert_eq!(string_to_i32("0"), 0);
    assert_eq!(string_to_i32("42"), 42);
    assert_eq!(string_to_i32("-42"), -42);
    assert_eq!(string_to_i32("+7"), 7);
    assert_eq!(string_to_i32("2147483647"), i32::MAX);
    assert_eq!(string_to_i32("-2147483648"), i32::MIN);
}

#[test]
fn test_string_to_u64() {
    assert_eq!(string_to_u64("0"), 0);
    assert_eq!(string_to_u64("161011"), 161011);
    assert_eq!(string_to_u64("18446744073709551615"), u64::MAX);
    assert_eq!(string_to_u64("007"), 7);
}
