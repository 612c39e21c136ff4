use tinyutils::text::{chars_of, decimal_string, pad_decimal, str_precedes};

#[test]
fn decimal_of_edge_values() {
    assert_eq!(decimal_string(0), "0");
    assert_eq!(decimal_string(9), "9");
    assert_eq!(decimal_string(10), "10");
    assert_eq!(decimal_string(u64::MAX), "18446744073709551615");
}

#[test]
fn padding_right_justifies() {
    assert_eq!(pad_decimal(42, 6), "    42");
    assert_eq!(pad_decimal(123456, 6), "123456");
    assert_eq!(pad_decimal(1234567, 6), "1234567");
    assert_eq!(pad_decimal(5, 0), "5");
}

#[test]
fn code_point_order() {
    assert!(str_precedes("a", "b"));
    assert!(!str_precedes("b", "a"));
    assert!(str_precedes("ab", "abc"));
    assert!(!str_precedes("abc", "abc"));
    assert!(str_precedes("", "a"));
    assert!(str_precedes("B", "a"));
    assert!(str_precedes(".git", "a.txt"));
    assert!(str_precedes("z", "é"));
}

#[test]
fn chars_are_split_by_code_point() {
    assert_eq!(chars_of("aé☃"), vec!['a', 'é', '☃']);
}
