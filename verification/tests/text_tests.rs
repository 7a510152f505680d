use ostep_sim::text::{convert, int_to_string, parse_i32_list, parse_u32_list, text_eq};

#[test]
fn convert_reads_size_suffixes() {
    assert_eq!(convert("16k"), Some(16384));
    assert_eq!(convert("16K"), Some(16384));
    assert_eq!(convert("1m"), Some(1048576));
    assert_eq!(convert("1g"), Some(1073741824));
    assert_eq!(convert("100"), Some(100));
    assert_eq!(convert("-3"), Some(-3));
}

#[test]
fn convert_refuses_bad_sizes() {
    assert_eq!(convert(""), None);
    assert_eq!(convert("abc"), None);
    assert_eq!(convert("k"), None);
    assert_eq!(convert("2g"), None);
    assert_eq!(convert("99999999999"), None);
}

#[test]
fn int_to_string_prints_decimal() {
    assert_eq!(int_to_string(0), "0");
    assert_eq!(int_to_string(-42), "-42");
    assert_eq!(int_to_string(1234567), "1234567");
}

#[test]
fn parse_lists() {
    assert_eq!(parse_i32_list("1,2,-3", ','), Some(vec![1, 2, -3]));
    assert_eq!(parse_i32_list("1,,2", ','), None);
    assert_eq!(parse_u32_list("5:7", ':'), Some(vec![5, 7]));
    assert_eq!(parse_u32_list("-5", ':'), None);
}

#[test]
fn text_equality() {
    assert!(text_eq("abc", "abc"));
    assert!(!text_eq("abc", "abd"));
    assert!(!text_eq("ab", "abc"));
}
