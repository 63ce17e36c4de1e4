use pvz_manager::text::{chars_of, decimal_string, str_contains};

#[test]
fn decimal_string_writes_numerals() {
    assert_eq!(decimal_string(0), "0");
    assert_eq!(decimal_string(7), "7");
    assert_eq!(decimal_string(10), "10");
    assert_eq!(decimal_string(12345), "12345");
    assert_eq!(decimal_string(u32::MAX), "4294967295");
}

#[test]
fn str_contains_finds_runs() {
    assert!(str_contains("生存模式：白天", "白天"));
    assert!(str_contains("abc", ""));
    assert!(str_contains("", ""));
    assert!(!str_contains("", "a"));
    assert!(!str_contains("ab", "abc"));
    assert!(str_contains("abcabd", "abd"));
    assert!(!str_contains("abcabd", "abe"));
}

#[test]
fn chars_of_lists_characters() {
    assert_eq!(chars_of("空a"), vec!['空', 'a']);
    assert!(chars_of("").is_empty());
}
