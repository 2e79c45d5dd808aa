use git5::text::{chars_of, decimal_of, is_whitespace, signed_decimal_of, string_of_all, trim_range};

#[test]
fn decimal_texts() {
    assert_eq!(decimal_of(0), vec!['0']);
    assert_eq!(decimal_of(1234567890), "1234567890".chars().collect::<Vec<char>>());
    assert_eq!(signed_decimal_of(-42), vec!['-', '4', '2']);
    assert_eq!(signed_decimal_of(i64::MIN), "-9223372036854775808".chars().collect::<Vec<char>>());
}

#[test]
fn whitespace_is_unicode_white_space() {
    assert!(is_whitespace(' '));
    assert!(is_whitespace('\u{3000}'));
    assert!(is_whitespace('\u{85}'));
    assert!(!is_whitespace('x'));
    assert!(!is_whitespace('\u{200b}'));
}

#[test]
fn trim_range_matches_str_trim() {
    let v = chars_of("  a b \t\n");
    let (a, b) = trim_range(&v, 0, v.len());
    assert_eq!(string_of_all(&v[a..b].to_vec()), "a b");
}
