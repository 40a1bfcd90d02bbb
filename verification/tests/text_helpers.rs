use sam::strutil::{contains_substring, join_strings, str_eq, u64_to_string, vec_contains_str};

#[test]
fn string_equality_is_by_characters() {
    assert!(str_eq("abc", "abc"));
    assert!(!str_eq("abc", "abd"));
    assert!(!str_eq("abc", "ab"));
    assert!(str_eq("", ""));
}

#[test]
fn join_uses_the_separator_between_parts() {
    let parts = vec!["a".to_string(), "b".to_string(), "c".to_string()];
    assert_eq!(join_strings(&parts, "."), "a.b.c");
    assert_eq!(join_strings(&parts, ", "), "a, b, c");
    let one = vec!["solo".to_string()];
    assert_eq!(join_strings(&one, "."), "solo");
    let none: Vec<String> = vec![];
    assert_eq!(join_strings(&none, "."), "");
}

#[test]
fn substring_search_finds_inner_text() {
    assert!(contains_substring("cart.checkout", "checkout"));
    assert!(contains_substring("cart.checkout", ""));
    assert!(!contains_substring("cart.wishlist", "checkout"));
    assert!(!contains_substring("ab", "abc"));
}

#[test]
fn vector_membership_is_by_content() {
    let v = vec!["db".to_string(), "web".to_string()];
    assert!(vec_contains_str(&v, "db"));
    assert!(!vec_contains_str(&v, "cache"));
}

#[test]
fn decimal_rendering() {
    assert_eq!(u64_to_string(0), "0");
    assert_eq!(u64_to_string(7), "7");
    assert_eq!(u64_to_string(1234), "1234");
    assert_eq!(u64_to_string(u64::MAX), "18446744073709551615");
}
