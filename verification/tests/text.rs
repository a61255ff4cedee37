use passmail::text::{chars_of, collapse_whitespace, contains, decimal_chars, join, replace_all, trim};

fn string_from_chars(v: &[char]) -> String {
    v.iter().collect()
}

fn v(s: &str) -> Vec<char> {
    s.chars().collect()
}

#[test]
fn replacement_is_leftmost_and_non_overlapping() {
    assert_eq!(string_from_chars(&replace_all(&v("aaaa"), &v("aa"), &v("b"))), "bb");
    assert_eq!(string_from_chars(&replace_all(&v("aaa"), &v("aa"), &v("xy"))), "xya");
    assert_eq!(string_from_chars(&replace_all(&v("abc"), &v("d"), &v("e"))), "abc");
    assert_eq!(string_from_chars(&replace_all(&v("ab"), &v("abc"), &v("e"))), "ab");
}

#[test]
fn whitespace_handling() {
    assert_eq!(string_from_chars(&collapse_whitespace(&v(" a \u{3000} b\n"))), "a b");
    assert_eq!(string_from_chars(&trim(&v("\t x y \u{a0}"))), "x y");
    assert_eq!(string_from_chars(&trim(&v("   "))), "");
}

#[test]
fn search_join_and_digits() {
    assert!(contains(&v("shipping"), &v("pin")));
    assert!(!contains(&v("pi"), &v("pin")));
    assert!(contains(&v("x"), &v("")));
    assert_eq!(string_from_chars(&join(&vec![v("a"), v("b"), v("c")], &v(", "))), "a, b, c");
    assert_eq!(string_from_chars(&join(&vec![], &v("-"))), "");
    assert_eq!(string_from_chars(&decimal_chars(0)), "0");
    assert_eq!(string_from_chars(&decimal_chars(1234567890)), "1234567890");
    assert_eq!(chars_of("hé"), vec!['h', 'é']);
}
