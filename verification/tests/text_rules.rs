use file_type_groups::text::{chars_of, key_less, key_of, like_matches, name_like, push_decimal};

#[test]
fn like_is_a_contains_match() {
    assert!(name_like("", ""));
    assert!(name_like("", "anything"));
    assert!(name_like("code", "Visual Studio Code"));
    assert!(name_like("a_c", "xxabcxx"));
    assert!(!name_like("a_c", "ac"));
    assert!(name_like("a%c", "a----c"));
    assert!(!name_like("abc", "ab"));
}

#[test]
fn like_folds_ascii_case_only() {
    assert!(name_like("TEXT", "textedit"));
    assert!(!name_like("É", "é"));
    assert!(name_like("é", "café"));
}

#[test]
fn like_pattern_matching() {
    let p = chars_of("%b_d");
    assert!(like_matches(&p, &chars_of("abcd")));
    assert!(!like_matches(&p, &chars_of("abcde")));
    assert!(like_matches(&chars_of(""), &chars_of("")));
    assert!(!like_matches(&chars_of(""), &chars_of("a")));
}

#[test]
fn collation_keys() {
    assert_eq!(key_of("AbZ", true), vec![97, 98, 122]);
    assert_eq!(key_of("AbZ", false), vec![65, 98, 90]);
    assert!(key_less(&key_of("alpha", true), &key_of("Beta", true)));
    assert!(!key_less(&key_of("alpha", false), &key_of("Beta", false)));
    assert!(key_less(&key_of("ab", false), &key_of("abc", false)));
    assert!(!key_less(&key_of("abc", false), &key_of("abc", false)));
}

#[test]
fn decimal_numerals() {
    let mut out = String::from("n=");
    push_decimal(&mut out, 0);
    assert_eq!(out, "n=0");
    let mut out = String::new();
    push_decimal(&mut out, 4294967295);
    assert_eq!(out, "4294967295");
    let mut out = String::new();
    push_decimal(&mut out, 1002);
    assert_eq!(out, "1002");
}
