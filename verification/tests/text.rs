use cot_site::text::{
    chars_of, copy_range, find, matches_at, push_decimal, push_joined, push_range, push_str,
    same_chars, split, str_eq, string_of,
};

fn v(s: &str) -> Vec<char> {
    s.chars().collect()
}

fn decimal(n: u64) -> String {
    let mut out = Vec::new();
    push_decimal(&mut out, n);
    out.into_iter().collect()
}

#[test]
fn strings_and_characters_convert_both_ways() {
    for s in ["", "a", "héllo wörld", "日本語", "a\nb\t"] {
        assert_eq!(chars_of(s), v(s));
        assert_eq!(string_of(&v(s)), s);
    }
}

#[test]
fn numbers_are_written_in_decimal() {
    for n in [0u64, 1, 9, 10, 11, 99, 100, 101, 12345, 1_000_000, u64::MAX] {
        assert_eq!(decimal(n), n.to_string());
    }
    let mut out = v("n=");
    push_decimal(&mut out, 42);
    assert_eq!(out, v("n=42"));
}

#[test]
fn text_is_appended_behind_what_is_there() {
    let mut out = v("ab");
    push_str(&mut out, "cd");
    push_str(&mut out, "");
    push_range(&mut out, &v("01234"), 1, 3);
    push_range(&mut out, &v("01234"), 2, 2);
    assert_eq!(out, v("abcd12"));
    assert_eq!(copy_range(&v("hello"), 1, 4), v("ell"));
    assert_eq!(copy_range(&v("hello"), 0, 5), v("hello"));
    assert_eq!(copy_range(&v("hello"), 5, 5), v(""));
}

#[test]
fn equal_texts_are_told_from_unequal_ones() {
    assert!(same_chars(&v(""), &v("")));
    assert!(same_chars(&v("abc"), &v("abc")));
    assert!(!same_chars(&v("abc"), &v("abd")));
    assert!(!same_chars(&v("abc"), &v("ab")));
    assert!(!same_chars(&v("ab"), &v("abc")));
    assert!(str_eq("master", "master"));
    assert!(!str_eq("master", "Master"));
    assert!(!str_eq("", " "));
}

#[test]
fn a_pattern_is_found_at_its_first_place() {
    let text = v("a::b::c");
    let sep = v("::");
    assert_eq!(find(&text, &sep, 0), 1);
    assert_eq!(find(&text, &sep, 1), 1);
    assert_eq!(find(&text, &sep, 2), 4);
    assert_eq!(find(&text, &sep, 5), 7);
    assert_eq!(find(&text, &sep, 7), 7);
    assert_eq!(find(&text, &sep, 100), 7);
    assert_eq!(find(&text, &v("a::b::c::"), 0), 7);
    assert_eq!(find(&v(""), &sep, 0), 0);
    assert_eq!(find(&v(":::"), &sep, 0), 0);
    assert_eq!(find(&v(":::"), &sep, 1), 1);
    assert_eq!(find(&v(":::"), &sep, 2), 3);
    assert!(matches_at(&text, &sep, 1));
    assert!(!matches_at(&text, &sep, 2));
    assert!(matches_at(&text, &v(""), 7));
}

#[test]
fn splitting_agrees_with_the_standard_library() {
    for (text, sep) in [
        ("a::b::c", "::"),
        ("", "::"),
        ("::", "::"),
        (":::", "::"),
        ("::::", "::"),
        ("a:::b", "::"),
        ("a::", "::"),
        ("::a", "::"),
        ("abc", "::"),
        ("x---y---z", "---"),
        ("-------", "---"),
        ("a.b.c", "."),
        ("ééé", "é"),
    ] {
        let parts: Vec<String> = split(&v(text), &v(sep))
            .iter()
            .map(|p| p.iter().collect())
            .collect();
        let expected: Vec<String> = text.split(sep).map(|s| s.to_string()).collect();
        assert_eq!(parts, expected, "{:?} by {:?}", text, sep);
    }
}

#[test]
fn parts_are_joined_with_a_separator_between_them() {
    let parts = ["a", "", "bc"];
    let mut out = Vec::new();
    for (i, p) in parts.iter().enumerate() {
        push_joined(&mut out, i, &v(p), '/');
    }
    assert_eq!(out, v("a//bc"));
    assert_eq!(out.iter().collect::<String>(), parts.join("/"));
}
