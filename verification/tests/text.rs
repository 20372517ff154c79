use import_alias::text::{from_chars, matches_at, push_all, replace_all, to_chars};

fn chars(s: &str) -> Vec<char> {
    s.chars().collect()
}

fn replace(text: &str, from: &str, to: &str) -> String {
    replace_all(&chars(text), &chars(from), &chars(to)).into_iter().collect()
}

#[test]
fn replace_all_replaces_every_occurrence() {
    assert_eq!(replace("a-b-c", "-", "+"), "a+b+c");
    assert_eq!(replace("abcabc", "bc", "X"), "aXaX");
    assert_eq!(replace("abc", "abc", ""), "");
    assert_eq!(replace("abc", "abcd", "X"), "abc");
    assert_eq!(replace("", "a", "X"), "");
}

#[test]
fn replace_all_agrees_with_the_standard_library() {
    for (text, from, to) in [
        ("aaaa", "aa", "b"),
        ("aaa", "aa", "b"),
        ("abababa", "aba", "x"),
        ("from \"a from \"a", "from \"a", "from \"@/a"),
        ("xyz", "y", "yy"),
        ("été", "é", "e"),
    ] {
        assert_eq!(replace(text, from, to), text.replace(from, to));
    }
}

#[test]
fn replace_all_takes_matches_from_the_left_without_overlap() {
    assert_eq!(replace("aaa", "aa", "b"), "ba");
    assert_eq!(replace("abababa", "aba", "x"), "xbx");
}

#[test]
fn replace_all_does_not_search_what_it_put_in() {
    assert_eq!(replace("ab", "a", "aa"), "aab");
    assert_eq!(replace("xx", "x", "xx"), "xxxx");
}

#[test]
fn replace_all_with_an_empty_pattern_changes_nothing() {
    assert_eq!(replace("abc", "", "X"), "abc");
    assert_eq!(replace("", "", "X"), "");
}

#[test]
fn matches_at_tests_one_place() {
    let text = chars("import x");
    assert!(matches_at(&text, &chars("import"), 0));
    assert!(matches_at(&text, &chars("port"), 2));
    assert!(matches_at(&text, &chars("x"), 7));
    assert!(matches_at(&text, &chars(""), 8));
    assert!(!matches_at(&text, &chars("port"), 1));
    assert!(!matches_at(&text, &chars("x "), 7));
    assert!(!matches_at(&text, &chars("x"), 8));
    assert!(!matches_at(&text, &chars(""), 9));
    assert!(!matches_at(&text, &chars("x"), usize::MAX));
}

#[test]
fn push_all_appends() {
    let mut out = chars("ab");
    push_all(&mut out, &chars("cd"));
    assert_eq!(out, chars("abcd"));
    push_all(&mut out, &[]);
    assert_eq!(out, chars("abcd"));
}

#[test]
fn characters_and_strings_convert_both_ways() {
    assert_eq!(to_chars("aé☕"), vec!['a', 'é', '☕']);
    assert_eq!(to_chars(""), Vec::<char>::new());
    assert_eq!(from_chars(&['a', 'é', '☕']), "aé☕");
    assert_eq!(from_chars(&[]), "");
    assert_eq!(from_chars(&to_chars("from \"x\"")), "from \"x\"");
}
