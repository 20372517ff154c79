use import_alias::entry::{is_listed, root_entries, RootEntry};
use std::path::PathBuf;

fn child(name: &str) -> (String, PathBuf) {
    (name.to_string(), PathBuf::from(format!("/src/{}", name)))
}

fn names(entries: &[RootEntry]) -> Vec<String> {
    entries.iter().map(|e| e.file_name.clone()).collect()
}

#[test]
fn new_entry_holds_what_it_was_given() {
    let entry = RootEntry::new("components".to_string(), PathBuf::from("/src/components"));
    assert_eq!(entry.file_name, "components");
    assert_eq!(entry.path, PathBuf::from("/src/components"));
}

#[test]
fn excluded_children_get_no_entry() {
    let children = vec![child("components"), child("__tests__"), child("utils"), child("public")];
    let excluded = vec!["__tests__".to_string(), "public".to_string(), "absent".to_string()];
    let entries = root_entries(children, &excluded);
    assert_eq!(names(&entries), vec!["components", "utils"]);
    assert_eq!(entries[0].path, PathBuf::from("/src/components"));
    assert_eq!(entries[1].path, PathBuf::from("/src/utils"));
}

#[test]
fn without_exclusions_every_child_is_an_entry_in_order() {
    let children = vec![child("b"), child("a"), child("c.ts")];
    let entries = root_entries(children, &[]);
    assert_eq!(names(&entries), vec!["b", "a", "c.ts"]);
}

#[test]
fn exclusion_goes_by_the_whole_name() {
    let children = vec![child("test"), child("tests"), child("Tests"), child("")];
    let entries = root_entries(children, &["tests".to_string()]);
    assert_eq!(names(&entries), vec!["test", "Tests", ""]);
}

#[test]
fn no_children_give_no_entries() {
    assert!(root_entries(Vec::new(), &["a".to_string()]).is_empty());
}

#[test]
fn is_listed_finds_a_name_among_names() {
    let listed = vec!["a".to_string(), "bc".to_string()];
    assert!(is_listed(&listed, &"a".to_string()));
    assert!(is_listed(&listed, &"bc".to_string()));
    assert!(!is_listed(&listed, &"b".to_string()));
    assert!(!is_listed(&listed, &"".to_string()));
    assert!(!is_listed(&[], &"a".to_string()));
}
