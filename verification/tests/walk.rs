use import_alias::entry::{root_entries, RootEntry};
use import_alias::walk::{is_allowed_extension, visit_of, DirEntry, EntryKind, Step, Visit, Walk};
use std::path::PathBuf;

fn dir(path: &str) -> DirEntry {
    DirEntry { path: PathBuf::from(path), kind: EntryKind::Directory, extension: None }
}

fn file(path: &str, extension: Option<&str>) -> DirEntry {
    DirEntry {
        path: PathBuf::from(path),
        kind: EntryKind::File,
        extension: extension.map(|e| e.to_string()),
    }
}

fn show(step: Option<Step>) -> String {
    match step {
        Some(Step::List(path)) => format!("list {}", path.display()),
        Some(Step::Rewrite(path)) => format!("rewrite {}", path.display()),
        Some(Step::Refuse(path)) => format!("refuse {}", path.display()),
        None => "done".to_string(),
    }
}

fn drain(walk: &mut Walk) -> Vec<String> {
    let mut steps = Vec::new();
    loop {
        let step = show(walk.next());
        if step == "done" {
            return steps;
        }
        steps.push(step);
    }
}

#[test]
fn the_four_extensions_are_allowed_and_no_other() {
    for allowed in ["js", "jsx", "ts", "tsx"] {
        assert!(is_allowed_extension(allowed));
    }
    for other in ["", "j", "s", "x", "JS", "Ts", "jsxx", "tsx2", "json", "mjs", "css", "js ", ".js", "st"] {
        assert!(!is_allowed_extension(other));
    }
}

#[test]
fn visit_goes_by_kind_and_extension() {
    let ts = Some("ts".to_string());
    let md = Some("md".to_string());
    assert_eq!(visit_of(EntryKind::Directory, &None), Visit::Descend);
    assert_eq!(visit_of(EntryKind::Directory, &ts), Visit::Descend);
    assert_eq!(visit_of(EntryKind::Directory, &md), Visit::Descend);
    assert_eq!(visit_of(EntryKind::File, &ts), Visit::Rewrite);
    assert_eq!(visit_of(EntryKind::File, &md), Visit::Skip);
    assert_eq!(visit_of(EntryKind::File, &None), Visit::Skip);
    assert_eq!(visit_of(EntryKind::Other, &ts), Visit::Refuse);
    assert_eq!(visit_of(EntryKind::Other, &md), Visit::Refuse);
    assert_eq!(visit_of(EntryKind::Other, &None), Visit::Refuse);
}

#[test]
fn walk_begins_with_the_root_entries_in_order() {
    let entries = vec![
        RootEntry::new("a".to_string(), PathBuf::from("r/a")),
        RootEntry::new("b".to_string(), PathBuf::from("r/b")),
        RootEntry::new("c".to_string(), PathBuf::from("r/c")),
    ];
    let mut walk = Walk::start(&entries);
    assert_eq!(drain(&mut walk), vec!["list r/a", "list r/b", "list r/c"]);
    assert_eq!(show(walk.next()), "done");
}

#[test]
fn walk_without_entries_is_over_at_once() {
    let mut walk = Walk::start(&[]);
    assert_eq!(show(walk.next()), "done");
    assert_eq!(show(walk.next()), "done");
}

#[test]
fn listing_comes_before_what_was_known() {
    let entries = vec![
        RootEntry::new("a".to_string(), PathBuf::from("r/a")),
        RootEntry::new("b".to_string(), PathBuf::from("r/b")),
    ];
    let mut walk = Walk::start(&entries);
    assert_eq!(show(walk.next()), "list r/a");
    walk.listed(vec![
        file("r/a/one.ts", Some("ts")),
        dir("r/a/sub"),
        file("r/a/notes.md", Some("md")),
        file("r/a/Makefile", None),
        file("r/a/two.jsx", Some("jsx")),
    ]);
    assert_eq!(show(walk.next()), "rewrite r/a/one.ts");
    assert_eq!(show(walk.next()), "list r/a/sub");
    walk.listed(vec![file("r/a/sub/deep.js", Some("js")), dir("r/a/sub/__tests__")]);
    assert_eq!(show(walk.next()), "rewrite r/a/sub/deep.js");
    assert_eq!(show(walk.next()), "list r/a/sub/__tests__");
    walk.listed(Vec::new());
    assert_eq!(show(walk.next()), "rewrite r/a/two.jsx");
    assert_eq!(show(walk.next()), "list r/b");
    walk.listed(vec![file("r/b/x.tsx", Some("tsx"))]);
    assert_eq!(show(walk.next()), "rewrite r/b/x.tsx");
    assert_eq!(show(walk.next()), "done");
}

#[test]
fn files_with_other_extensions_are_never_rewritten() {
    let mut walk = Walk::start(&[]);
    walk.listed(vec![
        file("r/readme", None),
        file("r/style.css", Some("css")),
        file("r/data.json", Some("json")),
        file("r/upper.JS", Some("JS")),
    ]);
    assert_eq!(show(walk.next()), "done");
}

#[test]
fn entry_that_is_neither_file_nor_directory_is_refused_in_its_turn() {
    let mut walk = Walk::start(&[RootEntry::new("b".to_string(), PathBuf::from("r/b"))]);
    assert_eq!(show(walk.next()), "list r/b");
    walk.listed(vec![
        file("r/b/first.ts", Some("ts")),
        DirEntry {
            path: PathBuf::from("r/b/socket.ts"),
            kind: EntryKind::Other,
            extension: Some("ts".to_string()),
        },
        file("r/b/later.ts", Some("ts")),
    ]);
    assert_eq!(show(walk.next()), "rewrite r/b/first.ts");
    assert_eq!(show(walk.next()), "refuse r/b/socket.ts");
    assert_eq!(show(walk.next()), "done");
}

#[test]
fn entry_without_extension_that_is_no_file_is_refused_too() {
    let mut walk = Walk::start(&[]);
    walk.listed(vec![DirEntry {
        path: PathBuf::from("r/link"),
        kind: EntryKind::Other,
        extension: None,
    }]);
    assert_eq!(show(walk.next()), "refuse r/link");
}

#[test]
fn nested_directory_is_walked_whatever_its_name() {
    let mut walk = Walk::start(&[]);
    walk.listed(vec![dir("r/a/__tests__"), dir("r/a/node_modules.ts")]);
    assert_eq!(drain(&mut walk), vec!["list r/a/__tests__", "list r/a/node_modules.ts"]);
}

#[test]
fn excluded_child_is_never_listed() {
    let children = vec![
        ("components".to_string(), PathBuf::from("r/components")),
        ("__tests__".to_string(), PathBuf::from("r/__tests__")),
        ("utils".to_string(), PathBuf::from("r/utils")),
    ];
    let entries = root_entries(children, &["__tests__".to_string()]);
    let mut walk = Walk::start(&entries);
    assert_eq!(drain(&mut walk), vec!["list r/components", "list r/utils"]);
}

#[test]
fn whole_tree_is_walked_depth_first() {
    let entries = vec![RootEntry::new("a".to_string(), PathBuf::from("a"))];
    let mut walk = Walk::start(&entries);
    let mut seen = Vec::new();
    loop {
        let step = walk.next();
        let listing = match &step {
            Some(Step::List(path)) => match path.to_str() {
                Some("a") => vec![dir("a/b"), file("a/1.ts", Some("ts")), dir("a/c")],
                Some("a/b") => vec![file("a/b/2.js", Some("js")), file("a/b/3.txt", Some("txt"))],
                Some("a/c") => vec![dir("a/c/d"), file("a/c/4.tsx", Some("tsx"))],
                _ => Vec::new(),
            },
            _ => Vec::new(),
        };
        match step {
            None => break,
            Some(Step::List(_)) => walk.listed(listing),
            Some(Step::Rewrite(path)) => seen.push(path),
            Some(Step::Refuse(path)) => panic!("refused {}", path.display()),
        }
    }
    assert_eq!(
        seen,
        vec![
            PathBuf::from("a/b/2.js"),
            PathBuf::from("a/1.ts"),
            PathBuf::from("a/c/4.tsx"),
        ]
    );
}
