use import_alias::entry::{root_entries, RootEntry};
use import_alias::rewrite::{alias_name, inject};
use std::path::PathBuf;

fn entry(name: &str) -> RootEntry {
    RootEntry::new(name.to_string(), PathBuf::from(format!("root/{}", name)))
}

fn kept_and_excluded() -> Vec<RootEntry> {
    let children = vec![
        ("components".to_string(), PathBuf::from("root/components")),
        ("__tests__".to_string(), PathBuf::from("root/__tests__")),
    ];
    root_entries(children, &["__tests__".to_string()])
}

#[test]
fn import_of_a_kept_child_gets_the_alias() {
    let entries = kept_and_excluded();
    let out = inject("import Button from \"components/Button\";", "@app", &entries);
    assert_eq!(out, "import Button from \"@app/components/Button\";");
}

#[test]
fn reference_to_an_excluded_child_is_left_alone() {
    let entries = kept_and_excluded();
    let text = "import helper from \"__tests__/helper\";\nimport x from '__tests__/x';\n";
    assert_eq!(inject(text, "@app", &entries), text);
}

#[test]
fn second_run_is_byte_identical() {
    let entries = kept_and_excluded();
    let text = "import Button from \"components/Button\";\nimport t from \"__tests__/t\";\n";
    let once = inject(text, "@app", &entries);
    let twice = inject(&once, "@app", &entries);
    assert_eq!(
        once,
        "import Button from \"@app/components/Button\";\nimport t from \"__tests__/t\";\n"
    );
    assert_eq!(twice.as_bytes(), once.as_bytes());
}

#[test]
fn second_run_changes_nothing_with_several_entries() {
    let entries = vec![entry("components"), entry("utils"), entry("index.ts")];
    let text = "import Button from \"components/Button\";\nimport { a } from 'utils/a';\nimport \"components/side\";\nimport 'index.ts';\n";
    let once = inject(text, "@app", &entries);
    assert_eq!(
        once,
        "import Button from \"@app/components/Button\";\nimport { a } from '@app/utils/a';\nimport \"@app/components/side\";\nimport '@app/index.ts';\n"
    );
    assert_eq!(inject(&once, "@app", &entries), once);
}

#[test]
fn template_placeholder_is_no_match() {
    let entries = vec![entry("components")];
    let text = "export * from '${componentsPath}';";
    assert_eq!(inject(text, "@app", &entries), text);
}

#[test]
fn pattern_before_an_unknown_name_is_left_alone() {
    let entries = vec![entry("components")];
    let text = "import x from \"other\";\nimport 'react';\n";
    assert_eq!(inject(text, "@app", &entries), text);
}

#[test]
fn each_of_the_four_patterns_is_rewritten() {
    let entries = vec![entry("lib")];
    assert_eq!(inject("from \"lib\"", "@x", &entries), "from \"@x/lib\"");
    assert_eq!(inject("from 'lib'", "@x", &entries), "from '@x/lib'");
    assert_eq!(inject("import \"lib\"", "@x", &entries), "import \"@x/lib\"");
    assert_eq!(inject("import 'lib'", "@x", &entries), "import '@x/lib'");
}

#[test]
fn other_spellings_are_no_pattern() {
    let entries = vec![entry("lib")];
    for text in [
        "from  \"lib\"",
        "from\"lib\"",
        "From \"lib\"",
        "from `lib`",
        "require(\"lib\")",
        "import(\"lib\")",
        "from \"./lib\"",
        "from \" lib\"",
    ] {
        assert_eq!(inject(text, "@x", &entries), text);
    }
}

#[test]
fn every_occurrence_in_a_text_is_rewritten() {
    let entries = vec![entry("a"), entry("b")];
    let text = "import p from \"a/p\";import q from \"b/q\";import r from \"a/r\";";
    assert_eq!(
        inject(text, "@", &entries),
        "import p from \"@/a/p\";import q from \"@/b/q\";import r from \"@/a/r\";"
    );
}

#[test]
fn no_entries_or_no_text_changes_nothing() {
    assert_eq!(inject("import a from \"a\";", "@app", &[]), "import a from \"a\";");
    assert_eq!(inject("", "@app", &[entry("a")]), "");
}

#[test]
fn name_is_matched_as_a_prefix_of_what_follows() {
    let entries = vec![entry("app")];
    assert_eq!(inject("from \"app2/x\"", "@a", &entries), "from \"@a/app2/x\"");
    assert_eq!(inject("from \"application\"", "@a", &entries), "from \"@a/application\"");
}

#[test]
fn later_entry_sees_what_the_earlier_left() {
    let text = "from \"app2/x\" from \"app/y\"";
    let short_first = vec![entry("app"), entry("app2")];
    let long_first = vec![entry("app2"), entry("app")];
    assert_eq!(
        inject(text, "@a", &short_first),
        "from \"@a/app2/x\" from \"@a/app/y\""
    );
    assert_eq!(
        inject(text, "@a", &long_first),
        "from \"@a/app2/x\" from \"@a/app/y\""
    );
}

#[test]
fn alias_that_begins_with_a_name_is_prefixed_again() {
    let entries = vec![entry("app")];
    let once = inject("from \"app/x\"", "app", &entries);
    assert_eq!(once, "from \"app/app/x\"");
    assert_eq!(inject(&once, "app", &entries), "from \"app/app/app/x\"");
}

#[test]
fn overlapping_matches_are_taken_from_the_left() {
    let entries = vec![entry("ui")];
    let once = inject("import \"uimport \"ui", "@a", &entries);
    assert_eq!(once, "import \"@a/uimport \"ui");
    assert_eq!(inject(&once, "@a", &entries), "import \"@a/uimport \"@a/ui");
}

#[test]
fn text_beyond_ascii_is_kept_character_by_character() {
    let entries = vec![entry("données")];
    let text = "// café ☕ 日本語\nimport d from 'données/é';\n";
    assert_eq!(
        inject(text, "@ça", &entries),
        "// café ☕ 日本語\nimport d from '@ça/données/é';\n"
    );
}

#[test]
fn patterns_are_applied_for_one_name() {
    let text: Vec<char> = "from 'a' import \"a\" from \"b\"".chars().collect();
    let alias: Vec<char> = "@".chars().collect();
    let name: Vec<char> = "a".chars().collect();
    let out: String = alias_name(text, &alias, &name).into_iter().collect();
    assert_eq!(out, "from '@/a' import \"@/a\" from \"b\"");
}

#[test]
fn no_alias_is_put_before_an_unrelated_name() {
    let entries = kept_and_excluded();
    let text = "import a from \"components/a\";\nimport b from \"__tests__/b\";\nimport c from \"@app/__tests__/c\";\n";
    let out = inject(text, "@app", &entries);
    assert_eq!(
        out,
        "import a from \"@app/components/a\";\nimport b from \"__tests__/b\";\nimport c from \"@app/__tests__/c\";\n"
    );
    assert_eq!(out.matches("\"@app/__tests__").count(), text.matches("\"@app/__tests__").count());
}

#[test]
fn name_with_a_blank_inside_is_rewritten_once() {
    let entries = vec![entry("my components")];
    let once = inject("import a from 'my components/a';", "@app", &entries);
    assert_eq!(once, "import a from '@app/my components/a';");
    assert_eq!(inject(&once, "@app", &entries), once);
}

#[test]
fn empty_alias_puts_a_slash_in_front() {
    let entries = vec![entry("lib")];
    assert_eq!(inject("from \"lib/x\"", "", &entries), "from \"/lib/x\"");
}

#[test]
fn names_that_end_like_a_keyword_begins_are_rewritten_once() {
    let entries = vec![entry("ui"), entry("api"), entry("conf"), entry("shelf")];
    let text = "import a from \"ui/a\";\nimport b from 'api/b';\nimport \"conf\";\nexport * from 'shelf/x';\n";
    let once = inject(text, "@app", &entries);
    assert_eq!(
        once,
        "import a from \"@app/ui/a\";\nimport b from '@app/api/b';\nimport \"@app/conf\";\nexport * from '@app/shelf/x';\n"
    );
    assert_eq!(inject(&once, "@app", &entries), once);
}

#[test]
fn name_that_ends_in_a_blank_is_rewritten_once() {
    let entries = vec![entry("a ")];
    let once = inject("from \"a /x\"", "@app", &entries);
    assert_eq!(once, "from \"@app/a /x\"");
    assert_eq!(inject(&once, "@app", &entries), once);
}

#[test]
fn matches_of_different_patterns_may_overlap() {
    let entries = vec![entry("xf")];
    let once = inject("import \"xfrom \"xf", "@a", &entries);
    assert_eq!(once, "import \"@a/xfrom \"@a/xf");
    assert_eq!(inject(&once, "@a", &entries), once);
}

#[test]
fn reference_to_an_unrelated_name_stays_beside_a_rewritten_one() {
    let entries = vec![entry("ui")];
    let text = "import \"ui\";import \"__tests__/t\";from \"uimport \"__tests__";
    let out = inject(text, "@app", &entries);
    assert_eq!(
        out,
        "import \"@app/ui\";import \"__tests__/t\";from \"@app/uimport \"__tests__"
    );
    assert_eq!(out.matches("import \"__tests__").count(), 2);
    assert_eq!(out.matches("@app/__tests__").count(), 0);
}
