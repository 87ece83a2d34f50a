use rapina_mcp::tree::{detect_modules, sorted_strings, walk_source_tree, FsEntry};

fn file(name: &str) -> FsEntry {
    FsEntry { name: name.to_string(), key: name.as_bytes().to_vec(), is_dir: false, children: vec![] }
}

fn dir(name: &str, children: Vec<FsEntry>) -> FsEntry {
    FsEntry { name: name.to_string(), key: name.as_bytes().to_vec(), is_dir: true, children }
}

fn sample() -> Vec<FsEntry> {
    vec![
        file("main.rs"),
        dir("users", vec![file("mod.rs"), file("notes.txt"), file("handlers.rs")]),
        file("README.md"),
        dir("auth", vec![]),
        dir("middleware", vec![file("cors.rs")]),
    ]
}

#[test]
fn tree_is_sorted_and_nested() {
    assert_eq!(
        walk_source_tree(&sample(), 0),
        "- **auth/**\n- main.rs\n- **middleware/**\n  - cors.rs\n- **users/**\n  - handlers.rs\n  - mod.rs\n"
    );
}

#[test]
fn tree_at_depth_is_indented() {
    assert_eq!(
        walk_source_tree(&vec![file("b.rs"), file("a.rs"), dir("c", vec![file("d.rs")])], 2),
        "    - a.rs\n    - b.rs\n    - **c/**\n      - d.rs\n"
    );
}

#[test]
fn empty_directory_renders_nothing() {
    assert_eq!(walk_source_tree(&vec![], 0), "");
}

#[test]
fn modules_are_feature_directories_sorted() {
    let mut entries = sample();
    entries.push(dir("config", vec![]));
    entries.push(dir("common", vec![]));
    entries.push(dir("utils", vec![]));
    entries.push(dir("billing", vec![]));
    assert_eq!(detect_modules(&entries), vec!["auth", "billing", "users"]);
}

#[test]
fn no_modules_among_files() {
    assert!(detect_modules(&vec![file("lib.rs"), dir("utils", vec![])]).is_empty());
}

#[test]
fn tree_orders_by_raw_name_bytes() {
    let raw = FsEntry { name: "\u{FFFD}.rs".to_string(), key: vec![0xf0, b'.', b'r', b's'], is_dir: false, children: vec![] };
    assert_eq!(walk_source_tree(&vec![raw, file("\u{FFFE}.rs")], 0), "- \u{FFFE}.rs\n- \u{FFFD}.rs\n");
}

#[test]
fn names_sort_by_code_point() {
    let names: Vec<String> = vec!["b", "B", "a", "é", "ab", ""].into_iter().map(String::from).collect();
    assert_eq!(sorted_strings(&names), vec!["", "B", "a", "ab", "b", "é"]);
}

#[test]
fn deeper_listing_adds_two_spaces_to_each_line() {
    let shallow = walk_source_tree(&sample(), 1);
    let deeper = walk_source_tree(&sample(), 2);
    let padded: String = shallow.lines().map(|l| format!("  {}\n", l)).collect();
    assert_eq!(deeper, padded);
}

#[test]
fn unlisted_names_do_not_affect_indentation() {
    let mut entries = sample();
    entries.push(file("notes\nmore.txt"));
    let shallow = walk_source_tree(&entries, 0);
    let deeper = walk_source_tree(&entries, 1);
    let padded: String = shallow.lines().map(|l| format!("  {}\n", l)).collect();
    assert_eq!(deeper, padded);
}
