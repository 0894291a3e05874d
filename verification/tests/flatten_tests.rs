use repo_flatten::flatten::{flatten_tree, Entry};

fn file(name: &str, content: &str) -> Entry {
    Entry::File { name: String::from(name), content: String::from(content) }
}

fn dir(name: &str, entries: Vec<Entry>) -> Entry {
    Entry::Dir { name: String::from(name), entries }
}

fn segs(parts: &[&str]) -> Option<Vec<String>> {
    Some(parts.iter().map(|p| String::from(*p)).collect())
}

#[test]
fn one_file_one_record_and_pruned_metadata_dir() {
    let tree = vec![
        file("a.txt", "hello"),
        dir(".git", vec![file("config", "whatever")]),
    ];
    let out = flatten_tree(&tree, &None);
    assert_eq!(out, "a.txt\nhello\n--------\n");
}

#[test]
fn own_output_inside_root_is_excluded() {
    let tree = vec![file("notes.md", "n"), file("out.txt", "old dump")];
    let out = flatten_tree(&tree, &segs(&["out.txt"]));
    assert_eq!(out, "notes.md\nn\n--------\n");
}

#[test]
fn binary_extension_skipped_any_case() {
    let tree = vec![file("image.PNG", "bits"), file("doc.TXT", "text")];
    let out = flatten_tree(&tree, &None);
    assert_eq!(out, "doc.TXT\ntext\n--------\n");
}

#[test]
fn pruning_is_subtree_wide() {
    let tree = vec![dir("build", vec![dir("target", vec![file("obj.txt", "o")])])];
    let out = flatten_tree(&tree, &None);
    assert_eq!(out, "");
}

#[test]
fn empty_root_empty_dump() {
    let tree: Vec<Entry> = vec![];
    let out = flatten_tree(&tree, &None);
    assert_eq!(out, "");
}

#[test]
fn record_is_three_parts() {
    let tree = vec![file("f.txt", "x\ny")];
    let out = flatten_tree(&tree, &None);
    assert_eq!(out, "f.txt\nx\ny\n--------\n");
}

#[test]
fn walk_order_is_entry_order() {
    let tree = vec![
        file("a", "1"),
        dir("d", vec![file("b", "2")]),
        file("c", "3"),
    ];
    let out = flatten_tree(&tree, &None);
    assert_eq!(out, "a\n1\n--------\nb\n2\n--------\nc\n3\n--------\n");
}

#[test]
fn nested_output_excluded_sibling_kept() {
    let tree = vec![dir("sub", vec![file("out.txt", "o"), file("keep.txt", "k")])];
    let out = flatten_tree(&tree, &segs(&["sub", "out.txt"]));
    assert_eq!(out, "keep.txt\nk\n--------\n");
}

#[test]
fn excluded_directory_drops_its_subtree() {
    let tree = vec![
        dir("sub", vec![file("a.txt", "a")]),
        file("b.txt", "b"),
    ];
    let out = flatten_tree(&tree, &segs(&["sub"]));
    assert_eq!(out, "b.txt\nb\n--------\n");
}

#[test]
fn exclusion_is_whole_path_not_name() {
    let tree = vec![dir("sub", vec![file("out.txt", "o")])];
    let out = flatten_tree(&tree, &segs(&["out.txt"]));
    assert_eq!(out, "out.txt\no\n--------\n");
}

#[test]
fn dir_named_like_denied_file_is_kept() {
    let tree = vec![dir("LICENSE", vec![file("a.txt", "x")])];
    let out = flatten_tree(&tree, &None);
    assert_eq!(out, "a.txt\nx\n--------\n");
}

#[test]
fn empty_exclusion_excludes_nothing() {
    let tree = vec![file("a.txt", "x")];
    let out = flatten_tree(&tree, &Some(Vec::new()));
    assert_eq!(out, "a.txt\nx\n--------\n");
}

#[test]
fn unicode_names_scan_whole_characters() {
    let tree = vec![file("naïve.txt", "ok"), file("süß.PNG", "bits")];
    let out = flatten_tree(&tree, &None);
    assert_eq!(out, "naïve.txt\nok\n--------\n");
}

#[test]
fn deep_nesting_keeps_leaf_records() {
    let tree = vec![dir("a", vec![dir("b", vec![dir("c", vec![file("d.txt", "deep")])])])];
    let out = flatten_tree(&tree, &None);
    assert_eq!(out, "d.txt\ndeep\n--------\n");
}

#[test]
fn dependency_cache_dir_pruned() {
    let tree = vec![
        dir("node_modules", vec![file("index.js", "m")]),
        file("index.js", "top"),
    ];
    let out = flatten_tree(&tree, &None);
    assert_eq!(out, "index.js\ntop\n--------\n");
}

#[test]
fn denied_lockfile_skipped_in_tree() {
    let tree = vec![file("Cargo.lock", "lock"), file("main.rs", "fn")];
    let out = flatten_tree(&tree, &None);
    assert_eq!(out, "main.rs\nfn\n--------\n");
}
