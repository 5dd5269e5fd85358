use file_indexer::index::FileIndex;
use file_indexer::walker::{build, index_recursive, is_skipped, TreeEntry, ROOT_FOLDER, SKIP_DIRECTORY};

fn file(dir: &str, name: &str) -> TreeEntry {
    TreeEntry::file(name.to_string(), format!("{}/{}", dir, name))
}

fn dir(parent: &str, name: &str, children: Vec<TreeEntry>) -> TreeEntry {
    TreeEntry::directory(name.to_string(), format!("{}/{}", parent, name), children)
}

fn root(children: Vec<TreeEntry>) -> TreeEntry {
    TreeEntry::directory("Users".to_string(), "/Users".to_string(), children)
}

fn pair(name: &str, path: &str) -> (String, String) {
    (name.to_string(), path.to_string())
}

#[test]
fn constants_are_the_documented_ones() {
    assert_eq!(ROOT_FOLDER, "/Users");
    assert_eq!(SKIP_DIRECTORY, "Library");
}

#[test]
fn constructors_fill_the_fields() {
    let plain = TreeEntry::file("a".to_string(), "/r/a".to_string());
    assert_eq!(plain.name, "a");
    assert_eq!(plain.path, "/r/a");
    assert!(!plain.is_dir);
    assert!(plain.children.is_empty());
    let folder = TreeEntry::directory("d".to_string(), "/r/d".to_string(), vec![plain]);
    assert_eq!(folder.name, "d");
    assert_eq!(folder.path, "/r/d");
    assert!(folder.is_dir);
    assert_eq!(folder.children.len(), 1);
}

#[test]
fn only_directories_with_the_exact_name_are_skipped() {
    assert!(is_skipped("Library", true, "Library"));
    assert!(!is_skipped("Library", false, "Library"));
    assert!(!is_skipped("library", true, "Library"));
    assert!(!is_skipped("Library2", true, "Library"));
    assert!(!is_skipped("", true, "Library"));
    assert!(is_skipped("", true, ""));
}

#[test]
fn every_entry_of_a_tree_without_repeated_names_is_indexed() {
    let tree = root(vec![
        dir("/Users", "a", vec![file("/Users/a", "Notes.txt"), dir("/Users/a", "docs", vec![file("/Users/a/docs", "x.md")])]),
        file("/Users", "top.txt"),
    ]);
    let index = build(&tree, "Library");
    assert_eq!(
        index.pairs(),
        &vec![
            pair("a", "/Users/a"),
            pair("Notes.txt", "/Users/a/Notes.txt"),
            pair("docs", "/Users/a/docs"),
            pair("x.md", "/Users/a/docs/x.md"),
            pair("top.txt", "/Users/top.txt"),
        ]
    );
    assert_eq!(index.len(), 5);
}

#[test]
fn the_root_itself_is_not_indexed() {
    let index = build(&root(vec![file("/Users", "a")]), "Library");
    assert!(!index.contains_key("Users"));
    assert_eq!(index.len(), 1);
}

#[test]
fn skipped_directories_are_left_out_at_any_depth() {
    let tree = root(vec![
        dir("/Users", "Library", vec![file("/Users/Library", "secret")]),
        dir(
            "/Users",
            "a",
            vec![dir(
                "/Users/a",
                "b",
                vec![
                    dir("/Users/a/b", "Library", vec![dir("/Users/a/b/Library", "deep", vec![file("/Users/a/b/Library/deep", "deeper")])]),
                    file("/Users/a/b", "kept"),
                ],
            )],
        ),
    ]);
    let index = build(&tree, "Library");
    assert_eq!(
        index.pairs(),
        &vec![pair("a", "/Users/a"), pair("b", "/Users/a/b"), pair("kept", "/Users/a/b/kept")]
    );
    assert!(!index.contains_key("Library"));
    assert!(!index.contains_key("secret"));
    assert!(!index.contains_key("deep"));
    assert!(!index.contains_key("deeper"));
}

#[test]
fn a_file_with_the_skip_name_is_indexed() {
    let index = build(&root(vec![file("/Users", "Library")]), "Library");
    assert_eq!(index.get("Library"), Some(&"/Users/Library".to_string()));
}

#[test]
fn a_root_with_the_skip_name_gives_an_empty_index() {
    let tree = TreeEntry::directory("Library".to_string(), "/Library".to_string(), vec![file("/Library", "a")]);
    assert!(build(&tree, "Library").is_empty());
}

#[test]
fn a_root_that_is_no_directory_gives_an_empty_index() {
    let tree = TreeEntry::file("notes".to_string(), "/notes".to_string());
    assert!(build(&tree, "Library").is_empty());
}

#[test]
fn a_repeated_name_keeps_the_path_visited_last() {
    let tree = root(vec![
        dir("/Users", "a", vec![file("/Users/a", "same.txt")]),
        dir("/Users", "b", vec![file("/Users/b", "same.txt")]),
        file("/Users", "same.txt"),
    ]);
    let index = build(&tree, "Library");
    assert_eq!(index.len(), 3);
    assert_eq!(index.get("same.txt"), Some(&"/Users/same.txt".to_string()));
}

#[test]
fn a_directory_is_walked_right_after_its_own_entry() {
    let tree = root(vec![
        dir("/Users", "x", vec![file("/Users/x", "x")]),
    ]);
    let index = build(&tree, "Library");
    assert_eq!(index.len(), 1);
    assert_eq!(index.get("x"), Some(&"/Users/x/x".to_string()));
}

#[test]
fn the_skip_name_is_matched_with_regard_to_case() {
    let tree = root(vec![dir("/Users", "library", vec![file("/Users/library", "kept")])]);
    let index = build(&tree, "Library");
    assert!(index.contains_key("library"));
    assert!(index.contains_key("kept"));
}

#[test]
fn index_recursive_adds_to_what_the_index_holds() {
    let mut index = FileIndex::new();
    index.insert("old".to_string(), "/old".to_string());
    index.insert("a".to_string(), "/elsewhere/a".to_string());
    index_recursive(&root(vec![file("/Users", "a"), file("/Users", "b")]), "Library", &mut index);
    assert_eq!(index.len(), 3);
    assert_eq!(index.get("old"), Some(&"/old".to_string()));
    assert_eq!(index.get("a"), Some(&"/Users/a".to_string()));
    assert_eq!(index.get("b"), Some(&"/Users/b".to_string()));
}

#[test]
fn an_empty_directory_gives_an_empty_index() {
    assert!(build(&root(Vec::new()), "Library").is_empty());
}
