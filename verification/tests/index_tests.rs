use file_indexer::index::FileIndex;
use std::collections::HashMap;

fn pair(name: &str, path: &str) -> (String, String) {
    (name.to_string(), path.to_string())
}

#[test]
fn new_index_is_empty() {
    let index = FileIndex::new();
    assert!(index.is_empty());
    assert_eq!(index.len(), 0);
    assert!(index.pairs().is_empty());
    assert_eq!(index.get("a"), None);
    assert!(!index.contains_key("a"));
}

#[test]
fn insert_maps_a_name_to_its_path() {
    let mut index = FileIndex::new();
    index.insert("a.txt".to_string(), "/r/a.txt".to_string());
    assert!(!index.is_empty());
    assert_eq!(index.len(), 1);
    assert!(index.contains_key("a.txt"));
    assert!(!index.contains_key("A.txt"));
    assert_eq!(index.get("a.txt"), Some(&"/r/a.txt".to_string()));
}

#[test]
fn last_write_wins_for_a_repeated_name() {
    let mut index = FileIndex::new();
    index.insert("a".to_string(), "/r/x/a".to_string());
    index.insert("b".to_string(), "/r/b".to_string());
    index.insert("a".to_string(), "/r/y/a".to_string());
    assert_eq!(index.len(), 2);
    assert_eq!(index.get("a"), Some(&"/r/y/a".to_string()));
    assert_eq!(index.get("b"), Some(&"/r/b".to_string()));
    assert_eq!(index.pairs(), &vec![pair("a", "/r/y/a"), pair("b", "/r/b")]);
}

#[test]
fn from_pairs_keeps_every_distinct_name() {
    let pairs = vec![pair("a", "/a"), pair("b", "/b"), pair("c", "/c")];
    let index = FileIndex::from_pairs(pairs.clone());
    assert_eq!(index.len(), 3);
    assert_eq!(index.pairs(), &pairs);
}

#[test]
fn from_pairs_keeps_the_last_path_of_a_repeated_name() {
    let index = FileIndex::from_pairs(vec![pair("a", "/1"), pair("a", "/2"), pair("a", "/3")]);
    assert_eq!(index.len(), 1);
    assert_eq!(index.get("a"), Some(&"/3".to_string()));
}

#[test]
fn pairs_and_from_pairs_round_trip() {
    let index = FileIndex::from_pairs(vec![
        pair("Notes.txt", "/Users/a/Notes.txt"),
        pair("日本語.txt", "/Users/ü/日本語.txt"),
        pair("", "/"),
    ]);
    let again = FileIndex::from_pairs(index.pairs().clone());
    assert_eq!(again.pairs(), index.pairs());
    assert_eq!(again.len(), index.len());
}

fn through_json(index: &FileIndex) -> FileIndex {
    let files: HashMap<String, String> = index.pairs().iter().cloned().collect();
    let mut document: HashMap<String, HashMap<String, String>> = HashMap::new();
    document.insert("files".to_string(), files);
    let text = serde_json::to_string(&document).unwrap();
    let mut loaded: HashMap<String, HashMap<String, String>> = serde_json::from_str(&text).unwrap();
    FileIndex::from_pairs(loaded.remove("files").unwrap().into_iter().collect())
}

fn same_mapping(left: &FileIndex, right: &FileIndex) -> bool {
    left.len() == right.len()
        && left.pairs().iter().all(|(name, path)| right.get(name) == Some(path))
        && right.pairs().iter().all(|(name, path)| left.get(name) == Some(path))
}

#[test]
fn json_round_trip_of_an_empty_index() {
    let index = FileIndex::new();
    assert!(same_mapping(&through_json(&index), &index));
}

#[test]
fn json_round_trip_of_a_single_entry() {
    let index = FileIndex::from_pairs(vec![pair("a.txt", "/r/a.txt")]);
    assert!(same_mapping(&through_json(&index), &index));
}

#[test]
fn json_round_trip_of_names_outside_ascii() {
    let index = FileIndex::from_pairs(vec![
        pair("日本語.txt", "/Users/ü/日本語.txt"),
        pair("quote\"back\\slash", "/r/quote\"back\\slash"),
        pair("line\nbreak", "/r/line\nbreak"),
        pair("émoji 🎉", "/r/émoji 🎉"),
    ]);
    assert!(same_mapping(&through_json(&index), &index));
}

#[test]
fn json_round_trip_of_a_large_index() {
    let mut index = FileIndex::new();
    for i in 0..5000 {
        index.insert(format!("file{}.dat", i), format!("/r/d{}/file{}.dat", i % 7, i));
    }
    assert_eq!(index.len(), 5000);
    assert!(same_mapping(&through_json(&index), &index));
}
