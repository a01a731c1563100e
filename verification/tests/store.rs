use std::collections::{BTreeMap, BTreeSet, HashMap, HashSet};

use doc_me::changes::ChangeSet;
use doc_me::detect::detect;
use doc_me::mapping::Mapping;

type Edges = BTreeMap<String, BTreeSet<String>>;

fn list(names: &[&str]) -> Vec<String> {
    names.iter().map(|name| name.to_string()).collect()
}

/// The edges of a map, whatever the order of its entries.
fn edges(map: &Mapping) -> Edges {
    map.save()
        .into_iter()
        .map(|(root, dependents)| (root, dependents.into_iter().collect()))
        .collect()
}

/// The text of the map file for `map`.
fn written(map: &Mapping) -> String {
    let file_mapping: HashMap<String, HashSet<String>> = map
        .save()
        .into_iter()
        .map(|(root, dependents)| (root, dependents.into_iter().collect()))
        .collect();
    let mut file = HashMap::new();
    file.insert("file_mapping".to_string(), file_mapping);
    serde_json::to_string_pretty(&file).unwrap()
}

/// The map that the text of a map file gives.
fn read(text: &str) -> Mapping {
    let mut file: HashMap<String, HashMap<String, Vec<String>>> =
        serde_json::from_str(text).unwrap();
    let stored = file.remove("file_mapping").unwrap().into_iter().collect();
    let (map, persist) = Mapping::new(Some(stored));
    assert!(!persist);
    map
}

#[test]
fn a_map_written_and_read_has_the_same_edges() {
    let mut map = Mapping::default();
    map.update(list(&["a.go", "a_test.go", "docs/a.md"]));
    map.update(list(&["b.go", "b_test.go"]));
    map.update(list(&["a.go", "CHANGELOG.md"]));
    let loaded = read(&written(&map));
    assert_eq!(edges(&loaded), edges(&map));
    let again = read(&written(&loaded));
    assert_eq!(edges(&again), edges(&map));
}

#[test]
fn an_empty_map_written_and_read_is_empty() {
    let (map, persist) = Mapping::new(None);
    assert!(persist);
    let text = written(&map);
    let loaded = read(&text);
    assert!(loaded.save().is_empty());
    let report = detect(&loaded, &ChangeSet::parse("a.go\nb.go\n"));
    assert!(report.violations().is_empty());
    assert_eq!(report.outcome(), Ok(()));
}

#[test]
fn a_dependent_listed_twice_in_the_file_is_read_once() {
    let text = r#"{ "file_mapping": { "a.go": ["a_test.go", "a.md", "a_test.go"], "b.go": [] } }"#;
    let map = read(text);
    assert_eq!(map.dependents(&"a.go".to_string()), Some(&list(&["a_test.go", "a.md"])));
    assert_eq!(map.dependents(&"b.go".to_string()), Some(&Vec::new()));
    assert_eq!(map.save().len(), 2);
}

#[test]
fn a_map_read_from_a_file_is_held_against_the_changes() {
    let text = r#"{ "file_mapping": { "a.go": ["a_test.go"] } }"#;
    let map = read(text);
    let report = detect(&map, &ChangeSet::parse("a.go\n"));
    assert_eq!(report.outcome(), Err(1));
    assert_eq!(report.violations()[0].root, "a.go");
    assert_eq!(report.violations()[0].missing, list(&["a_test.go"]));
    let report = detect(&map, &ChangeSet::parse("a.go\na_test.go\n"));
    assert_eq!(report.outcome(), Ok(()));
}
