use doc_me::mapping::Mapping;

fn paths(names: &[&str]) -> Vec<String> {
    names.iter().map(|name| name.to_string()).collect()
}

fn entry(root: &str, dependents: &[&str]) -> (String, Vec<String>) {
    (root.to_string(), paths(dependents))
}

#[test]
fn default_map_has_no_entries() {
    let map = Mapping::default();
    assert!(map.save().is_empty());
    assert_eq!(map.dependents(&"a.go".to_string()), None);
}

#[test]
fn update_adds_a_new_root_with_its_dependents() {
    let mut map = Mapping::default();
    map.update(paths(&["a.go", "a_test.go", "a.md"]));
    assert_eq!(map.save(), vec![entry("a.go", &["a_test.go", "a.md"])]);
    assert_eq!(map.dependents(&"a.go".to_string()), Some(&paths(&["a_test.go", "a.md"])));
    assert_eq!(map.dependents(&"a_test.go".to_string()), None);
}

#[test]
fn update_extends_an_existing_root() {
    let mut map = Mapping::default();
    map.update(paths(&["a.go", "a_test.go"]));
    map.update(paths(&["b.go", "b_test.go"]));
    map.update(paths(&["a.go", "a.md", "a_test.go", "a.txt"]));
    assert_eq!(
        map.save(),
        vec![entry("a.go", &["a_test.go", "a.md", "a.txt"]), entry("b.go", &["b_test.go"])]
    );
}

#[test]
fn update_takes_a_repeated_dependent_once() {
    let mut map = Mapping::default();
    map.update(paths(&["x", "y", "y", "z", "y"]));
    assert_eq!(map.save(), vec![entry("x", &["y", "z"])]);
}

#[test]
fn update_lets_a_root_depend_on_itself() {
    let mut map = Mapping::default();
    map.update(paths(&["x", "x"]));
    assert_eq!(map.save(), vec![entry("x", &["x"])]);
}

#[test]
fn registering_a_pair_twice_is_registering_it_once() {
    let mut once = Mapping::default();
    once.update(paths(&["x", "y"]));
    let mut twice = Mapping::default();
    twice.update(paths(&["x", "y"]));
    twice.update(paths(&["x", "y"]));
    assert_eq!(once.save(), twice.save());
    assert_eq!(twice.dependents(&"x".to_string()), Some(&paths(&["y"])));
}

#[test]
fn registering_again_keeps_the_stored_set() {
    let mut map = Mapping::default();
    map.update(paths(&["x", "y", "z"]));
    map.update(paths(&["x", "y"]));
    let mut stored = map.dependents(&"x".to_string()).unwrap().clone();
    stored.sort();
    assert_eq!(stored, paths(&["y", "z"]));
    assert_eq!(map.save().len(), 1);
}

#[test]
fn new_without_a_document_is_empty_and_asks_to_be_written() {
    let (map, persist) = Mapping::new(None);
    assert!(persist);
    assert!(map.save().is_empty());
}

#[test]
fn new_with_a_document_holds_it_and_does_not_ask_to_be_written() {
    let doc = vec![entry("a.go", &["a_test.go"]), entry("b.go", &["b_test.go", "b.md"])];
    let (map, persist) = Mapping::new(Some(doc.clone()));
    assert!(!persist);
    assert_eq!(map.save(), doc);
}

#[test]
fn new_with_an_empty_document_does_not_ask_to_be_written() {
    let (map, persist) = Mapping::new(Some(Vec::new()));
    assert!(!persist);
    assert!(map.save().is_empty());
}

#[test]
fn new_keeps_a_root_without_dependents() {
    let doc = vec![entry("a.go", &[]), entry("b.go", &["b_test.go"])];
    let (map, _) = Mapping::new(Some(doc.clone()));
    assert_eq!(map.save(), doc);
    assert_eq!(map.dependents(&"a.go".to_string()), Some(&Vec::new()));
}

#[test]
fn new_takes_repeated_roots_and_dependents_once() {
    let doc = vec![
        entry("a.go", &["x", "y", "x"]),
        entry("b.go", &["z"]),
        entry("a.go", &["y", "w"]),
    ];
    let (map, _) = Mapping::new(Some(doc));
    assert_eq!(map.save(), vec![entry("a.go", &["x", "y", "w"]), entry("b.go", &["z"])]);
}

#[test]
fn saving_and_loading_gives_the_same_map() {
    let mut map = Mapping::default();
    map.update(paths(&["a.go", "a_test.go", "a.md"]));
    map.update(paths(&["b.go", "b_test.go"]));
    map.update(paths(&["a.go", "a.txt"]));
    let (loaded, persist) = Mapping::new(Some(map.save()));
    assert!(!persist);
    assert_eq!(loaded.save(), map.save());
    let (again, _) = Mapping::new(Some(loaded.save()));
    assert_eq!(again.save(), map.save());
}

#[test]
fn update_after_loading_extends_the_loaded_entry() {
    let (mut map, _) = Mapping::new(Some(vec![entry("a.go", &["a_test.go"])]));
    map.update(paths(&["a.go", "a.md"]));
    assert_eq!(map.save(), vec![entry("a.go", &["a_test.go", "a.md"])]);
}

#[test]
fn paths_are_told_apart_by_every_character() {
    let mut map = Mapping::default();
    map.update(paths(&["src/a.go", "src/A.go", "src/a.go "]));
    assert_eq!(map.dependents(&"src/a.go".to_string()), Some(&paths(&["src/A.go", "src/a.go "])));
    assert_eq!(map.dependents(&"src/a.g".to_string()), None);
    assert_eq!(map.dependents(&"src/A.go".to_string()), None);
}
