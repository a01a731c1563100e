use doc_me::changes::ChangeSet;
use doc_me::detect::{detect, Report};
use doc_me::mapping::Mapping;

fn list(names: &[&str]) -> Vec<String> {
    names.iter().map(|name| name.to_string()).collect()
}

fn map_of(entries: &[&[&str]]) -> Mapping {
    let mut map = Mapping::default();
    for files in entries {
        map.update(list(files));
    }
    map
}

fn records(report: &Report) -> Vec<(String, Vec<String>)> {
    report.violations().iter().map(|v| (v.root.clone(), v.missing.clone())).collect()
}

fn record(root: &str, missing: &[&str]) -> (String, Vec<String>) {
    (root.to_string(), list(missing))
}

#[test]
fn a_changed_root_without_its_dependent_is_a_violation() {
    let map = map_of(&[&["a.go", "a_test.go"]]);
    let report = detect(&map, &ChangeSet::new(list(&["a.go"])));
    assert_eq!(records(&report), vec![record("a.go", &["a_test.go"])]);
    assert_eq!(report.missing_count(), 1);
    assert_eq!(report.outcome(), Err(1));
}

#[test]
fn a_changed_root_with_its_dependent_is_no_violation() {
    let map = map_of(&[&["a.go", "a_test.go"]]);
    let report = detect(&map, &ChangeSet::new(list(&["a.go", "a_test.go"])));
    assert!(report.violations().is_empty());
    assert_eq!(report.missing_count(), 0);
    assert_eq!(report.outcome(), Ok(()));
}

#[test]
fn a_set_registered_twice_is_held_once() {
    let map = map_of(&[&["x", "y", "z"], &["x", "y"]]);
    let report = detect(&map, &ChangeSet::new(list(&["x"])));
    assert_eq!(records(&report), vec![record("x", &["y", "z"])]);
    assert_eq!(report.outcome(), Err(2));
}

#[test]
fn a_fresh_map_is_never_violated() {
    let (map, persist) = Mapping::new(None);
    assert!(persist);
    assert!(map.save().is_empty());
    for text in ["", "a.go", "a.go\na_test.go\nb.go\n", "x y z x"] {
        let report = detect(&map, &ChangeSet::parse(text));
        assert!(report.violations().is_empty());
        assert_eq!(report.missing_count(), 0);
        assert_eq!(report.outcome(), Ok(()));
    }
}

#[test]
fn no_changed_file_is_no_violation() {
    let map = map_of(&[&["a.go", "a_test.go"], &["b.go", "b_test.go"]]);
    let report = detect(&map, &ChangeSet::new(Vec::new()));
    assert!(report.violations().is_empty());
    assert_eq!(report.outcome(), Ok(()));
}

#[test]
fn a_changed_dependent_alone_is_no_violation() {
    let map = map_of(&[&["a.go", "a_test.go"]]);
    let report = detect(&map, &ChangeSet::new(list(&["a_test.go", "c.go"])));
    assert!(report.violations().is_empty());
    assert_eq!(report.outcome(), Ok(()));
}

#[test]
fn only_the_missing_dependents_are_reported_in_stored_order() {
    let map = map_of(&[&["a", "d1", "d2", "d3", "d4"]]);
    let report = detect(&map, &ChangeSet::new(list(&["d3", "a", "d1"])));
    assert_eq!(records(&report), vec![record("a", &["d2", "d4"])]);
    assert_eq!(report.missing_count(), 2);
    assert_eq!(report.outcome(), Err(2));
}

#[test]
fn violations_come_in_the_order_of_the_changed_files() {
    let map = map_of(&[&["a", "a1"], &["b", "b1", "b2"], &["c", "c1"]]);
    let report = detect(&map, &ChangeSet::new(list(&["c", "x", "b", "a", "a1"])));
    assert_eq!(records(&report), vec![record("c", &["c1"]), record("b", &["b1", "b2"])]);
    assert_eq!(report.missing_count(), 3);
    assert_eq!(report.outcome(), Err(3));
}

#[test]
fn a_root_named_twice_is_reported_once() {
    let map = map_of(&[&["a", "a1"], &["b", "b1"]]);
    let report = detect(&map, &ChangeSet::parse("a b a\nb a"));
    assert_eq!(records(&report), vec![record("a", &["a1"]), record("b", &["b1"])]);
    assert_eq!(report.missing_count(), 2);
}

#[test]
fn dependencies_are_not_followed_further() {
    let map = map_of(&[&["a", "b"], &["b", "c"]]);
    let report = detect(&map, &ChangeSet::new(list(&["a", "b"])));
    assert_eq!(records(&report), vec![record("b", &["c"])]);
    let report = detect(&map, &ChangeSet::new(list(&["a"])));
    assert_eq!(records(&report), vec![record("a", &["b"])]);
}

#[test]
fn a_root_that_depends_on_itself_is_met_by_its_own_change() {
    let map = map_of(&[&["a", "a", "b"]]);
    let report = detect(&map, &ChangeSet::new(list(&["a"])));
    assert_eq!(records(&report), vec![record("a", &["b"])]);
}

#[test]
fn a_root_without_dependents_is_never_violated() {
    let (map, _) = Mapping::new(Some(vec![("a".to_string(), Vec::new())]));
    let report = detect(&map, &ChangeSet::new(list(&["a"])));
    assert!(report.violations().is_empty());
    assert_eq!(report.outcome(), Ok(()));
}

#[test]
fn a_violation_is_reported_exactly_for_changed_roots_that_miss_a_dependent() {
    let map = map_of(&[&["a", "x", "y"], &["b", "y"], &["c", "z"], &["d", "x"]]);
    let changed = list(&["a", "b", "y", "d", "q"]);
    let report = detect(&map, &ChangeSet::new(changed.clone()));
    let found = records(&report);
    for (root, dependents) in map.save() {
        let missing: Vec<String> =
            dependents.iter().filter(|d| !changed.contains(d)).cloned().collect();
        let reported: Vec<&(String, Vec<String>)> =
            found.iter().filter(|(r, _)| *r == root).collect();
        if changed.contains(&root) && !missing.is_empty() {
            assert_eq!(reported, vec![&(root, missing)]);
        } else {
            assert!(reported.is_empty());
        }
    }
    assert_eq!(found, vec![record("a", &["x"]), record("d", &["x"])]);
    assert_eq!(report.outcome(), Err(2));
}

#[test]
fn the_count_is_the_number_of_missing_dependents() {
    let map = map_of(&[&["a", "a1", "a2", "a3"], &["b", "b1", "b2"], &["c", "c1"]]);
    let report = detect(&map, &ChangeSet::parse("a b c a2"));
    let total: usize = report.violations().iter().map(|v| v.missing.len()).sum();
    assert_eq!(total, 5);
    assert_eq!(report.missing_count(), 5);
    assert_eq!(report.outcome(), Err(5));
}

#[test]
fn detection_reads_the_output_of_a_diff() {
    let (map, _) = Mapping::new(Some(vec![
        ("src/lib.rs".to_string(), list(&["README.md", "CHANGELOG.md"])),
        ("src/main.rs".to_string(), list(&["docs/usage.md"])),
    ]));
    let report = detect(&map, &ChangeSet::parse("src/main.rs\r\nsrc/lib.rs\r\nREADME.md\r\n"));
    assert_eq!(
        records(&report),
        vec![record("src/main.rs", &["docs/usage.md"]), record("src/lib.rs", &["CHANGELOG.md"])]
    );
    assert_eq!(report.outcome(), Err(2));
}
