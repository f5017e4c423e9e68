use dependency_drift::drift::{build_drift, drift_from_catalogs, entries_to_snapshot, CatalogSnapshot};
use dependency_drift::catalog::VersionEntry;

fn tags(names: &[&str]) -> Vec<String> {
    names.iter().map(|s| s.to_string()).collect()
}

fn entry(name: &str, version: &str, category: &str) -> VersionEntry {
    VersionEntry {
        name: name.to_string(),
        version: version.to_string(),
        category: category.to_string(),
    }
}

#[test]
fn extract_drift_single_tag() {
    let catalog = "\
[versions]
kotlin_version = \"2.0.0\"
guava_version = \"33.0.0\"
";
    let payload = drift_from_catalogs(&tags(&["v1.0.0"]), &[Some(catalog.to_string())]);
    assert_eq!(payload.tags, vec!["v1.0.0"]);
    assert_eq!(payload.dependencies.len(), 2);
    // Sorted by name.
    assert_eq!(payload.dependencies[0].name, "guava");
    assert_eq!(payload.dependencies[0].versions, vec![Some("33.0.0".to_string())]);
    assert_eq!(payload.dependencies[1].name, "kotlin");
    assert_eq!(payload.dependencies[1].versions, vec![Some("2.0.0".to_string())]);
}

#[test]
fn extract_drift_tracks_version_changes() {
    let v1 = "[versions]\nkotlin_version = \"1.9.0\"";
    let v2 = "[versions]\nkotlin_version = \"2.0.0\"";
    let payload = drift_from_catalogs(
        &tags(&["v1.0.0", "v2.0.0"]),
        &[Some(v1.to_string()), Some(v2.to_string())],
    );
    let kotlin = payload.dependencies.iter().find(|d| d.name == "kotlin").unwrap();
    assert_eq!(
        kotlin.versions,
        vec![Some("1.9.0".to_string()), Some("2.0.0".to_string())]
    );
}

#[test]
fn extract_drift_dependency_added_later() {
    let v1 = "[versions]\nkotlin_version = \"1.9.0\"";
    let v2 = "[versions]\nkotlin_version = \"2.0.0\"\nguava_version = \"33.0.0\"";
    let payload = drift_from_catalogs(
        &tags(&["v1.0.0", "v2.0.0"]),
        &[Some(v1.to_string()), Some(v2.to_string())],
    );
    let guava = payload.dependencies.iter().find(|d| d.name == "guava").unwrap();
    assert_eq!(guava.versions, vec![None, Some("33.0.0".to_string())]);
}

#[test]
fn extract_drift_missing_catalog_at_tag() {
    let payload = drift_from_catalogs(
        &tags(&["v1.0.0", "v2.0.0"]),
        &[None, Some("[versions]\nfoo = \"1.0.0\"".to_string())],
    );
    let foo = payload.dependencies.iter().find(|d| d.name == "foo").unwrap();
    assert_eq!(foo.versions, vec![None, Some("1.0.0".to_string())]);
}

#[test]
fn extract_drift_preserves_categories() {
    let catalog = "\
[versions]
# External dependencies
guava_version = \"33.0.0\"

# Test dependencies
junit_version = \"5.10.0\"
";
    let payload = drift_from_catalogs(&tags(&["v1.0.0"]), &[Some(catalog.to_string())]);
    let guava = payload.dependencies.iter().find(|d| d.name == "guava").unwrap();
    assert_eq!(guava.category.as_deref(), Some("external"));
    let junit = payload.dependencies.iter().find(|d| d.name == "junit").unwrap();
    assert_eq!(junit.category.as_deref(), Some("test"));
}

#[test]
fn drift_category_from_latest_tag_with_dependency() {
    let v1 = "[versions]\n# Test\na = \"1\"";
    let v2 = "[versions]\n# External\na = \"2\"";
    let v3 = "[versions]\nb = \"1\"";
    let payload = drift_from_catalogs(
        &tags(&["t1", "t2", "t3"]),
        &[Some(v1.to_string()), Some(v2.to_string()), Some(v3.to_string())],
    );
    assert_eq!(payload.dependencies.len(), 2);
    let a = &payload.dependencies[0];
    assert_eq!(a.name, "a");
    assert_eq!(a.category.as_deref(), Some("external"));
    assert_eq!(a.versions, vec![Some("1".to_string()), Some("2".to_string()), None]);
    let b = &payload.dependencies[1];
    assert_eq!(b.versions, vec![None, None, Some("1".to_string())]);
}

#[test]
fn drift_names_sorted_unique_and_positional() {
    let v1 = "[versions]\nzeta = \"1\"\nalpha = \"1\"\nalpha = \"2\"";
    let v2 = "[versions]\nmid = \"3\"\nzeta = \"4\"";
    let payload = drift_from_catalogs(
        &tags(&["a", "b"]),
        &[Some(v1.to_string()), Some(v2.to_string())],
    );
    let names: Vec<&str> = payload.dependencies.iter().map(|d| d.name.as_str()).collect();
    assert_eq!(names, vec!["alpha", "mid", "zeta"]);
    // A repeated name keeps its last version.
    assert_eq!(payload.dependencies[0].versions, vec![Some("2".to_string()), None]);
    for d in &payload.dependencies {
        assert_eq!(d.versions.len(), payload.tags.len());
        assert!(d.versions.iter().any(|v| v.is_some()));
        assert!(d.category.is_some());
    }
}

#[test]
fn drift_no_catalogs() {
    let payload = drift_from_catalogs(&tags(&["a", "b"]), &[None, None]);
    assert_eq!(payload.tags.len(), 2);
    assert!(payload.dependencies.is_empty());
}

#[test]
fn snapshot_last_entry_wins() {
    let snap = entries_to_snapshot(vec![
        entry("a", "1", "internal"),
        entry("b", "2", "test"),
        entry("a", "3", "plugin"),
    ]);
    assert_eq!(
        snap.get(&"a".to_string()),
        Some(("3".to_string(), "plugin".to_string()))
    );
    assert_eq!(snap.get(&"b".to_string()), Some(("2".to_string(), "test".to_string())));
    assert_eq!(snap.get(&"c".to_string()), None);
    assert_eq!(CatalogSnapshot::empty().get(&"a".to_string()), None);
}

#[test]
fn build_drift_from_snapshots() {
    let s1 = entries_to_snapshot(vec![entry("b", "1", "internal")]);
    let s2 = entries_to_snapshot(vec![entry("a", "2", "test"), entry("b", "3", "internal")]);
    let payload = build_drift(&tags(&["x", "y"]), &[s1, s2]);
    assert_eq!(payload.dependencies.len(), 2);
    assert_eq!(payload.dependencies[0].name, "a");
    assert_eq!(payload.dependencies[0].versions, vec![None, Some("2".to_string())]);
    assert_eq!(payload.dependencies[1].versions, vec![Some("1".to_string()), Some("3".to_string())]);
}
