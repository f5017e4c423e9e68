use dependency_drift::blob::{catalog_text, CatalogText};
use dependency_drift::html::{embed_json, escape_json};
use dependency_drift::tags::{is_semver, select_tags, semver_tags, sort_by_version, strip_v, TagSelectError};

const TEMPLATE: &str = "<html><script>var DATA = /*__DATA__*/null/*__END__*/;</script></html>";

#[test]
fn render_html_contains_json_payload() {
    // The JSON text that serializing the payload
    // { tags: ["v1.0.0"], dependencies: [{ name: "kotlin", category: Some("internal"),
    //   versions: [Some("2.0.0")] }] } gives.
    let json = "{\"tags\":[\"v1.0.0\"],\"dependencies\":[{\"name\":\"kotlin\",\"category\":\"internal\",\"versions\":[\"2.0.0\"]}]}";
    let html = embed_json(TEMPLATE, json);

    // The placeholder should be gone.
    assert!(!html.contains("/*__DATA__*/null/*__END__*/"));
    // The JSON payload should be embedded.
    assert!(html.contains("\"kotlin\""));
    assert!(html.contains("\"v1.0.0\""));
    assert!(html.contains("\"2.0.0\""));
    assert_eq!(
        html,
        format!("<html><script>var DATA = {json};</script></html>")
    );
}

#[test]
fn render_html_escapes_closing_script_tag() {
    let json = "{\"tags\":[\"v1.0.0\"],\"dependencies\":[{\"name\":\"evil\",\"versions\":[\"</script><script>alert(1)</script>\"]}]}";
    let html = embed_json(TEMPLATE, json);

    // The injected JSON should use the escaped form.
    assert!(html.contains("<\\/script>"));

    // The literal dangerous sequence must not appear within the DATA region.
    let data_start = html.find("var DATA = ").expect("DATA variable not found");
    let data_end = html.rfind(";</script>").unwrap();
    assert!(
        !html[data_start..data_end].contains("</script>"),
        "unescaped </script> found in DATA region"
    );
    assert!(!html[data_start..data_end].contains("</"));
}

#[test]
fn embed_without_placeholder_keeps_template() {
    assert_eq!(embed_json("<p>no data</p>", "{}"), "<p>no data</p>");
}

#[test]
fn escape_json_cases() {
    assert_eq!(escape_json("</"), "<\\/");
    assert_eq!(escape_json("<</</"), "<<\\/<\\/");
    assert_eq!(escape_json("a<b/c"), "a<b/c");
    assert_eq!(escape_json(""), "");
    for s in ["</</", "<<//", "x</y</z", "<\\/"] {
        assert!(!escape_json(s).contains("</"));
    }
}

#[test]
fn strip_v_cases() {
    assert_eq!(strip_v("v1.2.3"), "1.2.3");
    assert_eq!(strip_v("vv1"), "v1");
    assert_eq!(strip_v("1.0.0"), "1.0.0");
    assert_eq!(strip_v(""), "");
}

#[test]
fn semver_filtering() {
    assert!(is_semver("v1.2.3"));
    assert!(is_semver("1.2.3-rc.1"));
    assert!(!is_semver("v1.2"));
    assert!(!is_semver("release-1"));
    let raw: Vec<String> = ["v1.0.0", "nightly", "2.0.0", "v3"].iter().map(|s| s.to_string()).collect();
    assert_eq!(semver_tags(&raw), vec!["v1.0.0".to_string(), "2.0.0".to_string()]);
}

#[test]
fn sort_is_by_version_and_stable() {
    let raw: Vec<String> = ["v10.0.0", "v2.0.0", "1.0.0", "v1.0.0", "v2.0.0-rc.1"]
        .iter()
        .map(|s| s.to_string())
        .collect();
    let sorted = sort_by_version(&raw);
    assert_eq!(
        sorted,
        vec!["1.0.0", "v1.0.0", "v2.0.0-rc.1", "v2.0.0", "v10.0.0"]
    );
}

#[test]
fn select_errors() {
    assert_eq!(select_tags(&[], 10).unwrap_err(), TagSelectError::NoTags);
    let raw: Vec<String> = vec!["a".to_string(), "b".to_string()];
    assert_eq!(
        select_tags(&raw, 10).unwrap_err(),
        TagSelectError::NoSemverTags { total: 2 }
    );
}

#[test]
fn select_last_n() {
    let raw: Vec<String> = ["v3.0.0", "v1.0.0", "junk", "v2.0.0"].iter().map(|s| s.to_string()).collect();
    let sel = select_tags(&raw, 2).unwrap();
    assert_eq!(sel.semver_count, 3);
    assert_eq!(sel.tags, vec!["v2.0.0", "v3.0.0"]);
    let all = select_tags(&raw, 0).unwrap();
    assert_eq!(all.tags, vec!["v1.0.0", "v2.0.0", "v3.0.0"]);
    let clamped = select_tags(&raw, 99).unwrap();
    assert_eq!(clamped.tags.len(), 3);
}

#[test]
fn blob_classification() {
    match catalog_text(false, b"[versions]\n".to_vec()) {
        CatalogText::Text(s) => assert_eq!(s, "[versions]\n"),
        other => panic!("unexpected {other:?}"),
    }
    // Text flagged binary (git flags content with a NUL byte so) is still text.
    match catalog_text(true, b"a\0b".to_vec()) {
        CatalogText::Text(s) => assert_eq!(s, "a\0b"),
        other => panic!("unexpected {other:?}"),
    }
    assert!(matches!(catalog_text(true, vec![0x00, 0xff]), CatalogText::Binary));
    assert!(matches!(catalog_text(false, vec![0xff, 0xfe]), CatalogText::NotUtf8));
}
