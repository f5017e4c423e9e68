use dependency_drift::catalog::{
    categorize_comment, category_from_text, clean_key, normalize_version, parse_version_line,
    parse_versions, VersionEntry,
};

// ── normalize_version ────────────────────────────────────────────────

#[test]
fn exact_version() {
    assert_eq!(normalize_version("3.2.0"), "3.2.0");
}

#[test]
fn range_version_inclusive_exclusive() {
    assert_eq!(normalize_version("[2.28, 2.29)"), "2.28");
}

#[test]
fn range_version_wide() {
    assert_eq!(normalize_version("[33.0.0, 34.0)"), "33.0.0");
}

#[test]
fn dynamic_version_plus() {
    assert_eq!(normalize_version("1.7.+"), "1.7");
}

#[test]
fn dynamic_version_trailing_plus() {
    assert_eq!(normalize_version("2023.9.+"), "2023.9");
}

#[test]
fn latest_release_passthrough() {
    assert_eq!(normalize_version("latest.release"), "latest.release");
}

#[test]
fn range_version_open_paren_and_spaces() {
    assert_eq!(normalize_version("  ( 1.0 , 2.0]  "), "1.0");
}

#[test]
fn unicode_whitespace_is_trimmed() {
    assert_eq!(normalize_version("\u{3000}1.0\u{a0}\u{2009}"), "1.0");
    assert_eq!(clean_key("\u{85}a"), "\u{85}a");
    assert_eq!(categorize_comment("#\u{1680}Misc\u{205f}"), "misc");
}

#[test]
fn malformed_range_kept_trimmed() {
    assert_eq!(normalize_version(" [1.0 "), "[1.0");
}

#[test]
fn dynamic_version_bare_plus() {
    assert_eq!(normalize_version("+"), "");
    assert_eq!(normalize_version("1+"), "1");
}

// ── clean_key ────────────────────────────────────────────────────────

#[test]
fn strip_version_suffix() {
    assert_eq!(clean_key("hello_world_version"), "hello-world");
}

#[test]
fn strip_version_suffix_compound() {
    assert_eq!(clean_key("acme_sdk_version"), "acme-sdk");
}

#[test]
fn no_version_suffix() {
    assert_eq!(clean_key("gatling"), "gatling");
}

#[test]
fn underscores_to_hyphens() {
    assert_eq!(
        clean_key("apache_commons_validator_version"),
        "apache-commons-validator"
    );
}

#[test]
fn clean_key_twice_is_clean_key_once() {
    for key in ["a_b_version", "_version", "x_version_version", "plain", "a__b"] {
        let once = clean_key(key);
        assert_eq!(clean_key(&once), once);
        assert!(!once.contains('_'));
    }
}

// ── categorize_comment ───────────────────────────────────────────────

#[test]
fn category_external() {
    assert_eq!(categorize_comment("# External dependencies"), "external");
}

#[test]
fn category_test() {
    assert_eq!(categorize_comment("# Test dependencies"), "test");
}

#[test]
fn category_plugin() {
    assert_eq!(categorize_comment("# Plugins and processors"), "plugin");
}

#[test]
fn category_custom() {
    assert_eq!(categorize_comment("# My custom group"), "my custom group");
}

#[test]
fn category_empty_comment() {
    assert_eq!(categorize_comment("#"), "internal");
}

#[test]
fn category_many_hashes_and_spaces() {
    assert_eq!(categorize_comment("###   TESTING tools  "), "test");
    assert_eq!(categorize_comment("##   "), "internal");
}

#[test]
fn category_from_lowercased_text() {
    assert_eq!(category_from_text("externals"), "external");
    assert_eq!(category_from_text(""), "internal");
    assert_eq!(category_from_text("misc"), "misc");
    // The text is taken as already lower-cased.
    assert_eq!(category_from_text("External"), "External");
}

// ── parse_version_line ───────────────────────────────────────────────

#[test]
fn version_line_splits_at_first_equals() {
    assert_eq!(
        parse_version_line("  key = \"a=b\"  "),
        Some(("key".to_string(), "a=b".to_string()))
    );
}

#[test]
fn version_line_needs_quotes() {
    assert_eq!(parse_version_line("key = 1.0"), None);
    assert_eq!(parse_version_line("key = \""), None);
    assert_eq!(parse_version_line("no equals"), None);
    assert_eq!(
        parse_version_line("k=\"\""),
        Some(("k".to_string(), String::new()))
    );
}

// ── parse_versions (integration) ─────────────────────────────────────

#[test]
fn parse_full_versions_section() {
    let content = r#"
[versions]
hello_world_version = "10.0.2"
guava_version = "[33.0.0, 34.0)"

# External dependencies
slf4j_version = "1.7.+"
open_rewrite_version = "latest.release"

# Test dependencies
junit_version = "[5.7.0, 6.0)"

[libraries]
hello-world = { group = "com.example", name = "hello-world", version.ref = "hello_world_version" }
"#;

    let result = parse_versions(content);
    assert_eq!(result.len(), 5);

    assert_eq!(
        result[0],
        VersionEntry {
            name: "hello-world".to_string(),
            version: "10.0.2".to_string(),
            category: "internal".to_string(),
        }
    );
    assert_eq!(
        result[1],
        VersionEntry {
            name: "guava".to_string(),
            version: "33.0.0".to_string(),
            category: "internal".to_string(),
        }
    );
    assert_eq!(
        result[2],
        VersionEntry {
            name: "slf4j".to_string(),
            version: "1.7".to_string(),
            category: "external".to_string(),
        }
    );
    assert_eq!(
        result[3],
        VersionEntry {
            name: "open-rewrite".to_string(),
            version: "latest.release".to_string(),
            category: "external".to_string(),
        }
    );
    assert_eq!(
        result[4],
        VersionEntry {
            name: "junit".to_string(),
            version: "5.7.0".to_string(),
            category: "test".to_string(),
        }
    );
}

#[test]
fn empty_content_returns_empty() {
    assert!(parse_versions("").is_empty());
}

#[test]
fn no_versions_section_returns_empty() {
    let content = "[libraries]\nfoo = { group = \"bar\" }";
    assert!(parse_versions(content).is_empty());
}

#[test]
fn plugin_category() {
    let content = "\
[versions]
# Plugins and processors
spotless_plugin_version = \"8.1.0\"
spotbugs_version = \"4.9.8\"
";
    let result = parse_versions(content);
    assert_eq!(result.len(), 2);
    assert_eq!(result[0].name, "spotless-plugin");
    assert_eq!(result[0].category, "plugin");
    assert_eq!(result[1].name, "spotbugs");
    assert_eq!(result[1].category, "plugin");
}

#[test]
fn crlf_and_final_newline_change_nothing() {
    let lf = "[versions]\na_version = \"1.0\"\n# Test\nb = \"2.0\"";
    let crlf = "[versions]\r\na_version = \"1.0\"\r\n# Test\r\nb = \"2.0\"\r\n";
    let with_newline = format!("{lf}\n");
    assert_eq!(parse_versions(lf), parse_versions(crlf));
    assert_eq!(parse_versions(lf), parse_versions(&with_newline));
    assert_eq!(parse_versions(lf).len(), 2);
}

#[test]
fn versions_section_can_reopen() {
    let content = "[versions]\na = \"1\"\n[plugins]\nb = \"2\"\n  [versions]  \nc = \"3\"";
    let names: Vec<String> = parse_versions(content).into_iter().map(|e| e.name).collect();
    assert_eq!(names, vec!["a".to_string(), "c".to_string()]);
}

#[test]
fn lines_without_quoted_value_are_skipped() {
    let content = "[versions]\nbad = 1.0\nalso bad\ngood = \"1.0\"";
    let result = parse_versions(content);
    assert_eq!(result.len(), 1);
    assert_eq!(result[0].name, "good");
}

#[test]
fn category_carries_over_into_later_versions_section() {
    let content = "[versions]\n# Test\na = \"1\"\n[plugins]\n# Ignored here\n[versions]\nb = \"2\"";
    let result = parse_versions(content);
    assert_eq!(result.len(), 2);
    assert_eq!(result[0].category, "test");
    assert_eq!(result[1].category, "test");
}

#[test]
fn lines_outside_versions_change_nothing() {
    let base = "[libraries]\nx = \"1\"\n[versions]\na = \"1.0\"";
    let with_extra = "[libraries]\nx = \"1\"\n# External\ny = \"2\"\n[versions]\na = \"1.0\"";
    assert_eq!(parse_versions(base), parse_versions(with_extra));
    assert_eq!(parse_versions(base)[0].category, "internal");
}
