use shiftinclude::replace::{
    join_path, replace_all, replace_all_with_diags, return_relative_path, Diagnostic, FileMap,
};
use shiftinclude::ShiftInclude;

#[test]
fn test_replace_all_escaped() {
    let start = r"
        Some text over here.
        ```hbs
        \{{#include file.rs}} << an escaped link!
        ```";
    let end = r"
        Some text over here.
        ```hbs
        {{#include file.rs}} << an escaped link!
        ```";
    let files = FileMap::new();
    assert_eq!(replace_all(start, "", "", 0, &files), end);
}

#[test]
fn escaped_link_reads_no_file_and_logs_nothing() {
    let start = "before \\{{#include file.rs}} after";
    let files = FileMap::new();
    let (out, diags) = replace_all_with_diags(start, "", "", 0, &files);
    assert_eq!(out, "before {{#include file.rs}} after");
    assert!(diags == Vec::<Diagnostic>::new());
}

#[test]
fn text_without_directives_is_unchanged() {
    let s = "Just some markdown.\nWith {braces} but no directives.\n";
    let files = FileMap::new();
    let (out, diags) = replace_all_with_diags(s, "src", "src/ch.md", 0, &files);
    assert_eq!(out, s);
    assert!(diags == Vec::<Diagnostic>::new());
}

#[test]
fn include_with_range_takes_those_lines() {
    // A target of 25 numbered lines; the selector names 1-based lines 10
    // through 20, the converted range being half-open over 0-based indices.
    let mut content = String::new();
    for i in 1..=25 {
        content.push_str(&format!("{}\n", i));
    }
    let mut files = FileMap::new();
    files.insert("file.rs".to_string(), content);
    let s = "{{#include file.rs:10:20}}";
    let (out, diags) = replace_all_with_diags(s, "", "", 0, &files);
    assert_eq!(out, "10\n11\n12\n13\n14\n15\n16\n17\n18\n19\n20");
    assert!(diags == Vec::<Diagnostic>::new());
}

#[test]
fn include_resolves_relative_to_base_dir() {
    let mut files = FileMap::new();
    files.insert("book/src/part/file.md".to_string(), "payload".to_string());
    let s = "head {{#include part/file.md}} tail";
    let out = replace_all(s, "book/src", "book/src/ch.md", 0, &files);
    assert_eq!(out, "head payload tail");
}

#[test]
fn nested_include_resolves_from_included_files_dir() {
    let mut files = FileMap::new();
    files.insert(
        "src/a/outer.md".to_string(),
        "o1 {{#include inner.md}} o2".to_string(),
    );
    files.insert("src/a/inner.md".to_string(), "kernel".to_string());
    let s = "{{#include a/outer.md}}";
    let (out, diags) = replace_all_with_diags(s, "src", "src/ch.md", 0, &files);
    assert_eq!(out, "o1 kernel o2");
    assert!(diags == Vec::<Diagnostic>::new());
}

#[test]
fn self_referential_include_stops_at_depth_ceiling() {
    let mut files = FileMap::new();
    files.insert(
        "a.md".to_string(),
        "A{{#include a.md}}".to_string(),
    );
    let s = "{{#include a.md}}";
    let (out, diags) = replace_all_with_diags(s, "", "book.md", 0, &files);
    assert_eq!(out, "AAAAAAAAAAA{{#include a.md}}");
    assert_eq!(diags.len(), 1);
    assert!(matches!(&diags[0], Diagnostic::DepthExceeded { source } if source == "book.md"));
}

#[test]
fn missing_file_keeps_directive_text_and_logs_error() {
    let files = FileMap::new();
    let s = "{{#include missing.rs}}";
    let (out, diags) = replace_all_with_diags(s, "", "", 0, &files);
    assert_eq!(out, "{{#include missing.rs}}");
    assert_eq!(diags.len(), 1);
    assert!(matches!(
        &diags[0],
        Diagnostic::FileUnreadable { link_text, target }
            if link_text == "{{#include missing.rs}}" && target == "missing.rs"
    ));
}

#[test]
fn failed_include_does_not_disturb_surrounding_text() {
    let mut files = FileMap::new();
    files.insert("ok.md".to_string(), "GOOD".to_string());
    let s = "a {{#include ok.md}} b {{#include bad.md}} c";
    let (out, diags) = replace_all_with_diags(s, "", "", 0, &files);
    assert_eq!(out, "a GOOD b {{#include bad.md}} c");
    assert_eq!(diags.len(), 1);
}

#[test]
fn include_with_anchor_takes_region() {
    let mut files = FileMap::new();
    files.insert(
        "f.md".to_string(),
        "x\nANCHOR: here\nkept 1\nkept 2\nANCHOR_END: here\ny".to_string(),
    );
    let s = "{{#include f.md:here}}";
    let out = replace_all(s, "", "", 0, &files);
    assert_eq!(out, "kept 1\nkept 2");
}

#[test]
fn join_and_parent_follow_directory_structure() {
    assert_eq!(join_path("src", "a/b.md"), "src/a/b.md");
    assert_eq!(join_path("", "b.md"), "b.md");
    assert_eq!(join_path("src/", "b.md"), "src/b.md");
    assert_eq!(join_path("src", "/abs.md"), "/abs.md");
    assert_eq!(return_relative_path("src", "a/b.md"), "src/a");
    assert_eq!(return_relative_path("", "b.md"), "");
}

#[test]
fn supports_renderer_rejects_only_the_marker_name() {
    assert!(ShiftInclude::supports_renderer("html"));
    assert!(ShiftInclude::supports_renderer("markdown"));
    assert!(!ShiftInclude::supports_renderer("not-supported"));
}
