//! View assembly.

use ambidiff_core::highlight::ThemeChoice;
use ambidiff_core::json::Json;
use ambidiff_core::model::{FileDiff, FileDiffKind, FileEntry, FileStatus};
use ambidiff_core::parser::parse_file_diff;
use ambidiff_core::rows::{Row, ViewMode};
use ambidiff_core::view::{build_file_view, ViewOptions};
use ambidiff_core::wire::Wire;

/// A document as a generic JSON value.
fn value(doc: &Json) -> serde_json::Value {
    serde_json::from_str(&doc.to_compact()).expect("json")
}

fn entry(path: &str) -> FileEntry {
    FileEntry {
        path: path.to_string(),
        old_path: None,
        status: FileStatus::Modified,
        adds: None,
        dels: None,
    }
}

#[test]
fn view_carries_counts_and_rows() {
    let raw = "@@ -1,3 +1,3 @@\n a\n-b\n+B\n c\n";
    let diff = parse_file_diff(raw).expect("parse");
    let view = build_file_view(&entry("f.rs"), &diff, ViewOptions::default());
    assert_eq!((view.adds, view.dels), (1, 1));
    assert_eq!(view.rows.len(), 5);
}

#[test]
fn highlights_attach_to_matching_cells() {
    let raw = "@@ -1,2 +1,2 @@\n fn main() {}\n-let a = 1;\n+let a = 2;\n";
    let diff = parse_file_diff(raw).expect("parse");
    let view = build_file_view(
        &entry("m.rs"),
        &diff,
        ViewOptions {
            mode: ViewMode::Split,
            word_diff: true,
            highlight: Some(ThemeChoice::Dark),
        },
    );
    let mut saw_hl = false;
    for row in &view.rows {
        if let Row::Split { left, right, .. } = row {
            saw_hl |= !left.hl.is_empty() || !right.hl.is_empty();
            for span in &left.hl {
                assert!(span.end as usize <= left.text.len(), "left span in bounds");
            }
            for span in &right.hl {
                assert!(
                    span.end as usize <= right.text.len(),
                    "right span in bounds"
                );
            }
        }
    }
    assert!(saw_hl, "rust diff must highlight");
}

#[test]
fn too_large_placeholder_view_carries_counts_exactly_once() {
    let diff = FileDiff::placeholder(FileDiffKind::TooLarge {
        adds: 12_000,
        dels: 20,
    });
    let view = build_file_view(&entry("vendor/bundle.js"), &diff, ViewOptions::default());
    assert_eq!((view.adds, view.dels), (12_000, 20));
    assert!(view.rows.is_empty());

    // The wire text must carry each key once.
    let text = view.to_json().to_compact();
    assert_eq!(text.matches("\"adds\"").count(), 1);
    assert_eq!(text.matches("\"dels\"").count(), 1);

    let json = value(&view.to_json());
    assert_eq!(json["kind"], "toolarge");
    assert_eq!(json["adds"], 12000);
    assert_eq!(json["dels"], 20);
    assert!(json.get("desc").is_none());
}

#[test]
fn view_serializes_with_camel_case_kind_tag() {
    let raw = "diff --git a/x.png b/x.png\nBinary files a/x.png and b/x.png differ\n";
    let diff = parse_file_diff(raw).expect("parse");
    let view = build_file_view(&entry("x.png"), &diff, ViewOptions::default());
    let json = value(&view.to_json());
    assert_eq!(json["kind"], "binary");
    assert_eq!(json["path"], "x.png");
    assert!(json["rows"].as_array().expect("rows").is_empty());
}
