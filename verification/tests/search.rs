//! Searching rows.

use ambidiff_core::parser::parse_file_diff;
use ambidiff_core::rows::{build_rows, BuildOptions, Row, ViewMode};
use ambidiff_core::search::{search_rows, MatchCell};

fn rows(mode: ViewMode) -> Vec<Row> {
    let raw = "@@ -1,3 +1,3 @@\n Alpha beta\n-gamma ALPHA\n+delta alpha\n";
    build_rows(
        &parse_file_diff(raw).expect("parse"),
        BuildOptions {
            mode,
            word_diff: false,
        },
    )
}

#[test]
fn lowercase_query_is_case_insensitive() {
    let matches = search_rows(&rows(ViewMode::Unified), "alpha");
    // "Alpha" (context), "ALPHA" (remove), "alpha" (add).
    assert_eq!(matches.len(), 3);
}

#[test]
fn uppercase_query_is_case_sensitive() {
    let matches = search_rows(&rows(ViewMode::Unified), "ALPHA");
    assert_eq!(matches.len(), 1);
}

#[test]
fn offsets_index_the_original_text() {
    let matches = search_rows(&rows(ViewMode::Unified), "beta");
    assert_eq!(matches.len(), 1);
    assert_eq!((matches[0].start, matches[0].end), (6, 10));
}

#[test]
fn split_mode_reports_cells() {
    let matches = search_rows(&rows(ViewMode::Split), "alpha");
    let cells: Vec<MatchCell> = matches.iter().map(|m| m.cell).collect();
    // Context row matches in both cells, plus one in each change cell.
    assert_eq!(
        cells,
        vec![
            MatchCell::Left,
            MatchCell::Right,
            MatchCell::Left,
            MatchCell::Right
        ]
    );
}

#[test]
fn multiple_hits_in_one_line_are_non_overlapping() {
    let raw = "@@ -1 +1 @@\n-x\n+aaaa\n";
    let rows = build_rows(
        &parse_file_diff(raw).expect("parse"),
        BuildOptions::default(),
    );
    let matches = search_rows(&rows, "aa");
    assert_eq!(matches.len(), 2);
    assert_eq!((matches[0].start, matches[1].start), (0, 2));
}

#[test]
fn empty_query_matches_nothing() {
    assert!(search_rows(&rows(ViewMode::Unified), "").is_empty());
}

#[test]
fn unicode_content_is_safe() {
    let raw = "@@ -1 +1 @@\n-\u{4f60}\u{597d}x\n+\u{4f60}\u{597d}y\n";
    let rows = build_rows(
        &parse_file_diff(raw).expect("parse"),
        BuildOptions::default(),
    );
    let matches = search_rows(&rows, "\u{597d}");
    assert_eq!(matches.len(), 2);
    assert_eq!(matches[0].start, 3);
}
