//! Going to a line.

use ambidiff_core::goto::{find_line, LineSide, LineTarget};
use ambidiff_core::parser::parse_file_diff;
use ambidiff_core::rows::{build_expansion_rows, build_rows, BuildOptions, GapInfo, Row, ViewMode};

fn rows(raw: &str, mode: ViewMode) -> Vec<Row> {
    build_rows(
        &parse_file_diff(raw).expect("parse"),
        BuildOptions {
            mode,
            word_diff: false,
        },
    )
}

#[test]
fn exact_new_side_match_unified() {
    let rs = rows("@@ -1,3 +1,3 @@\n a\n-b\n+B\n c\n", ViewMode::Unified);
    // Rows: header, "a" (ctx), "b" (remove), "B" (add, new_num = 2), "c".
    assert_eq!(
        find_line(&rs, 2),
        LineTarget::Exact {
            row: 3,
            side: LineSide::New
        }
    );
}

#[test]
fn exact_new_side_match_split_resolves_through_right_cell() {
    let rs = rows("@@ -1,3 +1,3 @@\n a\n-b\n+B\n c\n", ViewMode::Split);
    let target = find_line(&rs, 2);
    let LineTarget::Exact { row, side } = target else {
        panic!("expected exact match, got {target:?}");
    };
    assert_eq!(side, LineSide::New);
    let Row::Split { right, .. } = &rs[row] else {
        panic!("expected split row");
    };
    assert_eq!(right.line, Some(2));
}

#[test]
fn old_side_fallback_across_a_pure_deletion_region() {
    // Old file "a,b,c" (3 lines); new file "a" (1 line): lines 2 and 3
    // are pure deletions with no new-side number at all.
    let rs = rows("@@ -1,3 +1,1 @@\n a\n-b\n-c\n", ViewMode::Unified);
    let target = find_line(&rs, 3);
    let LineTarget::Exact { row, side } = target else {
        panic!("expected exact match, got {target:?}");
    };
    assert_eq!(side, LineSide::Old);
    let Row::Unified { old_num, .. } = &rs[row] else {
        panic!("expected unified row");
    };
    assert_eq!(*old_num, Some(3));
}

#[test]
fn line_inside_a_collapsed_gap_returns_in_gap_with_the_right_id() {
    let rs = rows("@@ -5,2 +5,2 @@\n x\n-y\n+Y\n", ViewMode::Unified);
    let target = find_line(&rs, 2);
    assert_eq!(
        target,
        LineTarget::InGap {
            row: 0,
            gap_id: "before:0".to_string()
        }
    );
}

#[test]
fn line_past_eof_returns_nearest_at_the_last_line_row() {
    let rs = rows("@@ -1,3 +1,3 @@\n a\n-b\n+B\n c\n", ViewMode::Unified);
    let last_line_row = rs.len() - 1; // the trailing context row "c"
    assert_eq!(
        find_line(&rs, 1000),
        LineTarget::Nearest {
            row: Some(last_line_row)
        }
    );
}

#[test]
fn line_before_the_first_hunk_lands_in_its_leading_gap() {
    let rs = rows("@@ -5,2 +5,2 @@\n x\n-y\n+Y\n", ViewMode::Unified);
    assert_eq!(
        find_line(&rs, 1),
        LineTarget::InGap {
            row: 0,
            gap_id: "before:0".to_string()
        }
    );
}

#[test]
fn an_expansion_rows_line_number_is_matched() {
    let gap = GapInfo {
        id: "before:1".into(),
        count: 3,
        old_range: (3, 5),
        new_range: (4, 6),
    };
    let rs = build_expansion_rows(&gap, &["ctx3", "ctx4", "ctx5"], ViewMode::Unified, 1);
    assert_eq!(
        find_line(&rs, 5),
        LineTarget::Exact {
            row: 1,
            side: LineSide::New
        }
    );
}

#[test]
fn line_zero_is_always_nearest_none() {
    let rs = rows("@@ -1,3 +1,3 @@\n a\n-b\n+B\n c\n", ViewMode::Unified);
    assert_eq!(find_line(&rs, 0), LineTarget::Nearest { row: None });
    assert_eq!(find_line(&[], 0), LineTarget::Nearest { row: None });
}
