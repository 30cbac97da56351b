//! The row stream.

use ambidiff_core::model::{DiffLine, FileDiff, FileDiffKind, Hunk, LineKind};
use ambidiff_core::parser::parse_file_diff;
use ambidiff_core::rows::{
    build_expansion_rows, build_rows, expansion_rows_from_content, slice_gap_lines,
    BuildOptions, Cell, CellKind, GapInfo, Row, ViewMode,
};
use ambidiff_core::worddiff::Range;

fn diff(raw: &str) -> FileDiff {
    parse_file_diff(raw).expect("parse")
}

fn build(raw: &str, mode: ViewMode) -> Vec<Row> {
    build_rows(
        &diff(raw),
        BuildOptions {
            mode,
            word_diff: true,
        },
    )
}

/// Invariant: every source diff line appears exactly once in the rows.
fn assert_line_conservation(diff: &FileDiff, rows: &[Row]) {
    let mut expected_old: Vec<u32> = Vec::new();
    let mut expected_new: Vec<u32> = Vec::new();
    for h in &diff.hunks {
        for l in &h.lines {
            match l.kind {
                LineKind::Context => {
                    expected_old.push(l.old_num);
                    expected_new.push(l.new_num);
                }
                LineKind::Add => expected_new.push(l.new_num),
                LineKind::Remove => expected_old.push(l.old_num),
            }
        }
    }
    let mut got_old: Vec<u32> = Vec::new();
    let mut got_new: Vec<u32> = Vec::new();
    for row in rows {
        match row {
            Row::Unified {
                old_num, new_num, ..
            } => {
                if let Some(o) = old_num {
                    got_old.push(*o);
                }
                if let Some(n) = new_num {
                    got_new.push(*n);
                }
            }
            Row::Split { left, right, .. } => {
                if left.kind != CellKind::Empty {
                    got_old.push(left.line.expect("left line"));
                }
                if right.kind != CellKind::Empty {
                    got_new.push(right.line.expect("right line"));
                }
            }
            _ => {}
        }
    }
    assert_eq!(got_old, expected_old, "old-side lines conserved in order");
    assert_eq!(got_new, expected_new, "new-side lines conserved in order");
}

const BASIC: &str = "@@ -1,4 +1,4 @@\n a\n-b\n-c\n+B\n+C\n d\n";

#[test]
fn unified_rows_preserve_parser_order() {
    let d = diff(BASIC);
    let rows = build(BASIC, ViewMode::Unified);
    assert!(matches!(rows[0], Row::HunkHeader { .. }));
    let kinds: Vec<CellKind> = rows
        .iter()
        .filter_map(|r| match r {
            Row::Unified { cell, .. } => Some(cell.kind),
            _ => None,
        })
        .collect();
    assert_eq!(
        kinds,
        vec![
            CellKind::Context,
            CellKind::Remove,
            CellKind::Remove,
            CellKind::Add,
            CellKind::Add,
            CellKind::Context
        ]
    );
    assert_line_conservation(&d, &rows);
}

#[test]
fn split_rows_pair_positionally() {
    let d = diff(BASIC);
    let rows = build(BASIC, ViewMode::Split);
    // header + context + 2 paired change rows + context
    assert_eq!(rows.len(), 5);
    let Row::Split { left, right, .. } = &rows[2] else {
        panic!("expected split row");
    };
    assert_eq!(left.kind, CellKind::Remove);
    assert_eq!(left.text, "b");
    assert_eq!(right.kind, CellKind::Add);
    assert_eq!(right.text, "B");
    assert_line_conservation(&d, &rows);
}

#[test]
fn split_pads_unpaired_add_with_empty_cell() {
    let raw = "@@ -1,2 +1,3 @@\n a\n-b\n+B\n+extra\n";
    let d = diff(raw);
    let rows = build(raw, ViewMode::Split);
    let Row::Split { left, right, .. } = &rows[3] else {
        panic!("expected split row");
    };
    assert_eq!(left.kind, CellKind::Empty);
    assert_eq!(left.line, None);
    assert_eq!(right.kind, CellKind::Add);
    assert_eq!(right.text, "extra");
    assert_line_conservation(&d, &rows);
}

#[test]
fn split_pads_unpaired_remove_with_empty_cell() {
    let raw = "@@ -1,3 +1,2 @@\n a\n-b\n-gone\n+B\n";
    let rows = build(raw, ViewMode::Split);
    let Row::Split { left, right, .. } = &rows[3] else {
        panic!("expected split row");
    };
    assert_eq!(left.kind, CellKind::Remove);
    assert_eq!(left.text, "gone");
    assert_eq!(right.kind, CellKind::Empty);
}

#[test]
fn column_counts_conserved_in_split_mode() {
    let raw = "@@ -1,5 +1,4 @@\n a\n-b\n-c\n-d\n+X\n e\n";
    let d = diff(raw);
    let rows = build(raw, ViewMode::Split);
    assert_line_conservation(&d, &rows);
    // 3 removes vs 1 add: block renders 3 rows, 2 with empty right cells.
    let empties = rows
        .iter()
        .filter(|r| matches!(r, Row::Split { right, .. } if right.kind == CellKind::Empty))
        .count();
    assert_eq!(empties, 2);
}

#[test]
fn leading_gap_before_first_hunk() {
    let raw = "@@ -5,2 +5,2 @@\n x\n-y\n+Y\n";
    let rows = build(raw, ViewMode::Unified);
    let Row::Gap { gap, .. } = &rows[0] else {
        panic!("expected leading gap");
    };
    assert_eq!(gap.id, "before:0");
    assert_eq!(gap.count, 4);
    assert_eq!(gap.old_range, (1, 4));
    assert_eq!(gap.new_range, (1, 4));
}

#[test]
fn between_hunks_gap_uses_hunk_metadata() {
    let raw = "@@ -1,2 +1,2 @@\n a\n-b\n+B\n@@ -10,2 +10,2 @@\n j\n-k\n+K\n";
    let rows = build(raw, ViewMode::Unified);
    let gaps: Vec<&GapInfo> = rows
        .iter()
        .filter_map(|r| match r {
            Row::Gap { gap, .. } => Some(gap),
            _ => None,
        })
        .collect();
    assert_eq!(gaps.len(), 1);
    assert_eq!(gaps[0].id, "before:1");
    assert_eq!(gaps[0].count, 7); // old lines 3..9
    assert_eq!(gaps[0].old_range, (3, 9));
    assert_eq!(gaps[0].new_range, (3, 9));
}

#[test]
fn trailing_gap_requires_total_lines() {
    let raw = "@@ -1,2 +1,2 @@\n a\n-b\n+B\n";
    let mut d = diff(raw);
    let rows = build_rows(&d, BuildOptions::default());
    assert!(!rows.iter().any(|r| matches!(r, Row::Gap { .. })));

    d.old_total_lines = Some(10);
    let rows = build_rows(&d, BuildOptions::default());
    let Some(Row::Gap { gap, .. }) = rows.last() else {
        panic!("expected trailing gap");
    };
    assert_eq!(gap.id, "trailing");
    assert_eq!(gap.count, 8);
    assert_eq!(gap.old_range, (3, 10));
    assert_eq!(gap.new_range, (3, 10));
}

#[test]
fn insertion_only_hunk_gap_accounting_covers_every_line() {
    // Insert after old line 5 in a 10-line file: leading gap must cover
    // lines 1..5 (5 lines) and trailing 6..10 (5 lines); nothing lost.
    let raw = "@@ -5,0 +6 @@\n+inserted\n";
    let mut d = diff(raw);
    d.old_total_lines = Some(10);
    let rows = build_rows(&d, BuildOptions::default());
    let gaps: Vec<&GapInfo> = rows
        .iter()
        .filter_map(|r| match r {
            Row::Gap { gap, .. } => Some(gap),
            _ => None,
        })
        .collect();
    assert_eq!(gaps.len(), 2);
    assert_eq!(gaps[0].old_range, (1, 5));
    assert_eq!(gaps[0].count, 5);
    assert_eq!(gaps[1].old_range, (6, 10));
    assert_eq!(gaps[1].count, 5);
    assert_eq!(gaps[0].count + gaps[1].count, 10);
}

#[test]
fn insertion_at_top_has_no_leading_gap() {
    let raw = "@@ -0,0 +1,2 @@\n+a\n+b\n";
    let rows = build(raw, ViewMode::Unified);
    assert!(matches!(rows[0], Row::HunkHeader { .. }));
}

#[test]
fn full_context_diff_has_no_gaps() {
    let raw = "@@ -1,3 +1,3 @@\n a\n-b\n+B\n c\n";
    let mut d = diff(raw);
    d.old_total_lines = Some(3);
    let rows = build_rows(&d, BuildOptions::default());
    assert!(!rows.iter().any(|r| matches!(r, Row::Gap { .. })));
}

#[test]
fn word_diff_ranges_attach_to_paired_lines() {
    let raw = "@@ -1,2 +1,2 @@\n keep\n-let x = foo(1)\n+let x = bar(1)\n";
    let rows = build(raw, ViewMode::Unified);
    let cells: Vec<&Cell> = rows
        .iter()
        .filter_map(|r| match r {
            Row::Unified { cell, .. } => Some(cell),
            _ => None,
        })
        .collect();
    assert!(cells[0].word_ranges.is_empty());
    assert_eq!(cells[1].word_ranges, vec![Range { start: 8, end: 11 }]);
    assert_eq!(cells[2].word_ranges, vec![Range { start: 8, end: 11 }]);
}

#[test]
fn word_diff_off_yields_no_ranges() {
    let raw = "@@ -1 +1 @@\n-let x = foo(1)\n+let x = bar(1)\n";
    let rows = build_rows(
        &diff(raw),
        BuildOptions {
            mode: ViewMode::Unified,
            word_diff: false,
        },
    );
    for row in &rows {
        if let Row::Unified { cell, .. } = row {
            assert!(cell.word_ranges.is_empty());
        }
    }
}

#[test]
fn row_keys_are_unique_and_stable() {
    let raw = "@@ -1,4 +1,4 @@\n a\n-b\n-c\n+B\n+C\n d\n@@ -8,2 +8,2 @@\n x\n-y\n+Y\n";
    for mode in [ViewMode::Unified, ViewMode::Split] {
        let rows1 = build(raw, mode);
        let rows2 = build(raw, mode);
        let keys1: Vec<&str> = rows1.iter().map(Row::key).collect();
        let keys2: Vec<&str> = rows2.iter().map(Row::key).collect();
        assert_eq!(keys1, keys2, "keys stable across rebuilds");
        let mut deduped = keys1.clone();
        deduped.sort_unstable();
        deduped.dedup();
        assert_eq!(deduped.len(), keys1.len(), "keys unique within a view");
    }
}

#[test]
fn expansion_rows_take_gap_numbering() {
    let gap = GapInfo {
        id: "before:1".into(),
        count: 3,
        old_range: (3, 5),
        new_range: (4, 6),
    };
    let rows = build_expansion_rows(&gap, &["ctx3", "ctx4", "ctx5"], ViewMode::Unified, 1);
    assert_eq!(rows.len(), 3);
    let Row::Unified {
        old_num,
        new_num,
        is_expansion,
        ..
    } = &rows[0]
    else {
        panic!("expected unified row");
    };
    assert_eq!((*old_num, *new_num), (Some(3), Some(4)));
    assert!(is_expansion);
}

#[test]
fn expansion_rows_never_overflow_the_gap() {
    let gap = GapInfo {
        id: "before:0".into(),
        count: 2,
        old_range: (1, 2),
        new_range: (1, 2),
    };
    let rows = build_expansion_rows(&gap, &["a", "b", "c", "d"], ViewMode::Split, 0);
    assert_eq!(rows.len(), 2);
}

#[test]
fn hunk_header_at_u32_max_does_not_panic_building_rows() {
    // B24 minimal reproduction: an accepted header whose old_start sits
    // at u32::MAX must not overflow-panic while computing gaps. The
    // arithmetic here happens to still fit u32 (old_start+1 == 2^32,
    // and every derived field stays at or below u32::MAX), so a huge
    // but valid leading gap is produced; the point of this test is
    // solely that building rows over it never panics.
    let raw = "@@ -4294967295,0 +1,1 @@\n+a\n";
    let d = diff(raw);
    let rows = build_rows(&d, BuildOptions::default());
    assert!(matches!(rows[0], Row::Gap { .. }));
    assert!(matches!(rows[1], Row::HunkHeader { .. }));
}

#[test]
fn gap_computation_degrades_to_no_gap_when_the_u32_range_is_exceeded() {
    // Two hunks each individually accepted by the parser's extent check
    // can still combine to an intermediate that overflows u32: hunk 0
    // pushes the new side to the top of the range, hunk 1's old side
    // jumps to the top of ITS range too. `gap_from_u64` must recognise
    // this and produce no gap rather than a wrapped/truncated one.
    let mut d = diff("@@ -1,1 +4294967294,2 @@\n a\n");
    d.hunks.push(Hunk {
        old_start: 4294967295,
        old_len: 0,
        new_start: 1,
        new_len: 1,
        context: String::new(),
        lines: vec![DiffLine {
            old_num: 0,
            new_num: 1,
            kind: LineKind::Add,
            content: "a".into(),
        }],
    });
    let rows = build_rows(&d, BuildOptions::default());
    // No panic, and the gap between the two hunks cannot be represented
    // in u32 (its new-side end would be ~2^33): it is simply absent.
    assert!(!rows.iter().any(|r| matches!(r, Row::Gap { .. })));
}

#[test]
fn trailing_gap_near_u32_max_does_not_panic() {
    let raw = "@@ -1,1 +1,1 @@\n a\n";
    let mut d = diff(raw);
    d.old_total_lines = Some(u32::MAX);
    let rows = build_rows(&d, BuildOptions::default());
    let Some(Row::Gap { gap, .. }) = rows.last() else {
        panic!("expected trailing gap");
    };
    assert_eq!(gap.old_range, (2, u32::MAX));
}

#[test]
fn slice_gap_lines_strips_cr_and_trailing_newline_artifact() {
    let gap = GapInfo {
        id: "trailing".into(),
        count: 2,
        old_range: (1, 2),
        new_range: (1, 2),
    };
    let content = "one\r\ntwo\r\n";
    let lines = slice_gap_lines(&gap, content);
    assert_eq!(lines, vec!["one", "two"]);
}

#[test]
fn expansion_rows_from_content_matches_manual_slice_and_build() {
    let gap = GapInfo {
        id: "before:0".into(),
        count: 2,
        old_range: (3, 4),
        new_range: (3, 4),
    };
    let content = "x\ny\nctx3\nctx4\nz\n";
    let rows = expansion_rows_from_content(&gap, content, ViewMode::Unified, 0);
    let manual = build_expansion_rows(&gap, &["ctx3", "ctx4"], ViewMode::Unified, 0);
    assert_eq!(rows, manual);
}

#[test]
fn gap_is_consistent_checks_count_matches_both_ranges() {
    let ok = GapInfo {
        id: "before:0".into(),
        count: 3,
        old_range: (1, 3),
        new_range: (1, 3),
    };
    assert!(ok.is_consistent());
    let bad_count = GapInfo {
        count: 5,
        ..ok.clone()
    };
    assert!(!bad_count.is_consistent());
    let bad_range = GapInfo {
        new_range: (1, 2),
        ..ok.clone()
    };
    assert!(!bad_range.is_consistent());
    let zero = GapInfo {
        count: 0,
        old_range: (1, 0),
        new_range: (1, 0),
        ..ok
    };
    assert!(!zero.is_consistent());
}

#[test]
fn binary_diff_builds_no_rows() {
    let raw = "diff --git a/x.png b/x.png\nBinary files a/x.png and b/x.png differ\n";
    let d = diff(raw);
    assert!(matches!(d.kind, FileDiffKind::Binary { .. }));
    assert!(build_rows(&d, BuildOptions::default()).is_empty());
}

#[test]
fn placeholders_have_no_rows_whatever_hunks_they_hold() {
    let mut d = diff("@@ -3,2 +3,2 @@\n a\n-b\n+B\n");
    d.old_total_lines = Some(9);
    assert!(!build_rows(&d, BuildOptions::default()).is_empty());
    for kind in [
        FileDiffKind::Binary {
            desc: "(binary file)".into(),
        },
        FileDiffKind::TooLarge { adds: 1, dels: 1 },
    ] {
        d.kind = kind;
        for mode in [ViewMode::Unified, ViewMode::Split] {
            let options = BuildOptions {
                mode,
                word_diff: true,
            };
            assert!(build_rows(&d, options).is_empty());
        }
    }
}

#[test]
fn every_hunk_has_one_header_in_order() {
    let raw = "@@ -1,1 +1,1 @@ one\n-a\n+A\n@@ -9,1 +9,1 @@ two\n-b\n+B\n@@ -20,0 +20,0 @@\n";
    for mode in [ViewMode::Unified, ViewMode::Split] {
        let headers: Vec<(u32, String)> = build(raw, mode)
            .into_iter()
            .filter_map(|row| match row {
                Row::HunkHeader { hunk, text, .. } => Some((hunk, text)),
                _ => None,
            })
            .collect();
        assert_eq!(
            headers,
            vec![
                (0, "@@ -1,1 +1,1 @@ one".to_string()),
                (1, "@@ -9,1 +9,1 @@ two".to_string()),
                (2, "@@ -20,0 +20,0 @@".to_string()),
            ]
        );
    }
}

#[test]
fn line_endings_make_no_difference_to_an_expansion() {
    let gap = GapInfo {
        id: "before:0".into(),
        count: 3,
        old_range: (2, 4),
        new_range: (2, 4),
    };
    for content in ["", "a", "a\nb", "a\nb\n\nd\ne", "a\nb\nc\nd"] {
        for mode in [ViewMode::Unified, ViewMode::Split] {
            let rows = expansion_rows_from_content(&gap, content, mode, 0);
            let ended = format!("{content}\n");
            assert_eq!(expansion_rows_from_content(&gap, &ended, mode, 0), rows);
            let crlf = content.replace('\n', "\r\n");
            assert_eq!(expansion_rows_from_content(&gap, &crlf, mode, 0), rows);
        }
    }
}
