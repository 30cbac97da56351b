//! The diff model.

use ambidiff_core::model::{DiffLine, FileDiff, FileDiffKind, Hunk, LineKind};

#[test]
fn count_changes_tallies_adds_and_removes_only() {
    let diff = FileDiff {
        kind: FileDiffKind::Text,
        hunks: vec![Hunk {
            old_start: 1,
            old_len: 2,
            new_start: 1,
            new_len: 2,
            context: String::new(),
            lines: vec![
                DiffLine {
                    old_num: 1,
                    new_num: 1,
                    kind: LineKind::Context,
                    content: "a".into(),
                },
                DiffLine {
                    old_num: 2,
                    new_num: 0,
                    kind: LineKind::Remove,
                    content: "b".into(),
                },
                DiffLine {
                    old_num: 0,
                    new_num: 2,
                    kind: LineKind::Add,
                    content: "c".into(),
                },
            ],
        }],
        old_total_lines: None,
        old_missing_newline: false,
        new_missing_newline: false,
    };
    assert_eq!(diff.count_changes(), (1, 1));
}
