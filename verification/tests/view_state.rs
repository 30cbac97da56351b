//! Per-file view state.

use ambidiff_core::anchor::ActiveCell;
use ambidiff_core::json::JsonMap;
use ambidiff_core::lifecycle::Status;
use ambidiff_core::model::{FileDiff, FileEntry, FileStatus};
use ambidiff_core::parser::parse_file_diff;
use ambidiff_core::projection::{FileFilter, ReviewProjection};
use ambidiff_core::review::{Comment, ReviewFile, Side, Source};
use ambidiff_core::rows::{Row, ViewMode};
use ambidiff_core::view::ViewOptions;
use ambidiff_core::view_state::{ExpandError, ViewState};

fn entry(path: &str) -> FileEntry {
    FileEntry {
        path: path.to_string(),
        old_path: None,
        status: FileStatus::Modified,
        adds: None,
        dels: None,
    }
}

fn text_diff(raw: &str) -> FileDiff {
    parse_file_diff(raw).expect("parse")
}

const RAW: &str = "@@ -1,2 +1,2 @@\n a\n-b\n+B\n";

fn state_with_trailing_gap() -> ViewState {
    let mut diff = text_diff(RAW);
    diff.old_total_lines = Some(6);
    ViewState::new(entry("f.rs"), diff, ViewOptions::default(), 1)
}

#[test]
fn new_state_assembles_the_view_immediately() {
    let state = state_with_trailing_gap();
    assert_eq!(state.path(), "f.rs");
    assert!(
        state
            .view()
            .rows
            .iter()
            .any(|r| matches!(r, Row::Gap { .. }))
    );
}

#[test]
fn expand_splices_rows_and_the_view_reflects_it_without_reload() {
    // The expanded state must be visible directly off the cached view;
    // nothing here reloads the raw diff to get it.
    let mut state = state_with_trailing_gap();
    let content = "a\nB\nc\nd\ne\nf\n";
    let result = state.expand("trailing", content, 1).expect("expand ok");
    assert_eq!(result.rows.len(), 4); // lines 3..6
    assert!(
        !state
            .view()
            .rows
            .iter()
            .any(|r| matches!(r, Row::Gap { .. }))
    );
    assert_eq!(state.view().rows.len(), result.at + result.rows.len());
}

#[test]
fn expand_rejects_stale_content_generation() {
    let mut state = state_with_trailing_gap();
    let err = state
        .expand("trailing", "x\n", 2)
        .expect_err("generation mismatch must fail");
    assert_eq!(
        err,
        ExpandError::StaleContent {
            expected: 1,
            got: 2
        }
    );
}

#[test]
fn expand_rejects_an_unknown_gap() {
    let mut state = state_with_trailing_gap();
    let err = state
        .expand("before:99", "x\n", 1)
        .expect_err("no such gap");
    assert_eq!(
        err,
        ExpandError::NoSuchGap {
            gap_id: "before:99".into()
        }
    );
}

#[test]
fn set_options_rebuilds_and_replays_held_expansions() {
    let mut state = state_with_trailing_gap();
    state
        .expand("trailing", "a\nB\nc\nd\ne\nf\n", 1)
        .expect("expand");
    state.set_options(ViewOptions {
        mode: ViewMode::Split,
        ..ViewOptions::default()
    });
    assert_eq!(state.view().mode, ViewMode::Split);
    assert!(
        !state
            .view()
            .rows
            .iter()
            .any(|r| matches!(r, Row::Gap { .. }))
    );
}

#[test]
fn reload_same_generation_replays_expansions() {
    let mut state = state_with_trailing_gap();
    state
        .expand("trailing", "a\nB\nc\nd\ne\nf\n", 1)
        .expect("expand");
    let mut diff = text_diff(RAW);
    diff.old_total_lines = Some(6);
    state.reload(entry("f.rs"), diff, 1);
    assert!(
        !state
            .view()
            .rows
            .iter()
            .any(|r| matches!(r, Row::Gap { .. }))
    );
}

#[test]
fn reload_new_generation_drops_content_but_keeps_wanted() {
    let mut state = state_with_trailing_gap();
    state.mark_wanted("trailing");
    state
        .expand("trailing", "a\nB\nc\nd\ne\nf\n", 1)
        .expect("expand");
    let mut diff = text_diff("@@ -1,2 +1,2 @@\n a\n-b\n+B2\n");
    diff.old_total_lines = Some(6);
    state.reload(entry("f.rs"), diff, 2);
    // The gap reappears (content dropped, not replayed) and is still
    // reported pending because it stayed in `wanted`.
    assert!(
        state
            .view()
            .rows
            .iter()
            .any(|r| matches!(r, Row::Gap { .. }))
    );
    let pending = state.pending_expansions();
    assert_eq!(pending.len(), 1);
    assert_eq!(pending[0].id, "trailing");
}

#[test]
fn pending_expansions_excludes_gaps_never_marked_wanted() {
    let state = state_with_trailing_gap();
    assert!(state.pending_expansions().is_empty());
}

#[test]
fn file_projection_anchors_this_files_comments() {
    let state = state_with_trailing_gap();
    let mut review = ReviewFile::new("r".into(), Source::git(None), "t");
    review.comments.push(Comment {
        id: "c1".into(),
        rev: 1,
        status: Status::Open,
        path: Some("f.rs".into()),
        side: Some(Side::New),
        line: Some(2),
        end_line: None,
        target: None,
        snippet: Some("B".into()),
        body: "b".into(),
        response: None,
        author: "a".into(),
        created_at: "t".into(),
        updated_at: "t".into(),
        extra: JsonMap::new(),
    });
    let files = vec![entry("f.rs")];
    let projection = ReviewProjection::new(&review, &files, FileFilter::All);
    let fp = state.file_projection(&projection);
    assert_eq!(fp.comments.len(), 1);
    assert!(!fp.comments[0].anchor.outdated);
}

#[test]
fn search_reads_the_current_view() {
    let state = state_with_trailing_gap();
    assert_eq!(state.search("B").len(), 1);
}

#[test]
fn anchor_target_delegates_to_the_row_at_that_index() {
    let state = state_with_trailing_gap();
    // Row 0 is the hunk header, row 1 is context "a".
    assert_eq!(
        state.anchor_target(1, ActiveCell::Auto),
        Some((Side::New, 1))
    );
    assert_eq!(state.anchor_target(9999, ActiveCell::Auto), None);
}

#[test]
fn pending_gaps_come_once_by_ascending_id() {
    let raw = "@@ -5,1 +5,1 @@\n-a\n+A\n@@ -20,1 +20,1 @@\n-b\n+B\n";
    let mut diff = text_diff(raw);
    diff.old_total_lines = Some(30);
    let mut state = ViewState::new(entry("f.rs"), diff.clone(), ViewOptions::default(), 1);
    for id in ["trailing", "before:1", "gone", "before:1", "before:0", "trailing"] {
        state.mark_wanted(id);
    }
    let ids = |state: &ViewState| -> Vec<String> {
        state.pending_expansions().into_iter().map(|g| g.id).collect()
    };
    assert_eq!(
        state.wanted(),
        &["before:0", "before:1", "gone", "trailing"]
    );
    assert_eq!(ids(&state), ["before:0", "before:1", "trailing"]);
    let content: String = (1..=30).map(|n| format!("{n}\n")).collect();
    state.expand("before:1", &content, 1).expect("expand");
    assert_eq!(ids(&state), ["before:0", "trailing"]);
    state.reload(entry("f.rs"), diff.clone(), 1);
    assert_eq!(ids(&state), ["before:0", "trailing"]);
    state.reload(entry("f.rs"), diff, 2);
    assert_eq!(ids(&state), ["before:0", "before:1", "trailing"]);
}
