//! The projection of a review.

use ambidiff_core::anchor::TargetScope;
use ambidiff_core::json::{Json, JsonMap};
use ambidiff_core::lifecycle::Status;
use ambidiff_core::model::{FileEntry, FileStatus};
use ambidiff_core::projection::{FileCounts, FileFilter, ReviewProjection, TargetCounts};
use ambidiff_core::review::{Comment, ReviewFile, Source};
use ambidiff_core::stack::TargetId;
use ambidiff_core::wire::Wire;

/// A document as a generic JSON value.
fn value(doc: &Json) -> serde_json::Value {
    serde_json::from_str(&doc.to_compact()).expect("json")
}

fn entry(path: &str, old_path: Option<&str>) -> FileEntry {
    FileEntry {
        path: path.to_string(),
        old_path: old_path.map(str::to_string),
        status: if old_path.is_some() {
            FileStatus::Renamed
        } else {
            FileStatus::Modified
        },
        adds: None,
        dels: None,
    }
}

fn review_with(comments: Vec<Comment>) -> ReviewFile {
    let mut review = ReviewFile::new("fixture".into(), Source::git(None), "t");
    review.comments = comments;
    review
}

fn comment(id: &str, path: Option<&str>, status: Status) -> Comment {
    Comment {
        id: id.to_string(),
        rev: 1,
        status,
        path: path.map(str::to_string),
        side: None,
        line: None,
        end_line: None,
        target: None,
        snippet: None,
        body: "b".to_string(),
        response: None,
        author: "a".to_string(),
        created_at: "t".to_string(),
        updated_at: "t".to_string(),
        extra: JsonMap::new(),
    }
}

#[test]
fn counts_partition_by_placement_and_status() {
    let files = vec![entry("a.rs", None)];
    let review = review_with(vec![
        comment("c1", Some("a.rs"), Status::Open),
        comment("c2", Some("a.rs"), Status::Resolved),
        comment("c3", None, Status::Open),
        comment("c4", Some("gone.rs"), Status::Open),
    ]);
    let projection = ReviewProjection::new(&review, &files, FileFilter::All);
    assert_eq!(
        projection.counts_for("a.rs"),
        FileCounts { todo: 1, total: 2 }
    );
    assert_eq!(projection.unattached(), FileCounts { todo: 1, total: 1 });
    assert_eq!(
        projection.review_level(),
        FileCounts { todo: 2, total: 2 },
        "review-level combines review + unattached"
    );
}

#[test]
fn filter_partitions_annotated_from_unreviewed() {
    let files = vec![entry("a.rs", None), entry("b.rs", None)];
    let review = review_with(vec![comment("c1", Some("a.rs"), Status::Open)]);

    let annotated = ReviewProjection::new(&review, &files, FileFilter::Annotated);
    assert_eq!(annotated.visible_files(), vec![0]);

    let unreviewed = ReviewProjection::new(&review, &files, FileFilter::Unreviewed);
    assert_eq!(unreviewed.visible_files(), vec![1]);

    let all = ReviewProjection::new(&review, &files, FileFilter::All);
    assert_eq!(all.visible_files(), vec![0, 1]);
}

#[test]
fn filter_cycle_and_labels() {
    assert_eq!(FileFilter::All.next(), FileFilter::Annotated);
    assert_eq!(FileFilter::Annotated.next(), FileFilter::Unreviewed);
    assert_eq!(FileFilter::Unreviewed.next(), FileFilter::All);
    assert_eq!(FileFilter::All.label(), "All");
}

#[test]
fn tree_rows_keep_canonical_file_index_under_a_filter() {
    let files = vec![entry("src/a.rs", None), entry("src/b.rs", None)];
    let review = review_with(vec![comment("c1", Some("src/b.rs"), Status::Open)]);
    let projection = ReviewProjection::new(&review, &files, FileFilter::Annotated);
    let rows = projection.tree_rows(&[]);
    let leaf = rows.iter().find(|r| !r.is_dir).expect("one leaf");
    assert_eq!(leaf.path, "src/b.rs");
    assert_eq!(leaf.file_index, Some(1));
    assert_eq!((leaf.comments_todo, leaf.comments_total), (1, 1));
}

#[test]
fn file_comments_reports_rename_badge_and_comment_order() {
    let files = vec![entry("new.rs", Some("old.rs"))];
    let review = review_with(vec![
        comment("c1", Some("old.rs"), Status::Open),
        comment("c2", Some("old.rs"), Status::Resolved),
    ]);
    let projection = ReviewProjection::new(&review, &files, FileFilter::All);
    let placed = projection.file_comments("new.rs");
    assert_eq!(placed.len(), 2);
    assert_eq!(placed[0].comment.id, "c1");
    assert_eq!(placed[0].was_path, Some("old.rs"));
    assert_eq!(placed[1].comment.id, "c2");
}

#[test]
fn overview_lists_review_level_before_unattached() {
    let files = vec![entry("a.rs", None)];
    let review = review_with(vec![
        comment("c-unattached", Some("gone.rs"), Status::Open),
        comment("c-review", None, Status::Open),
    ]);
    let projection = ReviewProjection::new(&review, &files, FileFilter::All);
    let overview = projection.overview();
    assert_eq!(overview.len(), 2);
    assert_eq!(overview[0].comment.id, "c-review");
    assert!(!overview[0].unattached);
    assert_eq!(overview[1].comment.id, "c-unattached");
    assert!(overview[1].unattached);
}

fn tagged(id: &str, path: Option<&str>, status: Status, target: Option<TargetId>) -> Comment {
    let mut c = comment(id, path, status);
    c.target = target;
    c
}

fn branch(name: &str) -> TargetId {
    TargetId::Branch { name: name.into() }
}

fn scope() -> TargetScope {
    TargetScope {
        selected: Some(branch("auth-2")),
        live: vec![branch("auth-1"), branch("auth-2"), TargetId::Stack],
    }
}

fn stack_review() -> ReviewFile {
    review_with(vec![
        tagged("c-legacy", Some("a.rs"), Status::Open, None),
        tagged(
            "c-selected",
            Some("a.rs"),
            Status::Open,
            Some(branch("auth-2")),
        ),
        tagged(
            "c-other",
            Some("a.rs"),
            Status::Open,
            Some(branch("auth-1")),
        ),
        tagged(
            "c-gone",
            Some("a.rs"),
            Status::Reopened,
            Some(branch("auth-0")),
        ),
        tagged("c-review", None, Status::Addressed, Some(branch("auth-2"))),
        tagged(
            "c-review-gone",
            None,
            Status::Open,
            Some(TargetId::Worktree),
        ),
        tagged(
            "c-unattached",
            Some("gone.rs"),
            Status::Resolved,
            Some(branch("auth-2")),
        ),
    ])
}

#[test]
fn scoped_counts_hide_other_targets_and_bucket_was_on_as_unattached() {
    let files = vec![entry("a.rs", None)];
    let review = stack_review();
    let projection = ReviewProjection::scoped(&review, &files, FileFilter::All, scope());
    assert_eq!(
        projection.placements().len(),
        review.comments.len(),
        "parallel"
    );
    assert_eq!(
        projection.counts_for("a.rs"),
        FileCounts { todo: 2, total: 2 },
        "legacy + selected; other and gone do not count on the file"
    );
    assert_eq!(projection.review_only(), FileCounts { todo: 0, total: 1 });
    assert_eq!(
        projection.unattached(),
        FileCounts { todo: 2, total: 3 },
        "gone.rs + two was-on comments"
    );
    assert_eq!(projection.was_on(), FileCounts { todo: 2, total: 2 });
    assert_eq!(projection.untargeted(), FileCounts { todo: 1, total: 1 });
    assert_eq!(projection.selected(), Some(&branch("auth-2")));
    assert_eq!(
        projection.target_counts(),
        &[
            TargetCounts {
                id: branch("auth-1"),
                counts: FileCounts { todo: 1, total: 1 }
            },
            TargetCounts {
                id: branch("auth-2"),
                counts: FileCounts { todo: 1, total: 3 }
            },
            TargetCounts {
                id: TargetId::Stack,
                counts: FileCounts::default()
            },
        ],
        "own comments only, in live order"
    );
    let ids: Vec<&str> = projection
        .file_comments("a.rs")
        .iter()
        .map(|p| p.comment.id.as_str())
        .collect();
    assert_eq!(ids, vec!["c-legacy", "c-selected"]);
}

#[test]
fn scoped_overview_lists_review_then_unattached_with_was_on_badges() {
    let files = vec![entry("a.rs", None)];
    let review = stack_review();
    let projection = ReviewProjection::scoped(&review, &files, FileFilter::All, scope());
    let overview: Vec<(&str, bool, Option<&str>)> = projection
        .overview()
        .iter()
        .map(|o| (o.comment.id.as_str(), o.unattached, o.was_on))
        .collect();
    assert_eq!(
        overview,
        vec![
            ("c-review", false, None),
            ("c-gone", true, Some("auth-0")),
            ("c-review-gone", true, Some("worktree")),
            ("c-unattached", true, None),
        ]
    );
    let snapshot = projection.snapshot(&[]);
    let json = value(&snapshot.to_json());
    assert_eq!(
        json["selected"],
        value(&Json::parse(r#"{"kind": "branch", "name": "auth-2"}"#).expect("json"))
    );
    assert_eq!(json["targetCounts"][1]["counts"]["total"], 3);
    assert_eq!(json["untargetedComments"], 1);
    assert_eq!(json["wasOnComments"], 2);
    assert_eq!(json["overview"][1]["wasOn"], "auth-0");
    assert_eq!(json["overview"][3]["wasOn"], serde_json::Value::Null);
}

#[test]
fn unscoped_projection_equals_the_empty_scope_and_shows_every_comment() {
    let files = vec![entry("a.rs", None)];
    let review = stack_review();
    let plain = ReviewProjection::new(&review, &files, FileFilter::All);
    let empty =
        ReviewProjection::scoped(&review, &files, FileFilter::All, TargetScope::default());
    assert_eq!(plain.placements(), empty.placements());
    assert_eq!(plain.counts_for("a.rs"), FileCounts { todo: 4, total: 4 });
    assert_eq!(plain.was_on(), FileCounts::default());
    assert!(plain.target_counts().is_empty());
    assert_eq!(plain.selected(), None);
    let snapshot = plain.snapshot(&[]);
    assert_eq!(snapshot.selected, None);
    assert_eq!(snapshot.was_on_comments, 0);
}

#[test]
fn snapshot_bundles_filter_tree_counts_and_overview() {
    let files = vec![entry("a.rs", None)];
    let review = review_with(vec![comment("c1", Some("a.rs"), Status::Open)]);
    let projection = ReviewProjection::new(&review, &files, FileFilter::All);
    let snapshot = projection.snapshot(&[]);
    assert_eq!(snapshot.filter, FileFilter::All);
    assert_eq!(snapshot.files, files);
    assert_eq!(snapshot.tree.len(), 1);
    assert_eq!(snapshot.counts.len(), 1);
    assert_eq!(snapshot.counts[0].path, "a.rs");
    assert_eq!(snapshot.counts[0].counts, FileCounts { todo: 1, total: 1 });
    assert_eq!(snapshot.review_level_comments, 0);
    assert_eq!(snapshot.unattached_comments, 0);

    let json = value(&snapshot.to_json());
    assert_eq!(json["reviewLevelComments"], 0);
    assert!(json["tree"].as_array().is_some());
}
