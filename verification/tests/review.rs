//! The review file.

use ambidiff_core::json::Json;
use ambidiff_core::lifecycle::{Action, Actor, LifecycleError, Status};
use ambidiff_core::review::{
    is_review_sidecar, parse_review, snippet_matches, to_json, validate_new_comment,
    GUARD_FILE_NAME, LOCK_FILE_NAME, NewComment, REVIEW_FILE_NAME, ReviewError, ReviewFile,
    Side, Source, TMP_FILE_PREFIX,
};

/// A document as a generic JSON value.
fn value(doc: &Json) -> serde_json::Value {
    serde_json::from_str(&doc.to_compact()).expect("json")
}

fn base_file() -> ReviewFile {
    ReviewFile::new(
        "test-review".to_string(),
        Source::git(Some("main".to_string())),
        "2026-01-01T00:00:00Z",
    )
}

fn new_comment(body: &str) -> NewComment {
    NewComment {
        path: Some("src/a.rs".to_string()),
        side: Some(Side::New),
        line: Some(3),
        end_line: None,
        snippet: Some("let x = 1;".to_string()),
        body: body.to_string(),
        author: "henry".to_string(),
    }
}

#[test]
fn round_trip_is_identity() {
    let mut review = base_file();
    review
        .try_add_comment(
            new_comment("first?"),
            "c-0001".into(),
            "2026-01-01T00:01:00Z",
        )
        .expect("add comment");
    let json = to_json(&review).expect("serialize");
    let outcome = parse_review(&json).expect("parse");
    assert_eq!(outcome.review, review);
    assert!(outcome.warnings.is_empty(), "{:?}", outcome.warnings);
    assert!(!outcome.read_only);
}

#[test]
fn plan_schema_example_parses_cleanly() {
    let json = r#"{
      "ambidiff": 1,
      "review": "worktree-auth-fix",
      "revision": 2,
      "source": { "kind": "git", "base": "main" },
      "createdAt": "2026-01-01T00:00:00Z",
      "updatedAt": "2026-01-02T00:00:00Z",
      "comments": [{
        "id": "c-7f3a", "rev": 1, "status": "reopened",
        "path": "src/login.ts", "side": "new", "line": 42, "endLine": 45,
        "snippet": "if (user == null) return;",
        "body": "null check inverted?? explain",
        "response": "fixed: now throws AuthError",
        "author": "henry",
        "createdAt": "2026-01-01T00:00:00Z", "updatedAt": "2026-01-01T00:05:00Z"
      }]
    }"#;
    let outcome = parse_review(json).expect("parse");
    assert!(outcome.warnings.is_empty(), "{:?}", outcome.warnings);
    let c = &outcome.review.comments[0];
    assert_eq!(c.id, "c-7f3a");
    assert_eq!(c.status, Status::Reopened);
    assert_eq!(c.side, Some(Side::New));
    assert_eq!(c.end_line, Some(45));
    assert!(c.is_question());
    assert_eq!(outcome.review.counts().todo(), 1);
}

#[test]
fn unknown_fields_survive_round_trip() {
    let json = r#"{
      "ambidiff": 1, "review": "r", "revision": 1,
      "source": {"kind": "git", "base": "main", "customSourceKey": 1},
      "createdAt": "t", "updatedAt": "t",
      "comments": [{
        "id": "c-1", "rev": 1, "status": "open", "path": null, "line": null,
        "body": "b", "author": "a", "createdAt": "t", "updatedAt": "t",
        "agentMetadata": {"tool": "lint"}
      }],
      "futureTopLevel": [1, 2]
    }"#;
    let outcome = parse_review(json).expect("parse");
    assert!(outcome.warnings.is_empty(), "{:?}", outcome.warnings);
    let out = to_json(&outcome.review).expect("serialize");
    assert!(out.contains("customSourceKey"));
    assert!(out.contains("agentMetadata"));
    assert!(out.contains("futureTopLevel"));
}

#[test]
fn missing_required_comment_field_quarantines_record() {
    let json = r#"{
      "ambidiff": 1, "review": "r", "revision": 1, "source": {"kind": "git"},
      "createdAt": "t", "updatedAt": "t",
      "comments": [
        {"id": "c-1", "rev": 1, "status": "open", "path": null, "line": null,
         "body": "good", "author": "a", "createdAt": "t", "updatedAt": "t"},
        {"id": "c-2", "rev": 1, "status": "open"}
      ]
    }"#;
    let outcome = parse_review(json).expect("parse");
    assert_eq!(outcome.review.comments.len(), 1);
    assert_eq!(outcome.review.quarantined.len(), 1);
    assert_eq!(value(&outcome.review.quarantined[0])["id"], "c-2");
    assert!(!outcome.warnings.is_empty());
    assert!(!outcome.read_only);
}

#[test]
fn wrong_type_comment_field_quarantines_record() {
    let json = r#"{
      "ambidiff": 1, "review": "r", "revision": 1, "source": {"kind": "git"},
      "createdAt": "t", "updatedAt": "t",
      "comments": [
        {"id": "c-1", "rev": "one", "status": "open", "path": null, "line": null,
         "body": "b", "author": "a", "createdAt": "t", "updatedAt": "t"}
      ]
    }"#;
    let outcome = parse_review(json).expect("parse");
    assert!(outcome.review.comments.is_empty());
    assert_eq!(outcome.review.quarantined.len(), 1);
}

#[test]
fn unknown_status_quarantines_record() {
    let json = r#"{
      "ambidiff": 1, "review": "r", "revision": 1, "source": {"kind": "git"},
      "createdAt": "t", "updatedAt": "t",
      "comments": [
        {"id": "c-1", "rev": 1, "status": "wontfix", "path": null, "line": null,
         "body": "b", "author": "a", "createdAt": "t", "updatedAt": "t"}
      ]
    }"#;
    let outcome = parse_review(json).expect("parse");
    assert!(outcome.review.comments.is_empty());
    assert_eq!(outcome.review.quarantined.len(), 1);
}

#[test]
fn duplicate_id_quarantines_second_record() {
    let json = r#"{
      "ambidiff": 1, "review": "r", "revision": 1, "source": {"kind": "git"},
      "createdAt": "t", "updatedAt": "t",
      "comments": [
        {"id": "c-1", "rev": 1, "status": "open", "path": null, "line": null,
         "body": "first", "author": "a", "createdAt": "t", "updatedAt": "t"},
        {"id": "c-1", "rev": 1, "status": "open", "path": null, "line": null,
         "body": "second", "author": "a", "createdAt": "t", "updatedAt": "t"}
      ]
    }"#;
    let outcome = parse_review(json).expect("parse");
    assert_eq!(outcome.review.comments.len(), 1);
    assert_eq!(outcome.review.comments[0].body, "first");
    assert_eq!(value(&outcome.review.quarantined[0])["body"], "second");
}

#[test]
fn newer_schema_major_is_read_only() {
    let json = r#"{
      "ambidiff": 2, "review": "r", "revision": 1, "source": {"kind": "git"},
      "createdAt": "t", "updatedAt": "t", "comments": []
    }"#;
    let outcome = parse_review(json).expect("parse");
    assert!(outcome.read_only);
    assert_eq!(outcome.review.ambidiff, 2);
}

#[test]
fn non_array_comments_is_read_only_and_preserved() {
    let json = r#"{
      "ambidiff": 1, "review": "r", "revision": 1, "source": {"kind": "git"},
      "createdAt": "t", "updatedAt": "t", "comments": "oops"
    }"#;
    let outcome = parse_review(json).expect("parse");
    assert!(outcome.read_only);
    assert_eq!(
        outcome.read_only_reason.as_deref(),
        Some("comments is not an array (string)")
    );
    assert_eq!(value(outcome.retained.get("comments").expect("retained")), "oops");
    assert!(outcome.review.comments.is_empty());
}

#[test]
fn invalid_json_is_a_hard_error() {
    assert!(matches!(
        parse_review("{not json"),
        Err(ReviewError::Json { .. })
    ));
    assert!(matches!(
        parse_review("[1,2]"),
        Err(ReviewError::NotAnObject)
    ));
}

#[test]
fn quarantine_survives_round_trip() {
    let json = r#"{
      "ambidiff": 1, "review": "r", "revision": 1, "source": {"kind": "git"},
      "createdAt": "t", "updatedAt": "t",
      "comments": [{"id": "c-2", "rev": 1, "status": "open"}]
    }"#;
    let outcome = parse_review(json).expect("parse");
    let rewritten = to_json(&outcome.review).expect("serialize");
    let again = parse_review(&rewritten).expect("reparse");
    assert_eq!(again.review.quarantined.len(), 1);
    assert_eq!(value(&again.review.quarantined[0])["id"], "c-2");
}

#[test]
fn missing_side_on_line_comment_is_salvaged_to_new() {
    let json = r#"{
      "ambidiff": 1, "review": "r", "revision": 1, "source": {"kind": "git"},
      "createdAt": "t", "updatedAt": "t",
      "comments": [{"id": "c-1", "rev": 1, "status": "open", "path": "f", "line": 3,
        "body": "b", "author": "a", "createdAt": "t", "updatedAt": "t"}]
    }"#;
    let outcome = parse_review(json).expect("parse");
    assert_eq!(outcome.review.comments[0].side, Some(Side::New));
    assert!(!outcome.warnings.is_empty());
}

#[test]
fn is_question_requires_double_question_mark() {
    let mut review = base_file();
    review
        .try_add_comment(new_comment("plain directive"), "c-1".into(), "t")
        .expect("add comment");
    review
        .try_add_comment(new_comment("is this ok?"), "c-2".into(), "t")
        .expect("add comment");
    review
        .try_add_comment(new_comment("why?? explain"), "c-3".into(), "t")
        .expect("add comment");
    assert!(!review.comments[0].is_question());
    assert!(
        !review.comments[1].is_question(),
        "single ? is not the convention"
    );
    assert!(review.comments[2].is_question());
}

#[test]
fn counts_tally_each_status_exactly() {
    let mut review = base_file();
    for (i, body) in ["a", "b", "c", "d", "e", "f"].iter().enumerate() {
        review
            .try_add_comment(new_comment(body), format!("c-{i}"), "t")
            .expect("add comment");
    }
    // c-0,c-1 stay open; c-2,c-3 addressed; c-4 resolved; c-5 reopened.
    for id in ["c-2", "c-3", "c-4", "c-5"] {
        review
            .apply_lifecycle(id, Action::Address, Actor::Agent, None, "t")
            .expect("address");
    }
    review
        .apply_lifecycle("c-4", Action::Resolve, Actor::Human, None, "t")
        .expect("resolve");
    review
        .apply_lifecycle("c-5", Action::Reopen, Actor::Human, None, "t")
        .expect("reopen");
    let counts = review.counts();
    assert_eq!(
        (
            counts.open,
            counts.addressed,
            counts.resolved,
            counts.reopened
        ),
        (2, 2, 1, 1)
    );
    assert_eq!(counts.todo(), 3, "open + reopened");
    assert_eq!(counts.total(), 6);
}

#[test]
fn first_comment_does_not_bump_revision() {
    let mut review = base_file();
    review
        .try_add_comment(new_comment("a"), "c-1".into(), "t1")
        .expect("add comment");
    assert_eq!(review.revision, 1);
    assert_eq!(review.comments[0].rev, 1);
}

#[test]
fn comment_after_pass_completion_opens_new_pass() {
    let mut review = base_file();
    review
        .try_add_comment(new_comment("a"), "c-1".into(), "t1")
        .expect("add comment");
    review
        .try_add_comment(new_comment("b"), "c-2".into(), "t2")
        .expect("add comment");
    assert_eq!(review.revision, 1);

    // Agent addresses both: pass 1 is complete.
    review
        .apply_lifecycle("c-1", Action::Address, Actor::Agent, None, "t3")
        .expect("address");
    review
        .apply_lifecycle(
            "c-2",
            Action::Address,
            Actor::Agent,
            Some("done".into()),
            "t4",
        )
        .expect("address");

    // Next human comment opens pass 2.
    review
        .try_add_comment(new_comment("c"), "c-3".into(), "t5")
        .expect("add comment");
    assert_eq!(review.revision, 2);
    assert_eq!(review.comments[2].rev, 2);
    // Earlier comments keep their origin pass.
    assert_eq!(review.comments[0].rev, 1);
}

#[test]
fn comment_while_pass_incomplete_stays_in_pass() {
    let mut review = base_file();
    review
        .try_add_comment(new_comment("a"), "c-1".into(), "t1")
        .expect("add comment");
    review
        .apply_lifecycle("c-1", Action::Address, Actor::Agent, None, "t2")
        .expect("address");
    review
        .try_add_comment(new_comment("b"), "c-2".into(), "t3")
        .expect("add comment");
    assert_eq!(review.revision, 2, "all addressed -> new pass");
    review
        .try_add_comment(new_comment("c"), "c-3".into(), "t4")
        .expect("add comment");
    assert_eq!(review.revision, 2, "c-2 still open -> same pass");
}

#[test]
fn reopen_after_pass_completion_opens_new_pass() {
    let mut review = base_file();
    review
        .try_add_comment(new_comment("a"), "c-1".into(), "t1")
        .expect("add comment");
    review
        .apply_lifecycle("c-1", Action::Address, Actor::Agent, None, "t2")
        .expect("address");
    review
        .apply_lifecycle("c-1", Action::Reopen, Actor::Human, None, "t3")
        .expect("reopen");
    assert_eq!(review.revision, 2);
    // Provenance: the comment keeps the pass it was raised in.
    assert_eq!(review.comments[0].rev, 1);
    assert_eq!(review.comments[0].status, Status::Reopened);
}

#[test]
fn agent_resolve_via_review_is_rejected() {
    let mut review = base_file();
    review
        .try_add_comment(new_comment("a"), "c-1".into(), "t1")
        .expect("add comment");
    let err = review
        .apply_lifecycle("c-1", Action::Resolve, Actor::Agent, None, "t2")
        .expect_err("agent resolve must fail");
    assert!(matches!(
        err,
        ReviewError::Lifecycle(LifecycleError::HumanOnly { .. })
    ));
}

#[test]
fn lifecycle_on_missing_id_errors() {
    let mut review = base_file();
    assert!(matches!(
        review.apply_lifecycle("nope", Action::Address, Actor::Agent, None, "t"),
        Err(ReviewError::CommentNotFound { .. })
    ));
}

#[test]
fn rev_bump_is_manual_escape_hatch() {
    let mut review = base_file();
    assert_eq!(review.try_rev_bump("t").expect("rev bump"), 2);
    assert_eq!(review.revision, 2);
}

#[test]
fn validation_partitions() {
    let ok = new_comment("body");
    assert!(validate_new_comment(&ok).is_ok());

    let mut c = new_comment("  ");
    assert!(validate_new_comment(&c).is_err(), "blank body");

    c = new_comment("b");
    c.path = None;
    c.side = None;
    c.line = None;
    assert!(validate_new_comment(&c).is_ok(), "review-level");

    c = new_comment("b");
    c.path = None;
    assert!(validate_new_comment(&c).is_err(), "line without path");

    c = new_comment("b");
    c.line = None;
    c.end_line = Some(4);
    assert!(validate_new_comment(&c).is_err(), "endLine without line");

    c = new_comment("b");
    c.line = None;
    assert!(validate_new_comment(&c).is_err(), "side without line");

    c = new_comment("b");
    c.line = None;
    c.side = None;
    assert!(validate_new_comment(&c).is_ok(), "file-level");

    c = new_comment("b");
    c.end_line = Some(2);
    assert!(validate_new_comment(&c).is_err(), "endLine < line");

    c = new_comment("b");
    c.line = Some(0);
    assert!(validate_new_comment(&c).is_err(), "0 line");
}

#[test]
fn snippet_matching_is_whitespace_insensitive() {
    assert!(snippet_matches(
        "if (x == null) return;",
        "  if (x==null)  return;"
    ));
    assert!(snippet_matches("a\tb", "ab"));
    assert!(!snippet_matches("if (x == null)", "if (x != null)"));
    assert!(snippet_matches("", "   "));
}

// is_review_sidecar

#[test]
fn sidecar_names_are_recognized_review_file_is_not() {
    assert!(is_review_sidecar(LOCK_FILE_NAME));
    assert!(is_review_sidecar(GUARD_FILE_NAME));
    assert!(is_review_sidecar(&format!("{TMP_FILE_PREFIX}abc123")));
    assert!(!is_review_sidecar(REVIEW_FILE_NAME));
    assert!(!is_review_sidecar("unrelated.txt"));
}

// revision overflow

#[test]
fn next_revision_errors_at_u32_max_without_mutating() {
    let mut review = base_file();
    review.revision = u32::MAX;
    assert!(matches!(
        review.next_revision(),
        Err(ReviewError::RevisionExhausted)
    ));
    assert_eq!(review.revision, u32::MAX, "no mutation on failure");
}

#[test]
fn try_rev_bump_errors_at_u32_max_without_mutating() {
    let mut review = base_file();
    review.revision = u32::MAX;
    let before = review.clone();
    assert!(matches!(
        review.try_rev_bump("t"),
        Err(ReviewError::RevisionExhausted)
    ));
    assert_eq!(review, before, "no partial mutation on failure");
}

#[test]
fn try_add_comment_errors_when_pass_bump_would_overflow() {
    let mut review = base_file();
    review.revision = u32::MAX;
    review
        .try_add_comment(new_comment("a"), "c-1".into(), "t1")
        .expect("add comment");
    review
        .apply_lifecycle("c-1", Action::Address, Actor::Agent, None, "t2")
        .expect("address");
    // Pass is complete; the next comment would need revision MAX+1.
    let before = review.clone();
    let err = review
        .try_add_comment(new_comment("b"), "c-2".into(), "t3")
        .expect_err("must not overflow");
    assert!(matches!(err, ReviewError::RevisionExhausted));
    assert_eq!(review, before, "no partial mutation: comment not added");
}

#[test]
fn apply_lifecycle_reopen_errors_when_pass_bump_would_overflow() {
    let mut review = base_file();
    review
        .try_add_comment(new_comment("a"), "c-1".into(), "t1")
        .expect("add comment");
    review
        .apply_lifecycle("c-1", Action::Address, Actor::Agent, None, "t2")
        .expect("address");
    review.revision = u32::MAX;
    let before = review.clone();
    let err = review
        .apply_lifecycle("c-1", Action::Reopen, Actor::Human, None, "t3")
        .expect_err("must not overflow");
    assert!(matches!(err, ReviewError::RevisionExhausted));
    assert_eq!(review, before, "no partial mutation: status unchanged");
}

#[test]
fn revision_out_of_range_is_retained_and_read_only() {
    for revision in ["0", "-1", "1.5", "4294967296"] {
        let json = format!(
            r#"{{
              "ambidiff": 1, "review": "r", "revision": {revision},
              "source": {{"kind": "git"}}, "createdAt": "t", "updatedAt": "t",
              "comments": []
            }}"#
        );
        let outcome = parse_review(&json).expect("parse");
        assert!(outcome.read_only, "revision {revision} must be read-only");
        assert!(
            outcome.retained.contains_key("revision"),
            "revision {revision} must be retained"
        );
        assert_eq!(outcome.review.revision, 1, "falls back to 1 for reads");
    }
}

// try_add_comment / edit_comment / delete_comment

#[test]
fn try_add_comment_rejects_duplicate_id_without_mutating() {
    let mut review = base_file();
    review
        .try_add_comment(new_comment("a"), "c-1".into(), "t1")
        .expect("add comment");
    let before = review.clone();
    let err = review
        .try_add_comment(new_comment("b"), "c-1".into(), "t2")
        .expect_err("duplicate id must be rejected");
    assert!(matches!(err, ReviewError::DuplicateId { id } if id == "c-1"));
    assert_eq!(review, before);
}

#[test]
fn try_add_comment_rejects_invalid_input_without_mutating() {
    let mut review = base_file();
    let mut bad = new_comment("body");
    bad.body = "   ".to_string();
    let before = review.clone();
    assert!(review.try_add_comment(bad, "c-1".into(), "t").is_err());
    assert_eq!(review, before);
}

#[test]
fn edit_comment_replaces_body_and_bumps_updated_at() {
    let mut review = base_file();
    review
        .try_add_comment(new_comment("original"), "c-1".into(), "t1")
        .expect("add comment");
    let updated = review.edit_comment("c-1", "revised", "t2").expect("edit");
    assert_eq!(updated.body, "revised");
    assert_eq!(updated.updated_at, "t2");
}

#[test]
fn edit_comment_rejects_blank_body() {
    let mut review = base_file();
    review
        .try_add_comment(new_comment("original"), "c-1".into(), "t1")
        .expect("add comment");
    assert!(matches!(
        review.edit_comment("c-1", "   ", "t2"),
        Err(ReviewError::Validation { .. })
    ));
    assert_eq!(review.comments[0].body, "original");
}

#[test]
fn edit_comment_missing_id_errors() {
    let mut review = base_file();
    assert!(matches!(
        review.edit_comment("nope", "text", "t"),
        Err(ReviewError::CommentNotFound { .. })
    ));
}

#[test]
fn delete_comment_removes_and_returns_it() {
    let mut review = base_file();
    review
        .try_add_comment(new_comment("keep"), "c-1".into(), "t1")
        .expect("add comment");
    review
        .try_add_comment(new_comment("remove me"), "c-2".into(), "t2")
        .expect("add comment");
    let removed = review.delete_comment("c-2", "t3").expect("delete");
    assert_eq!(removed.id, "c-2");
    assert_eq!(review.comments.len(), 1);
    assert_eq!(review.comments[0].id, "c-1");
}

#[test]
fn delete_comment_missing_id_errors_without_mutating() {
    let mut review = base_file();
    review
        .try_add_comment(new_comment("keep"), "c-1".into(), "t1")
        .expect("add comment");
    let before = review.clone();
    assert!(matches!(
        review.delete_comment("nope", "t"),
        Err(ReviewError::CommentNotFound { .. })
    ));
    assert_eq!(review, before);
}

#[test]
fn apply_lifecycle_empty_response_stores_nothing() {
    let mut review = base_file();
    review
        .try_add_comment(new_comment("a"), "c-1".into(), "t1")
        .expect("add comment");
    let updated = review
        .apply_lifecycle(
            "c-1",
            Action::Address,
            Actor::Agent,
            Some(String::new()),
            "t2",
        )
        .expect("address");
    assert_eq!(updated.response, None);
}

// validate()

#[test]
fn validate_accepts_a_well_formed_review() {
    let mut review = base_file();
    review
        .try_add_comment(new_comment("a"), "c-1".into(), "t1")
        .expect("add comment");
    assert!(review.validate().is_ok());
}

#[test]
fn validate_rejects_zero_revision() {
    let mut review = base_file();
    review.revision = 0;
    assert!(matches!(
        review.validate(),
        Err(ReviewError::Validation { .. })
    ));
}

#[test]
fn validate_rejects_duplicate_ids() {
    let mut review = base_file();
    review
        .try_add_comment(new_comment("a"), "c-1".into(), "t1")
        .expect("add comment");
    review.comments.push(review.comments[0].clone());
    assert!(matches!(
        review.validate(),
        Err(ReviewError::DuplicateId { .. })
    ));
}

#[test]
fn validate_rejects_invalid_id() {
    let mut review = base_file();
    review
        .try_add_comment(new_comment("a"), "c-1".into(), "t1")
        .expect("add comment");
    review.comments[0].id = "bad id!".to_string();
    assert!(matches!(
        review.validate(),
        Err(ReviewError::Validation { .. })
    ));
}

// salvage retention for other top-level fields

#[test]
fn quarantine_container_that_is_an_object_is_retained_not_dropped() {
    let json = r#"{
      "ambidiff": 1, "review": "r", "revision": 1, "source": {"kind": "git"},
      "createdAt": "t", "updatedAt": "t", "comments": [],
      "quarantined": {"not": "an array"}
    }"#;
    let outcome = parse_review(json).expect("parse");
    assert!(outcome.read_only);
    assert_eq!(value(outcome.retained.get("quarantined").expect("retained"))["not"], "an array");
}

#[test]
fn unreadable_source_object_is_retained_not_replaced_silently() {
    let json = r#"{
      "ambidiff": 1, "review": "r", "revision": 1,
      "source": {"kind": 123},
      "createdAt": "t", "updatedAt": "t", "comments": []
    }"#;
    let outcome = parse_review(json).expect("parse");
    assert!(outcome.read_only);
    assert_eq!(value(outcome.retained.get("source").expect("retained"))["kind"], 123);
}

#[test]
fn non_object_source_is_retained() {
    let json = r#"{
      "ambidiff": 1, "review": "r", "revision": 1, "source": "git",
      "createdAt": "t", "updatedAt": "t", "comments": []
    }"#;
    let outcome = parse_review(json).expect("parse");
    assert!(outcome.read_only);
    assert_eq!(value(outcome.retained.get("source").expect("retained")), "git");
}

#[test]
fn non_string_review_name_is_retained() {
    let json = r#"{
      "ambidiff": 1, "review": 42, "revision": 1, "source": {"kind": "git"},
      "createdAt": "t", "updatedAt": "t", "comments": []
    }"#;
    let outcome = parse_review(json).expect("parse");
    assert!(outcome.read_only);
    assert_eq!(value(outcome.retained.get("review").expect("retained")), 42);
}

#[test]
fn non_string_timestamp_is_retained() {
    let json = r#"{
      "ambidiff": 1, "review": "r", "revision": 1, "source": {"kind": "git"},
      "createdAt": 1234, "updatedAt": "t", "comments": []
    }"#;
    let outcome = parse_review(json).expect("parse");
    assert!(outcome.read_only);
    assert_eq!(value(outcome.retained.get("createdAt").expect("retained")), 1234);
}

#[test]
fn non_integer_ambidiff_is_retained() {
    let json = r#"{
      "ambidiff": "one", "review": "r", "revision": 1, "source": {"kind": "git"},
      "createdAt": "t", "updatedAt": "t", "comments": []
    }"#;
    let outcome = parse_review(json).expect("parse");
    assert!(outcome.read_only);
    assert_eq!(value(outcome.retained.get("ambidiff").expect("retained")), "one");
}

#[test]
fn missing_fields_stay_writable_with_warnings() {
    let json = r#"{"comments": []}"#;
    let outcome = parse_review(json).expect("parse");
    assert!(!outcome.read_only, "missing fields alone are not read-only");
    assert!(outcome.retained.is_empty());
    assert!(!outcome.warnings.is_empty());
}

#[test]
fn read_only_reason_is_the_first_triggering_warning() {
    let json = r#"{
      "ambidiff": 1, "review": 42, "revision": -1, "source": {"kind": "git"},
      "createdAt": "t", "updatedAt": "t", "comments": []
    }"#;
    let outcome = parse_review(json).expect("parse");
    assert!(outcome.read_only);
    assert_eq!(
        outcome.read_only_reason.as_deref(),
        Some("review name 42 is not a string")
    );
}

#[test]
fn reviews_are_equal_whatever_the_order_of_foreign_fields() {
    let load = |extra: &str| {
        parse_review(&format!(
            r#"{{"ambidiff":1,"review":"r","revision":1,"source":{{"kind":"git"}},
            "createdAt":"t","updatedAt":"t","comments":[],{extra}}}"#
        ))
        .expect("parse")
        .review
    };
    assert_eq!(load(r#""x":1,"y":[2]"#), load(r#""y":[2],"x":1"#));
    assert_ne!(load(r#""x":1,"y":[2]"#), load(r#""y":[2],"x":2"#));
}
