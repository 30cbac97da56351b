//! Errors in words.

use ambidiff_core::lifecycle::LifecycleError;
use ambidiff_core::parser::{parse_file_diff, ParseError};
use ambidiff_core::protocol::DecodeError;
use ambidiff_core::review::ReviewError;
use ambidiff_core::source::{PathReason, SourceError};
use ambidiff_core::stack::TargetId;
use ambidiff_core::store::StoreError;
use ambidiff_core::view_state::ExpandError;

#[test]
fn parse_errors_quote_the_header() {
    let err = parse_file_diff("@@ -99999999999,1 +1,1 @@ \"x\"\n").expect_err("overflow");
    assert!(matches!(err, ParseError::HunkHeader { .. }), "{err:?}");
    assert_eq!(
        err.message(),
        "unparseable hunk header: \"@@ -99999999999,1 +1,1 @@ \\\"x\\\"\""
    );
    let err = ParseError::Extent {
        header: "@@ -1 +1 @@".into(),
    };
    assert_eq!(
        err.message(),
        "hunk header extent overflows u32: \"@@ -1 +1 @@\""
    );
}

#[test]
fn lifecycle_errors_name_action_and_status() {
    assert_eq!(
        LifecycleError::AlreadyInState { status: "resolved" }.message(),
        "comment is already resolved"
    );
    assert_eq!(
        LifecycleError::InvalidTransition {
            action: "reopen",
            status: "open"
        }
        .message(),
        "cannot reopen a open comment"
    );
    assert_eq!(
        LifecycleError::HumanOnly { action: "resolve" }.message(),
        "only a human may resolve a comment"
    );
}

#[test]
fn decode_errors_name_the_field() {
    assert_eq!(
        DecodeError::Missing {
            field: "body".into()
        }
        .message(),
        "missing required field \"body\""
    );
    assert_eq!(
        DecodeError::WrongType {
            field: "line".into(),
            expected: "an integer"
        }
        .message(),
        "field \"line\" must be an integer"
    );
    assert_eq!(
        DecodeError::OutOfRange {
            field: "endLine".into()
        }
        .message(),
        "field \"endLine\" is out of range (expected an integer in 1..=4294967295)"
    );
    let unknown = DecodeError::Unknown {
        field: "side".into(),
        value: "l\"eft".into(),
    };
    assert_eq!(
        unknown.message(),
        "field \"side\" has unknown value \"l\\\"eft\""
    );
    assert_eq!((unknown.kind(), unknown.field()), ("unknown", "side"));
}

#[test]
fn expand_errors_name_the_gap() {
    assert_eq!(
        ExpandError::NoSuchGap {
            gap_id: "before:9".into()
        }
        .message(),
        "no gap \"before:9\" in the current view"
    );
    assert_eq!(
        ExpandError::InvalidGap {
            gap_id: "trailing".into()
        }
        .message(),
        "gap \"trailing\" is internally inconsistent"
    );
    assert_eq!(
        ExpandError::StaleContent {
            expected: 3,
            got: 12
        }
        .message(),
        "stale content: view is at generation 3, content is from 12"
    );
}

#[test]
fn source_errors_say_what_failed() {
    assert_eq!(
        SourceError::NotARepo { root: "/x".into() }.message(),
        "not a git repository: /x"
    );
    assert_eq!(
        SourceError::GitFailed {
            args: "diff --".into(),
            stderr: "boom".into()
        }
        .message(),
        "git diff -- failed: boom"
    );
    assert_eq!(
        SourceError::Io {
            context: "read a".into(),
            detail: "gone".into()
        }
        .message(),
        "read a: gone"
    );
    assert_eq!(
        SourceError::InvalidRef { spec: "v9".into() }.message(),
        "invalid ref: v9"
    );
    assert_eq!(
        SourceError::NoMergeBase {
            left: "a".into(),
            right: "b".into()
        }
        .message(),
        "no merge base between a and b"
    );
    assert_eq!(
        SourceError::UnsupportedComparison {
            base: "a..b".into(),
            reason: "no".into()
        }
        .message(),
        "unsupported comparison a..b: no"
    );
    let invalid = SourceError::InvalidPath {
        path: "../a".into(),
        reason: PathReason::ParentComponent,
    };
    assert!(invalid.is_invalid_path());
    assert_eq!(invalid.message(), "invalid path ../a: ParentComponent");
    assert_eq!(
        SourceError::TooLarge {
            context: "read a".into(),
            limit_bytes: 10
        }
        .message(),
        "read a exceeds 10 bytes"
    );
    assert_eq!(
        SourceError::Timeout {
            args: "diff".into(),
            seconds: 10
        }
        .message(),
        "git diff timed out after 10s"
    );
}

#[test]
fn store_errors_say_what_to_do() {
    let cases = [
        (
            StoreError::NotInitialized {
                path: "/r/.ambidiff.json".into(),
            },
            "no review here: /r/.ambidiff.json not found (run `ambidiff init`)",
        ),
        (
            StoreError::AlreadyInitialized { path: "p".into() },
            "a review already exists at p",
        ),
        (
            StoreError::Io {
                context: "open guard g".into(),
                detail: "denied".into(),
            },
            "open guard g: denied",
        ),
        (
            StoreError::Locked {
                holder: "pid 7".into(),
                waited: "5s".into(),
            },
            "review file is locked by pid 7; timed out after 5s",
        ),
        (
            StoreError::ReadOnly {
                reason: "newer".into(),
            },
            "review file is read-only: newer",
        ),
        (
            StoreError::LockUnreadable {
                path: "l".into(),
                detail: "d".into(),
            },
            "lock sidecar at l could not be read as a valid ownership record: d",
        ),
        (
            StoreError::UnsafePath {
                path: "l".into(),
                reason: "refusing to follow a symlink".into(),
            },
            "refusing to use l: refusing to follow a symlink",
        ),
    ];
    for (error, text) in cases {
        assert_eq!(error.message(), text);
    }
    let inner = ReviewError::CommentNotFound { id: "c-1".into() };
    assert_eq!(
        StoreError::Review(inner.clone()).message(),
        inner.message()
    );
}

#[test]
fn targets_refuse_empty_names() {
    assert!(TargetId::parse_cli("").is_err());
    assert!(TargetId::parse_cli("branch:").is_err());
}

#[test]
fn review_errors_say_what_is_wrong() {
    let cases = [
        (
            ReviewError::Json { msg: "bad".into() },
            "review file is not valid JSON: bad",
        ),
        (
            ReviewError::NotAnObject,
            "review file root is not a JSON object",
        ),
        (
            ReviewError::SchemaTooNew { found: 7 },
            "review file was written by a newer ambidiff (schema 7, this build understands 1); \
             refusing to modify it",
        ),
        (
            ReviewError::CommentNotFound { id: "c-1".into() },
            "no comment with id c-1",
        ),
        (
            ReviewError::Lifecycle(LifecycleError::HumanOnly { action: "reopen" }),
            "only a human may reopen a comment",
        ),
        (
            ReviewError::Validation { msg: "no".into() },
            "invalid comment: no",
        ),
        (
            ReviewError::RevisionExhausted,
            "revision counter exhausted (already at u32::MAX)",
        ),
        (
            ReviewError::DuplicateId { id: "c-1".into() },
            "duplicate comment id c-1",
        ),
        (
            ReviewError::Serialize { msg: "no".into() },
            "could not serialize review file: no",
        ),
    ];
    for (error, text) in cases {
        assert_eq!(error.message(), text);
    }
}
