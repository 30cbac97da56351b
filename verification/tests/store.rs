//! The rules of the review store.

use ambidiff_core::review::{parse_review, ReviewError, ReviewFile, Source};
use ambidiff_core::store::{
    classify_sidecar, content_to_write, describe_holder, editable, is_stale_tmp, may_release,
    nonce_text, Acquire, AcquireStep, BACKOFF_MAX, Classify, LOCK_WAIT, LockInfo, SidecarRead,
    StoreError,
};
use ambidiff_core::sys::Liveness;

fn record(pid: u32, nonce: Option<&str>) -> LockInfo {
    LockInfo {
        pid,
        acquired_at: 0,
        nonce: nonce.map(str::to_string),
    }
}

#[test]
fn sidecars_are_classified_by_nonce_and_liveness() {
    let guarded = SidecarRead::Record(record(7, Some("ab")));
    let legacy = SidecarRead::Record(record(7, None));
    for liveness in [Liveness::Alive, Liveness::Dead, Liveness::Indeterminate] {
        assert_eq!(classify_sidecar(&guarded, liveness), Classify::Guarded);
        assert_eq!(
            classify_sidecar(&SidecarRead::Missing, liveness),
            Classify::Vanished
        );
        assert_eq!(
            classify_sidecar(&SidecarRead::NoRecord, liveness),
            Classify::Unreadable
        );
    }
    assert_eq!(classify_sidecar(&legacy, Liveness::Dead), Classify::LegacyDead);
    assert_eq!(classify_sidecar(&legacy, Liveness::Alive), Classify::LegacyLive);
    assert_eq!(
        classify_sidecar(&legacy, Liveness::Indeterminate),
        Classify::LegacyLive
    );
}

#[test]
fn a_busy_guard_is_retried_with_growing_intervals() {
    let mut attempt = Acquire::new(LOCK_WAIT);
    let mut sleeps = Vec::new();
    let mut elapsed = 0;
    for _ in 0..7 {
        match attempt.on_guard_busy(elapsed, "a moment", &SidecarRead::Missing) {
            AcquireStep::RetryGuard { sleep } => {
                sleeps.push(sleep);
                elapsed += sleep;
            }
            other => panic!("{other:?}"),
        }
    }
    assert_eq!(sleeps, vec![10, 20, 40, 80, 160, 200, 200]);
    assert_eq!(attempt.backoff, BACKOFF_MAX);
    assert_eq!(
        attempt.on_guard_busy(4950, "4.95s", &SidecarRead::Missing),
        AcquireStep::RetryGuard { sleep: 50 },
        "no wait goes past the timeout"
    );
    assert_eq!(
        attempt.on_guard_busy(5000, "5s", &SidecarRead::Record(record(42, None))),
        AcquireStep::GiveUp(StoreError::Locked {
            holder: "pid 42".into(),
            waited: "5s".into()
        })
    );
    assert!(!attempt.holding);
}

#[test]
fn a_replaced_guard_is_refused() {
    let mut attempt = Acquire::new(100);
    assert_eq!(
        attempt.on_guard_taken(Some(1), Some(2), "/r/guard"),
        AcquireStep::GiveUp(StoreError::UnsafePath {
            path: "/r/guard".into(),
            reason: "guard file was replaced while acquiring its lock".into()
        })
    );
    assert!(attempt.holding, "the lock has to be let go");
    let mut attempt = Acquire::new(100);
    assert_eq!(
        attempt.on_guard_taken(Some(1), Some(1), "g"),
        AcquireStep::CreateSidecar
    );
    assert_eq!(
        attempt.on_guard_taken(None, Some(1), "g"),
        AcquireStep::CreateSidecar
    );
    assert_eq!(attempt.on_sidecar_created(), AcquireStep::Acquired);
}

#[test]
fn abandoned_sidecars_are_reclaimed_and_others_waited_for() {
    let attempt = Acquire::new(100);
    let guarded = SidecarRead::Record(record(7, Some("ab")));
    let legacy = SidecarRead::Record(record(7, None));
    assert_eq!(
        attempt.on_sidecar_found(&guarded, Liveness::Alive, 1000, "1s", "s"),
        AcquireStep::Reclaim
    );
    assert_eq!(
        attempt.on_sidecar_found(&legacy, Liveness::Dead, 0, "0s", "s"),
        AcquireStep::Reclaim
    );
    assert_eq!(
        attempt.on_sidecar_found(&SidecarRead::Missing, Liveness::Dead, 0, "0s", "s"),
        AcquireStep::CreateSidecar,
        "what has vanished is not removed"
    );
    assert_eq!(
        attempt.on_sidecar_found(&legacy, Liveness::Alive, 20, "20ms", "s"),
        AcquireStep::RetrySidecar { sleep: 50 }
    );
    assert_eq!(
        attempt.on_sidecar_found(&SidecarRead::NoRecord, Liveness::Dead, 70, "70ms", "s"),
        AcquireStep::RetrySidecar { sleep: 30 }
    );
    assert_eq!(
        attempt.on_sidecar_found(&legacy, Liveness::Indeterminate, 100, "100ms", "s"),
        AcquireStep::GiveUp(StoreError::Locked {
            holder: "pid 7".into(),
            waited: "100ms".into()
        })
    );
    assert_eq!(
        attempt.on_sidecar_found(&SidecarRead::NoRecord, Liveness::Dead, 100, "100ms", "/s"),
        AcquireStep::GiveUp(StoreError::LockUnreadable {
            path: "/s".into(),
            detail: "sidecar contents are not a valid ownership record".into()
        })
    );
}

#[test]
fn a_holder_releases_its_own_sidecar_only() {
    let owner = record(7, Some("ab"));
    assert!(may_release(&SidecarRead::Record(owner.clone()), &owner));
    assert!(!may_release(&SidecarRead::Record(record(7, Some("cd"))), &owner));
    assert!(!may_release(&SidecarRead::Record(record(8, Some("ab"))), &owner));
    assert!(!may_release(&SidecarRead::Record(record(7, None)), &owner));
    assert!(!may_release(&SidecarRead::Missing, &owner));
    assert!(!may_release(&SidecarRead::NoRecord, &owner));
}

#[test]
fn holders_are_described_by_pid() {
    assert_eq!(
        describe_holder(&SidecarRead::Record(record(123, None))),
        "pid 123"
    );
    assert_eq!(describe_holder(&SidecarRead::NoRecord), "unknown process");
    assert_eq!(nonce_text(0xdead_beef), "00000000deadbeef");
}

#[test]
fn a_newer_schema_is_never_edited() {
    let outcome = parse_review(
        r#"{"ambidiff": 99, "review": "r", "revision": 1, "source": {"kind": "git"},
            "createdAt": "t", "updatedAt": "t", "comments": []}"#,
    )
    .expect("parse");
    assert!(matches!(
        editable(outcome),
        Err(StoreError::ReadOnly { .. })
    ));
    let outcome = parse_review(r#"{"comments": []}"#).expect("parse");
    let warnings = outcome.warnings.clone();
    let (review, kept) = editable(outcome).expect("editable");
    assert_eq!(review.revision, 1);
    assert_eq!(kept, warnings);
}

#[test]
fn only_valid_reviews_are_written() {
    let mut review = ReviewFile::new("r".into(), Source::git(Some("main".into())), "t0");
    let text = content_to_write(&review).expect("valid");
    assert!(text.ends_with("}\n"));
    assert_eq!(parse_review(&text).expect("parse").review, review);
    review.revision = 0;
    assert!(matches!(
        content_to_write(&review),
        Err(StoreError::Review(ReviewError::Validation { .. }))
    ));
}

#[test]
fn only_old_temp_files_are_swept() {
    assert!(is_stale_tmp(".ambidiff.json.tmp.1234dead", Some(601)));
    assert!(is_stale_tmp(".ambidiff.json.tmp.1234dead", None));
    assert!(!is_stale_tmp(".ambidiff.json.tmp.1234dead", Some(600)));
    assert!(!is_stale_tmp(".ambidiff.json", Some(10_000)));
}
