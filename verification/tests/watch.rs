//! The watch rules.

use ambidiff_core::watch::{Refresh, Scheduler};

/// Some time on the clock, in nanoseconds.
fn t0() -> u64 {
    1_700_000_000_000_000_000
}

fn millis(n: u64) -> u64 {
    n * 1_000_000
}

fn secs(n: u64) -> u64 {
    n * 1_000_000_000
}

#[test]
fn quiet_debounce_fires_after_the_quiet_window() {
    let quiet = millis(200);
    let max = secs(1);
    let poll = secs(10);
    let now = t0();
    let mut s = Scheduler::new(now, quiet, max, poll);
    s.mark(Refresh::Diff, now);
    assert!(!s.due(Refresh::Diff, now));
    assert!(s.due(Refresh::Diff, now + quiet));
}

#[test]
fn max_debounce_fires_even_under_continuous_dirtying() {
    let quiet = millis(200);
    let max = millis(500);
    let poll = secs(10);
    let now = t0();
    let mut s = Scheduler::new(now, quiet, max, poll);
    s.mark(Refresh::Diff, now);
    let mut t = now;
    for _ in 0..4 {
        t += millis(100);
        s.mark(Refresh::Diff, t);
        assert!(
            !s.due(Refresh::Diff, t),
            "quiet window keeps resetting, still under the max cap"
        );
    }
    t += millis(100);
    s.mark(Refresh::Diff, t);
    assert!(
        s.due(Refresh::Diff, t),
        "the max window fires despite continuous dirtying"
    );
}

#[test]
fn safety_poll_fires_with_no_dirty_marks() {
    let now = t0();
    let poll = secs(10);
    let s = Scheduler::new(
        now,
        millis(200),
        secs(1),
        poll,
    );
    assert!(!s.due(Refresh::Review, now + secs(9)));
    assert!(s.due(Refresh::Review, now + poll));
}

#[test]
fn checked_advances_only_its_own_track_deadline() {
    let now = t0();
    let poll = secs(10);
    let mut s = Scheduler::new(
        now,
        millis(200),
        secs(1),
        poll,
    );
    s.checked(Refresh::Diff, now + secs(1), poll);
    assert!(
        s.due(Refresh::Review, now + poll),
        "review's own deadline is untouched by diff's checked()"
    );
    assert!(!s.due(
        Refresh::Diff,
        now + secs(1) + poll - millis(1)
    ));
}

#[test]
fn diff_bursts_do_not_postpone_review_safety_poll() {
    // Repeated diff-only checks must never push out review's own
    // safety-poll deadline.
    let now = t0();
    let poll = secs(10);
    let mut s = Scheduler::new(
        now,
        millis(50),
        millis(200),
        poll,
    );
    let mut t = now;
    for _ in 0..50 {
        t += millis(150);
        s.mark(Refresh::Diff, t);
        if s.due(Refresh::Diff, t) {
            s.checked(Refresh::Diff, t, poll);
        }
    }
    assert!(
        s.due(Refresh::Review, now + poll),
        "review safety poll must not be starved by diff-only activity"
    );
}

#[test]
fn review_bursts_do_not_postpone_diff_safety_poll() {
    let now = t0();
    let poll = secs(10);
    let mut s = Scheduler::new(
        now,
        millis(50),
        millis(200),
        poll,
    );
    let mut t = now;
    for _ in 0..50 {
        t += millis(150);
        s.mark(Refresh::Review, t);
        if s.due(Refresh::Review, t) {
            s.checked(Refresh::Review, t, poll);
        }
    }
    assert!(
        s.due(Refresh::Diff, now + poll),
        "diff safety poll must not be starved by review-only activity"
    );
}

#[test]
fn checked_uses_the_supplied_interval_for_degraded_mode() {
    let now = t0();
    let normal = secs(10);
    let degraded = millis(500);
    let mut s = Scheduler::new(
        now,
        millis(50),
        millis(200),
        normal,
    );
    s.checked(Refresh::Diff, now, degraded);
    assert!(!s.due(Refresh::Diff, now + millis(100)));
    assert!(s.due(Refresh::Diff, now + degraded));
}

#[test]
fn next_wakeup_is_zero_once_due() {
    let now = t0();
    let poll = secs(10);
    let s = Scheduler::new(
        now,
        millis(200),
        secs(1),
        poll,
    );
    assert_eq!(s.next_wakeup(now + poll), 0);
    assert!(s.next_wakeup(now) > 0);
}

#[test]
fn a_check_rests_until_its_next_poll() {
    let now = t0();
    let mut s = Scheduler::new(now, millis(200), secs(1), secs(10));
    s.mark(Refresh::Review, now);
    s.mark(Refresh::Diff, now);
    s.checked(Refresh::Diff, now + 5, secs(3));
    for at in [now, now + millis(200), now + secs(1), now + 4 + secs(3)] {
        assert!(!s.due(Refresh::Diff, at));
    }
    assert!(s.due(Refresh::Diff, now + 5 + secs(3)));
    assert!(s.due(Refresh::Review, now + millis(200)), "the other kind is as it was");
}
