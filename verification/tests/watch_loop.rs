//! The watch loop, its signatures and its pending refreshes.

use ambidiff_core::watch::{
    eval, event_hint, Checks, Pending, Refresh, SigState, SigTrack, WatchConfig, WatchLoop,
};

const SECOND: u64 = 1_000_000_000;

fn config() -> WatchConfig {
    WatchConfig::new("/r".into(), "/r/.ambidiff.json".into())
}

#[test]
fn defaults_are_the_documented_numbers() {
    let c = config();
    assert_eq!(c.debounce_quiet, 200_000_000);
    assert_eq!(c.debounce_max, SECOND);
    assert_eq!(c.poll_interval, 10 * SECOND);
    assert_eq!(c.degraded_poll, 2 * SECOND);
}

#[test]
fn events_hint_by_file_name() {
    let hint = |name: &str| event_hint(name, "review.json");
    assert_eq!(hint("review.json"), Some(Refresh::Review));
    assert_eq!(hint("main.rs"), Some(Refresh::Diff));
    assert_eq!(hint(""), Some(Refresh::Diff));
    assert_eq!(hint(".ambidiff.json.lock"), None);
    assert_eq!(hint(".ambidiff.json.guard"), None);
    assert_eq!(hint(".ambidiff.json.tmp.abc"), None);
}

#[test]
fn a_loop_debounces_and_polls() {
    let mut state = WatchLoop::new(&config(), None, false, 0);
    assert_eq!(state.review_name, ".ambidiff.json");
    let none = Checks {
        review: false,
        diff: false,
    };
    assert_eq!(state.step(SECOND), none);
    state.on_event(
        &["main.rs".to_string(), ".ambidiff.json.lock".to_string()],
        SECOND,
    );
    assert_eq!(state.step(SECOND + 100_000_000), none);
    assert_eq!(
        state.step(SECOND + 200_000_000),
        Checks {
            review: false,
            diff: true
        }
    );
    assert_eq!(
        state.step(10 * SECOND),
        Checks {
            review: true,
            diff: false
        },
        "the review's own safety poll was not postponed"
    );
}

#[test]
fn a_degraded_loop_polls_faster() {
    let mut state = WatchLoop::new(&config(), Some("r.json"), true, 0);
    assert!(state.step(2 * SECOND).review);
    let mut state = WatchLoop::new(&config(), Some("r.json"), false, 0);
    state.on_error();
    assert!(state.degraded);
    assert!(!state.step(2 * SECOND).diff, "the first poll was set before");
    assert!(state.step(10 * SECOND).diff);
    assert!(state.step(12 * SECOND).diff);
}

#[test]
fn a_failing_signature_is_a_state_of_its_own() {
    assert_eq!(eval(Ok(0)), (SigState::Value(0), None));
    assert_eq!(
        eval(Err("no".into())),
        (SigState::Failed, Some("no".into()))
    );
    let mut track = SigTrack::new(Ok(0));
    assert!(!track.check(Ok(0)));
    assert!(track.check(Err("boom".into())), "starts failing");
    assert_eq!(track.last_error.as_deref(), Some("boom"));
    assert!(!track.check(Err("again".into())), "still failing");
    assert_eq!(track.last_error.as_deref(), Some("again"));
    assert!(track.check(Ok(0)), "stops failing");
    assert_eq!(track.last_error, None);
    assert!(track.check(Ok(1)), "moves");
}

#[test]
fn pending_refreshes_coalesce_and_review_goes_first() {
    let mut pending = Pending::default();
    assert_eq!(pending.take(), None);
    pending.signal(Refresh::Diff);
    pending.signal(Refresh::Diff);
    pending.signal(Refresh::Review);
    assert_eq!(pending.take(), Some(Refresh::Review));
    assert_eq!(pending.take(), Some(Refresh::Diff));
    assert_eq!(pending.take(), None);
}
