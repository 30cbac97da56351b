//! The comment lifecycle.

use ambidiff_core::json::Json;
use ambidiff_core::lifecycle::Action::{Address, Reopen, Resolve};
use ambidiff_core::lifecycle::Actor::{Agent, Human};
use ambidiff_core::lifecycle::Status::{Addressed, Open, Reopened, Resolved};
use ambidiff_core::lifecycle::{transition, Action, Actor, LifecycleError, Status};
use ambidiff_core::review_json::status_from;

/// Exhaustive transition table: 4 states x 3 actions x 2 actors.
#[test]
fn exhaustive_transition_table() {
    let cases: &[(Status, Action, Actor, Result<Status, ()>)] = &[
        // Address: anyone, from open/reopened only.
        (Open, Address, Agent, Ok(Addressed)),
        (Open, Address, Human, Ok(Addressed)),
        (Reopened, Address, Agent, Ok(Addressed)),
        (Reopened, Address, Human, Ok(Addressed)),
        (Addressed, Address, Agent, Err(())),
        (Addressed, Address, Human, Err(())),
        (Resolved, Address, Agent, Err(())),
        (Resolved, Address, Human, Err(())),
        // Resolve: human only, from any non-resolved state.
        (Open, Resolve, Human, Ok(Resolved)),
        (Addressed, Resolve, Human, Ok(Resolved)),
        (Reopened, Resolve, Human, Ok(Resolved)),
        (Resolved, Resolve, Human, Err(())),
        (Open, Resolve, Agent, Err(())),
        (Addressed, Resolve, Agent, Err(())),
        (Reopened, Resolve, Agent, Err(())),
        (Resolved, Resolve, Agent, Err(())),
        // Reopen: human only, from addressed/resolved.
        (Addressed, Reopen, Human, Ok(Reopened)),
        (Resolved, Reopen, Human, Ok(Reopened)),
        (Open, Reopen, Human, Err(())),
        (Reopened, Reopen, Human, Err(())),
        (Addressed, Reopen, Agent, Err(())),
        (Resolved, Reopen, Agent, Err(())),
        (Open, Reopen, Agent, Err(())),
        (Reopened, Reopen, Agent, Err(())),
    ];
    assert_eq!(cases.len(), 24, "table covers 4x3x2");
    for (status, action, actor, expected) in cases {
        let got = transition(*status, *action, *actor);
        match expected {
            Ok(next) => assert_eq!(
                got.as_ref().ok(),
                Some(next),
                "{status:?} + {action:?} by {actor:?}"
            ),
            Err(()) => assert!(got.is_err(), "{status:?} + {action:?} by {actor:?}"),
        }
    }
}

#[test]
fn agent_resolve_is_rejected_with_human_only_error() {
    assert_eq!(
        transition(Addressed, Resolve, Agent),
        Err(LifecycleError::HumanOnly { action: "resolve" })
    );
}

#[test]
fn as_str_round_trips_every_status() {
    for (status, name) in [
        (Open, "open"),
        (Addressed, "addressed"),
        (Resolved, "resolved"),
        (Reopened, "reopened"),
    ] {
        assert_eq!(status.as_str(), name);
        // as_str must agree with the wire form.
        assert_eq!(status_from(&Json::Text(name.to_string())), Ok(status));
    }
}

#[test]
fn todo_covers_open_and_reopened() {
    assert!(Open.is_todo());
    assert!(Reopened.is_todo());
    assert!(!Addressed.is_todo());
    assert!(!Resolved.is_todo());
}
