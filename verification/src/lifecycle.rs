//! Comment lifecycle state machine: the verify loop.
//!
//! open -> addressed (agent, optional one-line response)
//! addressed -> resolved (HUMAN ONLY) or reopened (human)
//! reopened -> addressed (agent), and so on.
//!
//! The agent's to-do list is exactly {open, reopened}. Resolve and reopen are
//! human-only judgments; address is open to anyone (typically the agent).
//! Transitions are id-keyed by callers, so file renames never gate lifecycle.

use vstd::prelude::*;

use crate::text::{copy_of, push_text};

verus! {

/// Comment status as persisted in the review file.
#[derive(Debug, Clone, Copy, PartialEq, Eq, Structural)]
pub enum Status {
    Open,
    Addressed,
    Resolved,
    Reopened,
}

impl Status {
    pub open spec fn todo(self) -> bool {
        self == Status::Open || self == Status::Reopened
    }

    pub open spec fn name(self) -> Seq<char> {
        match self {
            Status::Open => "open"@,
            Status::Addressed => "addressed"@,
            Status::Resolved => "resolved"@,
            Status::Reopened => "reopened"@,
        }
    }

    /// True when the comment is actionable by the agent.
    pub fn is_todo(self) -> (r: bool)
        ensures
            r == self.todo(),
    {
        match self {
            Status::Open | Status::Reopened => true,
            _ => false,
        }
    }

    pub fn as_str(self) -> (r: &'static str)
        ensures
            r@ == self.name(),
    {
        match self {
            Status::Open => "open",
            Status::Addressed => "addressed",
            Status::Resolved => "resolved",
            Status::Reopened => "reopened",
        }
    }

    /// Whether deleting a comment in this status asks the user first: only a
    /// resolved comment goes without a question.
    pub fn delete_needs_confirm(self) -> (r: bool)
        ensures
            r == (self != Status::Resolved),
    {
        match self {
            Status::Resolved => false,
            _ => true,
        }
    }
}

/// The names tell the statuses apart.
pub proof fn status_names_differ(a: Status, b: Status)
    ensures
        a.name() == b.name() ==> a == b,
{
    reveal_strlit("open");
    reveal_strlit("addressed");
    reveal_strlit("resolved");
    reveal_strlit("reopened");
    assert("open"@.len() == 4);
    assert("addressed"@.len() == 9);
    assert("resolved"@[2] == 's');
    assert("reopened"@[2] == 'o');
}

/// A lifecycle action requested on a comment.
#[derive(Debug, Clone, Copy, PartialEq, Eq, Structural)]
pub enum Action {
    Address,
    Resolve,
    Reopen,
}

/// Who is performing the action. Human-only enforcement is a contract:
/// frontends pass Human for interactive users, and the agent instructions
/// forbid agents from using the resolve and reopen verbs.
#[derive(Debug, Clone, Copy, PartialEq, Eq, Structural)]
pub enum Actor {
    Human,
    Agent,
}

/// Typed rejection of an illegal transition.
#[derive(Debug, Clone, PartialEq, Eq)]
pub enum LifecycleError {
    AlreadyInState { status: &'static str },
    InvalidTransition { action: &'static str, status: &'static str },
    HumanOnly { action: &'static str },
}

#[verifier::ext_equal]
pub enum LifecycleErrorModel {
    AlreadyInState { status: Seq<char> },
    InvalidTransition { action: Seq<char>, status: Seq<char> },
    HumanOnly { action: Seq<char> },
}

impl DeepView for LifecycleError {
    type V = LifecycleErrorModel;

    open spec fn deep_view(&self) -> LifecycleErrorModel {
        match *self {
            LifecycleError::AlreadyInState { status } => LifecycleErrorModel::AlreadyInState {
                status: status@,
            },
            LifecycleError::InvalidTransition { action, status } =>
                LifecycleErrorModel::InvalidTransition { action: action@, status: status@ },
            LifecycleError::HumanOnly { action } => LifecycleErrorModel::HumanOnly {
                action: action@,
            },
        }
    }
}

impl LifecycleErrorModel {
    pub open spec fn text(self) -> Seq<char> {
        match self {
            LifecycleErrorModel::AlreadyInState { status } => "comment is already "@ + status,
            LifecycleErrorModel::InvalidTransition { action, status } => "cannot "@ + action
                + " a "@ + status + " comment"@,
            LifecycleErrorModel::HumanOnly { action } => "only a human may "@ + action
                + " a comment"@,
        }
    }
}

impl LifecycleError {
    /// The error in words.
    pub fn message(&self) -> (r: String)
        ensures
            r@ == self.deep_view().text(),
    {
        match self {
            LifecycleError::AlreadyInState { status } => {
                let mut out: String = copy_of("comment is already ");
                push_text(&mut out, status);
                out
            },
            LifecycleError::InvalidTransition { action, status } => {
                let mut out: String = copy_of("cannot ");
                push_text(&mut out, action);
                push_text(&mut out, " a ");
                push_text(&mut out, status);
                push_text(&mut out, " comment");
                out
            },
            LifecycleError::HumanOnly { action } => {
                let mut out: String = copy_of("only a human may ");
                push_text(&mut out, action);
                push_text(&mut out, " a comment");
                out
            },
        }
    }
}

/// Where an action takes a comment, or why it does not apply. What a human
/// alone may do is refused to an agent whatever the status.
pub open spec fn next_status(status: Status, action: Action, actor: Actor) -> Result<
    Status,
    LifecycleErrorModel,
> {
    match action {
        Action::Address => match status {
            Status::Open | Status::Reopened => Ok(Status::Addressed),
            Status::Addressed => Err(
                LifecycleErrorModel::AlreadyInState { status: status.name() },
            ),
            Status::Resolved => Err(
                LifecycleErrorModel::InvalidTransition {
                    action: "address"@,
                    status: status.name(),
                },
            ),
        },
        Action::Resolve => if actor != Actor::Human {
            Err(LifecycleErrorModel::HumanOnly { action: "resolve"@ })
        } else if status == Status::Resolved {
            Err(LifecycleErrorModel::AlreadyInState { status: status.name() })
        } else {
            Ok(Status::Resolved)
        },
        Action::Reopen => if actor != Actor::Human {
            Err(LifecycleErrorModel::HumanOnly { action: "reopen"@ })
        } else if status.todo() {
            Err(LifecycleErrorModel::AlreadyInState { status: status.name() })
        } else {
            Ok(Status::Reopened)
        },
    }
}

/// Apply `action` by `actor` to a comment in `status`, returning the next
/// status or a typed error. Pure: callers persist the result.
pub fn transition(status: Status, action: Action, actor: Actor) -> (r: Result<
    Status,
    LifecycleError,
>)
    ensures
        match next_status(status, action, actor) {
            Ok(next) => r == Ok::<Status, LifecycleError>(next),
            Err(error) => r matches Err(e) && e.deep_view() == error,
        },
{
    match action {
        Action::Address => match status {
            Status::Open | Status::Reopened => Ok(Status::Addressed),
            Status::Addressed => Err(LifecycleError::AlreadyInState { status: "addressed" }),
            Status::Resolved => Err(
                LifecycleError::InvalidTransition { action: "address", status: "resolved" },
            ),
        },
        Action::Resolve => {
            if actor != Actor::Human {
                return Err(LifecycleError::HumanOnly { action: "resolve" });
            }
            match status {
                Status::Open | Status::Addressed | Status::Reopened => Ok(Status::Resolved),
                Status::Resolved => Err(LifecycleError::AlreadyInState { status: "resolved" }),
            }
        },
        Action::Reopen => {
            if actor != Actor::Human {
                return Err(LifecycleError::HumanOnly { action: "reopen" });
            }
            match status {
                Status::Addressed | Status::Resolved => Ok(Status::Reopened),
                Status::Open => Err(LifecycleError::AlreadyInState { status: "open" }),
                Status::Reopened => Err(LifecycleError::AlreadyInState { status: "reopened" }),
            }
        },
    }
}

/// No transition keeps the status, an agent can only address, and what comes
/// out of a reopen is on the to-do list again.
pub proof fn transitions_move(status: Status, action: Action, actor: Actor)
    ensures
        next_status(status, action, actor) matches Ok(next) ==> next != status && (actor
            == Actor::Agent ==> action == Action::Address) && (action == Action::Reopen
            <==> next.todo()),
{
}

} // verus!
