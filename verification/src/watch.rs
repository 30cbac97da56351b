//! The rules of the watch controller.
//!
//! Filesystem events only set dirty hints; the authoritative check re-runs the
//! same signature computation the consumer would use and refreshes only when it
//! moves (or when it starts or stops failing), so touch-without-change noise
//! never causes a repaint. Debounce is 200ms of quiet with a 1s cap; a 10s
//! safety poll catches missed events; watcher startup failure degrades to a 2s
//! poll instead of failing. Review and diff each get their own debounce and
//! safety-poll deadline: a burst of one kind's events must never postpone the
//! other's safety poll (see [`Scheduler`]).
//!
//! Times are nanoseconds of one clock, durations are nanoseconds.

use vstd::prelude::*;

use crate::review::{is_review_sidecar, sidecar_name, REVIEW_FILE_NAME};
use crate::text::{copy_of, same_text};

verus! {

/// What changed, as delivered to the consumer.
#[derive(Debug, Clone, Copy, PartialEq, Eq, Structural)]
pub enum Refresh {
    /// The review file's content changed: reload review state.
    Review,
    /// The diff signature moved (or started/stopped failing): re-derive views.
    Diff,
}

/// Tuning knobs of a watch.
#[derive(Debug, Clone, PartialEq, Eq)]
pub struct WatchConfig {
    pub root: String,
    pub review_file: String,
    pub debounce_quiet: u64,
    pub debounce_max: u64,
    pub poll_interval: u64,
    pub degraded_poll: u64,
}

impl WatchConfig {
    pub fn new(root: String, review_file: String) -> (r: Self)
        ensures
            r == (WatchConfig {
                root,
                review_file,
                debounce_quiet: 200_000_000,
                debounce_max: 1_000_000_000,
                poll_interval: 10_000_000_000,
                degraded_poll: 2_000_000_000,
            }),
    {
        WatchConfig {
            root,
            review_file,
            debounce_quiet: 200_000_000,
            debounce_max: 1_000_000_000,
            poll_interval: 10_000_000_000,
            degraded_poll: 2_000_000_000,
        }
    }
}

// -------------------------------------------------------------------- scheduler

/// Debounce and safety-poll timing of one kind of refresh.
#[derive(Debug, Clone, Copy, PartialEq, Eq, Structural)]
pub struct PollTrack {
    /// First and last mark of the current burst.
    pub dirty_first: Option<u64>,
    pub dirty_last: Option<u64>,
    /// When the safety poll is due.
    pub next_poll: u64,
}

/// Per-refresh-kind debounce and safety-poll timing, decided from an injected
/// clock.
///
/// `review` and `diff` are kept completely independently: `checked(kind)`
/// clears only `kind`'s dirty marks and advances only `kind`'s own poll
/// deadline.
#[derive(Debug, Clone, Copy, PartialEq, Eq, Structural)]
pub struct Scheduler {
    pub review: PollTrack,
    pub diff: PollTrack,
    pub debounce_quiet: u64,
    pub debounce_max: u64,
}

/// The time from one point to another; none where the other is not later.
pub open spec fn time_since(now: u64, then: u64) -> int {
    if now >= then {
        now - then
    } else {
        0
    }
}

impl PollTrack {
    /// A track with a mark: the first of a burst stays, the last moves.
    pub open spec fn marked(self, now: u64) -> PollTrack {
        PollTrack {
            dirty_first: if self.dirty_first is Some {
                self.dirty_first
            } else {
                Some(now)
            },
            dirty_last: Some(now),
            ..self
        }
    }

    /// A track whose check has run.
    pub open spec fn rested(self, now: u64, poll_interval: u64) -> PollTrack {
        PollTrack {
            dirty_first: None,
            dirty_last: None,
            next_poll: (now + poll_interval) as u64,
        }
    }
}

impl Scheduler {
    pub open spec fn track_of(self, kind: Refresh) -> PollTrack {
        match kind {
            Refresh::Review => self.review,
            Refresh::Diff => self.diff,
        }
    }

    /// The scheduler with one track replaced.
    pub open spec fn with_track(self, kind: Refresh, track: PollTrack) -> Scheduler {
        match kind {
            Refresh::Review => Scheduler { review: track, ..self },
            Refresh::Diff => Scheduler { diff: track, ..self },
        }
    }

    /// Whether a check should run: its debounce window has elapsed (quiet
    /// since the last mark, or the cap since the first mark of the burst), or
    /// its own safety poll is due.
    pub open spec fn is_due(self, kind: Refresh, now: u64) -> bool {
        let t = self.track_of(kind);
        let debounced = t.dirty_first is Some && t.dirty_last is Some && (time_since(
            now,
            t.dirty_last->0,
        ) >= self.debounce_quiet || time_since(now, t.dirty_first->0) >= self.debounce_max);
        debounced || now >= t.next_poll
    }

    /// When a track becomes due.
    pub open spec fn deadline(self, t: PollTrack) -> int {
        if t.dirty_first is Some && t.dirty_last is Some {
            least_of_three(
                t.next_poll as int,
                t.dirty_last->0 + self.debounce_quiet,
                t.dirty_first->0 + self.debounce_max,
            )
        } else {
            t.next_poll as int
        }
    }

    /// A fresh scheduler: nothing marked, the first safety polls one interval
    /// away.
    pub fn new(now: u64, debounce_quiet: u64, debounce_max: u64, poll_interval: u64) -> (r: Self)
        requires
            now + poll_interval <= u64::MAX,
        ensures
            r == (Scheduler {
                review: PollTrack {
                    dirty_first: None,
                    dirty_last: None,
                    next_poll: (now + poll_interval) as u64,
                },
                diff: PollTrack {
                    dirty_first: None,
                    dirty_last: None,
                    next_poll: (now + poll_interval) as u64,
                },
                debounce_quiet,
                debounce_max,
            }),
    {
        let track = PollTrack {
            dirty_first: None,
            dirty_last: None,
            next_poll: now + poll_interval,
        };
        Scheduler { review: track, diff: track, debounce_quiet, debounce_max }
    }

    fn track(&self, kind: Refresh) -> (r: PollTrack)
        ensures
            r == self.track_of(kind),
    {
        match kind {
            Refresh::Review => self.review,
            Refresh::Diff => self.diff,
        }
    }

    fn set_track(&mut self, kind: Refresh, track: PollTrack)
        ensures
            *final(self) == old(self).with_track(kind, track),
    {
        match kind {
            Refresh::Review => {
                self.review = track;
            },
            Refresh::Diff => {
                self.diff = track;
            },
        }
    }

    /// Record a filesystem event of kind `kind` at `now`.
    pub fn mark(&mut self, kind: Refresh, now: u64)
        ensures
            *final(self) == old(self).with_track(kind, old(self).track_of(kind).marked(now)),
    {
        let mut t: PollTrack = self.track(kind);
        if t.dirty_first.is_none() {
            t.dirty_first = Some(now);
        }
        t.dirty_last = Some(now);
        self.set_track(kind, t);
    }

    /// Whether `kind`'s check should run now.
    pub fn due(&self, kind: Refresh, now: u64) -> (r: bool)
        ensures
            r == self.is_due(kind, now),
    {
        let t: PollTrack = self.track(kind);
        let debounced: bool = match (t.dirty_first, t.dirty_last) {
            (Some(first), Some(last)) => elapsed(now, last) >= self.debounce_quiet || elapsed(
                now,
                first,
            ) >= self.debounce_max,
            _ => false,
        };
        debounced || now >= t.next_poll
    }

    /// Record that `kind`'s check ran at `now`: clears only `kind`'s dirty
    /// marks and advances only `kind`'s poll deadline by `poll_interval` (the
    /// caller's current interval, normal or degraded).
    pub fn checked(&mut self, kind: Refresh, now: u64, poll_interval: u64)
        requires
            now + poll_interval <= u64::MAX,
        ensures
            *final(self) == old(self).with_track(
                kind,
                old(self).track_of(kind).rested(now, poll_interval),
            ),
    {
        let t = PollTrack { dirty_first: None, dirty_last: None, next_poll: now + poll_interval };
        self.set_track(kind, t);
    }

    /// How long until some track next becomes due, for a caller that wants to
    /// sleep rather than poll at a fixed interval. Never negative.
    pub fn next_wakeup(&self, now: u64) -> (r: u64)
        ensures
            r == wait_until(
                now,
                least_of_two(self.deadline(self.review), self.deadline(self.diff)),
            ),
    {
        let a: u64 = self.track_deadline(&self.review);
        let b: u64 = self.track_deadline(&self.diff);
        let first: u64 = if a <= b {
            a
        } else {
            b
        };
        elapsed(first, now)
    }

    fn track_deadline(&self, t: &PollTrack) -> (r: u64)
        ensures
            r == self.deadline(*t),
    {
        let mut d: u64 = t.next_poll;
        if let (Some(first), Some(last)) = (t.dirty_first, t.dirty_last) {
            if last < d && self.debounce_quiet < d - last {
                d = last + self.debounce_quiet;
            }
            if first < d && self.debounce_max < d - first {
                d = first + self.debounce_max;
            }
        }
        d
    }
}

pub open spec fn least_of_two(a: int, b: int) -> int {
    if a <= b {
        a
    } else {
        b
    }
}

pub open spec fn least_of_three(a: int, b: int, c: int) -> int {
    least_of_two(least_of_two(a, b), c)
}

/// The time left until a deadline.
pub open spec fn wait_until(now: u64, deadline: int) -> int {
    if deadline >= now {
        deadline - now
    } else {
        0
    }
}

fn elapsed(now: u64, then: u64) -> (r: u64)
    ensures
        r == time_since(now, then),
{
    if now >= then {
        now - then
    } else {
        0
    }
}

// ----------------------------------------------------------------------- events

/// What an event on a file of this name hints at. The review file is told by
/// its name, not its full path: a system may report paths in another form. Our
/// own lock, guard and temp churn hints at nothing.
pub open spec fn hint_of(name: Seq<char>, review_name: Seq<char>) -> Option<Refresh> {
    if name == review_name {
        Some(Refresh::Review)
    } else if sidecar_name(name) {
        None
    } else {
        Some(Refresh::Diff)
    }
}

/// What an event on a file of this name hints at.
pub fn event_hint(name: &str, review_name: &str) -> (r: Option<Refresh>)
    ensures
        r == hint_of(name@, review_name@),
{
    if same_text(name, review_name) {
        Some(Refresh::Review)
    } else if is_review_sidecar(name) {
        None
    } else {
        Some(Refresh::Diff)
    }
}

/// A scheduler after an event on files of these names.
pub open spec fn after_event(
    s: Scheduler,
    names: Seq<Seq<char>>,
    review_name: Seq<char>,
    now: u64,
) -> Scheduler
    decreases names.len(),
{
    if names.len() == 0 {
        s
    } else {
        let before = after_event(s, names.drop_last(), review_name, now);
        match hint_of(names.last(), review_name) {
            Some(kind) => before.with_track(kind, before.track_of(kind).marked(now)),
            None => before,
        }
    }
}

/// The state of a running watch: its timing, and whether events are lost so
/// that only polling remains.
#[derive(Debug, Clone, PartialEq, Eq)]
pub struct WatchLoop {
    pub scheduler: Scheduler,
    pub degraded: bool,
    pub poll_interval: u64,
    pub degraded_poll: u64,
    pub review_name: String,
}

/// Which checks to run.
#[derive(Debug, Clone, Copy, PartialEq, Eq, Structural)]
pub struct Checks {
    pub review: bool,
    pub diff: bool,
}

impl WatchLoop {
    /// The interval of safety polls.
    pub open spec fn interval_now(self) -> u64 {
        if self.degraded {
            self.degraded_poll
        } else {
            self.poll_interval
        }
    }

    /// Starts a watch. One whose watcher could not be set up polls at the
    /// degraded interval from the start. Without a file name of its own the
    /// review file goes by its usual name.
    pub fn new(config: &WatchConfig, review_name: Option<&str>, degraded: bool, now: u64) -> (r:
        Self)
        requires
            now + config.poll_interval <= u64::MAX,
            now + config.degraded_poll <= u64::MAX,
        ensures
            r.degraded == degraded,
            r.poll_interval == config.poll_interval,
            r.degraded_poll == config.degraded_poll,
            r.review_name@ == (match review_name {
                Some(name) => name@,
                None => REVIEW_FILE_NAME@,
            }),
            r.scheduler.debounce_quiet == config.debounce_quiet,
            r.scheduler.debounce_max == config.debounce_max,
            r.scheduler.review == (PollTrack {
                dirty_first: None,
                dirty_last: None,
                next_poll: (now + r.interval_now()) as u64,
            }),
            r.scheduler.diff == r.scheduler.review,
    {
        let first: u64 = if degraded {
            config.degraded_poll
        } else {
            config.poll_interval
        };
        let name: &str = match review_name {
            Some(name) => name,
            None => REVIEW_FILE_NAME,
        };
        WatchLoop {
            scheduler: Scheduler::new(now, config.debounce_quiet, config.debounce_max, first),
            degraded,
            poll_interval: config.poll_interval,
            degraded_poll: config.degraded_poll,
            review_name: copy_of(name),
        }
    }

    /// Takes in an event on files of these names.
    pub fn on_event(&mut self, names: &[String], now: u64)
        ensures
            *final(self) == (WatchLoop {
                scheduler: after_event(
                    old(self).scheduler,
                    names.deep_view(),
                    old(self).review_name@,
                    now,
                ),
                ..*old(self)
            }),
    {
        let ghost model = names.deep_view();
        let ghost start = *self;
        let mut i: usize = 0;
        assert(model.take(0) =~= Seq::empty());
        while i < names.len()
            invariant
                i <= names.len(),
                model == names.deep_view(),
                model.len() == names.len(),
                *self == (WatchLoop {
                    scheduler: after_event(
                        start.scheduler,
                        model.take(i as int),
                        start.review_name@,
                        now,
                    ),
                    ..start
                }),
            decreases names.len() - i,
        {
            proof {
                assert(model[i as int] == names[i as int]@);
                assert(model.take(i + 1).drop_last() =~= model.take(i as int));
                assert(model.take(i + 1).last() == model[i as int]);
            }
            if let Some(kind) = event_hint(names[i].as_str(), self.review_name.as_str()) {
                self.scheduler.mark(kind, now);
            }
            i += 1;
        }
        assert(model.take(i as int) =~= model);
    }

    /// Takes in that the watcher failed: from now on only polling remains.
    pub fn on_error(&mut self)
        ensures
            *final(self) == (WatchLoop { degraded: true, ..*old(self) }),
    {
        self.degraded = true;
    }

    /// Decides which checks run now, and records that they do.
    pub fn step(&mut self, now: u64) -> (r: Checks)
        requires
            now + old(self).interval_now() <= u64::MAX,
        ensures
            r.review == old(self).scheduler.is_due(Refresh::Review, now),
            r.diff == old(self).scheduler.is_due(Refresh::Diff, now),
            *final(self) == (WatchLoop {
                scheduler: Scheduler {
                    review: if r.review {
                        old(self).scheduler.review.rested(now, old(self).interval_now())
                    } else {
                        old(self).scheduler.review
                    },
                    diff: if r.diff {
                        old(self).scheduler.diff.rested(now, old(self).interval_now())
                    } else {
                        old(self).scheduler.diff
                    },
                    ..old(self).scheduler
                },
                ..*old(self)
            }),
    {
        let interval: u64 = if self.degraded {
            self.degraded_poll
        } else {
            self.poll_interval
        };
        let review: bool = self.scheduler.due(Refresh::Review, now);
        if review {
            self.scheduler.checked(Refresh::Review, now, interval);
        }
        let diff: bool = self.scheduler.due(Refresh::Diff, now);
        if diff {
            self.scheduler.checked(Refresh::Diff, now, interval);
        }
        Checks { review, diff }
    }
}

// ------------------------------------------------------------------- signatures

/// What a signature computation came to. A failure is a state of its own, never
/// folded into a value, so "the signature is 0" and "it could not be computed"
/// are never confused.
#[derive(Debug, Clone, Copy, PartialEq, Eq, Structural)]
pub enum SigState {
    Value(u64),
    Failed,
}

pub open spec fn sig_state(outcome: Result<u64, String>) -> SigState {
    match outcome {
        Ok(v) => SigState::Value(v),
        Err(_) => SigState::Failed,
    }
}

/// The state and the error of a signature computation.
pub fn eval(outcome: Result<u64, String>) -> (r: (SigState, Option<String>))
    ensures
        r.0 == sig_state(outcome),
        r.1.deep_view() == (match outcome {
            Ok(_) => None,
            Err(e) => Some(e@),
        }),
{
    match outcome {
        Ok(v) => (SigState::Value(v), None),
        Err(e) => (SigState::Failed, Some(e)),
    }
}

/// The last known state of one signature, and its latest error.
#[derive(Debug, Clone, PartialEq, Eq)]
pub struct SigTrack {
    pub state: SigState,
    pub last_error: Option<String>,
}

impl SigTrack {
    /// The baseline: what a first computation came to.
    pub fn new(outcome: Result<u64, String>) -> (r: Self)
        ensures
            r.state == sig_state(outcome),
            r.last_error.deep_view() == (match outcome {
                Ok(_) => None,
                Err(e) => Some(e@),
            }),
    {
        let (state, last_error): (SigState, Option<String>) = eval(outcome);
        SigTrack { state, last_error }
    }

    /// Takes in a new outcome and tells whether the state moved. The latest
    /// error is kept whether it did or not.
    pub fn check(&mut self, outcome: Result<u64, String>) -> (r: bool)
        ensures
            r == (sig_state(outcome) != old(self).state),
            final(self).state == sig_state(outcome),
            final(self).last_error.deep_view() == (match outcome {
                Ok(_) => None,
                Err(e) => Some(e@),
            }),
    {
        let (state, last_error): (SigState, Option<String>) = eval(outcome);
        let changed: bool = match (state, self.state) {
            (SigState::Value(a), SigState::Value(b)) => a != b,
            (SigState::Failed, SigState::Failed) => false,
            _ => true,
        };
        self.state = state;
        self.last_error = last_error;
        changed
    }
}

// ---------------------------------------------------------------------- pending

/// Refreshes that wait for the consumer. At most one of each kind ever does:
/// repeated changes coalesce.
#[derive(Debug, Clone, Copy, PartialEq, Eq, Structural)]
pub struct Pending {
    pub review: bool,
    pub diff: bool,
}

impl Default for Pending {
    fn default() -> (r: Self)
        ensures
            r == (Pending { review: false, diff: false }),
    {
        Pending { review: false, diff: false }
    }
}

impl Pending {
    /// Whether a refresh of this kind waits.
    pub open spec fn waits(self, kind: Refresh) -> bool {
        match kind {
            Refresh::Review => self.review,
            Refresh::Diff => self.diff,
        }
    }

    /// Adds a refresh.
    pub fn signal(&mut self, refresh: Refresh)
        ensures
            *final(self) == (Pending {
                review: old(self).review || refresh == Refresh::Review,
                diff: old(self).diff || refresh == Refresh::Diff,
            }),
    {
        match refresh {
            Refresh::Review => {
                self.review = true;
            },
            Refresh::Diff => {
                self.diff = true;
            },
        }
    }

    /// Takes a refresh out, the review's first.
    pub fn take(&mut self) -> (r: Option<Refresh>)
        ensures
            r == (if old(self).review {
                Some(Refresh::Review)
            } else if old(self).diff {
                Some(Refresh::Diff)
            } else {
                None
            }),
            *final(self) == (Pending {
                review: false,
                diff: old(self).review && old(self).diff,
            }),
    {
        if self.review {
            self.review = false;
            return Some(Refresh::Review);
        }
        if self.diff {
            self.diff = false;
            return Some(Refresh::Diff);
        }
        None
    }
}

// ------------------------------------------------------------------------- laws

/// What happens to one kind of refresh touches nothing of the other: neither
/// its marks nor its safety poll.
pub proof fn kinds_are_independent(
    s: Scheduler,
    kind: Refresh,
    other: Refresh,
    now: u64,
    poll_interval: u64,
    at: u64,
)
    requires
        kind != other,
    ensures
        ({
            let marked = s.with_track(kind, s.track_of(kind).marked(now));
            let rested = s.with_track(kind, s.track_of(kind).rested(now, poll_interval));
            &&& marked.track_of(other) == s.track_of(other)
            &&& rested.track_of(other) == s.track_of(other)
            &&& marked.is_due(other, at) == s.is_due(other, at)
            &&& rested.is_due(other, at) == s.is_due(other, at)
        }),
{
}

/// A check that has run is due again exactly from the next poll on, until its
/// kind is marked.
pub proof fn checks_rest_until_the_next_poll(
    s: Scheduler,
    kind: Refresh,
    now: u64,
    poll_interval: u64,
    at: u64,
)
    requires
        now + poll_interval <= u64::MAX,
    ensures
        s.with_track(kind, s.track_of(kind).rested(now, poll_interval)).is_due(kind, at) <==> at
            >= now + poll_interval,
{
}

/// A safety poll comes in time whatever is marked: marks never postpone it.
pub proof fn marks_never_postpone_a_check(s: Scheduler, kind: Refresh, mark_at: u64, now: u64)
    ensures
        ({
            let marked = s.with_track(kind, s.track_of(kind).marked(mark_at));
            &&& marked.track_of(kind).next_poll == s.track_of(kind).next_poll
            &&& now >= s.track_of(kind).next_poll ==> marked.is_due(kind, now)
            &&& s.track_of(kind).dirty_first matches Some(first) ==> time_since(now, first)
                >= s.debounce_max ==> marked.is_due(kind, now)
        }),
{
}

/// A caller that sleeps until the next wakeup sleeps just as long as nothing is
/// due, given that no mark lies in the future.
pub proof fn wakeups_come_when_something_is_due(s: Scheduler, now: u64)
    requires
        s.review.dirty_last matches Some(t) ==> t <= now,
        s.review.dirty_first matches Some(t) ==> t <= now,
        s.diff.dirty_last matches Some(t) ==> t <= now,
        s.diff.dirty_first matches Some(t) ==> t <= now,
    ensures
        wait_until(now, least_of_two(s.deadline(s.review), s.deadline(s.diff))) == 0 <==> (
        s.is_due(Refresh::Review, now) || s.is_due(Refresh::Diff, now)),
{
}

/// A refresh that was signalled is delivered: it is the next one taken, or
/// still waits after the other kind was.
pub proof fn refreshes_are_not_lost(p: Pending, kind: Refresh)
    requires
        p.waits(kind),
    ensures
        ({
            let after = Pending { review: false, diff: p.review && p.diff };
            let taken = if p.review {
                Refresh::Review
            } else {
                Refresh::Diff
            };
            taken == kind || after.waits(kind)
        }),
{
}

} // verus!
