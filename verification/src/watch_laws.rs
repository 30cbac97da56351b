//! When a watch checks again, told by the times of its marks.

use vstd::prelude::*;

use crate::watch::{after_event, hint_of, least_of_two, wait_until, PollTrack, Refresh, Scheduler};

verus! {

/// Whether a track is the one that marks at these times leave, since the last
/// check.
pub open spec fn is_marked_at(t: PollTrack, times: Seq<u64>) -> bool {
    if times.len() == 0 {
        t.dirty_first is None && t.dirty_last is None
    } else {
        t.dirty_first == Some(times[0]) && t.dirty_last == Some(times.last())
    }
}

/// A mark is added to the marks there are. A check that has run leaves none,
/// and sets the next poll one interval off.
pub proof fn marks_add_up(t: PollTrack, times: Seq<u64>, now: u64, interval: u64)
    requires
        is_marked_at(t, times),
        now + interval <= u64::MAX,
    ensures
        is_marked_at(t.marked(now), times.push(now)),
        t.marked(now).next_poll == t.next_poll,
        is_marked_at(t.rested(now, interval), Seq::empty()),
        t.rested(now, interval).next_poll == now + interval,
{
}

/// A check is due from its next poll on; and where there are marks, from the
/// quiet time after the last of them on, or from the longest wait after the
/// first, whichever comes first.
pub proof fn checks_wait_for_quiet(s: Scheduler, kind: Refresh, times: Seq<u64>, now: u64)
    requires
        is_marked_at(
            match kind {
                Refresh::Review => s.review,
                Refresh::Diff => s.diff,
            },
            times,
        ),
        forall|i: int| 0 <= i < times.len() ==> #[trigger] times[i] <= now,
    ensures
        ({
            let poll = match kind {
                Refresh::Review => s.review.next_poll,
                Refresh::Diff => s.diff.next_poll,
            };
            s.is_due(kind, now) <==> {
                ||| poll <= now
                ||| times.len() > 0 && times.last() + s.debounce_quiet <= now
                ||| times.len() > 0 && times[0] + s.debounce_max <= now
            }
        }),
{
    if times.len() > 0 {
        assert(times[0] <= now);
        assert(times[times.len() - 1] <= now);
    }
}

/// A caller sleeps no longer than until something is due: at no time before
/// the wakeup is anything due, and at the wakeup something is, where no mark
/// lies in the future.
pub proof fn wakeups_are_the_first_time_due(s: Scheduler, now: u64, at: u64)
    requires
        s.review.dirty_last matches Some(t) ==> t <= now,
        s.review.dirty_first matches Some(t) ==> t <= now,
        s.diff.dirty_last matches Some(t) ==> t <= now,
        s.diff.dirty_first matches Some(t) ==> t <= now,
        now <= at,
    ensures
        ({
            let wait = wait_until(now, least_of_two(s.deadline(s.review), s.deadline(s.diff)));
            s.is_due(Refresh::Review, at) || s.is_due(Refresh::Diff, at) <==> now + wait <= at
        }),
{
}

/// Whether a file is one that the tool itself writes beside the review.
pub open spec fn is_own_file(name: Seq<char>) -> bool {
    ||| name == ".ambidiff.json.lock"@
    ||| name == ".ambidiff.json.guard"@
    ||| ".ambidiff.json.tmp."@.is_prefix_of(name)
}

/// Whether one of the names is that of the review.
pub open spec fn some_review(names: Seq<Seq<char>>, review_name: Seq<char>) -> bool {
    exists|i: int| 0 <= i < names.len() && #[trigger] names[i] == review_name
}

/// Whether one of the names is that of another file, and none of the tool's
/// own.
pub open spec fn some_other(names: Seq<Seq<char>>, review_name: Seq<char>) -> bool {
    exists|i: int|
        0 <= i < names.len() && #[trigger] names[i] != review_name && !is_own_file(names[i])
}

/// An event marks the review where it names the review file, and the diff
/// where it names a file that is neither that nor one of the tool's own.
pub proof fn events_mark_what_they_name(
    s: Scheduler,
    names: Seq<Seq<char>>,
    review_name: Seq<char>,
    now: u64,
)
    ensures
        ({
            let after = after_event(s, names, review_name, now);
            &&& after.debounce_quiet == s.debounce_quiet
            &&& after.debounce_max == s.debounce_max
            &&& some_review(names, review_name) ==> is_marked_now(s.review, after.review, now)
            &&& !some_review(names, review_name) ==> after.review == s.review
            &&& some_other(names, review_name) ==> is_marked_now(s.diff, after.diff, now)
            &&& !some_other(names, review_name) ==> after.diff == s.diff
        }),
    decreases names.len(),
{
    if names.len() > 0 {
        let front = names.drop_last();
        let last = names.last();
        events_mark_what_they_name(s, front, review_name, now);
        assert(names[names.len() - 1] == last);
        assert(forall|i: int| 0 <= i < front.len() ==> front[i] == #[trigger] names[i]);
        if some_review(front, review_name) {
            let i = choose|i: int| 0 <= i < front.len() && #[trigger] front[i] == review_name;
            assert(names[i] == review_name);
        }
        if some_other(front, review_name) {
            let i = choose|i: int|
                0 <= i < front.len() && #[trigger] front[i] != review_name && !is_own_file(
                    front[i],
                );
            assert(names[i] != review_name);
        }
        assert(hint_of(last, review_name) == if last == review_name {
            Some(Refresh::Review)
        } else if is_own_file(last) {
            None
        } else {
            Some(Refresh::Diff)
        });
    }
}

/// Whether a track is another with a mark at this time.
pub open spec fn is_marked_now(before: PollTrack, after: PollTrack, now: u64) -> bool {
    &&& after.dirty_last == Some(now)
    &&& before.dirty_first is Some ==> after.dirty_first == before.dirty_first
    &&& before.dirty_first is None ==> after.dirty_first == Some(now)
    &&& after.next_poll == before.next_poll
}

} // verus!
