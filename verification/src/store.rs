//! The rules of the review store.
//!
//! Agents, CLI verbs, and several frontends all write the same file: every
//! read-modify-write takes an OS advisory lock on a persistent, never-unlinked
//! guard file for the complete transaction, and writes an ownership record, the
//! sidecar, beside it for peers that know nothing of the guard. This module
//! decides what a found sidecar means, how long to wait, what may be removed
//! and what may be written; the caller does the reading, waiting and writing.

use vstd::prelude::*;

use crate::json::{json_depth, json_pretty};
use crate::review::{
    to_json, LoadOutcome, ReviewError, ReviewFile, TMP_FILE_PREFIX,
};
use crate::review_json::{
    loads_as, review_doc, storable_review, storable_reviews_are_valid,
};
use crate::sys::Liveness;
use crate::text::{
    chars_of, copy_of, decimal, decimal_text, hex_digits, push_hex, push_text, same_text,
    starts_with, text_of_two,
};

verus! {

/// Total time to wait for the guard's lock (and, within it, for a sidecar of a
/// peer that knows no guard to clear) before giving up, in milliseconds.
pub const LOCK_WAIT: u64 = 5000;

/// Initial retry interval while waiting, in milliseconds; doubles up to
/// [`BACKOFF_MAX`].
pub const BACKOFF_INITIAL: u64 = 10;

/// Longest retry interval while waiting, in milliseconds.
pub const BACKOFF_MAX: u64 = 200;

/// How long to wait for a sidecar before looking again, in milliseconds.
pub const SIDECAR_RETRY: u64 = 50;

/// Age after which crash-leftover temp files are swept during a save, in
/// seconds.
pub const TMP_SWEEP_SECS: u64 = 600;

/// Errors of the store.
#[derive(Debug, Clone, PartialEq, Eq)]
pub enum StoreError {
    NotInitialized { path: String },
    AlreadyInitialized { path: String },
    Io { context: String, detail: String },
    /// `waited` is the time waited, as it is shown.
    Locked { holder: String, waited: String },
    ReadOnly { reason: String },
    LockUnreadable { path: String, detail: String },
    UnsafePath { path: String, reason: String },
    Review(ReviewError),
}

impl StoreError {
    /// The error in words.
    pub open spec fn text(self) -> Seq<char> {
        match self {
            StoreError::NotInitialized { path } => "no review here: "@ + path@
                + " not found (run `ambidiff init`)"@,
            StoreError::AlreadyInitialized { path } => "a review already exists at "@ + path@,
            StoreError::Io { context, detail } => context@ + ": "@ + detail@,
            StoreError::Locked { holder, waited } => "review file is locked by "@ + holder@
                + "; timed out after "@ + waited@,
            StoreError::ReadOnly { reason } => "review file is read-only: "@ + reason@,
            StoreError::LockUnreadable { path, detail } => "lock sidecar at "@ + path@
                + " could not be read as a valid ownership record: "@ + detail@,
            StoreError::UnsafePath { path, reason } => "refusing to use "@ + path@ + ": "@
                + reason@,
            StoreError::Review(e) => e.deep_view().text(),
        }
    }

    pub fn message(&self) -> (r: String)
        ensures
            r@ == self.text(),
    {
        match self {
            StoreError::NotInitialized { path } => {
                let mut out: String = text_of_two("no review here: ", path.as_str());
                push_text(&mut out, " not found (run `ambidiff init`)");
                out
            },
            StoreError::AlreadyInitialized { path } => text_of_two(
                "a review already exists at ",
                path.as_str(),
            ),
            StoreError::Io { context, detail } => {
                let mut out: String = text_of_two(context.as_str(), ": ");
                push_text(&mut out, detail.as_str());
                out
            },
            StoreError::Locked { holder, waited } => {
                let mut out: String = text_of_two("review file is locked by ", holder.as_str());
                push_text(&mut out, "; timed out after ");
                push_text(&mut out, waited.as_str());
                out
            },
            StoreError::ReadOnly { reason } => text_of_two(
                "review file is read-only: ",
                reason.as_str(),
            ),
            StoreError::LockUnreadable { path, detail } => {
                let mut out: String = text_of_two("lock sidecar at ", path.as_str());
                push_text(&mut out, " could not be read as a valid ownership record: ");
                push_text(&mut out, detail.as_str());
                out
            },
            StoreError::UnsafePath { path, reason } => {
                let mut out: String = text_of_two("refusing to use ", path.as_str());
                push_text(&mut out, ": ");
                push_text(&mut out, reason.as_str());
                out
            },
            StoreError::Review(e) => e.message(),
        }
    }
}

// ------------------------------------------------------------------- ownership

/// Ownership record written into the sidecar.
#[derive(Debug, Clone, PartialEq, Eq)]
pub struct LockInfo {
    pub pid: u32,
    pub acquired_at: i64,
    /// Present only on sidecars created under the guard protocol. Its
    /// presence, not its value, is what classifies a leftover sidecar.
    pub nonce: Option<String>,
}

/// A nonce as it stands in an ownership record.
pub fn nonce_text(nonce: u64) -> (r: String)
    ensures
        r@ == hex_digits(nonce as nat, 16),
{
    let mut out: String = String::new();
    push_hex(&mut out, nonce, 16);
    assert(out@ =~= hex_digits(nonce as nat, 16));
    out
}

/// What reading a sidecar gave.
#[derive(Debug, Clone, PartialEq, Eq)]
pub enum SidecarRead {
    /// There is no sidecar (any more).
    Missing,
    /// There is one, but its content is no ownership record, or could not be
    /// read.
    NoRecord,
    Record(LockInfo),
}

/// How an existing sidecar is classified, once the guard's lock is held.
#[derive(Debug, Clone, Copy, PartialEq, Eq, Structural)]
pub enum Classify {
    /// Has a nonce: its holder took the guard's lock for its entire
    /// transaction, and that lock is held here, so the holder cannot be in
    /// the middle of one.
    Guarded,
    /// No nonce, and its owner is provably dead.
    LegacyDead,
    /// No nonce, and its owner is alive or its liveness is unknown: not
    /// provably abandoned.
    LegacyLive,
    /// The sidecar vanished between the attempt to create it and its reading:
    /// there is nothing to remove, and creating it is tried again at once.
    Vanished,
    /// Present but no ownership record: never permission to delete.
    Unreadable,
}

/// The class of a sidecar. `liveness` is that of the process in the record.
pub open spec fn class_of(read: SidecarRead, liveness: Liveness) -> Classify {
    match read {
        SidecarRead::Missing => Classify::Vanished,
        SidecarRead::NoRecord => Classify::Unreadable,
        SidecarRead::Record(info) => if info.nonce is Some {
            Classify::Guarded
        } else if liveness == Liveness::Dead {
            Classify::LegacyDead
        } else {
            Classify::LegacyLive
        },
    }
}

/// Classifies a sidecar.
pub fn classify_sidecar(read: &SidecarRead, liveness: Liveness) -> (r: Classify)
    ensures
        r == class_of(*read, liveness),
{
    match read {
        SidecarRead::Missing => Classify::Vanished,
        SidecarRead::NoRecord => Classify::Unreadable,
        SidecarRead::Record(info) => if info.nonce.is_some() {
            Classify::Guarded
        } else {
            match liveness {
                Liveness::Dead => Classify::LegacyDead,
                Liveness::Alive | Liveness::Indeterminate => Classify::LegacyLive,
            }
        },
    }
}

/// The holder of a lock, in words.
pub open spec fn holder_text(read: SidecarRead) -> Seq<char> {
    match read {
        SidecarRead::Record(info) => "pid "@ + decimal_text(info.pid as nat),
        _ => "unknown process"@,
    }
}

/// Describes the holder of a lock.
pub fn describe_holder(read: &SidecarRead) -> (r: String)
    ensures
        r@ == holder_text(*read),
{
    match read {
        SidecarRead::Record(info) => text_of_two("pid ", decimal(info.pid as u64).as_str()),
        _ => copy_of("unknown process"),
    }
}

/// Whether a sidecar is this holder's: it carries the same process and nonce.
pub open spec fn owned_by(read: SidecarRead, owner: LockInfo) -> bool {
    read matches SidecarRead::Record(info) && info.pid == owner.pid && info.nonce.deep_view()
        == owner.nonce.deep_view()
}

/// Whether a holder that lets go may remove the sidecar: one that was
/// reclaimed, or replaced by a new owner, must survive.
pub fn may_release(read: &SidecarRead, owner: &LockInfo) -> (r: bool)
    ensures
        r == owned_by(*read, *owner),
{
    match read {
        SidecarRead::Record(info) => {
            let same_nonce: bool = match (&info.nonce, &owner.nonce) {
                (Some(a), Some(b)) => same_text(a.as_str(), b.as_str()),
                (None, None) => true,
                _ => false,
            };
            info.pid == owner.pid && same_nonce
        },
        _ => false,
    }
}

// --------------------------------------------------------------------- waiting

/// The next retry interval: twice this one, up to the longest.
pub open spec fn next_backoff(backoff: u64) -> u64 {
    if backoff <= BACKOFF_MAX / 2 {
        (2 * backoff) as u64
    } else {
        BACKOFF_MAX
    }
}

pub open spec fn least(a: int, b: int) -> int {
    if a <= b {
        a
    } else {
        b
    }
}

/// What to do next on the way to the lock.
#[derive(Debug, Clone, PartialEq, Eq)]
pub enum AcquireStep {
    /// Sleep so many milliseconds, then try to lock the guard again.
    RetryGuard { sleep: u64 },
    /// Try to create the sidecar.
    CreateSidecar,
    /// Remove the sidecar, then try to create it again.
    Reclaim,
    /// Sleep so many milliseconds, then try to create the sidecar again.
    RetrySidecar { sleep: u64 },
    /// Let the guard's lock go where it is held, and report the error.
    GiveUp(StoreError),
    /// The lock is held.
    Acquired,
}

/// An attempt to take the lock: first the guard's OS lock, which alone
/// serialises every writer that knows the guard, then the sidecar under it.
#[derive(Debug, Clone, Copy, PartialEq, Eq, Structural)]
pub struct Acquire {
    /// Total time to wait, over both.
    pub timeout: u64,
    /// Next retry interval for the guard.
    pub backoff: u64,
    /// Whether the guard's lock is held.
    pub holding: bool,
}

/// The error of a lock that somebody holds.
pub open spec fn locked_error(e: StoreError, read: SidecarRead, waited: Seq<char>) -> bool {
    e matches StoreError::Locked { holder, waited: w } && holder@ == holder_text(read) && w@
        == waited
}

impl Acquire {
    /// A fresh attempt.
    pub fn new(timeout: u64) -> (r: Self)
        ensures
            r == (Acquire { timeout, backoff: BACKOFF_INITIAL, holding: false }),
    {
        Acquire { timeout, backoff: BACKOFF_INITIAL, holding: false }
    }

    /// The guard's lock is taken by another. `waited` is the elapsed time as
    /// it is shown, `read` what the sidecar says of the holder.
    pub fn on_guard_busy(&mut self, elapsed: u64, waited: &str, read: &SidecarRead) -> (r:
        AcquireStep)
        ensures
            if elapsed >= old(self).timeout {
                *final(self) == *old(self) && (r matches AcquireStep::GiveUp(e) && locked_error(
                    e,
                    *read,
                    waited@,
                ))
            } else {
                *final(self) == (Acquire {
                    backoff: next_backoff(old(self).backoff),
                    ..*old(self)
                }) && r == (AcquireStep::RetryGuard {
                    sleep: least(old(self).backoff as int, old(self).timeout - elapsed) as u64,
                })
            },
    {
        if elapsed >= self.timeout {
            return AcquireStep::GiveUp(
                StoreError::Locked { holder: describe_holder(read), waited: copy_of(waited) },
            );
        }
        let left: u64 = self.timeout - elapsed;
        let sleep: u64 = if self.backoff <= left {
            self.backoff
        } else {
            left
        };
        self.backoff = if self.backoff <= BACKOFF_MAX / 2 {
            2 * self.backoff
        } else {
            BACKOFF_MAX
        };
        AcquireStep::RetryGuard { sleep }
    }

    /// The guard's lock is taken. The numbers identify the file that was
    /// locked and the file at the guard's path, where they could be told: a
    /// guard that was replaced meanwhile serialises nobody.
    pub fn on_guard_taken(
        &mut self,
        locked: Option<u64>,
        at_path: Option<u64>,
        guard_path: &str,
    ) -> (r: AcquireStep)
        ensures
            *final(self) == (Acquire { holding: true, ..*old(self) }),
            if locked is Some && at_path is Some && locked->0 != at_path->0 {
                r matches AcquireStep::GiveUp(StoreError::UnsafePath { path, reason }) && path@
                    == guard_path@ && reason@
                    == "guard file was replaced while acquiring its lock"@
            } else {
                r == AcquireStep::CreateSidecar
            },
    {
        self.holding = true;
        if let (Some(a), Some(b)) = (locked, at_path) {
            if a != b {
                return AcquireStep::GiveUp(
                    StoreError::UnsafePath {
                        path: copy_of(guard_path),
                        reason: copy_of("guard file was replaced while acquiring its lock"),
                    },
                );
            }
        }
        AcquireStep::CreateSidecar
    }

    /// There is a sidecar already. What is provably abandoned is reclaimed at
    /// once; where it has vanished, creating it is tried again at once; for
    /// anything else the caller waits, and gives up in the end.
    pub fn on_sidecar_found(
        &self,
        read: &SidecarRead,
        liveness: Liveness,
        elapsed: u64,
        waited: &str,
        sidecar_path: &str,
    ) -> (r: AcquireStep)
        ensures
            match class_of(*read, liveness) {
                Classify::Guarded | Classify::LegacyDead => r == AcquireStep::Reclaim,
                Classify::Vanished => r == AcquireStep::CreateSidecar,
                Classify::LegacyLive => if elapsed >= self.timeout {
                    r matches AcquireStep::GiveUp(e) && locked_error(e, *read, waited@)
                } else {
                    r == (AcquireStep::RetrySidecar {
                        sleep: least(SIDECAR_RETRY as int, self.timeout - elapsed) as u64,
                    })
                },
                Classify::Unreadable => if elapsed >= self.timeout {
                    r matches AcquireStep::GiveUp(StoreError::LockUnreadable { path, detail })
                        && path@ == sidecar_path@ && detail@
                        == "sidecar contents are not a valid ownership record"@
                } else {
                    r == (AcquireStep::RetrySidecar {
                        sleep: least(SIDECAR_RETRY as int, self.timeout - elapsed) as u64,
                    })
                },
            },
    {
        match classify_sidecar(read, liveness) {
            Classify::Guarded | Classify::LegacyDead => AcquireStep::Reclaim,
            Classify::Vanished => AcquireStep::CreateSidecar,
            Classify::LegacyLive => {
                if elapsed >= self.timeout {
                    AcquireStep::GiveUp(
                        StoreError::Locked {
                            holder: describe_holder(read),
                            waited: copy_of(waited),
                        },
                    )
                } else {
                    AcquireStep::RetrySidecar { sleep: self.sidecar_sleep(elapsed) }
                }
            },
            Classify::Unreadable => {
                if elapsed >= self.timeout {
                    AcquireStep::GiveUp(
                        StoreError::LockUnreadable {
                            path: copy_of(sidecar_path),
                            detail: copy_of("sidecar contents are not a valid ownership record"),
                        },
                    )
                } else {
                    AcquireStep::RetrySidecar { sleep: self.sidecar_sleep(elapsed) }
                }
            },
        }
    }

    fn sidecar_sleep(&self, elapsed: u64) -> (r: u64)
        requires
            elapsed < self.timeout,
        ensures
            r == least(SIDECAR_RETRY as int, self.timeout - elapsed),
    {
        let left: u64 = self.timeout - elapsed;
        if SIDECAR_RETRY <= left {
            SIDECAR_RETRY
        } else {
            left
        }
    }

    /// The sidecar was created.
    pub fn on_sidecar_created(&self) -> (r: AcquireStep)
        ensures
            r == AcquireStep::Acquired,
    {
        AcquireStep::Acquired
    }
}

// --------------------------------------------------------------------- writing

/// The review of a load for editing, with its warnings; a load that cannot be
/// written back is refused with its reason.
pub fn editable(outcome: LoadOutcome) -> (r: Result<(ReviewFile, Vec<String>), StoreError>)
    ensures
        if outcome.read_only {
            r matches Err(StoreError::ReadOnly { reason }) && reason@ == (
            match outcome.read_only_reason {
                Some(why) => why@,
                None => "unknown"@,
            })
        } else {
            r matches Ok((review, warnings)) && review == outcome.review && warnings
                == outcome.warnings
        },
{
    if outcome.read_only {
        return Err(
            StoreError::ReadOnly {
                reason: match outcome.read_only_reason {
                    Some(why) => why,
                    None => copy_of("unknown"),
                },
            },
        );
    }
    Ok((outcome.review, outcome.warnings))
}

/// The text to write for a review: only a valid one is ever written. What can
/// be stored is written, and loads as it was.
pub fn content_to_write(review: &ReviewFile) -> (r: Result<String, StoreError>)
    ensures
        match review.deep_view().fault() {
            None => r matches Ok(text) && text@ == json_pretty(
                review_doc(review.deep_view()),
            ).push('\n'),
            Some(error) => r matches Err(StoreError::Review(e)) && e.deep_view() == error,
        },
        storable_review(review.deep_view()) && json_depth(review_doc(review.deep_view())) <= 127
            ==> (r matches Ok(text) && loads_as(text@, review.deep_view())),
{
    proof {
        if storable_review(review.deep_view()) {
            storable_reviews_are_valid(review.deep_view());
        }
    }
    match review.validate() {
        Ok(()) => match to_json(review) {
            Ok(text) => Ok(text),
            Err(e) => Err(StoreError::Review(e)),
        },
        Err(e) => Err(StoreError::Review(e)),
    }
}

/// Whether a directory entry is a temp file that a crash left behind: by its
/// name, and by its age in seconds. One whose age cannot be told counts.
pub fn is_stale_tmp(name: &str, age_secs: Option<u64>) -> (r: bool)
    ensures
        r == (TMP_FILE_PREFIX@.is_prefix_of(name@) && (age_secs matches Some(age) ==> age
            > TMP_SWEEP_SECS)),
{
    starts_with(chars_of(name).as_slice(), TMP_FILE_PREFIX) && match age_secs {
        Some(age) => age > TMP_SWEEP_SECS,
        None => true,
    }
}

// ---------------------------------------------------------------------- laws

/// Whether a found sidecar may be removed on the way to the lock.
pub open spec fn reclaimable(read: SidecarRead, liveness: Liveness) -> bool {
    class_of(read, liveness) is Guarded || class_of(read, liveness) is LegacyDead
}

/// A sidecar without a nonce is reclaimed only from a process that is provably
/// dead: age and doubt displace nobody.
pub proof fn live_holders_are_never_displaced(info: LockInfo, liveness: Liveness)
    requires
        info.nonce is None,
    ensures
        reclaimable(SidecarRead::Record(info), liveness) <==> liveness == Liveness::Dead,
{
}

/// A sidecar that is no ownership record is never removed, neither on the way
/// to the lock nor when it is let go.
pub proof fn unreadable_sidecars_are_never_removed(liveness: Liveness, owner: LockInfo)
    ensures
        !reclaimable(SidecarRead::NoRecord, liveness),
        !owned_by(SidecarRead::NoRecord, owner),
{
}

/// Every retry interval stays within its bounds, and grows until it reaches
/// the longest.
pub proof fn retry_intervals_stay_in_bounds(backoff: u64)
    requires
        BACKOFF_INITIAL <= backoff <= BACKOFF_MAX,
    ensures
        BACKOFF_INITIAL <= next_backoff(backoff) <= BACKOFF_MAX,
        backoff < next_backoff(backoff) || backoff == BACKOFF_MAX,
{
}

/// A holder may always remove the sidecar that it wrote itself, and no other
/// holder's: two records of different nonces have different owners.
pub proof fn holders_release_their_own(owner: LockInfo, other: LockInfo)
    ensures
        owned_by(SidecarRead::Record(owner), owner),
        other.nonce.deep_view() != owner.nonce.deep_view() ==> !owned_by(
            SidecarRead::Record(other),
            owner,
        ),
{
}

} // verus!
