//! What is made of the wall clock and of process probes: ids, timestamps and
//! liveness. The process table and the counters are the caller's, so that ids
//! can be given fixed values.

use std::time::{SystemTime, UNIX_EPOCH};

use vstd::prelude::*;
use vstd::utf8::encode_utf8;

use crate::review::well_formed_id;
use crate::text::{
    copy_of, decimal, decimal_text, hex_digits, push_hex, push_text, same_text, strs,
};
use crate::util::{fnv1a64, fnv64, format_rfc3339_utc, is_timestamp};

verus! {

/// `std::time::SystemTime`.
#[verifier::external_type_specification]
#[verifier::external_body]
pub struct ExSystemTime(std::time::SystemTime);

/// `SystemTime::now`: the wall clock. Nothing is said of what it shows.
#[verifier::external_body]
fn clock_now() -> (r: SystemTime) {
    SystemTime::now()
}

/// `SystemTime::duration_since` the epoch, in whole seconds: `Ok` is after it,
/// `Err` before. Nothing is said of the distance, which is the clock's.
#[verifier::external_body]
fn epoch_distance(time: SystemTime) -> (r: Result<u64, u64>) {
    match time.duration_since(UNIX_EPOCH) {
        Ok(d) => Ok(d.as_secs()),
        Err(e) => Err(e.duration().as_secs()),
    }
}

/// Unix time in seconds from the clock's distance to the epoch: `Ok` is after
/// it, `Err` before. A distance that is too long stops at the largest number.
pub fn seconds_of(distance: Result<u64, u64>) -> (r: i64)
    ensures
        match distance {
            Ok(d) => r == if d <= i64::MAX {
                d as int
            } else {
                i64::MAX as int
            },
            Err(d) => r == if d <= i64::MAX {
                -(d as int)
            } else {
                -(i64::MAX as int)
            },
        },
{
    let limit: u64 = 0x7fff_ffff_ffff_ffff;
    match distance {
        Ok(d) => if d <= limit {
            d as i64
        } else {
            i64::MAX
        },
        Err(d) => if d <= limit {
            -(d as i64)
        } else {
            -i64::MAX
        },
    }
}

/// Current Unix time in seconds.
pub fn unix_seconds() -> (r: i64)
    ensures
        r > i64::MIN,
{
    seconds_of(epoch_distance(clock_now()))
}

/// Current time as an RFC 3339 UTC string.
pub fn now_rfc3339() -> (r: String)
    ensures
        exists|secs: i64| #[trigger] is_timestamp(r@, secs),
{
    format_rfc3339_utc(unix_seconds())
}

// ------------------------------------------------------------------ comment ids

/// What a comment id is hashed from.
pub open spec fn id_seed(nanos: u64, pid: u32, count: u64) -> Seq<char> {
    decimal_text(nanos as nat) + ":"@ + decimal_text(pid as nat) + ":"@ + decimal_text(count as nat)
}

/// A short comment id: `c-` and 4 hex bytes.
pub open spec fn comment_id(nanos: u64, pid: u32, count: u64) -> Seq<char> {
    "c-"@ + hex_digits(fnv64(encode_utf8(id_seed(nanos, pid, count))) as nat, 8)
}

/// The comment id of a time, a process and a counter, unless it is taken: a
/// caller then counts on.
pub fn generate_comment_id(existing: &[&str], nanos: u64, pid: u32, count: u64) -> (r: Option<
    String,
>)
    ensures
        r.deep_view() == (if strs(existing@).contains(comment_id(nanos, pid, count)) {
            None
        } else {
            Some(comment_id(nanos, pid, count))
        }),
{
    let mut seed: String = decimal(nanos);
    push_text(&mut seed, ":");
    push_text(&mut seed, decimal(pid as u64).as_str());
    push_text(&mut seed, ":");
    push_text(&mut seed, decimal(count).as_str());
    let mut id: String = copy_of("c-");
    push_hex(&mut id, fnv1a64(seed.as_str().as_bytes()), 8);
    let ghost taken = strs(existing@);
    let mut i: usize = 0;
    while i < existing.len()
        invariant
            i <= existing.len(),
            taken == strs(existing@),
            id@ == comment_id(nanos, pid, count),
            forall|k: int| 0 <= k < i ==> #[trigger] taken[k] != id@,
        decreases existing.len() - i,
    {
        assert(taken[i as int] == existing[i as int]@);
        if same_text(existing[i], id.as_str()) {
            return None;
        }
        i += 1;
    }
    Some(id)
}

proof fn lemma_hex_digits(n: nat, width: nat)
    ensures
        hex_digits(n, width).len() == width,
        forall|i: int|
            0 <= i < width ==> ('0' <= #[trigger] hex_digits(n, width)[i] <= '9' || 'a'
                <= hex_digits(n, width)[i] <= 'f'),
    decreases width,
{
    if width > 0 {
        lemma_hex_digits(n / 16, (width - 1) as nat);
        assert(n % 16 < 16);
    }
}

/// A comment id is `c-` and eight digits, and is fit for a comment.
pub proof fn comment_ids_are_well_formed(nanos: u64, pid: u32, count: u64)
    ensures
        ({
            let id = comment_id(nanos, pid, count);
            &&& id.len() == 10
            &&& "c-"@.is_prefix_of(id)
            &&& well_formed_id(id)
        }),
{
    let hash = fnv64(encode_utf8(id_seed(nanos, pid, count))) as nat;
    let id = comment_id(nanos, pid, count);
    let digits = hex_digits(hash, 8);
    lemma_hex_digits(hash, 8);
    reveal_strlit("c-");
    assert(id.subrange(0, 2) =~= "c-"@);
    assert forall|i: int| 2 <= i < 10 implies '0' <= #[trigger] id[i] <= '9' || 'a' <= id[i]
        <= 'f' by {
        assert(id[i] == digits[i - 2]);
    }
}

// -------------------------------------------------------------------- liveness

/// Whether a process is provably alive, provably gone, or unknown.
#[derive(Debug, Clone, Copy, PartialEq, Eq, Structural)]
pub enum Liveness {
    Alive,
    Dead,
    Indeterminate,
}

/// What came of a signal that delivers nothing.
#[derive(Debug, Clone, Copy, PartialEq, Eq, Structural)]
pub enum Probe {
    /// The process could be signalled.
    Delivered,
    /// There is no such process.
    NoSuchProcess,
    /// The process is there, but not ours to signal.
    NotPermitted,
    /// Anything else.
    Other,
}

/// The number to probe a process by, where its id is one: 0 and what is beyond
/// 31 bits name no single process.
pub fn probe_target(pid: u32) -> (r: Option<i32>)
    ensures
        r == (if pid == 0 || pid > i32::MAX {
            None
        } else {
            Some(pid as i32)
        }),
{
    if pid == 0 || pid > 0x7fff_ffff {
        None
    } else {
        Some(pid as i32)
    }
}

/// What a probe says of a process. Only a process that is provably gone is
/// dead: a doubt is no licence to reclaim what it holds.
pub open spec fn liveness(pid: u32, probe: Probe) -> Liveness {
    if pid == 0 || pid > i32::MAX {
        Liveness::Indeterminate
    } else {
        match probe {
            Probe::Delivered | Probe::NotPermitted => Liveness::Alive,
            Probe::NoSuchProcess => Liveness::Dead,
            Probe::Other => Liveness::Indeterminate,
        }
    }
}

/// What a probe says of a process.
pub fn process_liveness(pid: u32, probe: Probe) -> (r: Liveness)
    ensures
        r == liveness(pid, probe),
{
    if probe_target(pid).is_none() {
        return Liveness::Indeterminate;
    }
    match probe {
        Probe::Delivered | Probe::NotPermitted => Liveness::Alive,
        Probe::NoSuchProcess => Liveness::Dead,
        Probe::Other => Liveness::Indeterminate,
    }
}

} // verus!
