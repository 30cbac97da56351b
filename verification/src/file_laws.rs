//! Which files the tool may touch: paths below the root, its own sidecars,
//! and the lines that keep these out of git's sight.

use vstd::prelude::*;
use vstd::utf8::encode_utf8;

use crate::exclude::{closed_content, excluded, has_line, missing_lines, wanted_lines, with_lines};
use crate::review::{sidecar_name, GUARD_FILE_NAME, LOCK_FILE_NAME, REVIEW_FILE_NAME};
use crate::rootio::{component_fault, dir_step, first_fault, path_fault, DirStep, OpenFailure};
use crate::source::PathReason;
use crate::store::{next_backoff, owned_by, reclaimable, LockInfo, SidecarRead};
use crate::sys::{liveness, Liveness, Probe};
use crate::text::{join_with, lemma_split_on_nonempty, split_on};

verus! {

// --------------------------------------------------------------------- paths

/// Whether a text can be one step of a path: no slash and no NUL, and neither
/// the directory itself nor the one above.
pub open spec fn is_step(s: Seq<char>) -> bool {
    &&& s.len() > 0
    &&& s != seq!['.']
    &&& s != seq!['.', '.']
    &&& forall|k: int| 0 <= k < s.len() ==> #[trigger] s[k] != '/' && s[k] != '\0'
}

/// A path made of steps is accepted and taken apart into them.
pub proof fn plain_paths_are_accepted(steps: Seq<Seq<char>>)
    requires
        steps.len() > 0,
        forall|i: int| 0 <= i < steps.len() ==> is_step(#[trigger] steps[i]),
    ensures
        path_fault(join_with(steps, seq!['/'])) is None,
        split_on(join_with(steps, seq!['/']), '/') == steps,
{
    let path = join_with(steps, seq!['/']);
    lemma_steps(steps);
    lemma_no_faults(steps);
    assert(is_step(steps[0]));
    assert(path[0] == steps[0][0]);
}

/// What could lead out of the root is refused, and why: nothing at all, a
/// NUL, a start at the file system's root, a slash at the end.
pub proof fn strange_paths_are_refused(path: Seq<char>)
    ensures
        path.len() == 0 ==> path_fault(path) == Some(PathReason::Empty),
        path.contains('\0') ==> path_fault(path) == Some(PathReason::ContainsNul),
        path.len() > 0 && !path.contains('\0') && path[0] == '/' ==> path_fault(path) == Some(
            PathReason::Absolute,
        ),
        path.len() > 0 && !path.contains('\0') && path[0] != '/' && path.last() == '/'
            ==> path_fault(path) == Some(PathReason::TrailingSlash),
{
}

/// The first step of a path that is none decides why it is refused.
pub proof fn bad_steps_are_refused(steps: Seq<Seq<char>>, bad: Seq<char>, rest: Seq<Seq<char>>)
    requires
        forall|i: int| 0 <= i < steps.len() ==> is_step(#[trigger] steps[i]),
    ensures
        bad.len() == 0 ==> first_fault(steps.push(bad) + rest) == Some(PathReason::EmptyComponent),
        bad == seq!['.'] ==> first_fault(steps.push(bad) + rest) == Some(
            PathReason::CurrentComponent,
        ),
        bad == seq!['.', '.'] ==> first_fault(steps.push(bad) + rest) == Some(
            PathReason::ParentComponent,
        ),
    decreases rest.len(),
{
    let all = steps.push(bad) + rest;
    reveal_strlit(".");
    reveal_strlit("..");
    assert("."@ =~= seq!['.']);
    assert(".."@ =~= seq!['.', '.']);
    assert("."@.len() == 1 && ".."@.len() == 2);
    if rest.len() == 0 {
        assert(all =~= steps.push(bad));
        assert(all.drop_last() =~= steps);
        lemma_no_faults(steps);
    } else {
        bad_steps_are_refused(steps, bad, rest.drop_last());
        assert(all.drop_last() =~= steps.push(bad) + rest.drop_last());
    }
}

proof fn lemma_no_faults(steps: Seq<Seq<char>>)
    requires
        forall|i: int| 0 <= i < steps.len() ==> is_step(#[trigger] steps[i]),
    ensures
        first_fault(steps) is None,
    decreases steps.len(),
{
    if steps.len() > 0 {
        let front = steps.drop_last();
        assert forall|i: int| 0 <= i < front.len() implies is_step(#[trigger] front[i]) by {
            assert(is_step(steps[i]));
        }
        lemma_no_faults(front);
        assert(is_step(steps[steps.len() - 1]));
        reveal_strlit(".");
        reveal_strlit("..");
        assert("."@ =~= seq!['.']);
        assert(".."@ =~= seq!['.', '.']);
        assert(component_fault(steps.last()) is None);
    }
}

proof fn lemma_more_step(s: Seq<char>, step: Seq<char>)
    requires
        forall|k: int| 0 <= k < step.len() ==> #[trigger] step[k] != '/',
    ensures
        split_on(s + step, '/') == split_on(s, '/').drop_last().push(
            split_on(s, '/').last() + step,
        ),
    decreases step.len(),
{
    lemma_split_on_nonempty(s, '/');
    let before = split_on(s, '/');
    if step.len() == 0 {
        assert(s + step =~= s);
        assert(before.last() + step =~= before.last());
        assert(before.drop_last().push(before.last()) =~= before);
    } else {
        let front = step.drop_last();
        assert forall|k: int| 0 <= k < front.len() implies #[trigger] front[k] != '/' by {
            assert(step[k] != '/');
        }
        lemma_more_step(s, front);
        assert(step[step.len() - 1] != '/');
        assert((s + step).drop_last() =~= s + front);
        let mid = before.drop_last().push(before.last() + front);
        assert(mid.drop_last() =~= before.drop_last());
        assert((before.last() + front).push(step.last()) =~= before.last() + step);
    }
}

proof fn lemma_steps(steps: Seq<Seq<char>>)
    requires
        steps.len() > 0,
        forall|i: int| 0 <= i < steps.len() ==> is_step(#[trigger] steps[i]),
    ensures
        ({
            let path = join_with(steps, seq!['/']);
            &&& split_on(path, '/') == steps
            &&& path.len() > 0
            &&& path[0] == steps[0][0]
            &&& path.last() != '/'
            &&& !path.contains('\0')
        }),
    decreases steps.len(),
{
    let path = join_with(steps, seq!['/']);
    let last = steps.last();
    let none = Seq::<char>::empty();
    assert(is_step(steps[steps.len() - 1]));
    if steps.len() == 1 {
        lemma_more_step(none, last);
        assert(none + last =~= last);
        assert(split_on(path, '/') =~= steps);
        assert(path.last() == last[last.len() - 1]);
    } else {
        let front = steps.drop_last();
        assert forall|i: int| 0 <= i < front.len() implies is_step(#[trigger] front[i]) by {
            assert(is_step(steps[i]));
        }
        lemma_steps(front);
        let before = join_with(front, seq!['/']);
        let opened = before + seq!['/'];
        assert(opened.drop_last() =~= before);
        lemma_more_step(opened, last);
        assert(split_on(opened, '/') =~= front.push(none));
        assert(front.push(none).drop_last() =~= front);
        assert(none + last =~= last);
        assert(front.push(last) =~= steps);
        assert(path == opened + last);
        assert(path.last() == last[last.len() - 1]);
        assert forall|k: int| 0 <= k < path.len() implies path[k] != '\0' by {
            if k < before.len() {
                assert(path[k] == before[k]);
            } else if k > before.len() {
                assert(path[k] == last[k - before.len() - 1]);
            }
        }
    }
}

/// A path never leads through a symlink: a step that stands on one is refused
/// however the system puts it. A step that is not there, or leads into what
/// is no directory, makes the path missing; nothing else does.
pub proof fn symlinks_are_never_followed(failure: OpenFailure, is_symlink: bool)
    ensures
        ({
            let step = dir_step(failure, is_symlink);
            &&& step == DirStep::Refused(PathReason::SymlinkComponent) <==> failure
                == OpenFailure::Loop || (failure == OpenFailure::NotDir && is_symlink)
            &&& step == DirStep::Missing <==> failure == OpenFailure::NoEntry || (failure
                == OpenFailure::NotDir && !is_symlink)
            &&& step == DirStep::Failed <==> failure == OpenFailure::Other
        }),
{
}

// ------------------------------------------------------------------ sidecars

/// The tool's own files are the lock, the guard and the temporary files of
/// writes. The review file is none of them.
pub proof fn sidecars_are_told_by_name(name: Seq<char>, tail: Seq<char>)
    ensures
        sidecar_name(name) <==> {
            ||| name == ".ambidiff.json.lock"@
            ||| name == ".ambidiff.json.guard"@
            ||| ".ambidiff.json.tmp."@.is_prefix_of(name)
        },
        sidecar_name(LOCK_FILE_NAME@),
        sidecar_name(GUARD_FILE_NAME@),
        sidecar_name(".ambidiff.json.tmp."@ + tail),
        !sidecar_name(REVIEW_FILE_NAME@),
{
    reveal_strlit(".ambidiff.json");
    reveal_strlit(".ambidiff.json.lock");
    reveal_strlit(".ambidiff.json.guard");
    reveal_strlit(".ambidiff.json.tmp.");
    let tmp = ".ambidiff.json.tmp."@;
    assert((tmp + tail).take(tmp.len() as int) =~= tmp);
    assert(".ambidiff.json"@.len() == 14);
    assert(".ambidiff.json.lock"@.len() == 19);
    assert(".ambidiff.json.guard"@.len() == 20);
    assert(tmp.len() == 19);
}

/// A sidecar found on the way to the lock is removed where it was written
/// under a guard, which is then ours, or where its process is known to be
/// dead; never where there is none, or no record in it.
pub proof fn sidecars_are_removed_when_nobody_holds_them(info: LockInfo, liveness: Liveness)
    ensures
        reclaimable(SidecarRead::Record(info), liveness) <==> info.nonce is Some || liveness
            == Liveness::Dead,
        !reclaimable(SidecarRead::Missing, liveness),
        !reclaimable(SidecarRead::NoRecord, liveness),
{
}

/// A sidecar is its writer's alone: process and nonce both are the same.
pub proof fn sidecars_belong_to_their_writer(found: LockInfo, owner: LockInfo)
    ensures
        owned_by(SidecarRead::Record(found), owner) <==> found.pid == owner.pid
            && found.nonce.deep_view() == owner.nonce.deep_view(),
        !owned_by(SidecarRead::Missing, owner),
        !owned_by(SidecarRead::NoRecord, owner),
{
}

/// A process is dead where its number is one of a process and there is none
/// of that number; alive where it could be signalled, or where it is there
/// but not ours to signal. Everything else is a doubt.
pub proof fn only_what_is_gone_is_dead(pid: u32, probe: Probe)
    ensures
        liveness(pid, probe) == Liveness::Dead <==> 1 <= pid && pid <= 0x7fff_ffff && probe
            == Probe::NoSuchProcess,
        liveness(pid, probe) == Liveness::Alive <==> 1 <= pid && pid <= 0x7fff_ffff && (probe
            == Probe::Delivered || probe == Probe::NotPermitted),
{
}

/// Waits double until they are as long as they get.
pub proof fn waits_double(backoff: u64)
    ensures
        2 * backoff <= 200 ==> next_backoff(backoff) == 2 * backoff,
        2 * backoff > 200 ==> next_backoff(backoff) == 200,
{
}

// ------------------------------------------------------------------ exclusion

/// Whether these lines are the first `n` wanted ones that the content lacks,
/// in order.
pub open spec fn are_missing(
    lines: Seq<Seq<u8>>,
    wanted: Seq<Seq<u8>>,
    content: Seq<u8>,
    at: Seq<int>,
) -> bool {
    &&& at.len() == lines.len()
    &&& forall|j: int, k: int| 0 <= j < k < at.len() ==> #[trigger] at[j] < #[trigger] at[k]
    &&& forall|k: int|
        0 <= k < at.len() ==> 0 <= #[trigger] at[k] < wanted.len() && lines[k] == wanted[at[k]]
            && !has_line(content, lines[k])
    &&& forall|i: int|
        0 <= i < wanted.len() && !has_line(content, #[trigger] wanted[i]) ==> at.contains(i)
}

/// The bytes of lines, each with a newline behind it.
pub open spec fn lines_bytes(lines: Seq<Seq<u8>>, n: int) -> Seq<u8>
    decreases n,
{
    if n <= 0 {
        Seq::empty()
    } else {
        lines_bytes(lines, n - 1) + lines[n - 1] + seq![10u8]
    }
}

/// What is kept out of git's sight is the review file, its lock, its guard
/// and its temporary files.
pub proof fn own_files_are_kept_out()
    ensures
        wanted_lines().contains(encode_utf8(REVIEW_FILE_NAME@)),
        wanted_lines().contains(encode_utf8(LOCK_FILE_NAME@)),
        wanted_lines().contains(encode_utf8(GUARD_FILE_NAME@)),
        wanted_lines().contains(encode_utf8(".ambidiff.json.tmp."@ + seq!['*'])),
        wanted_lines().len() == 4,
{
    reveal_strlit(".ambidiff.json.tmp.");
    reveal_strlit(".ambidiff.json.tmp.*");
    assert(".ambidiff.json.tmp."@ + seq!['*'] =~= ".ambidiff.json.tmp.*"@);
    assert(wanted_lines()[0] == encode_utf8(REVIEW_FILE_NAME@));
    assert(wanted_lines()[1] == encode_utf8(LOCK_FILE_NAME@));
    assert(wanted_lines()[2] == encode_utf8(GUARD_FILE_NAME@));
    assert(wanted_lines()[3] == encode_utf8(".ambidiff.json.tmp.*"@));
}

/// Nothing changes where every wanted line is there. Otherwise the content
/// stays, is ended with a newline where it has none, and gets the lines that
/// it lacks, in order.
pub proof fn excluding_adds_what_is_missing(content: Seq<u8>)
    ensures
        excluded(content) is None <==> forall|i: int|
            0 <= i < wanted_lines().len() ==> has_line(content, #[trigger] wanted_lines()[i]),
        excluded(content) matches Some(after) ==> exists|lines: Seq<Seq<u8>>, at: Seq<int>|
            #[trigger] are_missing(lines, wanted_lines(), content, at) && after == content
                + (if content.len() > 0 && content.last() != 10 {
                seq![10u8]
            } else {
                Seq::empty()
            }) + lines_bytes(lines, lines.len() as int),
{
    let wanted = wanted_lines();
    let lines = missing_lines(content, wanted);
    let at = missing_at(content, wanted);
    lemma_missing_at(content, wanted);
    let end = if content.len() > 0 && content.last() != 10 {
        seq![10u8]
    } else {
        Seq::empty()
    };
    assert(closed_content(content) =~= content + end);
    lemma_with_lines(content + end, lines);
    if excluded(content) is None {
        assert forall|i: int| 0 <= i < wanted.len() implies has_line(
            content,
            #[trigger] wanted[i],
        ) by {
            if !has_line(content, wanted[i]) {
                assert(at.contains(i));
            }
        }
    } else {
        assert(at.len() > 0);
        assert(0 <= at[0] < wanted.len() && lines[0] == wanted[at[0]]);
        assert(!has_line(content, wanted[at[0]]));
        assert(are_missing(lines, wanted, content, at));
    }
}

spec fn missing_at(content: Seq<u8>, lines: Seq<Seq<u8>>) -> Seq<int>
    decreases lines.len(),
{
    if lines.len() == 0 {
        Seq::empty()
    } else if has_line(content, lines.last()) {
        missing_at(content, lines.drop_last())
    } else {
        missing_at(content, lines.drop_last()).push(lines.len() - 1)
    }
}

proof fn lemma_missing_at(content: Seq<u8>, wanted: Seq<Seq<u8>>)
    ensures
        are_missing(missing_lines(content, wanted), wanted, content, missing_at(content, wanted)),
    decreases wanted.len(),
{
    if wanted.len() > 0 {
        let front = wanted.drop_last();
        let n = wanted.len() - 1;
        lemma_missing_at(content, front);
        let lines0 = missing_lines(content, front);
        let at0 = missing_at(content, front);
        let lines = missing_lines(content, wanted);
        let at = missing_at(content, wanted);
        assert forall|k: int| 0 <= k < at.len() implies 0 <= #[trigger] at[k] < wanted.len()
            && lines[k] == wanted[at[k]] && !has_line(content, lines[k]) by {
            if k < at0.len() {
                assert(at[k] == at0[k] && lines[k] == lines0[k]);
                assert(front[at0[k]] == wanted[at0[k]]);
            }
        }
        assert forall|i: int|
            0 <= i < wanted.len() && !has_line(content, #[trigger] wanted[i]) implies at.contains(
            i,
        ) by {
            if i < n {
                assert(front[i] == wanted[i]);
                let k = choose|k: int| 0 <= k < at0.len() && at0[k] == i;
                assert(at[k] == i);
            } else {
                assert(at.last() == i);
            }
        }
    }
}

proof fn lemma_with_lines(base: Seq<u8>, lines: Seq<Seq<u8>>)
    ensures
        with_lines(base, lines) == base + lines_bytes(lines, lines.len() as int),
    decreases lines.len(),
{
    let n = lines.len() as int;
    if n == 0 {
        assert(with_lines(base, lines) =~= base + lines_bytes(lines, n));
    } else {
        let front = lines.drop_last();
        lemma_with_lines(base, front);
        lemma_lines_prefix(lines, front, n - 1);
        assert(with_lines(base, lines) =~= base + lines_bytes(lines, n));
    }
}

proof fn lemma_lines_prefix(a: Seq<Seq<u8>>, b: Seq<Seq<u8>>, n: int)
    requires
        0 <= n <= a.len(),
        n <= b.len(),
        forall|i: int| 0 <= i < n ==> a[i] == b[i],
    ensures
        lines_bytes(a, n) == lines_bytes(b, n),
    decreases n,
{
    if n > 0 {
        lemma_lines_prefix(a, b, n - 1);
    }
}

} // verus!
