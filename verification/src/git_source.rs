//! What a git-backed diff source asks of git and makes of the answers.
//!
//! Rename detection is forced (`-M`) so old paths always populate regardless
//! of user config. A numstat preflight, plus a raw-byte budget on the patch
//! text itself, skips diffs that would swamp the viewer. Which git commands
//! run, and how, is the caller's part: this module decides their arguments and
//! what follows from their output.

use vstd::prelude::*;
use vstd::utf8::{decode_utf8, encode_utf8, valid_utf8};

use crate::git_output::{
    display_text, entries_in, escape_display, first_field_after_tab, line_total, name_status,
    nul_fields, numstat, parse_name_status_bytes, parse_numstat_bytes, skipped_in, word_from,
    LineCounter, LineCounts, Numstat,
};
use crate::model::{
    bare_diff, capped, FileDiff, FileDiffKind, FileDiffKindModel, FileDiffModel,
    FileEntry, FileEntryModel, FileStatus,
};
use crate::parser::{parse_file_diff, parsed_diff};
use crate::rootio::{check_relative_path, path_fault, RootEntry};
use crate::source::{
    Comparison, ComparisonModel, Endpoint, EndpointModel, FileDiffRequest, Listing, SkipReason,
    SkippedPath, SkippedPathModel, SourceError,
};
use crate::text::{
    chars_of, copy_of, decimal, decimal_text, find_text, find_text_from, in_order, join_with,
    lemma_text_le_total, lemma_text_le_trans, lines_of, lossy, lossy_text, push_text, same_text,
    str_lines, string_of, strip_cr, strs, text_le, text_of_two, trim, trimmed, utf8_text,
    without_cr,
};
use crate::util::{fnv1a64, fnv1a64_from, fnv64, fnv64_continues};

verus! {

/// Size and time budgets a git-backed source enforces so one file, one
/// signature pass, or one hung git process cannot swamp the viewer.
#[derive(Debug, Clone, Copy, PartialEq, Eq, Structural)]
pub struct SourceLimits {
    /// Total changed lines (numstat preflight) above which a file's diff is
    /// reported as too large rather than parsed.
    pub changed_lines: u64,
    /// Byte size above which an untracked file is skipped as too large (its
    /// listing entry still appears; content and diff do not).
    pub untracked_bytes: u64,
    /// Byte size above which a diff's raw patch text (or an object read) is
    /// abandoned as too large, even when the numstat preflight let it through
    /// (a single enormous line has few "lines" but many bytes).
    pub raw_bytes: u64,
    /// How long any single git invocation may run before it is killed, in
    /// milliseconds.
    pub git_deadline: u64,
}

impl Default for SourceLimits {
    fn default() -> (r: Self)
        ensures
            r == (SourceLimits {
                changed_lines: 10_000,
                untracked_bytes: 2_097_152,
                raw_bytes: 8_388_608,
                git_deadline: 10_000,
            }),
    {
        SourceLimits {
            changed_lines: 10_000,
            untracked_bytes: 2_097_152,
            raw_bytes: 8_388_608,
            git_deadline: 10_000,
        }
    }
}

// ---------------------------------------------------------------- arguments

/// Copies of a list of words.
fn words(list: &[&str]) -> (r: Vec<String>)
    ensures
        r.deep_view() == strs(list@),
{
    let ghost model = strs(list@);
    let mut out: Vec<String> = Vec::new();
    let mut i: usize = 0;
    assert(out.deep_view() =~= model.take(0));
    while i < list.len()
        invariant
            i <= list.len(),
            model == strs(list@),
            model.len() == list.len(),
            out.deep_view() == model.take(i as int),
        decreases list.len() - i,
    {
        let ghost before = out.deep_view();
        let word: String = copy_of(list[i]);
        out.push(word);
        proof {
            assert(model[i as int] == list[i as int]@);
            assert(out.deep_view() =~= before.push(word@));
            assert(model.take(i + 1) =~= model.take(i as int).push(model[i as int]));
        }
        i += 1;
    }
    assert(model.take(i as int) =~= model);
    out
}

/// The words of one list after those of another.
fn followed_by(head: Vec<String>, tail: Vec<String>) -> (r: Vec<String>)
    ensures
        r.deep_view() == head.deep_view() + tail.deep_view(),
{
    let ghost a = head.deep_view();
    let ghost b = tail.deep_view();
    let mut out: Vec<String> = head;
    let mut tail: Vec<String> = tail;
    out.append(&mut tail);
    assert(out.deep_view() =~= a + b);
    out
}

/// What every diff command starts with.
pub open spec fn diff_words() -> Seq<Seq<char>> {
    seq![
        "-c"@,
        "core.quotePath=true"@,
        "diff"@,
        "--no-color"@,
        "--no-ext-diff"@,
        "--no-textconv"@,
        "--relative"@,
        "-M"@,
    ]
}

pub fn diff_prefix_args() -> (r: Vec<String>)
    ensures
        r.deep_view() == diff_words(),
{
    let list: [&str; 8] = [
        "-c",
        "core.quotePath=true",
        "diff",
        "--no-color",
        "--no-ext-diff",
        "--no-textconv",
        "--relative",
        "-M",
    ];
    assert(strs(list@) =~= diff_words());
    words(list.as_slice())
}

/// The word that names an endpoint to git.
pub open spec fn endpoint_word(e: EndpointModel) -> Seq<char> {
    match e {
        EndpointModel::Commit { oid } => oid,
        EndpointModel::EmptyTree { oid } => oid,
        EndpointModel::Index => "index"@,
        EndpointModel::Worktree => "worktree"@,
    }
}

/// The words that name a comparison to git: nothing for index..worktree, the
/// single oid for a commit against the worktree, `--cached <oid>` for a commit
/// against the index, both oids for a commit range.
pub open spec fn endpoint_words(comparison: ComparisonModel) -> Seq<Seq<char>> {
    match (comparison.old, comparison.new) {
        (EndpointModel::Index, EndpointModel::Worktree) => Seq::empty(),
        (old, EndpointModel::Worktree) => seq![endpoint_word(old)],
        (old, EndpointModel::Index) => seq!["--cached"@, endpoint_word(old)],
        (old, new) => seq![endpoint_word(old), endpoint_word(new)],
    }
}

fn endpoint_oid(e: &Endpoint) -> (r: &str)
    ensures
        r@ == endpoint_word(e.deep_view()),
{
    match e {
        Endpoint::Commit { oid } => oid.as_str(),
        Endpoint::EmptyTree { oid } => oid.as_str(),
        Endpoint::Index => "index",
        Endpoint::Worktree => "worktree",
    }
}

/// Endpoint args for the diff command. Always followed by the caller's own
/// `--`.
pub fn endpoint_args(comparison: &Comparison) -> (r: Vec<String>)
    ensures
        r.deep_view() == endpoint_words(comparison.deep_view()),
{
    match (&comparison.old, &comparison.new) {
        (Endpoint::Index, Endpoint::Worktree) => {
            let r: Vec<String> = Vec::new();
            assert(r.deep_view() =~= Seq::empty());
            r
        },
        (old, Endpoint::Worktree) => {
            let list: [&str; 1] = [endpoint_oid(old)];
            assert(strs(list@) =~= seq![endpoint_word(old.deep_view())]);
            words(list.as_slice())
        },
        (old, Endpoint::Index) => {
            let list: [&str; 2] = ["--cached", endpoint_oid(old)];
            assert(strs(list@) =~= seq!["--cached"@, endpoint_word(old.deep_view())]);
            words(list.as_slice())
        },
        (old, new) => {
            let list: [&str; 2] = [endpoint_oid(old), endpoint_oid(new)];
            assert(strs(list@) =~= seq![
                endpoint_word(old.deep_view()),
                endpoint_word(new.deep_view()),
            ]);
            words(list.as_slice())
        },
    }
}

/// The paths of a request behind a `--`: the rename's origin before the
/// current path, where there is another.
pub open spec fn path_words(req: FileDiffRequest) -> Seq<Seq<char>> {
    match req.old_path {
        Some(origin) if origin@ != req.path@ => seq!["--"@, origin@, req.path@],
        _ => seq!["--"@, req.path@],
    }
}

pub fn path_args(req: &FileDiffRequest) -> (r: Vec<String>)
    ensures
        r.deep_view() == path_words(*req),
{
    if let Some(origin) = &req.old_path {
        if !same_text(origin.as_str(), req.path.as_str()) {
            let list: [&str; 3] = ["--", origin.as_str(), req.path.as_str()];
            assert(strs(list@) =~= path_words(*req));
            return words(list.as_slice());
        }
    }
    let list: [&str; 2] = ["--", req.path.as_str()];
    assert(strs(list@) =~= path_words(*req));
    words(list.as_slice())
}

/// The listing of changed files with their status.
pub fn name_status_args(comparison: &Comparison) -> (r: Vec<String>)
    ensures
        r.deep_view() == diff_words() + endpoint_words(comparison.deep_view()) + seq![
            "--name-status"@,
            "-z"@,
            "--"@,
        ],
{
    let list: [&str; 3] = ["--name-status", "-z", "--"];
    assert(strs(list@) =~= seq!["--name-status"@, "-z"@, "--"@]);
    followed_by(
        followed_by(diff_prefix_args(), endpoint_args(comparison)),
        words(list.as_slice()),
    )
}

/// The listing of changed files with their line counts.
pub fn numstat_args(comparison: &Comparison) -> (r: Vec<String>)
    ensures
        r.deep_view() == diff_words() + endpoint_words(comparison.deep_view()) + seq![
            "--numstat"@,
            "-z"@,
            "--"@,
        ],
{
    let list: [&str; 3] = ["--numstat", "-z", "--"];
    assert(strs(list@) =~= seq!["--numstat"@, "-z"@, "--"@]);
    followed_by(
        followed_by(diff_prefix_args(), endpoint_args(comparison)),
        words(list.as_slice()),
    )
}

/// The line counts of one file.
pub fn file_numstat_args(comparison: &Comparison, req: &FileDiffRequest) -> (r: Vec<String>)
    ensures
        r.deep_view() == diff_words() + endpoint_words(comparison.deep_view()) + seq![
            "--numstat"@,
            "-z"@,
        ] + path_words(*req),
{
    let list: [&str; 2] = ["--numstat", "-z"];
    assert(strs(list@) =~= seq!["--numstat"@, "-z"@]);
    followed_by(
        followed_by(
            followed_by(diff_prefix_args(), endpoint_args(comparison)),
            words(list.as_slice()),
        ),
        path_args(req),
    )
}

/// The patch of one file.
pub fn file_diff_args(comparison: &Comparison, req: &FileDiffRequest) -> (r: Vec<String>)
    ensures
        r.deep_view() == diff_words() + endpoint_words(comparison.deep_view()) + seq![
            "-U"@ + decimal_text(req.context as nat),
        ] + path_words(*req),
{
    let context: String = text_of_two("-U", decimal(req.context as u64).as_str());
    let list: [&str; 1] = [context.as_str()];
    assert(strs(list@) =~= seq!["-U"@ + decimal_text(req.context as nat)]);
    followed_by(
        followed_by(
            followed_by(diff_prefix_args(), endpoint_args(comparison)),
            words(list.as_slice()),
        ),
        path_args(req),
    )
}

/// The words of the command that writes the whole patch.
pub open spec fn signature_words(comparison: ComparisonModel) -> Seq<Seq<char>> {
    diff_words() + endpoint_words(comparison) + seq!["--"@]
}

/// The whole patch, for a signature.
pub fn signature_args(comparison: &Comparison) -> (r: Vec<String>)
    ensures
        r.deep_view() == signature_words(comparison.deep_view()),
{
    let list: [&str; 1] = ["--"];
    assert(strs(list@) =~= seq!["--"@]);
    followed_by(
        followed_by(diff_prefix_args(), endpoint_args(comparison)),
        words(list.as_slice()),
    )
}

/// The untracked files.
pub fn untracked_args() -> (r: Vec<String>)
    ensures
        r.deep_view() == seq!["ls-files"@, "--others"@, "--exclude-standard"@, "-z"@],
{
    let list: [&str; 4] = ["ls-files", "--others", "--exclude-standard", "-z"];
    assert(strs(list@) =~= seq!["ls-files"@, "--others"@, "--exclude-standard"@, "-z"@]);
    words(list.as_slice())
}

/// Whether a path is tracked.
pub fn tracked_args(path: &str) -> (r: Vec<String>)
    ensures
        r.deep_view() == seq!["ls-files"@, "-z"@, "--"@, path@],
{
    let list: [&str; 4] = ["ls-files", "-z", "--", path];
    assert(strs(list@) =~= seq!["ls-files"@, "-z"@, "--"@, path@]);
    words(list.as_slice())
}

/// The object of a path in the index.
pub fn index_entry_args(path: &str) -> (r: Vec<String>)
    ensures
        r.deep_view() == seq!["ls-files"@, "-z"@, "--stage"@, "--"@, path@],
{
    let list: [&str; 5] = ["ls-files", "-z", "--stage", "--", path];
    assert(strs(list@) =~= seq!["ls-files"@, "-z"@, "--stage"@, "--"@, path@]);
    words(list.as_slice())
}

/// The object of a path in a tree.
pub fn tree_entry_args(tree_ish: &str, path: &str) -> (r: Vec<String>)
    ensures
        r.deep_view() == seq!["ls-tree"@, "-z"@, tree_ish@, "--"@, path@],
{
    let list: [&str; 5] = ["ls-tree", "-z", tree_ish, "--", path];
    assert(strs(list@) =~= seq!["ls-tree"@, "-z"@, tree_ish@, "--"@, path@]);
    words(list.as_slice())
}

/// The content of an object.
pub fn blob_args(oid: &str) -> (r: Vec<String>)
    ensures
        r.deep_view() == seq!["cat-file"@, "blob"@, oid@],
{
    let list: [&str; 3] = ["cat-file", "blob", oid];
    assert(strs(list@) =~= seq!["cat-file"@, "blob"@, oid@]);
    words(list.as_slice())
}

/// The patch of a file that git does not track, read from standard input.
pub open spec fn no_index_words(context: u32) -> Seq<Seq<char>> {
    seq![
        "-c"@,
        "core.quotePath=true"@,
        "diff"@,
        "--no-color"@,
        "--no-ext-diff"@,
        "--no-textconv"@,
        "--no-index"@,
        "-U"@ + decimal_text(context as nat),
        "--"@,
        "/dev/null"@,
        "-"@,
    ]
}

pub fn no_index_args(context: u32) -> (r: Vec<String>)
    ensures
        r.deep_view() == no_index_words(context),
{
    let lines: String = text_of_two("-U", decimal(context as u64).as_str());
    let list: [&str; 11] = [
        "-c",
        "core.quotePath=true",
        "diff",
        "--no-color",
        "--no-ext-diff",
        "--no-textconv",
        "--no-index",
        lines.as_str(),
        "--",
        "/dev/null",
        "-",
    ];
    assert(strs(list@) =~= no_index_words(context));
    words(list.as_slice())
}

/// The commit that a ref names.
pub fn ref_args(spec_text: &str) -> (r: Vec<String>)
    ensures
        r.deep_view() == seq![
            "rev-parse"@,
            "--verify"@,
            "--quiet"@,
            "--end-of-options"@,
            spec_text@ + "^{commit}"@,
        ],
{
    let commit: String = text_of_two(spec_text, "^{commit}");
    let list: [&str; 5] = [
        "rev-parse",
        "--verify",
        "--quiet",
        "--end-of-options",
        commit.as_str(),
    ];
    assert(strs(list@) =~= seq![
        "rev-parse"@,
        "--verify"@,
        "--quiet"@,
        "--end-of-options"@,
        spec_text@ + "^{commit}"@,
    ]);
    words(list.as_slice())
}

/// The words of a command in one line.
pub fn join_args(args: &Vec<String>) -> (r: String)
    ensures
        r@ == join_with(args.deep_view(), " "@),
{
    let ghost model = args.deep_view();
    let mut out: String = String::new();
    let mut i: usize = 0;
    assert(model.take(0) =~= Seq::empty());
    assert(out@ =~= Seq::empty());
    while i < args.len()
        invariant
            i <= args.len(),
            model == args.deep_view(),
            model.len() == args.len(),
            out@ == join_with(model.take(i as int), " "@),
        decreases args.len() - i,
    {
        let ghost before = out@;
        if i > 0 {
            push_text(&mut out, " ");
        }
        push_text(&mut out, args[i].as_str());
        proof {
            assert(model[i as int] == args[i as int]@);
            assert(model.take(i + 1).drop_last() =~= model.take(i as int));
            if i == 0 {
                assert(out@ =~= model[0]);
                assert(model.take(1)[0] == model[0]);
            }
        }
        i += 1;
    }
    assert(model.take(i as int) =~= model);
    out
}

/// The error of a git command that failed: its words, and what it said.
pub fn git_failed(args: &Vec<String>, stderr: &[u8]) -> (r: SourceError)
    ensures
        r matches SourceError::GitFailed { args: a, stderr: s } && a@ == join_with(
            args.deep_view(),
            " "@,
        ) && s@ == trim(lossy(stderr@)),
{
    let said: String = lossy_text(stderr);
    let said: Vec<char> = trimmed(chars_of(said.as_str()).as_slice());
    SourceError::GitFailed { args: join_args(args), stderr: string_of(said.as_slice()) }
}

// --------------------------------------------------------------- comparison

/// What has to be looked up for a comparison.
#[derive(Debug, Clone, PartialEq, Eq)]
pub enum ComparisonPlan {
    /// The working tree against the index: nothing to look up.
    Plain,
    /// The index against `HEAD`, or against the empty tree on an unborn
    /// branch.
    StagedHead,
    /// The index against a ref.
    StagedRef { spec_text: String },
    /// The working tree against a ref.
    WorktreeRef { spec_text: String },
    /// One ref against another.
    Range { left: String, right: String },
    /// A ref against its merge base with another.
    MergeBase { left: String, right: String },
}

#[verifier::ext_equal]
pub enum PlanModel {
    Plain,
    StagedHead,
    StagedRef { spec_text: Seq<char> },
    WorktreeRef { spec_text: Seq<char> },
    Range { left: Seq<char>, right: Seq<char> },
    MergeBase { left: Seq<char>, right: Seq<char> },
}

impl DeepView for ComparisonPlan {
    type V = PlanModel;

    open spec fn deep_view(&self) -> PlanModel {
        match *self {
            ComparisonPlan::Plain => PlanModel::Plain,
            ComparisonPlan::StagedHead => PlanModel::StagedHead,
            ComparisonPlan::StagedRef { spec_text } => PlanModel::StagedRef {
                spec_text: spec_text@,
            },
            ComparisonPlan::WorktreeRef { spec_text } => PlanModel::WorktreeRef {
                spec_text: spec_text@,
            },
            ComparisonPlan::Range { left, right } => PlanModel::Range {
                left: left@,
                right: right@,
            },
            ComparisonPlan::MergeBase { left, right } => PlanModel::MergeBase {
                left: left@,
                right: right@,
            },
        }
    }
}

/// One end of a range; an empty one is `HEAD`.
pub open spec fn range_end(s: Seq<char>) -> Seq<char> {
    if s.len() == 0 {
        "HEAD"@
    } else {
        s
    }
}

/// The two ends of a range around the separator at a position.
pub open spec fn range_ends(s: Seq<char>, at: int, width: int) -> (Seq<char>, Seq<char>) {
    (range_end(s.take(at)), range_end(s.skip(at + width)))
}

/// What a base asks for; an empty one asks for nothing, as none does. A staged
/// comparison compares one ref with the index: a range has no index side, so
/// `None` stands for that refusal.
pub open spec fn planned(base: Option<Seq<char>>, staged: bool) -> Option<PlanModel> {
    let given = match base {
        Some(s) if s.len() > 0 => Some(s),
        _ => None,
    };
    match given {
        None => Some(
            if staged {
                PlanModel::StagedHead
            } else {
                PlanModel::Plain
            },
        ),
        Some(s) => if staged {
            if find_text_from(s, ".."@, 0) is Some {
                None
            } else {
                Some(PlanModel::StagedRef { spec_text: s })
            }
        } else {
            match (find_text_from(s, "..."@, 0), find_text_from(s, ".."@, 0)) {
                (Some(at), _) => {
                    let ends = range_ends(s, at, 3);
                    Some(PlanModel::MergeBase { left: ends.0, right: ends.1 })
                },
                (None, Some(at)) => {
                    let ends = range_ends(s, at, 2);
                    Some(PlanModel::Range { left: ends.0, right: ends.1 })
                },
                (None, None) => Some(PlanModel::WorktreeRef { spec_text: s }),
            }
        },
    }
}

fn end_of_range(cs: &[char]) -> (r: String)
    ensures
        r@ == range_end(cs@),
{
    if cs.len() == 0 {
        copy_of("HEAD")
    } else {
        string_of(cs)
    }
}

fn ends_of_range(cs: &Vec<char>, at: usize, width: usize) -> (r: (String, String))
    requires
        at + width <= cs@.len(),
    ensures
        (r.0@, r.1@) == range_ends(cs@, at as int, width as int),
{
    let n: usize = cs.len();
    let left: &[char] = vstd::slice::slice_subrange(cs.as_slice(), 0, at);
    let right: &[char] = vstd::slice::slice_subrange(cs.as_slice(), at + width, n);
    assert(left@ =~= cs@.take(at as int));
    assert(right@ =~= cs@.skip(at + width));
    (end_of_range(left), end_of_range(right))
}

/// Decides what a base asks for. No base (or an empty one) and a ref both take the working tree
/// for the new side, or the index where the comparison is staged; `A..B` and
/// `A...B` compare two commits.
pub fn plan_comparison(base: Option<&str>, staged: bool) -> (r: Result<ComparisonPlan, SourceError>)
    ensures
        match planned(base.deep_view(), staged) {
            Some(plan) => r matches Ok(p) && p.deep_view() == plan,
            None => r matches Err(SourceError::UnsupportedComparison { base: b, reason })
                && Some(b@) == base.deep_view() && reason@
                == "a staged comparison compares one ref with the index; a range has no index side"@,
        },
{
    let spec_text: &str = match base {
        Some(s) => s,
        None => {
            proof {
                reveal_strlit("");
            }
            ""
        },
    };
    let cs: Vec<char> = chars_of(spec_text);
    if cs.len() == 0 {
        return Ok(
            if staged {
                ComparisonPlan::StagedHead
            } else {
                ComparisonPlan::Plain
            },
        );
    }
    let two: Vec<char> = chars_of("..");
    let three: Vec<char> = chars_of("...");
    proof {
        reveal_strlit("..");
        reveal_strlit("...");
        crate::text::lemma_find_text_from(cs@, two@, 0);
        crate::text::lemma_find_text_from(cs@, three@, 0);
    }
    let at_two: Option<usize> = find_text(cs.as_slice(), two.as_slice(), 0);
    if staged {
        if at_two.is_some() {
            return Err(
                SourceError::UnsupportedComparison {
                    base: copy_of(spec_text),
                    reason: copy_of(
                        "a staged comparison compares one ref with the index; a range has no index side",
                    ),
                },
            );
        }
        return Ok(ComparisonPlan::StagedRef { spec_text: copy_of(spec_text) });
    }
    if let Some(at) = find_text(cs.as_slice(), three.as_slice(), 0) {
        let (left, right): (String, String) = ends_of_range(&cs, at, 3);
        return Ok(ComparisonPlan::MergeBase { left, right });
    }
    match at_two {
        Some(at) => {
            let (left, right): (String, String) = ends_of_range(&cs, at, 2);
            Ok(ComparisonPlan::Range { left, right })
        },
        None => Ok(ComparisonPlan::WorktreeRef { spec_text: copy_of(spec_text) }),
    }
}

/// An empty base asks for what no base asks for.
pub proof fn empty_bases_count_as_none(staged: bool)
    ensures
        planned(Some(Seq::empty()), staged) == planned(None, staged),
        planned(None, staged) is Some,
{
}

/// The comparison that a plan comes to. `old` is the old side where the plan
/// looks one up, `right` the commit of a range's right end.
pub open spec fn planned_comparison(
    plan: PlanModel,
    old_end: EndpointModel,
    right: Seq<char>,
) -> ComparisonModel {
    match plan {
        PlanModel::Plain => ComparisonModel {
            old: EndpointModel::Index,
            new: EndpointModel::Worktree,
        },
        PlanModel::StagedHead | PlanModel::StagedRef { .. } => ComparisonModel {
            old: old_end,
            new: EndpointModel::Index,
        },
        PlanModel::WorktreeRef { .. } => ComparisonModel {
            old: old_end,
            new: EndpointModel::Worktree,
        },
        PlanModel::Range { .. } | PlanModel::MergeBase { .. } => ComparisonModel {
            old: old_end,
            new: EndpointModel::Commit { oid: right },
        },
    }
}

impl ComparisonPlan {
    /// The comparison, once its ends have been looked up.
    pub fn comparison(&self, old_end: Endpoint, right: &str) -> (r: Comparison)
        ensures
            r.deep_view() == planned_comparison(self.deep_view(), old_end.deep_view(), right@),
    {
        match self {
            ComparisonPlan::Plain => Comparison { old: Endpoint::Index, new: Endpoint::Worktree },
            ComparisonPlan::StagedHead | ComparisonPlan::StagedRef { .. } => Comparison {
                old: old_end,
                new: Endpoint::Index,
            },
            ComparisonPlan::WorktreeRef { .. } => Comparison {
                old: old_end,
                new: Endpoint::Worktree,
            },
            ComparisonPlan::Range { .. } | ComparisonPlan::MergeBase { .. } => Comparison {
                old: old_end,
                new: Endpoint::Commit { oid: copy_of(right) },
            },
        }
    }
}

/// The object id in the output of a lookup; `None` where there is none.
pub fn oid_in(output: &str) -> (r: Option<String>)
    ensures
        r.deep_view() == (if trim(output@).len() > 0 {
            Some(trim(output@))
        } else {
            None
        }),
{
    let oid: Vec<char> = trimmed(chars_of(output).as_slice());
    if oid.len() > 0 {
        Some(string_of(oid.as_slice()))
    } else {
        None
    }
}

/// The commit of a ref, from the output of its lookup where that succeeded.
pub fn resolved_ref(spec_text: &str, output: Option<&str>) -> (r: Result<String, SourceError>)
    ensures
        match output {
            Some(out) if trim(out@).len() > 0 => r matches Ok(oid) && oid@ == trim(out@),
            _ => r matches Err(SourceError::InvalidRef { spec: s }) && s@ == spec_text@,
        },
{
    if let Some(out) = output {
        if let Some(oid) = oid_in(out) {
            return Ok(oid);
        }
    }
    Err(SourceError::InvalidRef { spec: copy_of(spec_text) })
}

/// The merge base of two refs, from the output of its lookup where that
/// succeeded.
pub fn resolved_merge_base(left: &str, right: &str, output: Option<&str>) -> (r: Result<
    String,
    SourceError,
>)
    ensures
        match output {
            Some(out) if trim(out@).len() > 0 => r matches Ok(oid) && oid@ == trim(out@),
            _ => r matches Err(SourceError::NoMergeBase { left: l, right: rt }) && l@ == left@
                && rt@ == right@,
        },
{
    if let Some(out) = output {
        if let Some(oid) = oid_in(out) {
            return Ok(oid);
        }
    }
    Err(SourceError::NoMergeBase { left: copy_of(left), right: copy_of(right) })
}

/// What git is asked while a comparison is being settled.
#[derive(Debug, PartialEq, Eq)]
pub enum Question {
    /// The commit that a name stands for.
    Commit { spec_text: String },
    /// The object id of the empty tree.
    EmptyTree,
    /// The merge base of two commits.
    MergeBase { left: String, right: String },
}

#[verifier::ext_equal]
pub enum QuestionModel {
    Commit { spec_text: Seq<char> },
    EmptyTree,
    MergeBase { left: Seq<char>, right: Seq<char> },
}

impl DeepView for Question {
    type V = QuestionModel;

    open spec fn deep_view(&self) -> QuestionModel {
        match *self {
            Question::Commit { spec_text } => QuestionModel::Commit { spec_text: spec_text@ },
            Question::EmptyTree => QuestionModel::EmptyTree,
            Question::MergeBase { left, right } => QuestionModel::MergeBase {
                left: left@,
                right: right@,
            },
        }
    }
}

/// The words of the command that answers a question.
pub open spec fn question_words(question: QuestionModel) -> Seq<Seq<char>> {
    match question {
        QuestionModel::Commit { spec_text } => seq![
            "rev-parse"@,
            "--verify"@,
            "--quiet"@,
            "--end-of-options"@,
            spec_text + "^{commit}"@,
        ],
        QuestionModel::EmptyTree => seq!["hash-object"@, "-t"@, "tree"@, "--stdin"@],
        QuestionModel::MergeBase { left, right } => seq!["merge-base"@, left, right],
    }
}

impl Question {
    /// The command that answers the question.
    pub fn args(&self) -> (r: Vec<String>)
        ensures
            r.deep_view() == question_words(self.deep_view()),
    {
        match self {
            Question::Commit { spec_text } => ref_args(spec_text.as_str()),
            Question::EmptyTree => {
                let list: [&str; 4] = ["hash-object", "-t", "tree", "--stdin"];
                assert(strs(list@) =~= question_words(self.deep_view()));
                words(list.as_slice())
            },
            Question::MergeBase { left, right } => {
                let list: [&str; 3] = ["merge-base", left.as_str(), right.as_str()];
                assert(strs(list@) =~= question_words(self.deep_view()));
                words(list.as_slice())
            },
        }
    }

    /// Whether the command reads its input to the end; it is given none.
    pub fn reads_input(&self) -> (r: bool)
        ensures
            r == (self.deep_view() is EmptyTree),
    {
        match self {
            Question::EmptyTree => true,
            _ => false,
        }
    }
}

/// How far the settling of a comparison has come.
#[derive(Debug, PartialEq, Eq)]
pub enum Stage {
    /// The first name is being looked up.
    First,
    /// `HEAD` names no commit; the empty tree stands in for it.
    Unborn,
    /// The left end is known, the right one is being looked up.
    Right { left: String },
    /// Both ends are known, their merge base is being looked up.
    Base { left: String, right: String },
    Settled { comparison: Comparison },
}

#[verifier::ext_equal]
pub enum StageModel {
    First,
    Unborn,
    Right { left: Seq<char> },
    Base { left: Seq<char>, right: Seq<char> },
    Settled { comparison: ComparisonModel },
}

impl DeepView for Stage {
    type V = StageModel;

    open spec fn deep_view(&self) -> StageModel {
        match *self {
            Stage::First => StageModel::First,
            Stage::Unborn => StageModel::Unborn,
            Stage::Right { left } => StageModel::Right { left: left@ },
            Stage::Base { left, right } => StageModel::Base { left: left@, right: right@ },
            Stage::Settled { comparison } => StageModel::Settled {
                comparison: comparison.deep_view(),
            },
        }
    }
}

/// Why a comparison could not be settled.
#[verifier::ext_equal]
pub enum UnsettledModel {
    /// A name stands for no commit.
    InvalidRef { spec_text: Seq<char> },
    /// Two refs have no commit in common.
    NoMergeBase { left: Seq<char>, right: Seq<char> },
    /// Git could not say what the empty tree is.
    Git,
}

/// The name that a plan looks up first.
pub open spec fn first_name(plan: PlanModel) -> Seq<char> {
    match plan {
        PlanModel::Plain => Seq::empty(),
        PlanModel::StagedHead => "HEAD"@,
        PlanModel::StagedRef { spec_text } => spec_text,
        PlanModel::WorktreeRef { spec_text } => spec_text,
        PlanModel::Range { left, .. } => left,
        PlanModel::MergeBase { left, .. } => left,
    }
}

/// The name that a plan looks up second, where it has two.
pub open spec fn second_name(plan: PlanModel) -> Seq<char> {
    match plan {
        PlanModel::Range { right, .. } => right,
        PlanModel::MergeBase { right, .. } => right,
        _ => Seq::empty(),
    }
}

/// Where the settling of a plan starts.
pub open spec fn first_stage(plan: PlanModel) -> StageModel {
    if plan is Plain {
        StageModel::Settled {
            comparison: planned_comparison(plan, EndpointModel::Index, Seq::empty()),
        }
    } else {
        StageModel::First
    }
}

/// What is asked at a stage; nothing once the comparison is settled.
pub open spec fn asked(plan: PlanModel, stage: StageModel) -> Option<QuestionModel> {
    match stage {
        StageModel::First => Some(QuestionModel::Commit { spec_text: first_name(plan) }),
        StageModel::Unborn => Some(QuestionModel::EmptyTree),
        StageModel::Right { .. } => Some(QuestionModel::Commit { spec_text: second_name(plan) }),
        StageModel::Base { left, right } => Some(QuestionModel::MergeBase { left, right }),
        StageModel::Settled { .. } => None,
    }
}

/// The object id that a reply holds.
pub open spec fn oid_of(reply: Option<Seq<char>>) -> Option<Seq<char>> {
    match reply {
        Some(out) if trim(out).len() > 0 => Some(trim(out)),
        _ => None,
    }
}

/// Where a reply leads; `None` is a command that failed.
pub open spec fn answered(
    plan: PlanModel,
    stage: StageModel,
    reply: Option<Seq<char>>,
) -> Result<StageModel, UnsettledModel> {
    match stage {
        StageModel::First => match oid_of(reply) {
            Some(oid) => Ok(
                if plan is Range || plan is MergeBase {
                    StageModel::Right { left: oid }
                } else {
                    StageModel::Settled {
                        comparison: planned_comparison(
                            plan,
                            EndpointModel::Commit { oid },
                            Seq::empty(),
                        ),
                    }
                },
            ),
            None => if plan is StagedHead {
                Ok(StageModel::Unborn)
            } else {
                Err(UnsettledModel::InvalidRef { spec_text: first_name(plan) })
            },
        },
        StageModel::Unborn => match reply {
            Some(out) => Ok(
                StageModel::Settled {
                    comparison: planned_comparison(
                        plan,
                        EndpointModel::EmptyTree { oid: trim(out) },
                        Seq::empty(),
                    ),
                },
            ),
            None => Err(UnsettledModel::Git),
        },
        StageModel::Right { left } => match oid_of(reply) {
            Some(oid) => Ok(
                if plan is MergeBase {
                    StageModel::Base { left, right: oid }
                } else {
                    StageModel::Settled {
                        comparison: planned_comparison(
                            plan,
                            EndpointModel::Commit { oid: left },
                            oid,
                        ),
                    }
                },
            ),
            None => Err(UnsettledModel::InvalidRef { spec_text: second_name(plan) }),
        },
        StageModel::Base { right, .. } => match oid_of(reply) {
            Some(oid) => Ok(
                StageModel::Settled {
                    comparison: planned_comparison(plan, EndpointModel::Commit { oid }, right),
                },
            ),
            None => Err(
                UnsettledModel::NoMergeBase { left: first_name(plan), right: second_name(plan) },
            ),
        },
        StageModel::Settled { .. } => Ok(stage),
    }
}

/// Settles a comparison step by step: it says what git is to be asked and takes
/// the replies, until both ends are known.
#[derive(Debug, PartialEq, Eq)]
pub struct Resolver {
    pub plan: ComparisonPlan,
    pub stage: Stage,
}

fn first_name_of(plan: &ComparisonPlan) -> (r: &str)
    ensures
        r@ == first_name(plan.deep_view()),
{
    match plan {
        ComparisonPlan::Plain => {
            proof {
                reveal_strlit("");
                assert(""@ =~= Seq::empty());
            }
            ""
        },
        ComparisonPlan::StagedHead => "HEAD",
        ComparisonPlan::StagedRef { spec_text } => spec_text.as_str(),
        ComparisonPlan::WorktreeRef { spec_text } => spec_text.as_str(),
        ComparisonPlan::Range { left, .. } => left.as_str(),
        ComparisonPlan::MergeBase { left, .. } => left.as_str(),
    }
}

fn second_name_of(plan: &ComparisonPlan) -> (r: &str)
    ensures
        r@ == second_name(plan.deep_view()),
{
    match plan {
        ComparisonPlan::Range { right, .. } => right.as_str(),
        ComparisonPlan::MergeBase { right, .. } => right.as_str(),
        _ => {
            proof {
                reveal_strlit("");
                assert(""@ =~= Seq::empty());
            }
            ""
        },
    }
}

/// The text of a reply, where the command succeeded.
pub open spec fn reply_text(reply: Result<String, SourceError>) -> Option<Seq<char>> {
    match reply {
        Ok(out) => Some(out@),
        Err(_) => None,
    }
}

impl Resolver {
    /// Starts to settle what a base asks for.
    pub fn new(base: Option<&str>, staged: bool) -> (r: Result<Resolver, SourceError>)
        ensures
            match planned(base.deep_view(), staged) {
                Some(plan) => r matches Ok(x) && x.plan.deep_view() == plan
                    && x.stage.deep_view() == first_stage(plan),
                None => r matches Err(SourceError::UnsupportedComparison { base: b, reason })
                    && Some(b@) == base.deep_view() && reason@
                    == "a staged comparison compares one ref with the index; a range has no index side"@,
            },
    {
        match plan_comparison(base, staged) {
            Ok(plan) => {
                let settled: bool = match plan {
                    ComparisonPlan::Plain => true,
                    _ => false,
                };
                let stage: Stage = if settled {
                    Stage::Settled { comparison: plan.comparison(Endpoint::Index, "") }
                } else {
                    Stage::First
                };
                Ok(Resolver { plan, stage })
            },
            Err(e) => Err(e),
        }
    }

    /// What git is to be asked next.
    pub fn question(&self) -> (r: Option<Question>)
        ensures
            r.deep_view() == asked(self.plan.deep_view(), self.stage.deep_view()),
    {
        match &self.stage {
            Stage::First => Some(
                Question::Commit { spec_text: copy_of(first_name_of(&self.plan)) },
            ),
            Stage::Unborn => Some(Question::EmptyTree),
            Stage::Right { .. } => Some(
                Question::Commit { spec_text: copy_of(second_name_of(&self.plan)) },
            ),
            Stage::Base { left, right } => Some(
                Question::MergeBase {
                    left: copy_of(left.as_str()),
                    right: copy_of(right.as_str()),
                },
            ),
            Stage::Settled { .. } => None,
        }
    }

    /// Takes the reply to the question: the output of the command, or its error.
    /// Where the reply settles nothing the state stays as it was.
    pub fn answer(&mut self, reply: Result<String, SourceError>) -> (r: Result<(), SourceError>)
        ensures
            final(self).plan == old(self).plan,
            match answered(
                old(self).plan.deep_view(),
                old(self).stage.deep_view(),
                reply_text(reply),
            ) {
                Ok(stage) => r is Ok && final(self).stage.deep_view() == stage,
                Err(UnsettledModel::InvalidRef { spec_text }) => {
                    &&& r matches Err(SourceError::InvalidRef { spec: s }) && s@ == spec_text
                    &&& final(self).stage == old(self).stage
                },
                Err(UnsettledModel::NoMergeBase { left, right }) => {
                    &&& r matches Err(SourceError::NoMergeBase { left: a, right: b }) && a@ == left
                        && b@ == right
                    &&& final(self).stage == old(self).stage
                },
                Err(UnsettledModel::Git) => {
                    &&& r matches Err(e) && reply == Err::<String, SourceError>(e)
                    &&& final(self).stage == old(self).stage
                },
            },
    {
        proof {
            reveal_strlit("");
            assert(""@ =~= Seq::<char>::empty());
        }
        let two_names: bool = match self.plan {
            ComparisonPlan::Range { .. } => true,
            ComparisonPlan::MergeBase { .. } => true,
            _ => false,
        };
        match &self.stage {
            Stage::First => {
                let found: Option<String> = match &reply {
                    Ok(out) => oid_in(out.as_str()),
                    Err(_) => None,
                };
                match found {
                    Some(oid) => {
                        self.stage = if two_names {
                            Stage::Right { left: oid }
                        } else {
                            Stage::Settled {
                                comparison: self.plan.comparison(Endpoint::Commit { oid }, ""),
                            }
                        };
                        Ok(())
                    },
                    None => {
                        let unborn: bool = match self.plan {
                            ComparisonPlan::StagedHead => true,
                            _ => false,
                        };
                        if unborn {
                            self.stage = Stage::Unborn;
                            Ok(())
                        } else {
                            Err(
                                SourceError::InvalidRef {
                                    spec: copy_of(first_name_of(&self.plan)),
                                },
                            )
                        }
                    },
                }
            },
            Stage::Unborn => match reply {
                Ok(out) => {
                    let said: Vec<char> = trimmed(chars_of(out.as_str()).as_slice());
                    let oid: String = string_of(said.as_slice());
                    self.stage = Stage::Settled {
                        comparison: self.plan.comparison(Endpoint::EmptyTree { oid }, ""),
                    };
                    Ok(())
                },
                Err(e) => Err(e),
            },
            Stage::Right { left } => {
                let output: Option<&str> = match &reply {
                    Ok(out) => Some(out.as_str()),
                    Err(_) => None,
                };
                let right: String = resolved_ref(second_name_of(&self.plan), output)?;
                let merges: bool = match self.plan {
                    ComparisonPlan::MergeBase { .. } => true,
                    _ => false,
                };
                let left: String = copy_of(left.as_str());
                self.stage = if merges {
                    Stage::Base { left, right }
                } else {
                    Stage::Settled {
                        comparison: self.plan.comparison(
                            Endpoint::Commit { oid: left },
                            right.as_str(),
                        ),
                    }
                };
                Ok(())
            },
            Stage::Base { right, .. } => {
                let output: Option<&str> = match &reply {
                    Ok(out) => Some(out.as_str()),
                    Err(_) => None,
                };
                let oid: String = resolved_merge_base(
                    first_name_of(&self.plan),
                    second_name_of(&self.plan),
                    output,
                )?;
                let right: String = copy_of(right.as_str());
                self.stage = Stage::Settled {
                    comparison: self.plan.comparison(Endpoint::Commit { oid }, right.as_str()),
                };
                Ok(())
            },
            Stage::Settled { .. } => Ok(()),
        }
    }

    /// The comparison, once it is settled.
    pub fn comparison(&self) -> (r: Option<&Comparison>)
        ensures
            match self.stage {
                Stage::Settled { comparison } => r matches Some(c) && *c == comparison,
                _ => r is None,
            },
    {
        match &self.stage {
            Stage::Settled { comparison } => Some(comparison),
            _ => None,
        }
    }
}

/// Number of replies that a stage can still take.
pub open spec fn replies_left(stage: StageModel) -> nat {
    match stage {
        StageModel::First => 3,
        StageModel::Right { .. } => 2,
        StageModel::Unborn => 1,
        StageModel::Base { .. } => 1,
        StageModel::Settled { .. } => 0,
    }
}

/// Every reply that is not refused leads on, so that a comparison is settled
/// after three replies at most; and nothing is asked once it is.
pub proof fn comparisons_get_settled(plan: PlanModel, stage: StageModel, reply: Option<Seq<char>>)
    ensures
        asked(plan, stage) is None <==> stage is Settled,
        answered(plan, stage, reply) matches Ok(next) ==> replies_left(next) < replies_left(stage)
            || stage is Settled && next == stage,
{
}

/// Whether a directory is inside a working tree, from the answer of
/// `rev-parse --is-inside-work-tree`.
pub fn answers_true(status_ok: bool, output: &[u8]) -> (r: bool)
    ensures
        r == (status_ok && trim(lossy(output@)) == "true"@),
{
    let text: String = lossy_text(output);
    let said: Vec<char> = trimmed(chars_of(text.as_str()).as_slice());
    status_ok && same_text(string_of(said.as_slice()).as_str(), "true")
}

// ------------------------------------------------------------------ listing

/// An entry with the counts that a numstat listing has for its path.
pub open spec fn counted_entry(
    entry: FileEntryModel,
    counts: Map<Seq<char>, LineCounts>,
) -> FileEntryModel {
    if counts.contains_key(entry.path) {
        FileEntryModel {
            adds: counts[entry.path].adds,
            dels: counts[entry.path].dels,
            ..entry
        }
    } else {
        entry
    }
}

pub open spec fn counted_entries(
    entries: Seq<FileEntryModel>,
    counts: Map<Seq<char>, LineCounts>,
) -> Seq<FileEntryModel> {
    Seq::new(entries.len(), |i: int| counted_entry(entries[i], counts))
}

/// The entry of an untracked file.
pub open spec fn untracked_entry(path: Seq<char>, adds: Option<u64>) -> FileEntryModel {
    FileEntryModel {
        path,
        old_path: None,
        status: FileStatus::Untracked,
        adds,
        dels: Some(0),
    }
}

/// Entries in order with one more in its place: behind those of the same path.
pub open spec fn with_entry(sorted: Seq<FileEntryModel>, entry: FileEntryModel) -> Seq<
    FileEntryModel,
>
    decreases sorted.len(),
{
    if sorted.len() == 0 {
        seq![entry]
    } else if text_le(sorted.last().path, entry.path) {
        sorted.push(entry)
    } else {
        with_entry(sorted.drop_last(), entry).push(sorted.last())
    }
}

/// The entries in the order of their paths; those of the same path stay in the
/// order they have.
pub open spec fn sorted_entries(entries: Seq<FileEntryModel>) -> Seq<FileEntryModel>
    decreases entries.len(),
{
    if entries.len() == 0 {
        Seq::empty()
    } else {
        with_entry(sorted_entries(entries.drop_last()), entries.last())
    }
}

#[verifier::ext_equal]
pub struct ListingModel {
    pub entries: Seq<FileEntryModel>,
    pub skipped: Seq<SkippedPathModel>,
}

impl DeepView for Listing {
    type V = ListingModel;

    open spec fn deep_view(&self) -> ListingModel {
        ListingModel { entries: self.entries.deep_view(), skipped: self.skipped.deep_view() }
    }
}

/// What the two diff listings say of the changed files.
pub open spec fn tracked_listing(
    name_status_bytes: Seq<u8>,
    numstat_bytes: Seq<u8>,
) -> ListingModel {
    let records = name_status(name_status_bytes);
    ListingModel {
        entries: counted_entries(entries_in(records), numstat(numstat_bytes)),
        skipped: skipped_in(records),
    }
}

/// A listing with one more untracked file; one whose path is not UTF-8 is
/// skipped.
pub open spec fn with_untracked(
    listing: ListingModel,
    path: Seq<u8>,
    adds: Option<u64>,
) -> ListingModel {
    if valid_utf8(path) {
        ListingModel {
            entries: listing.entries.push(untracked_entry(decode_utf8(path), adds)),
            ..listing
        }
    } else {
        ListingModel {
            skipped: listing.skipped.push(
                SkippedPathModel { display: display_text(path), reason: SkipReason::NonUtf8 },
            ),
            ..listing
        }
    }
}

impl Listing {
    /// The listing of the files that git tracks, in git's order.
    pub fn of_tracked(name_status_bytes: &[u8], numstat_bytes: &[u8]) -> (r: Listing)
        ensures
            r.deep_view() == tracked_listing(name_status_bytes@, numstat_bytes@),
    {
        let (entries, skipped): (Vec<FileEntry>, Vec<SkippedPath>) = parse_name_status_bytes(
            name_status_bytes,
        );
        let counts: Numstat = parse_numstat_bytes(numstat_bytes);
        let ghost start = entries@;
        let ghost model = entries.deep_view();
        let mut entries: Vec<FileEntry> = entries;
        let mut i: usize = 0;
        while i < entries.len()
            invariant
                i <= entries.len(),
                entries.len() == start.len(),
                model.len() == start.len(),
                forall|k: int|
                    0 <= k < start.len() ==> model[k] == (#[trigger] start[k]).deep_view(),
                forall|k: int| i <= k < start.len() ==> (#[trigger] entries[k]) == start[k],
                forall|k: int|
                    0 <= k < i ==> (#[trigger] entries[k]).deep_view() == counted_entry(
                        model[k],
                        counts@,
                    ),
            decreases entries.len() - i,
        {
            let ghost before = entries@;
            assert(before[i as int] == start[i as int]);
            if let Some(found) = counts.get(entries[i].path.as_str()) {
                let entry: &mut FileEntry = &mut entries[i];
                entry.adds = found.adds;
                entry.dels = found.dels;
            }
            proof {
                assert forall|k: int| 0 <= k < i + 1 implies (#[trigger] entries[k]).deep_view()
                    == counted_entry(model[k], counts@) by {
                    if k < i {
                        assert(entries[k] == before[k]);
                    }
                }
                assert forall|k: int| i + 1 <= k < start.len() implies (#[trigger] entries[k])
                    == start[k] by {
                    assert(entries[k] == before[k]);
                }
            }
            i += 1;
        }
        assert(entries.deep_view() =~= counted_entries(model, counts@));
        Listing { entries, skipped }
    }

    /// Adds an untracked file, with its number of lines where it was counted.
    pub fn add_untracked(&mut self, path: &[u8], adds: Option<u64>)
        ensures
            final(self).deep_view() == with_untracked(old(self).deep_view(), path@, adds),
    {
        let ghost before = self.deep_view();
        match utf8_text(path) {
            Some(text) => {
                let entry = FileEntry {
                    path: copy_of(text),
                    old_path: None,
                    status: FileStatus::Untracked,
                    adds,
                    dels: Some(0),
                };
                self.entries.push(entry);
                assert(self.entries.deep_view() =~= before.entries.push(entry.deep_view()));
            },
            None => {
                let skip = SkippedPath {
                    display: escape_display(path),
                    reason: SkipReason::NonUtf8,
                };
                self.skipped.push(skip);
                assert(self.skipped.deep_view() =~= before.skipped.push(skip.deep_view()));
            },
        }
    }

    /// The listing with its entries sorted by path.
    pub fn sorted(self) -> (r: Listing)
        ensures
            r.deep_view() == (ListingModel {
                entries: sorted_entries(self.deep_view().entries),
                ..self.deep_view()
            }),
    {
        let Listing { entries, skipped } = self;
        let ghost model = entries.deep_view();
        let mut out: Vec<FileEntry> = Vec::new();
        assert(out.deep_view() =~= Seq::empty());
        assert(model.take(0) =~= Seq::empty());
        for entry in it: entries.into_iter()
            invariant
                it.seq() == entries@,
                model == entries.deep_view(),
                out.deep_view() == sorted_entries(model.take(it.index())),
        {
            let ghost i = it.index();
            proof {
                assert(model[i] == entry.deep_view());
                assert(model.take(i + 1).drop_last() =~= model.take(i));
                assert(model.take(i + 1).last() == model[i]);
            }
            insert_entry(&mut out, entry);
        }
        assert(model.take(model.len() as int) =~= model);
        Listing { entries: out, skipped }
    }
}

fn insert_entry(sorted: &mut Vec<FileEntry>, entry: FileEntry)
    ensures
        final(sorted).deep_view() == with_entry(old(sorted).deep_view(), entry.deep_view()),
{
    let ghost all = sorted.deep_view();
    let ghost new = entry.deep_view();
    let mut i: usize = sorted.len();
    assert(all.take(all.len() as int) =~= all);
    assert(with_entry(all, new) + all.skip(all.len() as int) =~= with_entry(all, new));
    while i > 0 && !in_order(sorted[i - 1].path.as_str(), entry.path.as_str())
        invariant
            i <= sorted.len(),
            all == sorted.deep_view(),
            all.len() == sorted.len(),
            new == entry.deep_view(),
            with_entry(all, new) == with_entry(all.take(i as int), new) + all.skip(i as int),
        decreases i,
    {
        proof {
            assert(all[i - 1] == sorted[i - 1].deep_view());
            assert(all.take(i as int).drop_last() =~= all.take(i - 1));
            assert(all.take(i as int).last() == all[i - 1]);
            assert(with_entry(all.take(i - 1), new).push(all[i - 1]) + all.skip(i as int)
                =~= with_entry(all.take(i - 1), new) + all.skip(i - 1));
        }
        i -= 1;
    }
    proof {
        if i > 0 {
            assert(all[i - 1] == sorted[i - 1].deep_view());
            assert(all.take(i as int).last() == all[i - 1]);
            assert(with_entry(all.take(i as int), new) == all.take(i as int).push(new));
        } else {
            assert(all.take(0) =~= Seq::empty());
            assert(with_entry(all.take(0), new) =~= all.take(0).push(new));
        }
    }
    sorted.insert(i, entry);
    assert(sorted.deep_view() =~= all.take(i as int).push(new) + all.skip(i as int));
}

/// Counts the lines of an untracked file; a binary one has none.
#[derive(Debug, Clone, Copy)]
pub struct UntrackedCounter {
    lines: LineCounter,
    binary: bool,
}

impl Default for UntrackedCounter {
    fn default() -> (r: Self)
        ensures
            r.counts(Seq::empty()),
    {
        UntrackedCounter { lines: LineCounter::default(), binary: false }
    }
}

impl UntrackedCounter {
    /// Whether this is what a counter has come to after the content.
    pub closed spec fn counts(self, content: Seq<u8>) -> bool {
        &&& self.lines.counts(content)
        &&& self.binary == content.contains(0)
    }

    /// Takes one more chunk.
    pub fn feed(&mut self, chunk: &[u8])
        ensures
            forall|content: Seq<u8>| #[trigger]
                old(self).counts(content) ==> final(self).counts(content + chunk@),
    {
        let ghost start = *self;
        let mut has_nul: bool = false;
        let mut i: usize = 0;
        while i < chunk.len()
            invariant
                i <= chunk.len(),
                has_nul == (exists|k: int| 0 <= k < i && chunk@[k] == 0),
            decreases chunk.len() - i,
        {
            if chunk[i] == 0 {
                assert(chunk@[i as int] == 0);
                has_nul = true;
            }
            i += 1;
        }
        self.binary = self.binary || has_nul;
        self.lines.feed(chunk);
        proof {
            assert forall|content: Seq<u8>| #[trigger] start.counts(content) implies self.counts(
                content + chunk@,
            ) by {
                let all = content + chunk@;
                if content.contains(0) {
                    let k = choose|k: int| 0 <= k < content.len() && content[k] == 0;
                    assert(all[k] == 0);
                }
                if has_nul {
                    let k = choose|k: int| 0 <= k < chunk@.len() && chunk@[k] == 0;
                    assert(all[content.len() + k] == 0);
                }
                if all.contains(0) {
                    let k = choose|k: int| 0 <= k < all.len() && all[k] == 0;
                    if k < content.len() {
                        assert(content[k] == 0);
                    } else {
                        assert(chunk@[k - content.len()] == 0);
                    }
                }
            }
        }
    }

    /// The number of lines; `None` for a binary file.
    pub fn total(&self) -> (r: Option<u64>)
        ensures
            forall|content: Seq<u8>| #[trigger]
                self.counts(content) ==> r == (if content.contains(0) {
                    None
                } else {
                    Some(capped(line_total(content)))
                }),
    {
        if self.binary {
            None
        } else {
            Some(self.lines.total())
        }
    }
}

// --------------------------------------------------------------------- diffs

/// Raw diff material for frontends that parse by themselves. [`diff_of_raw`]
/// parses exactly this, so both sides see identical bytes.
#[derive(Debug, Clone, PartialEq, Eq)]
pub enum RawDiff {
    Text { raw: String, old_total_lines: Option<u32> },
    TooLarge { adds: u64, dels: u64 },
}

#[verifier::ext_equal]
pub enum RawDiffModel {
    Text { raw: Seq<char>, old_total_lines: Option<u32> },
    TooLarge { adds: u64, dels: u64 },
}

impl DeepView for RawDiff {
    type V = RawDiffModel;

    open spec fn deep_view(&self) -> RawDiffModel {
        match *self {
            RawDiff::Text { raw, old_total_lines } => RawDiffModel::Text {
                raw: raw@,
                old_total_lines,
            },
            RawDiff::TooLarge { adds, dels } => RawDiffModel::TooLarge { adds, dels },
        }
    }
}

/// Whether a file's diff comes from its content alone: it is in the working
/// tree, and git does not track it.
pub fn is_untracked(comparison: &Comparison, known: bool, exists: bool) -> (r: bool)
    ensures
        r == (comparison.new == Endpoint::Worktree && !known && exists),
{
    comparison.new_is_worktree() && !known && exists
}

/// The verdict of the preflight: a diff of more changed lines than the limit
/// is too large. A file without counts, such as a binary one, passes.
pub fn preflight(counts: Option<LineCounts>, limits: &SourceLimits) -> (r: Option<RawDiff>)
    ensures
        r.deep_view() == (match counts {
            Some(LineCounts { adds: Some(a), dels: Some(d) }) if a + d > limits.changed_lines =>
                Some(RawDiffModel::TooLarge { adds: a, dels: d }),
            _ => None,
        }),
{
    if let Some(found) = counts {
        if let (Some(adds), Some(dels)) = (found.adds, found.dels) {
            if adds > limits.changed_lines || dels > limits.changed_lines - adds {
                return Some(RawDiff::TooLarge { adds, dels });
            }
        }
    }
    None
}

/// The number, or none of it.
pub open spec fn or_zero(n: Option<u64>) -> u64 {
    match n {
        Some(v) => v,
        None => 0,
    }
}

fn known_or_zero(n: Option<u64>) -> (r: u64)
    ensures
        r == or_zero(n),
{
    match n {
        Some(v) => v,
        None => 0,
    }
}

/// The raw diff of a patch that was read, or was given up as too large: then
/// the preflight's counts stand in for it. Another failure is passed on.
pub fn raw_diff_of_patch(
    patch: Result<Vec<u8>, SourceError>,
    counts: Option<LineCounts>,
    old_total_lines: Option<u32>,
) -> (r: Result<RawDiff, SourceError>)
    ensures
        match patch {
            Ok(bytes) => r matches Ok(diff) && diff.deep_view() == (RawDiffModel::Text {
                raw: lossy(bytes@),
                old_total_lines,
            }),
            Err(SourceError::TooLarge { .. }) => r matches Ok(diff) && diff.deep_view() == (
            RawDiffModel::TooLarge {
                adds: match counts {
                    Some(c) => or_zero(c.adds),
                    None => 0,
                },
                dels: match counts {
                    Some(c) => or_zero(c.dels),
                    None => 0,
                },
            }),
            Err(e) => r == Err::<RawDiff, SourceError>(e),
        },
{
    match patch {
        Ok(bytes) => Ok(RawDiff::Text { raw: lossy_text(bytes.as_slice()), old_total_lines }),
        Err(SourceError::TooLarge { .. }) => {
            let (adds, dels): (Option<u64>, Option<u64>) = match counts {
                Some(found) => (found.adds, found.dels),
                None => (None, None),
            };
            Ok(RawDiff::TooLarge { adds: known_or_zero(adds), dels: known_or_zero(dels) })
        },
        Err(e) => Err(e),
    }
}

/// Whether an untracked file may be read: it is there, and not over the limit.
pub fn untracked_fits(size: Option<u64>, limits: &SourceLimits) -> (r: bool)
    ensures
        r == (size matches Some(n) && n <= limits.untracked_bytes),
{
    match size {
        Some(n) => n <= limits.untracked_bytes,
        None => false,
    }
}

/// What is answered for an untracked file without reading it: one that is over
/// the limit, or gone, is too large, and nothing is counted. `None` asks for the
/// file to be read.
pub fn untracked_verdict(size: Option<u64>, limits: &SourceLimits) -> (r: Option<RawDiff>)
    ensures
        if size matches Some(n) && n <= limits.untracked_bytes {
            r is None
        } else {
            r matches Some(diff) && diff.deep_view() == (RawDiffModel::TooLarge {
                adds: 0,
                dels: 0,
            })
        },
{
    if untracked_fits(size, limits) {
        None
    } else {
        Some(RawDiff::TooLarge { adds: 0, dels: 0 })
    }
}

/// The raw diff of an untracked file from the answer of git. A diff without an
/// index exits with a failure when the files differ, so only silence is one.
pub fn raw_diff_of_untracked(
    status_ok: bool,
    output: Vec<u8>,
    context: u32,
    stderr: &[u8],
) -> (r: Result<RawDiff, SourceError>)
    ensures
        if !status_ok && output@.len() == 0 {
            r matches Err(SourceError::GitFailed { args, stderr: s }) && args@ == join_with(
                no_index_words(context),
                " "@,
            ) && s@ == trim(lossy(stderr@))
        } else {
            r matches Ok(diff) && diff.deep_view() == (RawDiffModel::Text {
                raw: lossy(output@),
                old_total_lines: None,
            })
        },
{
    if !status_ok && output.len() == 0 {
        return Err(git_failed(&no_index_args(context), stderr));
    }
    Ok(RawDiff::Text { raw: lossy_text(output.as_slice()), old_total_lines: None })
}

/// The diff that raw material parses to. The old side's line total goes with
/// text that has hunks only.
pub open spec fn parsed_raw(raw: RawDiffModel) -> Result<FileDiffModel, Seq<char>> {
    match raw {
        RawDiffModel::TooLarge { adds, dels } => Ok(
            bare_diff(FileDiffKindModel::TooLarge { adds, dels }),
        ),
        RawDiffModel::Text { raw, old_total_lines } => match parsed_diff(raw) {
            Ok(diff) => Ok(
                if diff.kind == FileDiffKindModel::Text && diff.hunks.len() > 0 {
                    FileDiffModel { old_total_lines, ..diff }
                } else {
                    diff
                },
            ),
            Err(e) => Err(e.text()),
        },
    }
}

/// Parses raw diff material.
pub fn diff_of_raw(raw: RawDiff) -> (r: Result<FileDiff, SourceError>)
    ensures
        match parsed_raw(raw.deep_view()) {
            Ok(diff) => r matches Ok(d) && d.deep_view() == diff,
            Err(text) => r matches Err(SourceError::GitFailed { args, stderr }) && args@
                == "diff parse"@ && stderr@ == text,
        },
{
    match raw {
        RawDiff::TooLarge { adds, dels } => Ok(
            FileDiff::placeholder(FileDiffKind::TooLarge { adds, dels }),
        ),
        RawDiff::Text { raw, old_total_lines } => match parse_file_diff(raw.as_str()) {
            Ok(diff) => {
                let ghost model = diff.deep_view();
                let mut diff: FileDiff = diff;
                let text: bool = match diff.kind {
                    FileDiffKind::Text => true,
                    _ => false,
                };
                if text && diff.hunks.len() > 0 {
                    diff.old_total_lines = old_total_lines;
                    assert(diff.deep_view() =~= FileDiffModel { old_total_lines, ..model });
                }
                Ok(diff)
            },
            Err(e) => Err(
                SourceError::GitFailed { args: copy_of("diff parse"), stderr: e.message() },
            ),
        },
    }
}

// --------------------------------------------------------------------- sides

/// Why a side's path is refused before anything runs, where it is.
pub fn refused_path(path: &str) -> (r: Option<SourceError>)
    ensures
        match path_fault(path@) {
            Some(reason) => r matches Some(SourceError::InvalidPath { path: p, reason: why })
                && p@ == path@ && why == reason,
            None => r is None,
        },
{
    match check_relative_path(path) {
        Ok(_) => None,
        Err(reason) => Some(SourceError::InvalidPath { path: copy_of(path), reason }),
    }
}

/// The content of an entry of the working tree: a symlink's is its link text,
/// matching how Git itself treats a symlink blob.
pub open spec fn entry_content(entry: RootEntry) -> Seq<u8> {
    match entry {
        RootEntry::File(bytes) => bytes@,
        RootEntry::Symlink(text) => encode_utf8(text@),
    }
}

/// The content of an entry of the working tree, where it is within the limit.
pub fn side_content(entry: RootEntry, path: &str, cap: u64) -> (r: Result<Vec<u8>, SourceError>)
    ensures
        if entry_content(entry).len() <= cap {
            r matches Ok(bytes) && bytes@ == entry_content(entry)
        } else {
            r matches Err(SourceError::TooLarge { context, limit_bytes }) && context@ == "read "@
                + path@ && limit_bytes == cap
        },
{
    let bytes: Vec<u8> = match entry {
        RootEntry::File(bytes) => bytes,
        RootEntry::Symlink(text) => vstd::slice::slice_to_vec(text.as_str().as_bytes()),
    };
    if bytes.len() as u64 > cap {
        return Err(
            SourceError::TooLarge { context: text_of_two("read ", path), limit_bytes: cap },
        );
    }
    Ok(bytes)
}

/// Output that is collected up to a limit.
#[derive(Debug, Clone, PartialEq, Eq)]
pub struct CappedOutput {
    pub bytes: Vec<u8>,
    pub cap: u64,
}

impl CappedOutput {
    pub fn new(cap: u64) -> (r: Self)
        ensures
            r.bytes@ == Seq::<u8>::empty(),
            r.cap == cap,
    {
        CappedOutput { bytes: Vec::new(), cap }
    }

    /// Takes one more chunk; refuses one that would go over the limit, and
    /// keeps what it has.
    pub fn push(&mut self, chunk: &[u8], context: &str) -> (r: Result<(), SourceError>)
        ensures
            final(self).cap == old(self).cap,
            if old(self).bytes@.len() + chunk@.len() <= old(self).cap {
                r is Ok && final(self).bytes@ == old(self).bytes@ + chunk@
            } else {
                final(self).bytes@ == old(self).bytes@ && (r matches Err(
                    SourceError::TooLarge { context: c, limit_bytes },
                ) && c@ == context@ && limit_bytes == old(self).cap)
            },
    {
        let held: u64 = self.bytes.len() as u64;
        let more: u64 = chunk.len() as u64;
        if held > self.cap || more > self.cap - held {
            return Err(
                SourceError::TooLarge { context: copy_of(context), limit_bytes: self.cap },
            );
        }
        let ghost start = self.bytes@;
        let mut i: usize = 0;
        while i < chunk.len()
            invariant
                i <= chunk.len(),
                self.cap == old(self).cap,
                self.bytes@ == start + chunk@.take(i as int),
            decreases chunk.len() - i,
        {
            self.bytes.push(chunk[i]);
            assert(self.bytes@ =~= start + chunk@.take(i + 1));
            i += 1;
        }
        assert(chunk@.take(i as int) =~= chunk@);
        Ok(())
    }
}

/// What may still be read of a blob that is streamed through.
#[derive(Debug, Clone, PartialEq, Eq)]
pub struct BlobBudget {
    pub spent: u64,
    pub cap: u64,
}

impl BlobBudget {
    pub fn new(cap: u64) -> (r: Self)
        ensures
            r.spent == 0,
            r.cap == cap,
    {
        BlobBudget { spent: 0, cap }
    }

    /// Takes one more chunk of a blob; refuses one that goes over the limit.
    pub fn take_chunk(&mut self, chunk: &[u8], oid: &str) -> (r: Result<(), SourceError>)
        ensures
            final(self).cap == old(self).cap,
            if old(self).spent + chunk@.len() <= old(self).cap {
                r is Ok && final(self).spent == old(self).spent + chunk@.len()
            } else {
                final(self).spent == old(self).spent && (r matches Err(
                    SourceError::TooLarge { context: c, limit_bytes },
                ) && c@ == "read blob "@ + oid@ && limit_bytes == old(self).cap)
            },
    {
        let more: u64 = chunk.len() as u64;
        if self.spent > self.cap || more > self.cap - self.spent {
            return Err(
                SourceError::TooLarge {
                    context: text_of_two("read blob ", oid),
                    limit_bytes: self.cap,
                },
            );
        }
        self.spent += more;
        Ok(())
    }
}

/// The words of the command that lists a path's entry at an endpoint; a path of
/// the working tree is read from disk.
pub open spec fn entry_words(endpoint: EndpointModel, path: Seq<char>) -> Option<Seq<Seq<char>>> {
    match endpoint {
        EndpointModel::Worktree => None,
        EndpointModel::Index => Some(seq!["ls-files"@, "-z"@, "--stage"@, "--"@, path]),
        EndpointModel::Commit { oid } => Some(seq!["ls-tree"@, "-z"@, oid, "--"@, path]),
        EndpointModel::EmptyTree { oid } => Some(seq!["ls-tree"@, "-z"@, oid, "--"@, path]),
    }
}

/// The command that lists a path's entry at an endpoint. Pathspecs resolve
/// against the review root, for `ls-files` and `ls-tree` alike, so the path is
/// given as it is.
pub fn entry_args(endpoint: &Endpoint, path: &str) -> (r: Option<Vec<String>>)
    ensures
        r.deep_view() == entry_words(endpoint.deep_view(), path@),
{
    match endpoint {
        Endpoint::Worktree => None,
        Endpoint::Index => Some(index_entry_args(path)),
        Endpoint::Commit { oid } => Some(tree_entry_args(oid.as_str(), path)),
        Endpoint::EmptyTree { oid } => Some(tree_entry_args(oid.as_str(), path)),
    }
}

/// Where the object id stands in the entries listed at an endpoint: behind the
/// mode in the index, behind the mode and the type in a tree.
pub open spec fn oid_field(endpoint: EndpointModel) -> int {
    if endpoint is Index {
        1
    } else {
        2
    }
}

/// The object of a path's entry, from the output of the command that lists it.
pub fn entry_oid(endpoint: &Endpoint, output: &[u8]) -> (r: Option<String>)
    ensures
        r.deep_view() == word_from(nul_fields(output@), oid_field(endpoint.deep_view()), 0),
{
    let field: usize = match endpoint {
        Endpoint::Index => 1,
        _ => 2,
    };
    first_field_after_tab(output, field)
}

/// The text of a side's content; `None` where it is not UTF-8.
pub fn side_text(bytes: &[u8]) -> (r: Option<String>)
    ensures
        r.deep_view() == (if valid_utf8(bytes@) {
            Some(decode_utf8(bytes@))
        } else {
            None
        }),
{
    match utf8_text(bytes) {
        Some(text) => Some(copy_of(text)),
        None => None,
    }
}

/// The lines of a content numbered from 1, as far as they are within bounds.
pub open spec fn lines_between(content: Seq<char>, first: u32, last: u32) -> Seq<Seq<char>> {
    let all = lines_of(content);
    let from = if first == 0 {
        0
    } else {
        first - 1
    };
    let to = if last <= all.len() {
        last as int
    } else {
        all.len() as int
    };
    if content.len() == 0 || from >= to {
        Seq::empty()
    } else {
        Seq::new((to - from) as nat, |i: int| stripped_line(content, all, from + i))
    }
}

/// A line without its line ending: one carriage return before the newline is
/// part of it.
pub open spec fn stripped_line(content: Seq<char>, all: Seq<Seq<char>>, i: int) -> Seq<char> {
    if i < all.len() - 1 || (content.len() > 0 && content.last() == '\n') {
        without_cr(all[i])
    } else {
        all[i]
    }
}

/// The lines of a side's content from one number up to another, from 1 on.
pub fn side_lines(content: &str, first: u32, last: u32) -> (r: Vec<String>)
    ensures
        r.deep_view() == lines_between(content@, first, last),
{
    let ghost goal = lines_between(content@, first, last);
    let mut out: Vec<String> = Vec::new();
    let cs: Vec<char> = chars_of(content);
    if cs.len() == 0 {
        assert(out.deep_view() =~= goal);
        return out;
    }
    let ended: bool = cs[cs.len() - 1] == '\n';
    let lines: Vec<&str> = str_lines(content);
    let ghost all = strs(lines@);
    assert(all.len() == lines.len());
    let from: usize = if first == 0 {
        0
    } else {
        (first - 1) as usize
    };
    let to: usize = if last as usize <= lines.len() {
        last as usize
    } else {
        lines.len()
    };
    let mut i: usize = from;
    assert(out.deep_view() =~= Seq::empty());
    while i < to
        invariant
            from <= i,
            to <= lines.len(),
            all == strs(lines@),
            all.len() == lines.len(),
            all == lines_of(content@),
            content@.len() > 0,
            ended == (content@.last() == '\n'),
            out.deep_view().len() == i - from,
            i <= to || i == from,
            forall|k: int|
                0 <= k < i - from ==> out.deep_view()[k] == #[trigger] stripped_line(
                    content@,
                    all,
                    from + k,
                ),
        decreases to - i,
    {
        assert(all[i as int] == lines[i as int]@);
        let line: &str = if ended || i < lines.len() - 1 {
            strip_cr(lines[i])
        } else {
            lines[i]
        };
        let copy: String = copy_of(line);
        let ghost before = out.deep_view();
        out.push(copy);
        assert(out.deep_view() =~= before.push(copy@));
        assert(copy@ == stripped_line(content@, all, from + (i - from)));
        i += 1;
    }
    assert(out.deep_view() =~= goal);
    out
}

// ----------------------------------------------------------------- signature

/// Streaming FNV-1a: fed incrementally so a signature pass never buffers an
/// unbounded patch.
#[derive(Debug, Clone, Copy)]
pub struct Fnv1a {
    state: u64,
}

impl Fnv1a {
    /// Whether this is the hash of these bytes.
    pub closed spec fn hashes(self, bytes: Seq<u8>) -> bool {
        self.state == fnv64(bytes)
    }

    pub fn new() -> (r: Self)
        ensures
            r.hashes(Seq::empty()),
    {
        let none: [u8; 0] = [];
        assert(none@ =~= Seq::empty());
        Fnv1a { state: fnv1a64(none.as_slice()) }
    }

    /// Takes more bytes.
    pub fn feed(&mut self, data: &[u8])
        ensures
            forall|bytes: Seq<u8>| #[trigger]
                old(self).hashes(bytes) ==> final(self).hashes(bytes + data@),
    {
        let ghost start = self.state;
        self.state = fnv1a64_from(self.state, data);
        proof {
            assert forall|bytes: Seq<u8>| #[trigger] fnv64(bytes) == start implies fnv64(
                bytes + data@,
            ) == self.state by {
                fnv64_continues(0xcbf2_9ce4_8422_2325, bytes, data@);
            }
        }
    }

    pub fn finish(&self) -> (r: u64)
        ensures
            forall|bytes: Seq<u8>| #[trigger] self.hashes(bytes) ==> r == fnv64(bytes),
    {
        self.state
    }
}

/// What a signature starts from: the comparison itself, so that a moved ref
/// moves the signature even where no content differs.
pub open spec fn signature_head(comparison: ComparisonModel) -> Seq<u8> {
    encode_utf8("cmp\0"@) + encode_utf8(
        comparison.old.text() + ".."@ + comparison.new.text(),
    )
}

/// Starts the signature of a comparison.
pub fn start_signature(comparison: &Comparison) -> (r: Fnv1a)
    ensures
        r.hashes(signature_head(comparison.deep_view())),
{
    let mut hasher: Fnv1a = Fnv1a::new();
    let ghost none = Seq::<u8>::empty();
    let mark: &str = "cmp\0";
    let label: String = comparison.label();
    let ghost a = encode_utf8(mark@);
    let ghost b = encode_utf8(label@);
    hasher.feed(mark.as_bytes());
    assert(hasher.hashes(none + a));
    hasher.feed(label.as_str().as_bytes());
    assert(hasher.hashes(none + a + b));
    assert(none + a + b =~= a + b);
    hasher
}

/// What stands in a signature for an untracked file that is too large to be
/// read.
pub fn oversize_mark(size: u64) -> (r: String)
    ensures
        r@ == "toolarge:"@ + decimal_text(size as nat),
{
    text_of_two("toolarge:", decimal(size).as_str())
}

/// What is known of an untracked file when a signature is taken.
#[derive(Debug, Clone, PartialEq, Eq)]
pub enum UntrackedState {
    /// Its content.
    Content(Vec<u8>),
    /// It is over the limit, with its size.
    Oversize(u64),
    /// It is gone, or cannot be read.
    Unknown,
}

/// What is known of an untracked file without reading it: its size where it is
/// over the limit, nothing where it is gone or its size could not be told. `None`
/// asks for the file to be read.
pub fn unread_state(size: Option<u64>, limits: &SourceLimits) -> (r: Option<UntrackedState>)
    ensures
        match size {
            Some(n) => if n <= limits.untracked_bytes {
                r is None
            } else {
                r == Some(UntrackedState::Oversize(n))
            },
            None => r == Some(UntrackedState::Unknown),
        },
{
    match size {
        Some(n) => if n <= limits.untracked_bytes {
            None
        } else {
            Some(UntrackedState::Oversize(n))
        },
        None => Some(UntrackedState::Unknown),
    }
}

/// What an untracked file adds to a signature: its path, and its content or
/// what stands for it. A path that is not UTF-8 adds nothing.
pub open spec fn untracked_part(path: Seq<u8>, state: UntrackedState) -> Seq<u8> {
    if !valid_utf8(path) {
        Seq::empty()
    } else {
        path + match state {
            UntrackedState::Content(bytes) => bytes@,
            UntrackedState::Oversize(size) => encode_utf8("toolarge:"@ + decimal_text(size as nat)),
            UntrackedState::Unknown => Seq::empty(),
        }
    }
}

/// Adds an untracked file to a signature.
pub fn sign_untracked(hasher: &mut Fnv1a, path: &[u8], state: &UntrackedState)
    ensures
        forall|bytes: Seq<u8>| #[trigger]
            old(hasher).hashes(bytes) ==> final(hasher).hashes(
                bytes + untracked_part(path@, *state),
            ),
{
    let ghost start = *hasher;
    if utf8_text(path).is_none() {
        assert(forall|bytes: Seq<u8>| bytes + Seq::<u8>::empty() =~= bytes);
        return ;
    }
    hasher.feed(path);
    let ghost middle = *hasher;
    match state {
        UntrackedState::Content(bytes) => {
            hasher.feed(bytes.as_slice());
        },
        UntrackedState::Oversize(size) => {
            hasher.feed(oversize_mark(*size).as_str().as_bytes());
        },
        UntrackedState::Unknown => {
            assert(forall|bytes: Seq<u8>| bytes + Seq::<u8>::empty() =~= bytes);
        },
    }
    proof {
        let part = untracked_part(path@, *state);
        assert forall|bytes: Seq<u8>| #[trigger] start.hashes(bytes) implies hasher.hashes(
            bytes + part,
        ) by {
            assert(middle.hashes(bytes + path@));
            let tail = part.skip(path@.len() as int);
            assert(part =~= path@ + tail);
            assert(bytes + part =~= bytes + path@ + tail);
            match state {
                UntrackedState::Content(content) => {
                    assert(tail =~= content@);
                },
                UntrackedState::Oversize(size) => {
                    assert(tail =~= encode_utf8("toolarge:"@ + decimal_text(*size as nat)));
                },
                UntrackedState::Unknown => {
                    assert(tail =~= Seq::empty());
                    assert(bytes + path@ + tail =~= bytes + path@);
                },
            }
        }
    }
}

/// What a signature is taken of.
#[verifier::ext_equal]
pub struct SignatureModel {
    pub comparison: ComparisonModel,
    /// The patch of the tracked files.
    pub patch: Seq<u8>,
    /// What the untracked files add.
    pub untracked: Seq<u8>,
}

impl SignatureModel {
    /// The bytes that are hashed.
    pub open spec fn bytes(self) -> Seq<u8> {
        signature_head(self.comparison) + self.patch + self.untracked
    }

    /// The signature.
    pub open spec fn value(self) -> u64 {
        fnv64(self.bytes())
    }
}

/// A signature that is being taken of a patch, which comes in pieces.
pub struct PatchSigner {
    comparison: Comparison,
    hasher: Fnv1a,
    patch: Ghost<Seq<u8>>,
}

/// A signature whose patch is complete.
pub struct Signer {
    comparison: Comparison,
    hasher: Fnv1a,
    patch: Ghost<Seq<u8>>,
    untracked: Ghost<Seq<u8>>,
}

impl PatchSigner {
    /// What has been signed so far.
    pub closed spec fn model(self) -> SignatureModel {
        SignatureModel {
            comparison: self.comparison.deep_view(),
            patch: self.patch@,
            untracked: Seq::empty(),
        }
    }

    /// The hash is that of what has been signed.
    pub closed spec fn wf(self) -> bool {
        self.hasher.hashes(self.model().bytes())
    }

    pub fn new(comparison: &Comparison) -> (r: Self)
        ensures
            r.wf(),
            r.model() == (SignatureModel {
                comparison: comparison.deep_view(),
                patch: Seq::empty(),
                untracked: Seq::empty(),
            }),
    {
        let r = PatchSigner {
            comparison: comparison.clone(),
            hasher: start_signature(comparison),
            patch: Ghost(Seq::empty()),
        };
        assert(r.model().bytes() =~= signature_head(comparison.deep_view()));
        r
    }

    /// The command that writes the patch.
    pub fn args(&self) -> (r: Vec<String>)
        ensures
            r.deep_view() == signature_words(self.model().comparison),
    {
        signature_args(&self.comparison)
    }

    /// Takes the next piece of the patch.
    pub fn add(&mut self, chunk: &[u8])
        requires
            old(self).wf(),
        ensures
            final(self).wf(),
            final(self).model() == (SignatureModel {
                patch: old(self).model().patch + chunk@,
                ..old(self).model()
            }),
    {
        let ghost before = self.model();
        self.hasher.feed(chunk);
        self.patch = Ghost(self.patch@ + chunk@);
        assert(self.model().bytes() =~= before.bytes() + chunk@);
    }

    /// Ends the patch. A command that failed gives an error, never a signature
    /// of what it wrote until then.
    pub fn end(self, status_ok: bool, stderr: &[u8]) -> (r: Result<Signer, SourceError>)
        requires
            self.wf(),
        ensures
            if status_ok {
                r matches Ok(signer) && signer.wf() && signer.model() == self.model()
            } else {
                r matches Err(SourceError::GitFailed { args, stderr: said }) && args@ == join_with(
                    signature_words(self.model().comparison),
                    " "@,
                ) && said@ == trim(lossy(stderr@))
            },
    {
        if status_ok {
            Ok(
                Signer {
                    comparison: self.comparison,
                    hasher: self.hasher,
                    patch: self.patch,
                    untracked: Ghost(Seq::empty()),
                },
            )
        } else {
            Err(git_failed(&self.args(), stderr))
        }
    }
}

impl Signer {
    /// What has been signed so far.
    pub closed spec fn model(self) -> SignatureModel {
        SignatureModel {
            comparison: self.comparison.deep_view(),
            patch: self.patch@,
            untracked: self.untracked@,
        }
    }

    /// The hash is that of what has been signed.
    pub closed spec fn wf(self) -> bool {
        self.hasher.hashes(self.model().bytes())
    }

    /// Whether untracked files take part.
    pub fn wants_untracked(&self) -> (r: bool)
        ensures
            r == (self.model().comparison.new is Worktree),
    {
        self.comparison.new_is_worktree()
    }

    /// Takes the list of the untracked paths.
    pub fn add_listing(&mut self, listing: &[u8])
        requires
            old(self).wf(),
        ensures
            final(self).wf(),
            final(self).model() == (SignatureModel {
                untracked: old(self).model().untracked + listing@,
                ..old(self).model()
            }),
    {
        let ghost before = self.model();
        self.hasher.feed(listing);
        self.untracked = Ghost(self.untracked@ + listing@);
        assert(self.model().bytes() =~= before.bytes() + listing@);
    }

    /// Takes an untracked file.
    pub fn add_file(&mut self, path: &[u8], state: &UntrackedState)
        requires
            old(self).wf(),
        ensures
            final(self).wf(),
            final(self).model() == (SignatureModel {
                untracked: old(self).model().untracked + untracked_part(path@, *state),
                ..old(self).model()
            }),
    {
        let ghost before = self.model();
        sign_untracked(&mut self.hasher, path, state);
        self.untracked = Ghost(self.untracked@ + untracked_part(path@, *state));
        assert(self.model().bytes() =~= before.bytes() + untracked_part(path@, *state));
    }

    pub fn finish(&self) -> (r: u64)
        requires
            self.wf(),
        ensures
            r == self.model().value(),
    {
        self.hasher.finish()
    }
}

/// What a listing and the files that it names add to a signature.
pub open spec fn untracked_bytes(
    listing: Seq<u8>,
    files: Seq<(Seq<u8>, UntrackedState)>,
) -> Seq<u8>
    decreases files.len(),
{
    if files.len() == 0 {
        listing
    } else {
        untracked_bytes(listing, files.drop_last()) + untracked_part(
            files.last().0,
            files.last().1,
        )
    }
}

/// Whether the same is known of an untracked file.
pub open spec fn same_state(a: UntrackedState, b: UntrackedState) -> bool {
    match (a, b) {
        (UntrackedState::Content(x), UntrackedState::Content(y)) => x@ == y@,
        (UntrackedState::Oversize(x), UntrackedState::Oversize(y)) => x == y,
        (UntrackedState::Unknown, UntrackedState::Unknown) => true,
        _ => false,
    }
}

/// Whether two lists name the same untracked files with the same contents.
pub open spec fn same_files(
    a: Seq<(Seq<u8>, UntrackedState)>,
    b: Seq<(Seq<u8>, UntrackedState)>,
) -> bool {
    a.len() == b.len() && forall|i: int|
        0 <= i < a.len() ==> (#[trigger] a[i]).0 == b[i].0 && same_state(a[i].1, b[i].1)
}

proof fn lemma_same_files_add_the_same(
    listing: Seq<u8>,
    a: Seq<(Seq<u8>, UntrackedState)>,
    b: Seq<(Seq<u8>, UntrackedState)>,
)
    requires
        same_files(a, b),
    ensures
        untracked_bytes(listing, a) == untracked_bytes(listing, b),
    decreases a.len(),
{
    if a.len() > 0 {
        let x = a.drop_last();
        let y = b.drop_last();
        assert forall|i: int| 0 <= i < x.len() implies (#[trigger] x[i]).0 == y[i].0 && same_state(
            x[i].1,
            y[i].1,
        ) by {
            assert(x[i] == a[i] && y[i] == b[i]);
        }
        lemma_same_files_add_the_same(listing, x, y);
        assert(a[a.len() - 1].0 == b[b.len() - 1].0);
    }
}

/// A signature follows from content alone: the same comparison, the same patch
/// (in whatever pieces it came), the same list of untracked paths and the same
/// contents behind them give the same signature.
pub proof fn signatures_follow_content(
    a: SignatureModel,
    b: SignatureModel,
    listing: Seq<u8>,
    a_files: Seq<(Seq<u8>, UntrackedState)>,
    b_files: Seq<(Seq<u8>, UntrackedState)>,
)
    requires
        a.comparison == b.comparison,
        a.patch == b.patch,
        a.untracked == untracked_bytes(listing, a_files),
        b.untracked == untracked_bytes(listing, b_files),
        same_files(a_files, b_files),
    ensures
        a.value() == b.value(),
{
    lemma_same_files_add_the_same(listing, a_files, b_files);
}

// -------------------------------------------------------------------- the runner

/// The words of every git invocation: no pager, and paths taken literally.
pub fn runner_args(args: &[&str]) -> (r: Vec<String>)
    ensures
        r.deep_view() == seq!["--no-pager"@, "--literal-pathspecs"@] + strs(args@),
{
    let list: [&str; 2] = ["--no-pager", "--literal-pathspecs"];
    assert(strs(list@) =~= seq!["--no-pager"@, "--literal-pathspecs"@]);
    followed_by(words(list.as_slice()), words(args))
}

/// What one git invocation came to.
#[derive(Debug, Clone, PartialEq, Eq)]
pub struct RunOutput {
    pub status_ok: bool,
    pub stderr: Vec<u8>,
}

/// The verdict on an invocation that has ended: one that was killed at its
/// deadline timed out whatever else happened, then a failure to take its output
/// counts, and only then its own status.
pub fn run_verdict(
    args: &Vec<String>,
    deadline: u64,
    timed_out: bool,
    read: Result<(), SourceError>,
    status: Result<bool, SourceError>,
    stderr: Vec<u8>,
) -> (r: Result<RunOutput, SourceError>)
    ensures
        if timed_out {
            r matches Err(SourceError::Timeout { args: a, seconds }) && a@ == join_with(
                args.deep_view(),
                " "@,
            ) && seconds == deadline / 1000
        } else {
            match (read, status) {
                (Err(e), _) => r == Err::<RunOutput, SourceError>(e),
                (_, Err(e)) => r == Err::<RunOutput, SourceError>(e),
                (Ok(_), Ok(status_ok)) => r == Ok::<RunOutput, SourceError>(
                    RunOutput { status_ok, stderr },
                ),
            }
        },
{
    if timed_out {
        return Err(SourceError::Timeout { args: join_args(args), seconds: deadline / 1000 });
    }
    match read {
        Err(e) => Err(e),
        Ok(()) => match status {
            Err(e) => Err(e),
            Ok(status_ok) => Ok(RunOutput { status_ok, stderr }),
        },
    }
}

// ---------------------------------------------------------------------- laws

/// Whether entries stand in the order of their paths.
pub open spec fn in_path_order(entries: Seq<FileEntryModel>) -> bool {
    forall|i: int, j: int|
        0 <= i < j < entries.len() ==> text_le(
            (#[trigger] entries[i]).path,
            (#[trigger] entries[j]).path,
        )
}

proof fn lemma_with_entry(sorted: Seq<FileEntryModel>, entry: FileEntryModel)
    requires
        in_path_order(sorted),
    ensures
        in_path_order(with_entry(sorted, entry)),
        with_entry(sorted, entry).to_multiset() == sorted.to_multiset().insert(entry),
        forall|p: Seq<char>|
            (forall|k: int|
                0 <= k < sorted.len() ==> text_le((#[trigger] sorted[k]).path, p)) && text_le(
                entry.path,
                p,
            ) ==> forall|k: int|
                0 <= k < with_entry(sorted, entry).len() ==> text_le(
                    (#[trigger] with_entry(sorted, entry)[k]).path,
                    p,
                ),
    decreases sorted.len(),
{
    broadcast use vstd::seq_lib::group_to_multiset_ensures;

    let after = with_entry(sorted, entry);
    if sorted.len() == 0 {
        assert(sorted =~= Seq::empty());
        assert(after =~= Seq::empty().push(entry));
    } else if text_le(sorted.last().path, entry.path) {
        assert forall|i: int, j: int| 0 <= i < j < after.len() implies text_le(
            (#[trigger] after[i]).path,
            (#[trigger] after[j]).path,
        ) by {
            if j == sorted.len() && i < sorted.len() - 1 {
                assert(text_le(sorted[i].path, sorted[sorted.len() - 1].path));
                lemma_text_le_trans(sorted[i].path, sorted.last().path, entry.path);
            }
        }
    } else {
        let init = sorted.drop_last();
        let last = sorted.last();
        let head = with_entry(init, entry);
        assert forall|i: int, j: int| 0 <= i < j < init.len() implies text_le(
            (#[trigger] init[i]).path,
            (#[trigger] init[j]).path,
        ) by {
            assert(init[i] == sorted[i] && init[j] == sorted[j]);
        }
        lemma_with_entry(init, entry);
        lemma_text_le_total(last.path, entry.path);
        assert forall|k: int| 0 <= k < init.len() implies text_le(
            (#[trigger] init[k]).path,
            last.path,
        ) by {
            assert(init[k] == sorted[k] && last == sorted[sorted.len() - 1]);
        }
        assert(forall|k: int|
            0 <= k < head.len() ==> text_le((#[trigger] head[k]).path, last.path));
        assert(init.push(last) =~= sorted);
        assert(sorted.to_multiset() =~= init.to_multiset().insert(last));
        assert(after.to_multiset() =~= head.to_multiset().insert(last));
        assert(after.to_multiset() =~= sorted.to_multiset().insert(entry));
        assert forall|p: Seq<char>|
            (forall|k: int|
                0 <= k < sorted.len() ==> text_le((#[trigger] sorted[k]).path, p)) && text_le(
                entry.path,
                p,
            ) implies forall|k: int|
            0 <= k < after.len() ==> text_le((#[trigger] after[k]).path, p) by {
            assert forall|k: int| 0 <= k < init.len() implies text_le(
                (#[trigger] init[k]).path,
                p,
            ) by {
                assert(init[k] == sorted[k]);
            }
            assert(text_le(sorted[sorted.len() - 1].path, p));
        }
    }
}

/// A sorted listing holds the entries it was made of, in the order of their
/// paths.
pub proof fn listings_are_sorted(entries: Seq<FileEntryModel>)
    ensures
        in_path_order(sorted_entries(entries)),
        sorted_entries(entries).to_multiset() == entries.to_multiset(),
    decreases entries.len(),
{
    broadcast use vstd::seq_lib::group_to_multiset_ensures;

    if entries.len() == 0 {
        assert(entries =~= Seq::empty());
    } else {
        let init = entries.drop_last();
        listings_are_sorted(init);
        lemma_with_entry(sorted_entries(init), entries.last());
        assert(init.push(entries.last()) =~= entries);
        assert(entries.to_multiset() =~= init.to_multiset().insert(entries.last()));
    }
}

/// What a request asks for stands behind a `--`: git reads none of its paths
/// as an option or a revision.
pub proof fn paths_stand_behind_dashes(req: FileDiffRequest)
    ensures
        path_words(req)[0] == "--"@,
        path_words(req).last() == req.path@,
        path_words(req).len() <= 3,
        path_words(req).len() == 3 ==> req.old_path is Some && path_words(req)[1]
            == req.old_path->0@,
{
}

/// Every comparison but the plain one names its old side to git.
pub proof fn only_the_plain_comparison_has_no_words(comparison: ComparisonModel)
    ensures
        endpoint_words(comparison).len() == 0 <==> comparison == (ComparisonModel {
            old: EndpointModel::Index,
            new: EndpointModel::Worktree,
        }),
{
}

} // verus!
