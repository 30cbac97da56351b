//! The diff model: parsed hunks and the changed files of a listing.
//!
//! Each executable type has a model of the same shape over mathematical
//! values, which is its `deep_view`.

use vstd::prelude::*;

use crate::text::copy_of;

verus! {

/// The change direction of a single diff line.
#[derive(Debug, Clone, Copy, PartialEq, Eq, Structural)]
pub enum LineKind {
    Context,
    Add,
    Remove,
}

/// One parsed line of a unified diff, without its +/-/space prefix.
#[derive(Debug, Clone, PartialEq, Eq)]
pub struct DiffLine {
    /// 1-based line number in the old version; 0 for additions.
    pub old_num: u32,
    /// 1-based line number in the new version; 0 for removals.
    pub new_num: u32,
    pub kind: LineKind,
    pub content: String,
}

#[verifier::ext_equal]
pub struct DiffLineModel {
    pub old_num: u32,
    pub new_num: u32,
    pub kind: LineKind,
    pub content: Seq<char>,
}

impl DeepView for DiffLine {
    type V = DiffLineModel;

    open spec fn deep_view(&self) -> DiffLineModel {
        DiffLineModel {
            old_num: self.old_num,
            new_num: self.new_num,
            kind: self.kind,
            content: self.content@,
        }
    }
}

/// One hunk of a unified diff.
#[derive(Debug, Clone, PartialEq, Eq)]
pub struct Hunk {
    /// 1-based first line of the hunk on the old side. For insertion-only
    /// hunks git reports the line BEFORE the insertion point (may be 0 when
    /// inserting at the top of the file).
    pub old_start: u32,
    /// Number of old-side lines covered (0 for insertion-only hunks).
    pub old_len: u32,
    pub new_start: u32,
    pub new_len: u32,
    /// Function context git appends after the trailing `@@`, already trimmed.
    pub context: String,
    pub lines: Vec<DiffLine>,
}

#[verifier::ext_equal]
pub struct HunkModel {
    pub old_start: u32,
    pub old_len: u32,
    pub new_start: u32,
    pub new_len: u32,
    pub context: Seq<char>,
    pub lines: Seq<DiffLineModel>,
}

impl DeepView for Hunk {
    type V = HunkModel;

    open spec fn deep_view(&self) -> HunkModel {
        HunkModel {
            old_start: self.old_start,
            old_len: self.old_len,
            new_start: self.new_start,
            new_len: self.new_len,
            context: self.context@,
            lines: self.lines.deep_view(),
        }
    }
}

/// Whether no line holds a newline.
pub open spec fn newline_free(hunks: Seq<HunkModel>) -> bool {
    forall|h: int, k: int|
        #![trigger hunks[h].lines[k]]
        0 <= h < hunks.len() && 0 <= k < hunks[h].lines.len()
            ==> !hunks[h].lines[k].content.contains('\n')
}

/// What kind of content a file diff carries.
#[derive(Debug, PartialEq, Eq)]
pub enum FileDiffKind {
    /// Regular text diff with hunks.
    Text,
    /// Binary file; `desc` is a human-readable placeholder such as
    /// "(new binary file)".
    Binary { desc: String },
    /// Diff skipped because it exceeds the size preflight threshold.
    TooLarge { adds: u64, dels: u64 },
}

#[verifier::ext_equal]
pub enum FileDiffKindModel {
    Text,
    Binary { desc: Seq<char> },
    TooLarge { adds: u64, dels: u64 },
}

impl DeepView for FileDiffKind {
    type V = FileDiffKindModel;

    open spec fn deep_view(&self) -> FileDiffKindModel {
        match *self {
            FileDiffKind::Text => FileDiffKindModel::Text,
            FileDiffKind::Binary { desc } => FileDiffKindModel::Binary { desc: desc@ },
            FileDiffKind::TooLarge { adds, dels } => FileDiffKindModel::TooLarge { adds, dels },
        }
    }
}

impl Clone for FileDiffKind {
    fn clone(&self) -> (r: Self)
        ensures
            r.deep_view() == self.deep_view(),
    {
        match self {
            FileDiffKind::Text => FileDiffKind::Text,
            FileDiffKind::Binary { desc } => FileDiffKind::Binary { desc: copy_of(desc.as_str()) },
            FileDiffKind::TooLarge { adds, dels } => FileDiffKind::TooLarge {
                adds: *adds,
                dels: *dels,
            },
        }
    }
}

/// A parsed single-file diff.
#[derive(Debug, Clone, PartialEq, Eq)]
pub struct FileDiff {
    pub kind: FileDiffKind,
    pub hunks: Vec<Hunk>,
    /// Total line count of the old version when known; enables the trailing
    /// gap row after the last hunk. None means unknown (no trailing gap).
    pub old_total_lines: Option<u32>,
    /// True when the old version does not end with a newline.
    pub old_missing_newline: bool,
    /// True when the new version does not end with a newline.
    pub new_missing_newline: bool,
}

#[verifier::ext_equal]
pub struct FileDiffModel {
    pub kind: FileDiffKindModel,
    pub hunks: Seq<HunkModel>,
    pub old_total_lines: Option<u32>,
    pub old_missing_newline: bool,
    pub new_missing_newline: bool,
}

impl DeepView for FileDiff {
    type V = FileDiffModel;

    open spec fn deep_view(&self) -> FileDiffModel {
        FileDiffModel {
            kind: self.kind.deep_view(),
            hunks: self.hunks.deep_view(),
            old_total_lines: self.old_total_lines,
            old_missing_newline: self.old_missing_newline,
            new_missing_newline: self.new_missing_newline,
        }
    }
}

/// A diff of the given kind with nothing in it.
pub open spec fn bare_diff(kind: FileDiffKindModel) -> FileDiffModel {
    FileDiffModel {
        kind,
        hunks: Seq::empty(),
        old_total_lines: None,
        old_missing_newline: false,
        new_missing_newline: false,
    }
}

/// Number of lines of this kind in a hunk.
pub open spec fn lines_of_kind(lines: Seq<DiffLineModel>, kind: LineKind) -> nat
    decreases lines.len(),
{
    if lines.len() == 0 {
        0
    } else {
        lines_of_kind(lines.drop_last(), kind) + if lines.last().kind == kind {
            1nat
        } else {
            0
        }
    }
}

/// Number of lines of this kind over all hunks.
pub open spec fn changes_of_kind(hunks: Seq<HunkModel>, kind: LineKind) -> nat
    decreases hunks.len(),
{
    if hunks.len() == 0 {
        0
    } else {
        changes_of_kind(hunks.drop_last(), kind) + lines_of_kind(hunks.last().lines, kind)
    }
}

/// `n`, or the largest 64-bit number where it is larger.
pub open spec fn capped(n: nat) -> u64 {
    if n <= u64::MAX {
        n as u64
    } else {
        u64::MAX
    }
}

impl FileDiff {
    /// A text diff without hunks.
    pub fn empty() -> (r: Self)
        ensures
            r.deep_view() == bare_diff(FileDiffKindModel::Text),
    {
        let r = FileDiff {
            kind: FileDiffKind::Text,
            hunks: Vec::new(),
            old_total_lines: None,
            old_missing_newline: false,
            new_missing_newline: false,
        };
        assert(r.deep_view() =~= bare_diff(FileDiffKindModel::Text));
        r
    }

    /// Tally added and removed line counts across all hunks. The counters are
    /// 64 bits wide and stop at their largest value.
    pub fn count_changes(&self) -> (r: (u64, u64))
        ensures
            r.0 == capped(changes_of_kind(self.deep_view().hunks, LineKind::Add)),
            r.1 == capped(changes_of_kind(self.deep_view().hunks, LineKind::Remove)),
    {
        let ghost hunks = self.hunks.deep_view();
        let mut adds: u64 = 0;
        let mut removes: u64 = 0;
        let mut i: usize = 0;
        while i < self.hunks.len()
            invariant
                i <= self.hunks.len(),
                hunks == self.hunks.deep_view(),
                adds == capped(changes_of_kind(hunks.take(i as int), LineKind::Add)),
                removes == capped(changes_of_kind(hunks.take(i as int), LineKind::Remove)),
            decreases self.hunks.len() - i,
        {
            let lines: &Vec<DiffLine> = &self.hunks[i].lines;
            let ghost model = lines.deep_view();
            let ghost adds_before = changes_of_kind(hunks.take(i as int), LineKind::Add);
            let ghost removes_before = changes_of_kind(hunks.take(i as int), LineKind::Remove);
            let mut j: usize = 0;
            while j < lines.len()
                invariant
                    j <= lines.len(),
                    model == lines.deep_view(),
                    adds == capped(
                        adds_before + lines_of_kind(model.take(j as int), LineKind::Add),
                    ),
                    removes == capped(
                        removes_before + lines_of_kind(model.take(j as int), LineKind::Remove),
                    ),
                decreases lines.len() - j,
            {
                assert(model.take(j + 1).drop_last() =~= model.take(j as int));
                match lines[j].kind {
                    LineKind::Add => {
                        adds = adds.saturating_add(1);
                    },
                    LineKind::Remove => {
                        removes = removes.saturating_add(1);
                    },
                    LineKind::Context => {},
                }
                j += 1;
            }
            assert(model.take(model.len() as int) =~= model);
            assert(hunks.take(i + 1).drop_last() =~= hunks.take(i as int));
            i += 1;
        }
        assert(hunks.take(hunks.len() as int) =~= hunks);
        (adds, removes)
    }

    /// A placeholder diff carrying only `kind` (binary or too-large): no
    /// hunks, so it builds rows-free views through the same assembly path
    /// text diffs use.
    pub fn placeholder(kind: FileDiffKind) -> (r: Self)
        ensures
            r.deep_view() == bare_diff(kind.deep_view()),
    {
        let r = FileDiff {
            kind,
            hunks: Vec::new(),
            old_total_lines: None,
            old_missing_newline: false,
            new_missing_newline: false,
        };
        assert(r.deep_view() =~= bare_diff(kind.deep_view()));
        r
    }
}

/// The change status of a file in a diff source listing.
#[derive(Debug, Clone, Copy, PartialEq, Eq, Structural)]
pub enum FileStatus {
    Added,
    Modified,
    Deleted,
    Renamed,
    Copied,
    Untracked,
    /// Type change or any status this model does not distinguish further.
    Other,
}

/// One changed file as reported by a diff source.
#[derive(Debug, PartialEq, Eq)]
pub struct FileEntry {
    /// Path relative to the review root (new/current path for renames).
    pub path: String,
    /// Rename or copy origin; None for non-renames.
    pub old_path: Option<String>,
    pub status: FileStatus,
    /// Added line count from the numstat preflight; None for binary files.
    pub adds: Option<u64>,
    /// Removed line count from the numstat preflight; None for binary files.
    pub dels: Option<u64>,
}

#[verifier::ext_equal]
pub struct FileEntryModel {
    pub path: Seq<char>,
    pub old_path: Option<Seq<char>>,
    pub status: FileStatus,
    pub adds: Option<u64>,
    pub dels: Option<u64>,
}

impl DeepView for FileEntry {
    type V = FileEntryModel;

    open spec fn deep_view(&self) -> FileEntryModel {
        FileEntryModel {
            path: self.path@,
            old_path: self.old_path.deep_view(),
            status: self.status,
            adds: self.adds,
            dels: self.dels,
        }
    }
}

/// A copy of an optional string.
pub fn copy_option(s: &Option<String>) -> (r: Option<String>)
    ensures
        r.deep_view() == s.deep_view(),
{
    match s {
        Some(x) => Some(copy_of(x.as_str())),
        None => None,
    }
}

impl Clone for FileEntry {
    fn clone(&self) -> (r: Self)
        ensures
            r.deep_view() == self.deep_view(),
    {
        FileEntry {
            path: copy_of(self.path.as_str()),
            old_path: copy_option(&self.old_path),
            status: self.status,
            adds: self.adds,
            dels: self.dels,
        }
    }
}

/// Lines are counted hunk by hunk.
proof fn lemma_changes_concat(a: Seq<HunkModel>, b: Seq<HunkModel>, kind: LineKind)
    ensures
        changes_of_kind(a + b, kind) == changes_of_kind(a, kind) + changes_of_kind(b, kind),
    decreases b.len(),
{
    if b.len() == 0 {
        assert(a + b =~= a);
    } else {
        assert((a + b).drop_last() =~= a + b.drop_last());
        lemma_changes_concat(a, b.drop_last(), kind);
    }
}

/// The counts of a diff depend on its hunks alone, whatever its kind, and those
/// of hunks put together add up, as long as the sum fits 64 bits.
pub proof fn changes_add_up(
    a: FileDiffModel,
    b: FileDiffModel,
    both: FileDiffModel,
    kind: LineKind,
)
    requires
        both.hunks == a.hunks + b.hunks,
        changes_of_kind(both.hunks, kind) <= u64::MAX,
    ensures
        capped(changes_of_kind(both.hunks, kind)) == capped(changes_of_kind(a.hunks, kind)) + capped(
            changes_of_kind(b.hunks, kind),
        ),
        capped(changes_of_kind(both.hunks, kind)) == changes_of_kind(both.hunks, kind),
{
    lemma_changes_concat(a.hunks, b.hunks, kind);
}

} // verus!
