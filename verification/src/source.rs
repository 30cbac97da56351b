//! Diff source abstraction: the endpoint and comparison vocabulary, the error
//! type, and the trait that diff sources implement.

use vstd::prelude::*;

use crate::model::{copy_option, FileDiff, FileEntry};
use crate::review::Side;
use crate::text::{copy_of, decimal_text, push_decimal, push_text};

verus! {

/// A request for one file's diff.
#[derive(Debug, Clone, PartialEq, Eq)]
pub struct FileDiffRequest {
    /// Current path (new side for renames).
    pub path: String,
    /// Rename origin when known.
    pub old_path: Option<String>,
    /// Context lines around hunks.
    pub context: u32,
}

impl FileDiffRequest {
    pub fn for_entry(entry: &FileEntry, context: u32) -> (r: Self)
        ensures
            r.path@ == entry.path@,
            r.old_path.deep_view() == entry.old_path.deep_view(),
            r.context == context,
    {
        FileDiffRequest {
            path: copy_of(entry.path.as_str()),
            old_path: copy_option(&entry.old_path),
            context,
        }
    }

    /// The path this request addresses on `side`: the rename origin on the
    /// old side when known, the current path otherwise.
    pub fn path_on(&self, side: Side) -> (r: &str)
        ensures
            r@ == if side == Side::Old && self.old_path is Some {
                self.old_path->0@
            } else {
                self.path@
            },
    {
        match side {
            Side::Old => match &self.old_path {
                Some(old) => old.as_str(),
                None => self.path.as_str(),
            },
            Side::New => self.path.as_str(),
        }
    }
}

/// One endpoint of a [`Comparison`]: a commit tree, the well-known empty
/// tree (an unborn `HEAD`), the index, or the working tree.
#[derive(Debug, PartialEq, Eq)]
pub enum Endpoint {
    Commit { oid: String },
    EmptyTree { oid: String },
    Index,
    Worktree,
}

#[verifier::ext_equal]
pub enum EndpointModel {
    Commit { oid: Seq<char> },
    EmptyTree { oid: Seq<char> },
    Index,
    Worktree,
}

impl DeepView for Endpoint {
    type V = EndpointModel;

    open spec fn deep_view(&self) -> EndpointModel {
        match *self {
            Endpoint::Commit { oid } => EndpointModel::Commit { oid: oid@ },
            Endpoint::EmptyTree { oid } => EndpointModel::EmptyTree { oid: oid@ },
            Endpoint::Index => EndpointModel::Index,
            Endpoint::Worktree => EndpointModel::Worktree,
        }
    }
}

impl Clone for Endpoint {
    fn clone(&self) -> (r: Self)
        ensures
            r.deep_view() == self.deep_view(),
    {
        match self {
            Endpoint::Commit { oid } => Endpoint::Commit { oid: copy_of(oid.as_str()) },
            Endpoint::EmptyTree { oid } => Endpoint::EmptyTree { oid: copy_of(oid.as_str()) },
            Endpoint::Index => Endpoint::Index,
            Endpoint::Worktree => Endpoint::Worktree,
        }
    }
}

impl EndpointModel {
    pub open spec fn text(self) -> Seq<char> {
        match self {
            EndpointModel::Commit { oid } => oid,
            EndpointModel::EmptyTree { .. } => "empty"@,
            EndpointModel::Index => "index"@,
            EndpointModel::Worktree => "worktree"@,
        }
    }
}

impl Endpoint {
    /// The endpoint in one word: a commit by its oid.
    pub fn label(&self) -> (r: &str)
        ensures
            r@ == self.deep_view().text(),
    {
        match self {
            Endpoint::Commit { oid } => oid.as_str(),
            Endpoint::EmptyTree { .. } => "empty",
            Endpoint::Index => "index",
            Endpoint::Worktree => "worktree",
        }
    }
}

/// The two endpoints a diff is taken between, resolved once per open.
#[derive(Debug, PartialEq, Eq)]
pub struct Comparison {
    pub old: Endpoint,
    pub new: Endpoint,
}

#[verifier::ext_equal]
pub struct ComparisonModel {
    pub old: EndpointModel,
    pub new: EndpointModel,
}

impl DeepView for Comparison {
    type V = ComparisonModel;

    open spec fn deep_view(&self) -> ComparisonModel {
        ComparisonModel { old: self.old.deep_view(), new: self.new.deep_view() }
    }
}

impl Clone for Comparison {
    fn clone(&self) -> (r: Self)
        ensures
            r.deep_view() == self.deep_view(),
    {
        Comparison { old: self.old.clone(), new: self.new.clone() }
    }
}

impl Comparison {
    pub fn endpoint(&self, side: Side) -> (r: &Endpoint)
        ensures
            *r == if side == Side::Old {
                self.old
            } else {
                self.new
            },
    {
        match side {
            Side::Old => &self.old,
            Side::New => &self.new,
        }
    }

    /// True when the new side is the live working tree: untracked files
    /// participate, and reads go through the filesystem rather than a git
    /// object.
    pub fn new_is_worktree(&self) -> (r: bool)
        ensures
            r == (self.new == Endpoint::Worktree),
    {
        match self.new {
            Endpoint::Worktree => true,
            _ => false,
        }
    }

    /// The comparison as `old..new`.
    pub fn label(&self) -> (r: String)
        ensures
            r@ == self.deep_view().old.text() + ".."@ + self.deep_view().new.text(),
    {
        let mut out: String = copy_of(self.old.label());
        push_text(&mut out, "..");
        push_text(&mut out, self.new.label());
        out
    }
}

/// Why a candidate root-relative path was rejected before any syscall
/// touched it, or partway through the walk (`SymlinkComponent`).
#[derive(Debug, Clone, Copy, PartialEq, Eq, Structural)]
pub enum PathReason {
    Empty,
    Absolute,
    ParentComponent,
    CurrentComponent,
    EmptyComponent,
    TrailingSlash,
    ContainsNul,
    SymlinkComponent,
}

impl PathReason {
    pub open spec fn text(self) -> Seq<char> {
        match self {
            PathReason::Empty => "Empty"@,
            PathReason::Absolute => "Absolute"@,
            PathReason::ParentComponent => "ParentComponent"@,
            PathReason::CurrentComponent => "CurrentComponent"@,
            PathReason::EmptyComponent => "EmptyComponent"@,
            PathReason::TrailingSlash => "TrailingSlash"@,
            PathReason::ContainsNul => "ContainsNul"@,
            PathReason::SymlinkComponent => "SymlinkComponent"@,
        }
    }

    /// The reason's name.
    pub fn name(self) -> (r: &'static str)
        ensures
            r@ == self.text(),
    {
        match self {
            PathReason::Empty => "Empty",
            PathReason::Absolute => "Absolute",
            PathReason::ParentComponent => "ParentComponent",
            PathReason::CurrentComponent => "CurrentComponent",
            PathReason::EmptyComponent => "EmptyComponent",
            PathReason::TrailingSlash => "TrailingSlash",
            PathReason::ContainsNul => "ContainsNul",
            PathReason::SymlinkComponent => "SymlinkComponent",
        }
    }
}

/// Why a changed path was skipped from a [`Listing`] rather than reported.
#[derive(Debug, Clone, Copy, PartialEq, Eq, Structural)]
pub enum SkipReason {
    /// Either side of the path is not valid UTF-8; `SkippedPath::display`
    /// carries a `\xNN`-escaped rendering rather than a guess.
    NonUtf8,
}

/// A changed path git reported that could not be turned into a [`FileEntry`].
#[derive(Debug, Clone, PartialEq, Eq)]
pub struct SkippedPath {
    pub display: String,
    pub reason: SkipReason,
}

#[verifier::ext_equal]
pub struct SkippedPathModel {
    pub display: Seq<char>,
    pub reason: SkipReason,
}

impl DeepView for SkippedPath {
    type V = SkippedPathModel;

    open spec fn deep_view(&self) -> SkippedPathModel {
        SkippedPathModel { display: self.display@, reason: self.reason }
    }
}

/// The result of listing changed files: entries the viewer can open, plus
/// paths that were skipped and why (surfaced as warnings, never silently
/// dropped).
#[derive(Debug, Clone, PartialEq, Eq)]
pub struct Listing {
    /// Sorted by path.
    pub entries: Vec<FileEntry>,
    pub skipped: Vec<SkippedPath>,
}

impl Default for Listing {
    fn default() -> (r: Self)
        ensures
            r.entries@.len() == 0,
            r.skipped@.len() == 0,
    {
        Listing { entries: Vec::new(), skipped: Vec::new() }
    }
}

/// Errors from a diff source.
#[allow(inconsistent_fields)]
#[derive(Debug, Clone, PartialEq, Eq)]
pub enum SourceError {
    NotARepo { root: String },
    GitFailed { args: String, stderr: String },
    Io { context: String, detail: String },
    InvalidRef { spec: String },
    NoMergeBase { left: String, right: String },
    UnsupportedComparison { base: String, reason: String },
    InvalidPath { path: String, reason: PathReason },
    TooLarge { context: String, limit_bytes: u64 },
    Timeout { args: String, seconds: u64 },
}

impl SourceError {
    pub open spec fn text(self) -> Seq<char> {
        match self {
            SourceError::NotARepo { root } => "not a git repository: "@ + root@,
            SourceError::GitFailed { args, stderr } => "git "@ + args@ + " failed: "@ + stderr@,
            SourceError::Io { context, detail } => context@ + ": "@ + detail@,
            SourceError::InvalidRef { spec } => "invalid ref: "@ + spec@,
            SourceError::NoMergeBase { left, right } => "no merge base between "@ + left@
                + " and "@ + right@,
            SourceError::UnsupportedComparison { base, reason } => "unsupported comparison "@
                + base@ + ": "@ + reason@,
            SourceError::InvalidPath { path, reason } => "invalid path "@ + path@ + ": "@
                + reason.text(),
            SourceError::TooLarge { context, limit_bytes } => context@ + " exceeds "@
                + decimal_text(limit_bytes as nat) + " bytes"@,
            SourceError::Timeout { args, seconds } => "git "@ + args@ + " timed out after "@
                + decimal_text(seconds as nat) + "s"@,
        }
    }

    pub fn is_invalid_path(&self) -> (r: bool)
        ensures
            r == (self is InvalidPath),
    {
        match self {
            SourceError::InvalidPath { .. } => true,
            _ => false,
        }
    }

    /// The error in words.
    pub fn message(&self) -> (r: String)
        ensures
            r@ == self.text(),
    {
        match self {
            SourceError::NotARepo { root } => {
                let mut out: String = copy_of("not a git repository: ");
                push_text(&mut out, root.as_str());
                out
            },
            SourceError::GitFailed { args, stderr } => {
                let mut out: String = copy_of("git ");
                push_text(&mut out, args.as_str());
                push_text(&mut out, " failed: ");
                push_text(&mut out, stderr.as_str());
                out
            },
            SourceError::Io { context, detail } => {
                let mut out: String = copy_of(context.as_str());
                push_text(&mut out, ": ");
                push_text(&mut out, detail.as_str());
                out
            },
            SourceError::InvalidRef { spec } => {
                let mut out: String = copy_of("invalid ref: ");
                push_text(&mut out, spec.as_str());
                out
            },
            SourceError::NoMergeBase { left, right } => {
                let mut out: String = copy_of("no merge base between ");
                push_text(&mut out, left.as_str());
                push_text(&mut out, " and ");
                push_text(&mut out, right.as_str());
                out
            },
            SourceError::UnsupportedComparison { base, reason } => {
                let mut out: String = copy_of("unsupported comparison ");
                push_text(&mut out, base.as_str());
                push_text(&mut out, ": ");
                push_text(&mut out, reason.as_str());
                out
            },
            SourceError::InvalidPath { path, reason } => {
                let mut out: String = copy_of("invalid path ");
                push_text(&mut out, path.as_str());
                push_text(&mut out, ": ");
                push_text(&mut out, reason.name());
                out
            },
            SourceError::TooLarge { context, limit_bytes } => {
                let mut out: String = copy_of(context.as_str());
                push_text(&mut out, " exceeds ");
                push_decimal(&mut out, *limit_bytes);
                push_text(&mut out, " bytes");
                out
            },
            SourceError::Timeout { args, seconds } => {
                let mut out: String = copy_of("git ");
                push_text(&mut out, args.as_str());
                push_text(&mut out, " timed out after ");
                push_decimal(&mut out, *seconds);
                push_text(&mut out, "s");
                out
            },
        }
    }
}

/// A pluggable diff source.
pub trait DiffSource {
    /// List changed files with statuses and numstat counts, plus any paths
    /// skipped as unrepresentable (non-UTF-8).
    fn listing(&self) -> Result<Listing, SourceError>;

    /// Produce one file's parsed diff.
    fn file_diff(&self, req: &FileDiffRequest) -> Result<FileDiff, SourceError>;

    /// Read a whole side's content of `path` (the path AS IT EXISTS on that
    /// side: the rename origin for the old side of a rename). `Ok(None)`
    /// means the path does not exist on that side.
    fn read_side(&self, side: Side, path: &str) -> Result<Option<String>, SourceError>;

    /// Read a 1-based inclusive line range of a side's content, without
    /// requiring the whole file. `Ok(None)` means the path does not exist on
    /// that side.
    fn read_side_lines(&self, side: Side, path: &str, first: u32, last: u32) -> Result<
        Option<Vec<String>>,
        SourceError,
    >;
}

} // verus!
