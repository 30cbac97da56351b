//! The review file: schema, strict input validation, and revision
//! bookkeeping. Reading and writing its JSON form is in
//! [`crate::review_json`].
//!
//! `.ambidiff.json` is the source of truth AND the sync bus: every engine
//! watches it and agents edit it directly. Comments created through a CLI or
//! UI are validated before they enter the file.

use vstd::prelude::*;

use crate::json::{Json, JsonMap, JsonModel, MemberModel};
pub use crate::lifecycle::{Action, Actor, Status};
use crate::lifecycle::{next_status, transition, LifecycleError, LifecycleErrorModel};
use crate::model::copy_option;
pub use crate::review_json::{parse_review, to_json, LoadOutcome};
use crate::stack::{TargetId, TargetIdModel};
use crate::text::{
    blank, chars_of, copy_of, debug_text, decimal, decimal_text, find_text, is_blank,
    lemma_find_text_from, occurs_at, quoted, same_chars, same_text, squeeze, squeezed,
    starts_with, text_of_three, text_of_two,
};

verus! {

/// Schema major this build writes.
pub const SCHEMA_MAJOR: u64 = 1;

/// File name of the review file at the review root.
pub const REVIEW_FILE_NAME: &'static str = ".ambidiff.json";

/// File name of the create-exclusive lock sidecar (the ownership record).
pub const LOCK_FILE_NAME: &'static str = ".ambidiff.json.lock";

/// File name of the persistent, never-unlinked lock guard. The sidecar is
/// unlinked and recreated, so a lock on its path may be on a different file
/// than another process holds. The guard file is created once and never
/// removed: creation, stale recovery, and release of the sidecar all happen
/// while holding an OS lock on the guard.
pub const GUARD_FILE_NAME: &'static str = ".ambidiff.json.guard";

/// Prefix of a same-directory temp file used for atomic review-file writes.
pub const TMP_FILE_PREFIX: &'static str = ".ambidiff.json.tmp.";

/// Whether a file name is one of the tool's own sidecars.
pub open spec fn sidecar_name(name: Seq<char>) -> bool {
    name == LOCK_FILE_NAME@ || name == GUARD_FILE_NAME@ || TMP_FILE_PREFIX@.is_prefix_of(name)
}

/// True when `name` is one of the tool's own review-directory sidecars
/// (lock, guard, or a write's temp file) rather than the review file itself
/// or unrelated tree content. Used by the watcher to ignore its own churn.
pub fn is_review_sidecar(name: &str) -> (r: bool)
    ensures
        r == sidecar_name(name@),
{
    same_text(name, LOCK_FILE_NAME) || same_text(name, GUARD_FILE_NAME) || starts_with(
        chars_of(name).as_slice(),
        TMP_FILE_PREFIX,
    )
}

/// Which side of the diff a line comment anchors to. Removed lines anchor
/// old-side numbers; added and context lines anchor new-side.
#[derive(Debug, Clone, Copy, PartialEq, Eq, Structural)]
pub enum Side {
    Old,
    New,
}

/// The diff source recorded in the review file. Git is the only kind this
/// build opens; unknown kinds survive round-trips untouched.
#[derive(Debug, PartialEq, Eq)]
pub struct Source {
    pub kind: String,
    pub base: Option<String>,
    pub extra: JsonMap,
}

#[verifier::ext_equal]
pub struct SourceModel {
    pub kind: Seq<char>,
    pub base: Option<Seq<char>>,
    pub extra: Seq<MemberModel>,
}

impl DeepView for Source {
    type V = SourceModel;

    open spec fn deep_view(&self) -> SourceModel {
        SourceModel {
            kind: self.kind@,
            base: self.base.deep_view(),
            extra: self.extra.deep_view(),
        }
    }
}

impl Clone for Source {
    fn clone(&self) -> (r: Self)
        ensures
            r.deep_view() == self.deep_view(),
    {
        Source {
            kind: copy_of(self.kind.as_str()),
            base: copy_option(&self.base),
            extra: self.extra.clone(),
        }
    }
}

/// A git source.
pub open spec fn git_source(base: Option<Seq<char>>) -> SourceModel {
    SourceModel { kind: "git"@, base, extra: Seq::empty() }
}

impl Source {
    pub fn git(base: Option<String>) -> (r: Self)
        ensures
            r.deep_view() == git_source(base.deep_view()),
    {
        Source { kind: copy_of("git"), base, extra: JsonMap::new() }
    }
}

/// One review comment. Anchor levels via nulls: `path: null` is
/// review-level, `line: null` is file-level, otherwise a line or range.
#[derive(Debug, PartialEq, Eq)]
pub struct Comment {
    pub id: String,
    /// Review pass this comment was raised in (provenance; never mutated by
    /// reopen).
    pub rev: u32,
    pub status: Status,
    pub path: Option<String>,
    pub side: Option<Side>,
    pub line: Option<u32>,
    pub end_line: Option<u32>,
    /// Source text captured at comment time; drift detection compares it
    /// whitespace-insensitively against the current line.
    pub snippet: Option<String>,
    pub body: String,
    /// Agent's one-line response recorded when addressing.
    pub response: Option<String>,
    pub author: String,
    pub created_at: String,
    pub updated_at: String,
    /// The stack target the comment was made on; None outside stacks.
    pub target: Option<TargetId>,
    pub extra: JsonMap,
}

#[verifier::ext_equal]
pub struct CommentModel {
    pub id: Seq<char>,
    pub rev: u32,
    pub status: Status,
    pub path: Option<Seq<char>>,
    pub side: Option<Side>,
    pub line: Option<u32>,
    pub end_line: Option<u32>,
    pub snippet: Option<Seq<char>>,
    pub body: Seq<char>,
    pub response: Option<Seq<char>>,
    pub author: Seq<char>,
    pub created_at: Seq<char>,
    pub updated_at: Seq<char>,
    pub target: Option<TargetIdModel>,
    pub extra: Seq<MemberModel>,
}

impl DeepView for Comment {
    type V = CommentModel;

    open spec fn deep_view(&self) -> CommentModel {
        CommentModel {
            id: self.id@,
            rev: self.rev,
            status: self.status,
            path: self.path.deep_view(),
            side: self.side,
            line: self.line,
            end_line: self.end_line,
            snippet: self.snippet.deep_view(),
            body: self.body@,
            response: self.response.deep_view(),
            author: self.author@,
            created_at: self.created_at@,
            updated_at: self.updated_at@,
            target: self.target.deep_view(),
            extra: self.extra.deep_view(),
        }
    }
}

/// A copy of an optional target.
pub fn copy_target(target: &Option<TargetId>) -> (r: Option<TargetId>)
    ensures
        r.deep_view() == target.deep_view(),
{
    match target {
        Some(t) => Some(t.clone()),
        None => None,
    }
}

impl Clone for Comment {
    fn clone(&self) -> (r: Self)
        ensures
            r.deep_view() == self.deep_view(),
    {
        Comment {
            id: copy_of(self.id.as_str()),
            rev: self.rev,
            status: self.status,
            path: copy_option(&self.path),
            side: self.side,
            line: self.line,
            end_line: self.end_line,
            snippet: copy_option(&self.snippet),
            body: copy_of(self.body.as_str()),
            response: copy_option(&self.response),
            author: copy_of(self.author.as_str()),
            created_at: copy_of(self.created_at.as_str()),
            updated_at: copy_of(self.updated_at.as_str()),
            target: copy_target(&self.target),
            extra: self.extra.clone(),
        }
    }
}

impl CommentModel {
    /// Whether the body asks a question (the `??` convention).
    pub open spec fn question(self) -> bool {
        exists|i: int| occurs_at(self.body, "??"@, i)
    }
}

impl Comment {
    /// True when the comment body asks a question rather than giving a
    /// directive (the `??` convention).
    pub fn is_question(&self) -> (r: bool)
        ensures
            r == self.deep_view().question(),
    {
        let body: Vec<char> = chars_of(self.body.as_str());
        let mark: Vec<char> = chars_of("??");
        proof {
            lemma_find_text_from(body@, "??"@, 0);
        }
        match find_text(body.as_slice(), mark.as_slice(), 0) {
            Some(i) => {
                assert(occurs_at(self.deep_view().body, "??"@, i as int));
                true
            },
            None => {
                assert forall|i: int| !occurs_at(self.deep_view().body, "??"@, i) by {}
                false
            },
        }
    }
}

/// Tallies per status.
#[derive(Debug, Clone, Copy, PartialEq, Eq, Structural)]
pub struct StatusCounts {
    pub open: usize,
    pub addressed: usize,
    pub resolved: usize,
    pub reopened: usize,
}

impl Default for StatusCounts {
    fn default() -> (r: Self)
        ensures
            r == (StatusCounts { open: 0, addressed: 0, resolved: 0, reopened: 0 }),
    {
        StatusCounts { open: 0, addressed: 0, resolved: 0, reopened: 0 }
    }
}

impl StatusCounts {
    pub fn todo(&self) -> (r: usize)
        requires
            self.open + self.reopened <= usize::MAX,
        ensures
            r == self.open + self.reopened,
    {
        self.open + self.reopened
    }

    pub fn total(&self) -> (r: usize)
        requires
            self.open + self.addressed + self.resolved + self.reopened <= usize::MAX,
        ensures
            r == self.open + self.addressed + self.resolved + self.reopened,
    {
        self.open + self.addressed + self.resolved + self.reopened
    }
}

/// The parsed review file.
#[derive(Debug, PartialEq, Eq)]
pub struct ReviewFile {
    pub ambidiff: u64,
    pub review: String,
    pub revision: u32,
    pub source: Source,
    pub created_at: String,
    pub updated_at: String,
    pub comments: Vec<Comment>,
    /// Records that failed validation on load, preserved verbatim so no
    /// agent- or human-authored data is ever silently destroyed.
    pub quarantined: Vec<Json>,
    pub extra: JsonMap,
}

#[verifier::ext_equal]
pub struct ReviewModel {
    pub ambidiff: u64,
    pub review: Seq<char>,
    pub revision: u32,
    pub source: SourceModel,
    pub created_at: Seq<char>,
    pub updated_at: Seq<char>,
    pub comments: Seq<CommentModel>,
    pub quarantined: Seq<JsonModel>,
    pub extra: Seq<MemberModel>,
}

impl DeepView for ReviewFile {
    type V = ReviewModel;

    open spec fn deep_view(&self) -> ReviewModel {
        ReviewModel {
            ambidiff: self.ambidiff,
            review: self.review@,
            revision: self.revision,
            source: self.source.deep_view(),
            created_at: self.created_at@,
            updated_at: self.updated_at@,
            comments: self.comments.deep_view(),
            quarantined: self.quarantined.deep_view(),
            extra: self.extra.deep_view(),
        }
    }
}

/// A copy of a list of comments.
pub fn copy_comments(comments: &Vec<Comment>) -> (r: Vec<Comment>)
    ensures
        r.deep_view() == comments.deep_view(),
{
    let mut out: Vec<Comment> = Vec::new();
    let mut i: usize = 0;
    while i < comments.len()
        invariant
            i <= comments.len(),
            out.len() == i,
            forall|k: int|
                0 <= k < i ==> (#[trigger] out@[k]).deep_view() == comments@[k].deep_view(),
        decreases comments.len() - i,
    {
        out.push(comments[i].clone());
        i += 1;
    }
    assert(out.deep_view() =~= comments.deep_view());
    out
}

/// A copy of a list of documents.
pub fn copy_documents(docs: &Vec<Json>) -> (r: Vec<Json>)
    ensures
        r.deep_view() == docs.deep_view(),
{
    let mut out: Vec<Json> = Vec::new();
    let mut i: usize = 0;
    while i < docs.len()
        invariant
            i <= docs.len(),
            out.len() == i,
            forall|k: int| 0 <= k < i ==> (#[trigger] out@[k]).model() == docs@[k].model(),
        decreases docs.len() - i,
    {
        out.push(docs[i].clone());
        i += 1;
    }
    assert(out.deep_view() =~= docs.deep_view());
    out
}

impl Clone for ReviewFile {
    fn clone(&self) -> (r: Self)
        ensures
            r.deep_view() == self.deep_view(),
    {
        ReviewFile {
            ambidiff: self.ambidiff,
            review: copy_of(self.review.as_str()),
            revision: self.revision,
            source: self.source.clone(),
            created_at: copy_of(self.created_at.as_str()),
            updated_at: copy_of(self.updated_at.as_str()),
            comments: copy_comments(&self.comments),
            quarantined: copy_documents(&self.quarantined),
            extra: self.extra.clone(),
        }
    }
}

/// Number of comments in a status.
pub open spec fn count_status(comments: Seq<CommentModel>, status: Status) -> nat
    decreases comments.len(),
{
    if comments.len() == 0 {
        0
    } else {
        count_status(comments.drop_last(), status) + if comments.last().status == status {
            1nat
        } else {
            0
        }
    }
}

/// Position of the first comment with this id; the length where none has it.
pub open spec fn comment_index(comments: Seq<CommentModel>, id: Seq<char>) -> int
    decreases comments.len(),
{
    if comments.len() == 0 {
        0
    } else {
        let before = comment_index(comments.drop_last(), id);
        if before < comments.len() - 1 || comments.last().id == id {
            before
        } else {
            comments.len() as int
        }
    }
}

/// What `comment_index` means, without recursion.
pub proof fn lemma_comment_index(comments: Seq<CommentModel>, id: Seq<char>)
    ensures
        0 <= comment_index(comments, id) <= comments.len(),
        comment_index(comments, id) < comments.len() ==> comments[comment_index(
            comments,
            id,
        )].id == id,
        forall|k: int|
            0 <= k < comment_index(comments, id) ==> (#[trigger] comments[k]).id != id,
    decreases comments.len(),
{
    if comments.len() > 0 {
        lemma_comment_index(comments.drop_last(), id);
        assert forall|k: int| 0 <= k < comment_index(comments, id) implies (
        #[trigger] comments[k]).id != id by {
            if k < comments.len() - 1 {
                assert(comments.drop_last()[k].id == comments[k].id);
            }
        }
    }
}

proof fn lemma_comment_index_is(comments: Seq<CommentModel>, id: Seq<char>, i: int)
    requires
        0 <= i <= comments.len(),
        forall|k: int| 0 <= k < i ==> (#[trigger] comments[k]).id != id,
        i < comments.len() ==> comments[i].id == id,
    ensures
        comment_index(comments, id) == i,
{
    lemma_comment_index(comments, id);
    let j = comment_index(comments, id);
    if j < i {
        assert(comments[j].id != id);
    } else if i < j {
        assert(comments[i].id != id);
    }
}

/// Whether no id stands twice.
pub open spec fn distinct_ids(comments: Seq<CommentModel>) -> bool {
    forall|i: int, j: int|
        0 <= i < j < comments.len() ==> (#[trigger] comments[i]).id != (#[trigger] comments[j]).id
}

impl ReviewModel {
    /// A pass is complete when there are comments and none is outstanding.
    pub open spec fn pass_complete(self) -> bool {
        self.comments.len() > 0 && forall|i: int|
            0 <= i < self.comments.len() ==> !(#[trigger] self.comments[i]).status.todo()
    }
}

impl ReviewFile {
    pub fn new(review: String, source: Source, now: &str) -> (r: Self)
        ensures
            r.deep_view() == (ReviewModel {
                ambidiff: SCHEMA_MAJOR,
                review: review@,
                revision: 1,
                source: source.deep_view(),
                created_at: now@,
                updated_at: now@,
                comments: Seq::empty(),
                quarantined: Seq::empty(),
                extra: Seq::empty(),
            }),
    {
        let r = ReviewFile {
            ambidiff: SCHEMA_MAJOR,
            review,
            revision: 1,
            source,
            created_at: copy_of(now),
            updated_at: copy_of(now),
            comments: Vec::new(),
            quarantined: Vec::new(),
            extra: JsonMap::new(),
        };
        assert(r.deep_view().comments =~= Seq::empty());
        assert(r.deep_view().quarantined =~= Seq::empty());
        r
    }

    pub fn counts(&self) -> (r: StatusCounts)
        ensures
            r.open == count_status(self.deep_view().comments, Status::Open),
            r.addressed == count_status(self.deep_view().comments, Status::Addressed),
            r.resolved == count_status(self.deep_view().comments, Status::Resolved),
            r.reopened == count_status(self.deep_view().comments, Status::Reopened),
            r.open + r.addressed + r.resolved + r.reopened == self.comments@.len(),
    {
        let ghost comments = self.deep_view().comments;
        let mut c: StatusCounts = StatusCounts::default();
        let mut i: usize = 0;
        while i < self.comments.len()
            invariant
                i <= self.comments.len(),
                comments == self.deep_view().comments,
                c.open == count_status(comments.take(i as int), Status::Open),
                c.addressed == count_status(comments.take(i as int), Status::Addressed),
                c.resolved == count_status(comments.take(i as int), Status::Resolved),
                c.reopened == count_status(comments.take(i as int), Status::Reopened),
                c.open + c.addressed + c.resolved + c.reopened == i,
            decreases self.comments.len() - i,
        {
            assert(comments[i as int] == self.comments[i as int].deep_view());
            assert(comments.take(i + 1).drop_last() =~= comments.take(i as int));
            match self.comments[i].status {
                Status::Open => {
                    c.open = c.open + 1;
                },
                Status::Addressed => {
                    c.addressed = c.addressed + 1;
                },
                Status::Resolved => {
                    c.resolved = c.resolved + 1;
                },
                Status::Reopened => {
                    c.reopened = c.reopened + 1;
                },
            }
            i += 1;
        }
        assert(comments.take(comments.len() as int) =~= comments);
        c
    }

    fn index_of(&self, id: &str) -> (r: usize)
        ensures
            r == comment_index(self.deep_view().comments, id@),
            r <= self.comments.len(),
    {
        let ghost comments = self.deep_view().comments;
        let mut i: usize = 0;
        while i < self.comments.len()
            invariant
                i <= self.comments.len(),
                comments == self.deep_view().comments,
                forall|k: int| 0 <= k < i ==> (#[trigger] comments[k]).id != id@,
            decreases self.comments.len() - i,
        {
            assert(comments[i as int] == self.comments[i as int].deep_view());
            if same_text(self.comments[i].id.as_str(), id) {
                proof {
                    lemma_comment_index_is(comments, id@, i as int);
                }
                return i;
            }
            i += 1;
        }
        proof {
            lemma_comment_index_is(comments, id@, i as int);
        }
        i
    }

    pub fn find_comment(&self, id: &str) -> (r: Option<&Comment>)
        ensures
            ({
                let i = comment_index(self.deep_view().comments, id@);
                if i < self.comments.len() {
                    r == Some(&self.comments[i])
                } else {
                    r is None
                }
            }),
    {
        let i: usize = self.index_of(id);
        if i < self.comments.len() {
            Some(&self.comments[i])
        } else {
            None
        }
    }

    /// A new pass opens when review activity lands while nothing is
    /// outstanding: the previous pass's comments are all addressed or
    /// resolved (the agent finished), so the next human comment or reopen
    /// starts pass N+1.
    fn pass_is_complete(&self) -> (r: bool)
        ensures
            r == self.deep_view().pass_complete(),
    {
        let ghost comments = self.deep_view().comments;
        if self.comments.len() == 0 {
            return false;
        }
        let mut i: usize = 0;
        while i < self.comments.len()
            invariant
                i <= self.comments.len(),
                comments == self.deep_view().comments,
                forall|k: int| 0 <= k < i ==> !(#[trigger] comments[k]).status.todo(),
            decreases self.comments.len() - i,
        {
            assert(comments[i as int] == self.comments[i as int].deep_view());
            if self.comments[i].status.is_todo() {
                return false;
            }
            i += 1;
        }
        true
    }

    /// The revision the next pass-opening event would use, checked against
    /// overflow. `u32::MAX` cannot be incremented further.
    pub fn next_revision(&self) -> (r: Result<u32, ReviewError>)
        ensures
            if self.revision < u32::MAX {
                r == Ok::<u32, ReviewError>((self.revision + 1) as u32)
            } else {
                r == Err::<u32, ReviewError>(ReviewError::RevisionExhausted)
            },
    {
        if self.revision < u32::MAX {
            Ok(self.revision + 1)
        } else {
            Err(ReviewError::RevisionExhausted)
        }
    }
}

/// Input for a new comment, validated by [`validate_new_comment`] before it
/// reaches [`ReviewFile::try_add_comment`].
#[derive(Debug, Clone, PartialEq, Eq)]
pub struct NewComment {
    pub path: Option<String>,
    pub side: Option<Side>,
    pub line: Option<u32>,
    pub end_line: Option<u32>,
    pub snippet: Option<String>,
    pub body: String,
    pub author: String,
}

#[verifier::ext_equal]
pub struct NewCommentModel {
    pub path: Option<Seq<char>>,
    pub side: Option<Side>,
    pub line: Option<u32>,
    pub end_line: Option<u32>,
    pub snippet: Option<Seq<char>>,
    pub body: Seq<char>,
    pub author: Seq<char>,
}

impl DeepView for NewComment {
    type V = NewCommentModel;

    open spec fn deep_view(&self) -> NewCommentModel {
        NewCommentModel {
            path: self.path.deep_view(),
            side: self.side,
            line: self.line,
            end_line: self.end_line,
            snippet: self.snippet.deep_view(),
            body: self.body@,
            author: self.author@,
        }
    }
}

/// Errors from review file operations.
#[derive(Debug, Clone, PartialEq, Eq)]
pub enum ReviewError {
    Json { msg: String },
    NotAnObject,
    SchemaTooNew { found: u64 },
    CommentNotFound { id: String },
    Lifecycle(LifecycleError),
    Validation { msg: String },
    RevisionExhausted,
    DuplicateId { id: String },
    Serialize { msg: String },
}

#[verifier::ext_equal]
pub enum ReviewErrorModel {
    Json { msg: Seq<char> },
    NotAnObject,
    SchemaTooNew { found: u64 },
    CommentNotFound { id: Seq<char> },
    Lifecycle(LifecycleErrorModel),
    Validation { msg: Seq<char> },
    RevisionExhausted,
    DuplicateId { id: Seq<char> },
    Serialize { msg: Seq<char> },
}

impl DeepView for ReviewError {
    type V = ReviewErrorModel;

    open spec fn deep_view(&self) -> ReviewErrorModel {
        match *self {
            ReviewError::Json { msg } => ReviewErrorModel::Json { msg: msg@ },
            ReviewError::NotAnObject => ReviewErrorModel::NotAnObject,
            ReviewError::SchemaTooNew { found } => ReviewErrorModel::SchemaTooNew { found },
            ReviewError::CommentNotFound { id } => ReviewErrorModel::CommentNotFound { id: id@ },
            ReviewError::Lifecycle(e) => ReviewErrorModel::Lifecycle(e.deep_view()),
            ReviewError::Validation { msg } => ReviewErrorModel::Validation { msg: msg@ },
            ReviewError::RevisionExhausted => ReviewErrorModel::RevisionExhausted,
            ReviewError::DuplicateId { id } => ReviewErrorModel::DuplicateId { id: id@ },
            ReviewError::Serialize { msg } => ReviewErrorModel::Serialize { msg: msg@ },
        }
    }
}

impl ReviewErrorModel {
    pub open spec fn text(self) -> Seq<char> {
        match self {
            ReviewErrorModel::Json { msg } => "review file is not valid JSON: "@ + msg,
            ReviewErrorModel::NotAnObject => "review file root is not a JSON object"@,
            ReviewErrorModel::SchemaTooNew { found } =>
                "review file was written by a newer ambidiff (schema "@ + decimal_text(
                found as nat,
            ) + ", this build understands 1); refusing to modify it"@,
            ReviewErrorModel::CommentNotFound { id } => "no comment with id "@ + id,
            ReviewErrorModel::Lifecycle(e) => e.text(),
            ReviewErrorModel::Validation { msg } => "invalid comment: "@ + msg,
            ReviewErrorModel::RevisionExhausted =>
                "revision counter exhausted (already at u32::MAX)"@,
            ReviewErrorModel::DuplicateId { id } => "duplicate comment id "@ + id,
            ReviewErrorModel::Serialize { msg } => "could not serialize review file: "@ + msg,
        }
    }
}

impl ReviewError {
    /// The error in words.
    pub fn message(&self) -> (r: String)
        ensures
            r@ == self.deep_view().text(),
    {
        match self {
            ReviewError::Json { msg } => text_of_two(
                "review file is not valid JSON: ",
                msg.as_str(),
            ),
            ReviewError::NotAnObject => copy_of("review file root is not a JSON object"),
            ReviewError::SchemaTooNew { found } => text_of_three(
                "review file was written by a newer ambidiff (schema ",
                decimal(*found).as_str(),
                ", this build understands 1); refusing to modify it",
            ),
            ReviewError::CommentNotFound { id } => text_of_two("no comment with id ", id.as_str()),
            ReviewError::Lifecycle(e) => e.message(),
            ReviewError::Validation { msg } => text_of_two("invalid comment: ", msg.as_str()),
            ReviewError::RevisionExhausted => copy_of(
                "revision counter exhausted (already at u32::MAX)",
            ),
            ReviewError::DuplicateId { id } => text_of_two("duplicate comment id ", id.as_str()),
            ReviewError::Serialize { msg } => text_of_two(
                "could not serialize review file: ",
                msg.as_str(),
            ),
        }
    }
}

/// What is wrong with a new comment: the first rule that it breaks.
pub open spec fn new_comment_fault(new: NewCommentModel) -> Option<Seq<char>> {
    if blank(new.body) {
        Some("body must not be empty"@)
    } else if new.path is None && (new.line is Some || new.end_line is Some) {
        Some("a line requires a file path"@)
    } else if new.path is None && new.side is Some {
        Some("a side requires a file path and line"@)
    } else if new.line is None && new.end_line is Some {
        Some("endLine requires line"@)
    } else if new.line is None && new.side is Some {
        Some("a side requires a line"@)
    } else if new.line == Some(0u32) {
        Some("line numbers are 1-based"@)
    } else if new.line is Some && new.end_line is Some && new.end_line->0 < new.line->0 {
        Some("endLine must be >= line"@)
    } else if new.path is Some && new.path->0.len() == 0 {
        Some("path must not be empty"@)
    } else {
        None
    }
}

fn invalid(msg: &str) -> (r: Result<(), ReviewError>)
    ensures
        r matches Err(e) && e.deep_view() == (ReviewErrorModel::Validation { msg: msg@ }),
{
    Err(ReviewError::Validation { msg: copy_of(msg) })
}

/// Strict validation for comments entering through the CLI/UI boundary.
pub fn validate_new_comment(new: &NewComment) -> (r: Result<(), ReviewError>)
    ensures
        match new_comment_fault(new.deep_view()) {
            None => r is Ok,
            Some(msg) => r matches Err(e) && e.deep_view() == (ReviewErrorModel::Validation {
                msg,
            }),
        },
{
    if is_blank(new.body.as_str()) {
        return invalid("body must not be empty");
    }
    if new.path.is_none() {
        if new.line.is_some() || new.end_line.is_some() {
            return invalid("a line requires a file path");
        }
        if new.side.is_some() {
            return invalid("a side requires a file path and line");
        }
    }
    match new.line {
        None => {
            if new.end_line.is_some() {
                return invalid("endLine requires line");
            }
            if new.side.is_some() {
                return invalid("a side requires a line");
            }
        },
        Some(line) => {
            if line == 0 {
                return invalid("line numbers are 1-based");
            }
            if let Some(end) = new.end_line {
                if end < line {
                    return invalid("endLine must be >= line");
                }
            }
        },
    }
    if let Some(path) = &new.path {
        if path.as_str().is_empty() {
            return invalid("path must not be empty");
        }
    }
    Ok(())
}

// ---------------------------------------------------------------- operations

/// The comment that a new comment becomes.
pub open spec fn opened_comment(
    new: NewCommentModel,
    id: Seq<char>,
    rev: u32,
    now: Seq<char>,
) -> CommentModel {
    CommentModel {
        id,
        rev,
        status: Status::Open,
        path: new.path,
        side: new.side,
        line: new.line,
        end_line: new.end_line,
        snippet: new.snippet,
        body: new.body,
        response: None,
        author: new.author,
        created_at: now,
        updated_at: now,
        target: None,
        extra: Seq::empty(),
    }
}

impl ReviewModel {
    /// The revision in which activity that lands now is recorded, where the
    /// counter has room: the next one when it opens a new pass.
    pub open spec fn activity_revision(self) -> Option<u32> {
        if !self.pass_complete() {
            Some(self.revision)
        } else if self.revision < u32::MAX {
            Some((self.revision + 1) as u32)
        } else {
            None
        }
    }

    /// The review with a comment added.
    pub open spec fn with_comment(
        self,
        new: NewCommentModel,
        id: Seq<char>,
        now: Seq<char>,
    ) -> Result<ReviewModel, ReviewErrorModel> {
        match new_comment_fault(new) {
            Some(msg) => Err(ReviewErrorModel::Validation { msg }),
            None => if comment_index(self.comments, id) < self.comments.len() {
                Err(ReviewErrorModel::DuplicateId { id })
            } else {
                match self.activity_revision() {
                    None => Err(ReviewErrorModel::RevisionExhausted),
                    Some(rev) => Ok(
                        ReviewModel {
                            revision: rev,
                            updated_at: now,
                            comments: self.comments.push(opened_comment(new, id, rev, now)),
                            ..self
                        },
                    ),
                }
            },
        }
    }

    /// The review with the body of a comment replaced.
    pub open spec fn with_body(self, id: Seq<char>, body: Seq<char>, now: Seq<char>) -> Result<
        ReviewModel,
        ReviewErrorModel,
    > {
        let i = comment_index(self.comments, id);
        if blank(body) {
            Err(ReviewErrorModel::Validation { msg: "body must not be empty"@ })
        } else if i >= self.comments.len() {
            Err(ReviewErrorModel::CommentNotFound { id })
        } else {
            Ok(
                ReviewModel {
                    updated_at: now,
                    comments: self.comments.update(
                        i,
                        CommentModel { body, updated_at: now, ..self.comments[i] },
                    ),
                    ..self
                },
            )
        }
    }

    /// The review without a comment.
    pub open spec fn without_comment(self, id: Seq<char>, now: Seq<char>) -> Result<
        ReviewModel,
        ReviewErrorModel,
    > {
        let i = comment_index(self.comments, id);
        if i >= self.comments.len() {
            Err(ReviewErrorModel::CommentNotFound { id })
        } else {
            Ok(ReviewModel { updated_at: now, comments: self.comments.remove(i), ..self })
        }
    }

    /// The review after a lifecycle action on a comment. A reopen that lands
    /// while the pass is complete opens a new pass; the comment keeps the
    /// pass it was raised in.
    pub open spec fn after_action(
        self,
        id: Seq<char>,
        action: Action,
        actor: Actor,
        response: Option<Seq<char>>,
        now: Seq<char>,
    ) -> Result<ReviewModel, ReviewErrorModel> {
        let i = comment_index(self.comments, id);
        if i >= self.comments.len() {
            Err(ReviewErrorModel::CommentNotFound { id })
        } else {
            match next_status(self.comments[i].status, action, actor) {
                Err(e) => Err(ReviewErrorModel::Lifecycle(e)),
                Ok(next) => {
                    let revision = if action == Action::Reopen {
                        self.activity_revision()
                    } else {
                        Some(self.revision)
                    };
                    match revision {
                        None => Err(ReviewErrorModel::RevisionExhausted),
                        Some(rev) => Ok(
                            ReviewModel {
                                revision: rev,
                                updated_at: now,
                                comments: self.comments.update(
                                    i,
                                    CommentModel {
                                        status: next,
                                        response: if response is Some && response->0.len() > 0 {
                                            response
                                        } else {
                                            self.comments[i].response
                                        },
                                        updated_at: now,
                                        ..self.comments[i]
                                    },
                                ),
                                ..self
                            },
                        ),
                    }
                },
            }
        }
    }
}

impl ReviewFile {
    fn activity_revision(&self) -> (r: Result<u32, ReviewError>)
        ensures
            match self.deep_view().activity_revision() {
                Some(rev) => r == Ok::<u32, ReviewError>(rev),
                None => r == Err::<u32, ReviewError>(ReviewError::RevisionExhausted),
            },
    {
        if self.pass_is_complete() {
            self.next_revision()
        } else {
            Ok(self.revision)
        }
    }

    /// Add a validated, uniquely-identified comment, bumping the revision
    /// first when it opens a new pass. Validates, checks for a duplicate id,
    /// and checks revision overflow before mutating anything; a failure
    /// leaves the review file completely unchanged. Returns a reference to
    /// the stored comment.
    pub fn try_add_comment(&mut self, new: NewComment, id: String, now: &str) -> (r: Result<
        &Comment,
        ReviewError,
    >)
        ensures
            match old(self).deep_view().with_comment(new.deep_view(), id@, now@) {
                Ok(review) => r matches Ok(c) && final(self).deep_view() == review
                    && c.deep_view() == review.comments.last(),
                Err(error) => r matches Err(e) && e.deep_view() == error && *final(self) == *old(
                    self,
                ),
            },
    {
        let ghost before = self.deep_view();
        if let Err(e) = validate_new_comment(&new) {
            return Err(e);
        }
        if self.index_of(id.as_str()) < self.comments.len() {
            return Err(ReviewError::DuplicateId { id });
        }
        let rev: u32 = match self.activity_revision() {
            Ok(rev) => rev,
            Err(e) => {
                return Err(e);
            },
        };
        let ghost model = opened_comment(new.deep_view(), id@, rev, now@);
        self.revision = rev;
        let comment = Comment {
            id,
            rev,
            status: Status::Open,
            path: new.path,
            side: new.side,
            line: new.line,
            end_line: new.end_line,
            snippet: new.snippet,
            body: new.body,
            response: None,
            author: new.author,
            created_at: copy_of(now),
            updated_at: copy_of(now),
            target: None,
            extra: JsonMap::new(),
        };
        assert(comment.deep_view() == model);
        self.comments.push(comment);
        assert(self.comments.deep_view() =~= before.comments.push(model));
        self.updated_at = copy_of(now);
        let n: usize = self.comments.len();
        Ok(&self.comments[n - 1])
    }

    /// Edit a comment's body in place. Rejects a blank body or an unknown id
    /// without mutating anything.
    pub fn edit_comment(&mut self, id: &str, body: &str, now: &str) -> (r: Result<
        &Comment,
        ReviewError,
    >)
        ensures
            match old(self).deep_view().with_body(id@, body@, now@) {
                Ok(review) => r matches Ok(c) && final(self).deep_view() == review
                    && c.deep_view() == review.comments[comment_index(
                    old(self).deep_view().comments,
                    id@,
                )],
                Err(error) => r matches Err(e) && e.deep_view() == error && *final(self) == *old(
                    self,
                ),
            },
    {
        let ghost before = self.deep_view();
        if is_blank(body) {
            return Err(ReviewError::Validation { msg: copy_of("body must not be empty") });
        }
        let idx: usize = self.index_of(id);
        if idx >= self.comments.len() {
            return Err(ReviewError::CommentNotFound { id: copy_of(id) });
        }
        self.comments[idx].body = copy_of(body);
        self.comments[idx].updated_at = copy_of(now);
        self.updated_at = copy_of(now);
        assert(self.comments.deep_view() =~= before.comments.update(
            idx as int,
            CommentModel { body: body@, updated_at: now@, ..before.comments[idx as int] },
        ));
        Ok(&self.comments[idx])
    }

    /// Remove a comment by id, returning the removed record so a caller can
    /// offer to restore it. Unknown ids fail without mutating anything.
    pub fn delete_comment(&mut self, id: &str, now: &str) -> (r: Result<Comment, ReviewError>)
        ensures
            match old(self).deep_view().without_comment(id@, now@) {
                Ok(review) => r matches Ok(c) && final(self).deep_view() == review
                    && c.deep_view() == old(self).deep_view().comments[comment_index(
                    old(self).deep_view().comments,
                    id@,
                )],
                Err(error) => r matches Err(e) && e.deep_view() == error && *final(self) == *old(
                    self,
                ),
            },
    {
        let ghost before = self.deep_view();
        let idx: usize = self.index_of(id);
        if idx >= self.comments.len() {
            return Err(ReviewError::CommentNotFound { id: copy_of(id) });
        }
        let removed: Comment = self.comments.remove(idx);
        assert(self.comments.deep_view() =~= before.comments.remove(idx as int));
        self.updated_at = copy_of(now);
        Ok(removed)
    }

    /// Apply a lifecycle action to a comment by id. A human reopen that lands
    /// while the pass is complete opens a new pass, same as a new comment.
    /// The lifecycle transition and revision overflow are both checked
    /// before any field is mutated.
    pub fn apply_lifecycle(
        &mut self,
        id: &str,
        action: Action,
        actor: Actor,
        response: Option<String>,
        now: &str,
    ) -> (r: Result<&Comment, ReviewError>)
        ensures
            match old(self).deep_view().after_action(
                id@,
                action,
                actor,
                response.deep_view(),
                now@,
            ) {
                Ok(review) => r matches Ok(c) && final(self).deep_view() == review
                    && c.deep_view() == review.comments[comment_index(
                    old(self).deep_view().comments,
                    id@,
                )],
                Err(error) => r matches Err(e) && e.deep_view() == error && *final(self) == *old(
                    self,
                ),
            },
    {
        let ghost before = self.deep_view();
        let ghost given = response.deep_view();
        let idx: usize = self.index_of(id);
        if idx >= self.comments.len() {
            return Err(ReviewError::CommentNotFound { id: copy_of(id) });
        }
        assert(before.comments[idx as int] == self.comments[idx as int].deep_view());
        let next: Status = match transition(self.comments[idx].status, action, actor) {
            Ok(next) => next,
            Err(e) => {
                return Err(ReviewError::Lifecycle(e));
            },
        };
        if action == Action::Reopen {
            match self.activity_revision() {
                Ok(rev) => {
                    self.revision = rev;
                },
                Err(e) => {
                    return Err(e);
                },
            }
        }
        self.comments[idx].status = next;
        if let Some(text) = response {
            if !text.as_str().is_empty() {
                self.comments[idx].response = Some(text);
            }
        }
        self.comments[idx].updated_at = copy_of(now);
        self.updated_at = copy_of(now);
        proof {
            let target = CommentModel {
                status: next,
                response: if given is Some && given->0.len() > 0 {
                    given
                } else {
                    before.comments[idx as int].response
                },
                updated_at: now@,
                ..before.comments[idx as int]
            };
            assert(self.comments[idx as int].deep_view() == target);
            assert(self.comments.deep_view() =~= before.comments.update(idx as int, target));
        }
        Ok(&self.comments[idx])
    }

    /// Manual revision bump: the escape hatch when pass detection does not
    /// match reality. Fails without mutating anything at `u32::MAX`.
    pub fn try_rev_bump(&mut self, now: &str) -> (r: Result<u32, ReviewError>)
        ensures
            if old(self).revision < u32::MAX {
                &&& r == Ok::<u32, ReviewError>((old(self).revision + 1) as u32)
                &&& final(self).deep_view() == (ReviewModel {
                    revision: (old(self).revision + 1) as u32,
                    updated_at: now@,
                    ..old(self).deep_view()
                })
            } else {
                &&& r == Err::<u32, ReviewError>(ReviewError::RevisionExhausted)
                &&& *final(self) == *old(self)
            },
    {
        let rev: u32 = match self.next_revision() {
            Ok(rev) => rev,
            Err(e) => {
                return Err(e);
            },
        };
        self.revision = rev;
        self.updated_at = copy_of(now);
        Ok(rev)
    }
}

// ---------------------------------------------------------------- validation

/// Whether a character may stand in a comment id.
pub open spec fn id_char(c: char) -> bool {
    ('a' <= c && c <= 'z') || ('A' <= c && c <= 'Z') || ('0' <= c && c <= '9') || c == '-' || c
        == '_' || c == '.'
}

/// Whether a text is a well-formed comment id.
pub open spec fn well_formed_id(id: Seq<char>) -> bool {
    id.len() > 0 && forall|i: int| 0 <= i < id.len() ==> id_char(#[trigger] id[i])
}

/// Whether `id` is a well-formed comment id: one or more ASCII letters,
/// digits, dashes, underscores and dots.
pub fn valid_id(id: &str) -> (r: bool)
    ensures
        r == well_formed_id(id@),
{
    let cs: Vec<char> = chars_of(id);
    if cs.len() == 0 {
        return false;
    }
    let mut i: usize = 0;
    while i < cs.len()
        invariant
            i <= cs.len(),
            cs@ == id@,
            forall|k: int| 0 <= k < i ==> id_char(#[trigger] id@[k]),
        decreases cs.len() - i,
    {
        let c: char = cs[i];
        let ok: bool = ('a' <= c && c <= 'z') || ('A' <= c && c <= 'Z') || ('0' <= c && c <= '9')
            || c == '-' || c == '_' || c == '.';
        if !ok {
            return false;
        }
        i += 1;
    }
    true
}

/// What makes comment `i` unfit to be written, if anything does.
pub open spec fn comment_fault(comments: Seq<CommentModel>, i: int) -> Option<ReviewErrorModel> {
    let c = comments[i];
    if !well_formed_id(c.id) {
        Some(ReviewErrorModel::Validation { msg: "invalid comment id "@ + debug_text(c.id) })
    } else if comment_index(comments, c.id) < i {
        Some(ReviewErrorModel::DuplicateId { id: c.id })
    } else if c.path is None && (c.line is Some || c.end_line is Some) {
        Some(
            ReviewErrorModel::Validation { msg: "comment "@ + c.id + ": line without path"@ },
        )
    } else if c.line is Some && c.end_line is Some && c.end_line->0 < c.line->0 {
        Some(ReviewErrorModel::Validation { msg: "comment "@ + c.id + ": endLine < line"@ })
    } else {
        None
    }
}

/// The first fault among the first `n` comments.
pub open spec fn first_comment_fault(comments: Seq<CommentModel>, n: int) -> Option<
    ReviewErrorModel,
>
    decreases n,
{
    if n <= 0 {
        None
    } else {
        match first_comment_fault(comments, n - 1) {
            Some(e) => Some(e),
            None => comment_fault(comments, n - 1),
        }
    }
}

impl ReviewModel {
    /// The first structural invariant that the review breaks.
    pub open spec fn fault(self) -> Option<ReviewErrorModel> {
        if self.revision == 0 {
            Some(ReviewErrorModel::Validation { msg: "revision must not be 0"@ })
        } else {
            first_comment_fault(self.comments, self.comments.len() as int)
        }
    }
}

impl ReviewFile {
    /// Structural invariants a review file must hold before it is
    /// serialised: every comment id is well-formed and unique, and the
    /// revision counter is in range. Called after a mutation and before the
    /// write, so a mutation that violates an invariant is rejected rather
    /// than persisted.
    pub fn validate(&self) -> (r: Result<(), ReviewError>)
        ensures
            match self.deep_view().fault() {
                None => r is Ok,
                Some(error) => r matches Err(e) && e.deep_view() == error,
            },
    {
        if self.revision == 0 {
            return invalid("revision must not be 0");
        }
        let ghost comments = self.deep_view().comments;
        let mut i: usize = 0;
        while i < self.comments.len()
            invariant
                i <= self.comments.len(),
                self.revision != 0,
                comments == self.deep_view().comments,
                first_comment_fault(comments, i as int) is None,
            decreases self.comments.len() - i,
        {
            let c: &Comment = &self.comments[i];
            assert(comments[i as int] == c.deep_view());
            if let Some(error) = self.fault_of(i) {
                proof {
                    assert(first_comment_fault(comments, i + 1) is Some);
                    lemma_fault_stays(comments, i + 1, comments.len() as int);
                }
                return Err(error);
            }
            i += 1;
        }
        Ok(())
    }

    /// What makes one comment unfit to be written.
    fn fault_of(&self, i: usize) -> (r: Option<ReviewError>)
        requires
            i < self.comments.len(),
        ensures
            r.deep_view() == comment_fault(self.deep_view().comments, i as int),
    {
        let c: &Comment = &self.comments[i];
        assert(self.deep_view().comments[i as int] == c.deep_view());
        let id: &str = c.id.as_str();
        if !valid_id(id) {
            return Some(
                ReviewError::Validation {
                    msg: text_of_two("invalid comment id ", quoted(id).as_str()),
                },
            );
        }
        if self.index_of(id) < i {
            return Some(ReviewError::DuplicateId { id: copy_of(id) });
        }
        if c.path.is_none() && (c.line.is_some() || c.end_line.is_some()) {
            return Some(
                ReviewError::Validation {
                    msg: text_of_three("comment ", id, ": line without path"),
                },
            );
        }
        if let (Some(line), Some(end)) = (c.line, c.end_line) {
            if end < line {
                return Some(
                    ReviewError::Validation {
                        msg: text_of_three("comment ", id, ": endLine < line"),
                    },
                );
            }
        }
        None
    }
}

proof fn lemma_fault_stays(comments: Seq<CommentModel>, m: int, n: int)
    requires
        m <= n,
        first_comment_fault(comments, m) is Some,
    ensures
        first_comment_fault(comments, n) == first_comment_fault(comments, m),
    decreases n - m,
{
    if m < n {
        lemma_fault_stays(comments, m, n - 1);
        if n <= 0 {
            assert(first_comment_fault(comments, m) is None);
        }
    }
}

/// Whitespace-insensitive snippet comparison: the "outdated" test. A
/// captured snippet still matches when only indentation or spacing changed.
pub fn snippet_matches(snippet: &str, current_line: &str) -> (r: bool)
    ensures
        r == (squeezed(snippet@) == squeezed(current_line@)),
{
    same_chars(squeeze(snippet).as_slice(), squeeze(current_line).as_slice())
}

// ---------------------------------------------------------------------- laws

/// Every operation keeps comment ids distinct.
pub proof fn operations_keep_ids_distinct(
    review: ReviewModel,
    new: NewCommentModel,
    id: Seq<char>,
    body: Seq<char>,
    action: Action,
    actor: Actor,
    response: Option<Seq<char>>,
    now: Seq<char>,
)
    requires
        distinct_ids(review.comments),
    ensures
        review.with_comment(new, id, now) matches Ok(r) ==> distinct_ids(r.comments),
        review.with_body(id, body, now) matches Ok(r) ==> distinct_ids(r.comments),
        review.without_comment(id, now) matches Ok(r) ==> distinct_ids(r.comments),
        review.after_action(id, action, actor, response, now) matches Ok(r) ==> distinct_ids(
            r.comments,
        ),
{
    lemma_comment_index(review.comments, id);
}

/// Editing and lifecycle actions touch one comment, and of it only the body
/// and response, the status and the time: the pass it was raised in, its
/// anchor and its author stay.
pub proof fn actions_keep_provenance(
    review: ReviewModel,
    id: Seq<char>,
    body: Seq<char>,
    action: Action,
    actor: Actor,
    response: Option<Seq<char>>,
    now: Seq<char>,
    k: int,
)
    requires
        0 <= k < review.comments.len(),
    ensures
        review.with_body(id, body, now) matches Ok(r) ==> r.comments.len() == review.comments.len()
            && same_provenance(review.comments[k], r.comments[k]) && (k != comment_index(
            review.comments,
            id,
        ) ==> r.comments[k] == review.comments[k]),
        review.after_action(id, action, actor, response, now) matches Ok(r) ==> r.comments.len()
            == review.comments.len() && same_provenance(review.comments[k], r.comments[k]) && (k
            != comment_index(review.comments, id) ==> r.comments[k] == review.comments[k]),
{
    lemma_comment_index(review.comments, id);
}

/// Whether two states of a comment agree on what never changes.
pub open spec fn same_provenance(a: CommentModel, b: CommentModel) -> bool {
    a.id == b.id && a.rev == b.rev && a.path == b.path && a.side == b.side && a.line == b.line
        && a.end_line == b.end_line && a.snippet == b.snippet && a.author == b.author
        && a.created_at == b.created_at && a.target == b.target && a.extra == b.extra
}

/// The revision moves up by one exactly when a new comment or a reopen lands
/// while the pass is complete; nothing else moves it.
pub proof fn revision_counts_passes(
    review: ReviewModel,
    new: NewCommentModel,
    id: Seq<char>,
    body: Seq<char>,
    action: Action,
    actor: Actor,
    response: Option<Seq<char>>,
    now: Seq<char>,
)
    ensures
        review.with_comment(new, id, now) matches Ok(r) ==> r.revision == review.revision
            + if review.pass_complete() {
            1int
        } else {
            0
        } && !r.pass_complete() && r.comments.last().rev == r.revision,
        review.with_body(id, body, now) matches Ok(r) ==> r.revision == review.revision,
        review.without_comment(id, now) matches Ok(r) ==> r.revision == review.revision,
        review.after_action(id, action, actor, response, now) matches Ok(r) ==> r.revision
            == review.revision + if action == Action::Reopen && review.pass_complete() {
            1int
        } else {
            0
        },
{
    if let Ok(r) = review.with_comment(new, id, now) {
        assert(r.comments[r.comments.len() - 1].status.todo());
    }
}

/// Deleting a comment that was just added gives the comments back as they
/// were.
pub proof fn delete_undoes_add(
    review: ReviewModel,
    new: NewCommentModel,
    id: Seq<char>,
    now: Seq<char>,
    later: Seq<char>,
)
    ensures
        review.with_comment(new, id, now) matches Ok(added) ==> (added.without_comment(
            id,
            later,
        ) matches Ok(r) && r.comments == review.comments),
{
    lemma_comment_index(review.comments, id);
    if let Ok(added) = review.with_comment(new, id, now) {
        let n = review.comments.len() as int;
        assert forall|k: int| 0 <= k < n implies (#[trigger] added.comments[k]).id != id by {
            assert(review.comments[k].id != id);
        }
        lemma_comment_index_is(added.comments, id, n);
        assert(added.comments.remove(n) =~= review.comments);
    }
}

/// A comment that passed the check for new comments passes the check of the
/// whole file, under a well-formed id.
pub proof fn added_comments_are_fit(
    review: ReviewModel,
    new: NewCommentModel,
    id: Seq<char>,
    now: Seq<char>,
)
    requires
        review.fault() is None,
        well_formed_id(id),
    ensures
        review.with_comment(new, id, now) matches Ok(r) ==> r.fault() is None,
{
    lemma_comment_index(review.comments, id);
    if let Ok(r) = review.with_comment(new, id, now) {
        let n = review.comments.len() as int;
        lemma_faults_of_prefix(review.comments, r.comments, n);
        lemma_comment_index(r.comments, id);
        assert forall|k: int| 0 <= k < n implies (#[trigger] r.comments[k]).id != id by {
            assert(review.comments[k].id != id);
        }
        lemma_comment_index_is(r.comments, id, n);
        assert(comment_fault(r.comments, n) is None);
        assert(first_comment_fault(r.comments, n + 1) is None);
    }
}

proof fn lemma_faults_of_prefix(a: Seq<CommentModel>, b: Seq<CommentModel>, n: int)
    requires
        0 <= n <= a.len() <= b.len(),
        forall|i: int| 0 <= i < a.len() ==> a[i] == b[i],
        first_comment_fault(a, n) is None,
    ensures
        first_comment_fault(b, n) is None,
    decreases n,
{
    if n > 0 {
        lemma_faults_of_prefix(a, b, n - 1);
        let id = a[n - 1].id;
        lemma_comment_index(a, id);
        lemma_comment_index(b, id);
        let i = comment_index(a, id);
        let j = comment_index(b, id);
        if j < n - 1 {
            assert(a[j].id == id);
            assert(i <= j) by {
                if j < i {
                    assert(a[j].id != id);
                }
            }
        }
    }
}

} // verus!
