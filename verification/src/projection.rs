//! The review projection: one place that derives placements, per-file
//! tallies, filtering, the file tree, and the overview list together from a
//! complete snapshot of the review and the changed-file list.
//!
//! `ReviewProjection` computes placements once; every other accessor reads
//! from them, so a filtered tree, a file's comment list, and the review-level
//! overview can never disagree about what the review currently says.
//!
//! In a stack review the projection is scoped to the selected target
//! ([`ReviewProjection::scoped`]): comments made on another live target
//! count nowhere here, comments whose target left the stack join the
//! unattached group with a "was on" badge, and per-target tallies for the
//! strip come from the same review.

use vstd::prelude::*;

use crate::anchor::{
    no_scope, placed, place_comments_scoped, Placement, PlacementModel, ScopeModel, TargetScope,
};
use crate::model::{FileEntry, FileEntryModel};
use crate::review::{copy_target, Comment, CommentModel, ReviewFile};
use crate::stack::{
    ascending, insert_name, lemma_with_name, same_target, TargetId, TargetIdModel,
};
use crate::text::{copy_of, same_text};
use crate::tree::{
    build_filtered_file_tree, flat_rows, flatten_tree, tree_of, TreeNode, TreeRow, TreeRowModel,
};

verus! {

/// Which files the tree shows. Cycles All -> Annotated -> Unreviewed -> All.
#[derive(Debug, Clone, Copy, PartialEq, Eq, Structural)]
pub enum FileFilter {
    All,
    Annotated,
    Unreviewed,
}

impl FileFilter {
    /// Human label for the filter chip.
    pub fn label(self) -> (r: &'static str)
        ensures
            r@ == match self {
                FileFilter::All => "All"@,
                FileFilter::Annotated => "Annotated"@,
                FileFilter::Unreviewed => "Unreviewed"@,
            },
    {
        match self {
            FileFilter::All => "All",
            FileFilter::Annotated => "Annotated",
            FileFilter::Unreviewed => "Unreviewed",
        }
    }

    /// The filter one step around the cycle.
    pub open spec fn successor(self) -> FileFilter {
        match self {
            FileFilter::All => FileFilter::Annotated,
            FileFilter::Annotated => FileFilter::Unreviewed,
            FileFilter::Unreviewed => FileFilter::All,
        }
    }

    /// The filter one step around the cycle.
    pub fn next(self) -> (r: FileFilter)
        ensures
            r == self.successor(),
    {
        match self {
            FileFilter::All => FileFilter::Annotated,
            FileFilter::Annotated => FileFilter::Unreviewed,
            FileFilter::Unreviewed => FileFilter::All,
        }
    }
}

/// Three steps lead around the cycle.
pub proof fn filters_cycle(filter: FileFilter)
    ensures
        filter.successor().successor().successor() == filter,
        filter.successor() != filter,
{
}

/// Open/reopened vs total comment tally for one file (or one grouping).
#[derive(Debug, Clone, Copy, PartialEq, Eq, Structural)]
pub struct FileCounts {
    pub todo: usize,
    pub total: usize,
}

impl Default for FileCounts {
    fn default() -> (r: Self)
        ensures
            r == (FileCounts { todo: 0, total: 0 }),
    {
        FileCounts { todo: 0, total: 0 }
    }
}

// ------------------------------------------------------------------- tallies

/// Number of comments for which a predicate holds.
pub open spec fn count_if(
    comments: Seq<CommentModel>,
    pred: spec_fn(CommentModel) -> bool,
) -> nat
    decreases comments.len(),
{
    if comments.len() == 0 {
        0
    } else {
        count_if(comments.drop_last(), pred) + if pred(comments.last()) {
            1nat
        } else {
            0
        }
    }
}

/// Whether the counts are those of the comments for which a predicate holds.
pub open spec fn tallies(
    counts: FileCounts,
    comments: Seq<CommentModel>,
    pred: spec_fn(CommentModel) -> bool,
) -> bool {
    &&& counts.total == count_if(comments, pred)
    &&& counts.todo == count_if(comments, |c: CommentModel| pred(c) && c.status.todo())
}

/// What comments a tally is about.
#[verifier::ext_equal]
pub enum Group {
    /// Placed on the file.
    File { path: Seq<char> },
    /// Review-level.
    Review,
    /// In the unattached group.
    Unattached,
    /// Review-level or in the unattached group.
    Overview,
    /// Made on a target that has left the stack.
    WasOn,
    /// Made without a target.
    Untargeted,
    /// Made on the target.
    Target { id: TargetIdModel },
}

/// Whether a comment belongs to a group.
pub open spec fn in_group(
    c: CommentModel,
    group: Group,
    files: Seq<FileEntryModel>,
    scope: ScopeModel,
) -> bool {
    let p = placed(c, files, scope);
    match group {
        Group::File { path } => p matches PlacementModel::File { path: on, .. } && on == path,
        Group::Review => p is Review,
        Group::Unattached => p is Unattached || p is WasOn,
        Group::Overview => p is Review || p is Unattached || p is WasOn,
        Group::WasOn => p is WasOn,
        Group::Untargeted => c.target is None,
        Group::Target { id } => c.target == Some(id),
    }
}

/// The predicate of a group.
pub open spec fn group_pred(
    group: Group,
    files: Seq<FileEntryModel>,
    scope: ScopeModel,
) -> spec_fn(CommentModel) -> bool {
    |c: CommentModel| in_group(c, group, files, scope)
}

/// A comment placed on a current file, with its rename badge (if the file
/// was renamed since the comment was written) and its index in
/// `review.comments`.
pub struct PlacedComment<'a> {
    pub index: usize,
    pub comment: &'a Comment,
    pub was_path: Option<&'a str>,
}

/// A review-level or unattached comment, for the overview pane.
pub struct OverviewComment<'a> {
    pub index: usize,
    pub comment: &'a Comment,
    pub unattached: bool,
    /// The label of the target this comment was made on when that target
    /// has left the stack (the "was on" badge).
    pub was_on: Option<&'a str>,
}

/// An owned copy of [`OverviewComment`], for snapshots that cross a process
/// boundary and cannot borrow.
#[derive(Debug, Clone)]
pub struct OverviewCommentOwned {
    pub index: usize,
    pub comment: Comment,
    pub unattached: bool,
    pub was_on: Option<String>,
}

/// Tally of the comments made on one live target (its own comments only,
/// wherever they place), for the target strip.
#[derive(Debug, Clone, PartialEq, Eq)]
pub struct TargetCounts {
    pub id: TargetId,
    pub counts: FileCounts,
}

/// Tally of the comments placed on one file.
#[derive(Debug, Clone, PartialEq, Eq)]
pub struct PathCounts {
    pub path: String,
    pub counts: FileCounts,
}

/// Everything one frontend needs to paint the file list at once: filter,
/// canonical file list, filtered tree, per-file tallies, and the overview.
#[derive(Debug, Clone)]
pub struct ProjectionSnapshot {
    pub filter: FileFilter,
    pub files: Vec<FileEntry>,
    pub tree: Vec<TreeRow>,
    /// The files with comments, by path.
    pub counts: Vec<PathCounts>,
    pub review_level_comments: usize,
    pub unattached_comments: usize,
    pub overview: Vec<OverviewCommentOwned>,
    pub selected: Option<TargetId>,
    pub target_counts: Vec<TargetCounts>,
    pub untargeted_comments: usize,
    pub was_on_comments: usize,
}

/// The review projected against the current changed-file list: placements
/// computed once, everything else derived from them.
pub struct ReviewProjection<'a> {
    review: &'a ReviewFile,
    files: &'a [FileEntry],
    filter: FileFilter,
    scope: TargetScope,
    placements: Vec<Placement>,
    target_counts: Vec<TargetCounts>,
}

/// The placements of comments.
pub open spec fn placements_of(
    comments: Seq<CommentModel>,
    files: Seq<FileEntryModel>,
    scope: ScopeModel,
) -> Seq<PlacementModel> {
    Seq::new(comments.len(), |i: int| placed(comments[i], files, scope))
}

/// Whether position `k` of the live targets is the first of its target.
pub open spec fn first_of_target(live: Seq<TargetIdModel>, k: int) -> bool {
    forall|j: int| 0 <= j < k ==> (#[trigger] live[j]) != live[k]
}

/// Whether the counts are one tally for each live target, in order: its own
/// comments, wherever they are placed. A target that is listed twice is
/// counted where it stands first.
pub open spec fn target_tallies(
    counts: Seq<TargetCounts>,
    live: Seq<TargetIdModel>,
    comments: Seq<CommentModel>,
    files: Seq<FileEntryModel>,
    scope: ScopeModel,
) -> bool {
    &&& counts.len() == live.len()
    &&& forall|k: int|
        0 <= k < counts.len() ==> {
            let t = #[trigger] counts[k];
            &&& t.id.deep_view() == live[k]
            &&& if first_of_target(live, k) {
                tallies(
                    t.counts,
                    comments,
                    group_pred(Group::Target { id: live[k] }, files, scope),
                )
            } else {
                t.counts == (FileCounts { todo: 0, total: 0 })
            }
        }
}

/// Positions of the first `n` placements of a group.
pub open spec fn group_indices(
    comments: Seq<CommentModel>,
    group: Group,
    files: Seq<FileEntryModel>,
    scope: ScopeModel,
    n: int,
) -> Seq<int>
    decreases n,
{
    if n <= 0 {
        Seq::empty()
    } else if in_group(comments[n - 1], group, files, scope) {
        group_indices(comments, group, files, scope, n - 1).push(n - 1)
    } else {
        group_indices(comments, group, files, scope, n - 1)
    }
}

proof fn lemma_group_indices(
    comments: Seq<CommentModel>,
    group: Group,
    files: Seq<FileEntryModel>,
    scope: ScopeModel,
    n: int,
)
    requires
        0 <= n <= comments.len(),
    ensures
        ({
            let idx = group_indices(comments, group, files, scope, n);
            &&& idx.len() <= n
            &&& forall|i: int|
                0 <= i < idx.len() ==> 0 <= (#[trigger] idx[i]) < n && in_group(
                    comments[idx[i]],
                    group,
                    files,
                    scope,
                )
        }),
    decreases n,
{
    if n > 0 {
        lemma_group_indices(comments, group, files, scope, n - 1);
    }
}

impl<'a> ReviewProjection<'a> {
    /// The comments of the review.
    pub closed spec fn comment_models(&self) -> Seq<CommentModel> {
        self.review.deep_view().comments
    }

    /// The comments themselves.
    pub closed spec fn comment_list(&self) -> Seq<Comment> {
        self.review.comments@
    }

    /// The changed files.
    pub closed spec fn file_models(&self) -> Seq<FileEntryModel> {
        self.files.deep_view()
    }

    /// The scope that the review is seen from.
    pub closed spec fn scope_model(&self) -> ScopeModel {
        self.scope.deep_view()
    }

    /// The filter.
    pub closed spec fn filter_model(&self) -> FileFilter {
        self.filter
    }

    #[verifier::type_invariant]
    spec fn up_to_date(&self) -> bool {
        &&& self.placements.deep_view() == placements_of(
            self.comment_models(),
            self.file_models(),
            self.scope_model(),
        )
        &&& target_tallies(
            self.target_counts@,
            self.scope.deep_view().live,
            self.comment_models(),
            self.file_models(),
            self.scope_model(),
        )
    }

    /// Whether the counts are those of a group of this projection.
    pub open spec fn counts_are(&self, counts: FileCounts, group: Group) -> bool {
        tallies(
            counts,
            self.comment_models(),
            group_pred(group, self.file_models(), self.scope_model()),
        )
    }

    /// Whether a file passes the filter.
    pub open spec fn shows(&self, i: int) -> bool {
        let path = self.file_models()[i].path;
        let annotated = count_if(
            self.comment_models(),
            group_pred(Group::File { path }, self.file_models(), self.scope_model()),
        ) > 0;
        match self.filter_model() {
            FileFilter::All => true,
            FileFilter::Annotated => annotated,
            FileFilter::Unreviewed => !annotated,
        }
    }

    /// Positions among the first `n` files of those that pass the filter.
    pub open spec fn shown_files(&self, n: int) -> Seq<usize>
        decreases n,
    {
        if n <= 0 {
            Seq::empty()
        } else if self.shows(n - 1) {
            self.shown_files(n - 1).push((n - 1) as usize)
        } else {
            self.shown_files(n - 1)
        }
    }

    /// The tree rows before their comment counts are filled in.
    pub open spec fn bare_rows(&self, hidden: Seq<Seq<char>>) -> Seq<TreeRowModel> {
        flat_rows(
            tree_of(self.file_models(), self.shown_files(self.file_models().len() as int)),
            hidden,
            0,
        )
    }

    /// Whether a row is the bare row with the comment counts of its file.
    pub open spec fn counted(&self, row: TreeRowModel, bare: TreeRowModel) -> bool {
        match bare.file_index {
            Some(i) if i < self.file_models().len() => row == (TreeRowModel {
                comments_todo: row.comments_todo,
                comments_total: row.comments_total,
                ..bare
            }) && self.counts_are(
                FileCounts { todo: row.comments_todo, total: row.comments_total },
                Group::File { path: self.file_models()[i as int].path },
            ),
            _ => row == bare,
        }
    }

    /// The unscoped projection: every comment placed by path (non-stack
    /// reviews, and callers that have no selection).
    pub fn new(review: &'a ReviewFile, files: &'a [FileEntry], filter: FileFilter) -> (r: Self)
        ensures
            r.comment_list() == review.comments@,
            r.comment_models() == review.deep_view().comments,
            r.file_models() == files.deep_view(),
            r.filter_model() == filter,
            r.scope_model() == no_scope(),
    {
        ReviewProjection::scoped(review, files, filter, TargetScope::default())
    }

    /// The projection as seen from `scope.selected`: placements follow
    /// [`place_comments_scoped`], `OtherTarget` comments count nowhere,
    /// `WasOn` comments count as unattached (and in `was_on`), and every
    /// live target gets its own tally.
    pub fn scoped(
        review: &'a ReviewFile,
        files: &'a [FileEntry],
        filter: FileFilter,
        scope: TargetScope,
    ) -> (r: Self)
        ensures
            r.comment_list() == review.comments@,
            r.comment_models() == review.deep_view().comments,
            r.file_models() == files.deep_view(),
            r.filter_model() == filter,
            r.scope_model() == scope.deep_view(),
    {
        let placements: Vec<Placement> = place_comments_scoped(
            review.comments.as_slice(),
            files,
            &scope,
        );
        let ghost comments = review.deep_view().comments;
        assert(placements.deep_view() =~= placements_of(
            comments,
            files.deep_view(),
            scope.deep_view(),
        ));
        let target_counts: Vec<TargetCounts> = count_targets(
            &review.comments,
            &scope.live,
            Ghost(files.deep_view()),
            Ghost(scope.deep_view()),
        );
        ReviewProjection { review, files, filter, scope, placements, target_counts }
    }

    pub fn filter(&self) -> (r: FileFilter)
        ensures
            r == self.filter_model(),
    {
        self.filter
    }

    /// The target this projection is scoped to (`None` outside stacks).
    pub fn selected(&self) -> (r: Option<&TargetId>)
        ensures
            match self.scope_model().selected {
                Some(id) => r matches Some(t) && t.deep_view() == id,
                None => r is None,
            },
    {
        match &self.scope.selected {
            Some(t) => Some(t),
            None => None,
        }
    }

    /// The tally of a group by its placements.
    fn tally(&self, group: &Bucket) -> (r: FileCounts)
        ensures
            self.counts_are(r, group.model()),
            r.total <= self.comment_models().len(),
    {
        proof {
            use_type_invariant(self);
        }
        let ghost comments = self.comment_models();
        let ghost files = self.file_models();
        let ghost scope = self.scope_model();
        let ghost pred = group_pred(group.model(), files, scope);
        let ghost todo_pred = |c: CommentModel| pred(c) && c.status.todo();
        let mut counts: FileCounts = FileCounts::default();
        let mut i: usize = 0;
        assert(comments.take(0) =~= Seq::empty());
        while i < self.review.comments.len()
            invariant
                i <= self.review.comments.len(),
                comments == self.review.deep_view().comments,
                comments.len() == self.review.comments@.len(),
                self.placements.deep_view() == placements_of(comments, files, scope),
                pred == group_pred(group.model(), files, scope),
                todo_pred == (|c: CommentModel| pred(c) && c.status.todo()),
                counts.total == count_if(comments.take(i as int), pred),
                counts.todo == count_if(comments.take(i as int), todo_pred),
                counts.total <= i,
                counts.todo <= i,
            decreases self.review.comments.len() - i,
        {
            let comment: &Comment = &self.review.comments[i];
            proof {
                assert(comments[i as int] == comment.deep_view());
                assert(self.placements.deep_view()[i as int] == placed(
                    comments[i as int],
                    files,
                    scope,
                ));
                assert(self.placements.deep_view().len() == self.placements@.len());
                assert(self.placements.deep_view()[i as int]
                    == self.placements@[i as int].deep_view());
                assert(comments.take(i + 1).drop_last() =~= comments.take(i as int));
            }
            if group.holds(&self.placements[i], comment) {
                counts.total = counts.total + 1;
                if comment.status.is_todo() {
                    counts.todo = counts.todo + 1;
                }
            }
            i += 1;
        }
        assert(comments.take(comments.len() as int) =~= comments);
        counts
    }

    /// Comments whose target has left the stack (a subset of `unattached`).
    pub fn was_on(&self) -> (r: FileCounts)
        ensures
            self.counts_are(r, Group::WasOn),
    {
        self.tally(&Bucket::WasOn)
    }

    /// Comments without a target (legacy, or a non-stack review): they show
    /// on every target.
    pub fn untargeted(&self) -> (r: FileCounts)
        ensures
            self.counts_are(r, Group::Untargeted),
    {
        self.tally(&Bucket::Untargeted)
    }

    /// One tally per live target, in stack order, counting the comments
    /// made on that target wherever they place.
    pub fn target_counts(&self) -> (r: &[TargetCounts])
        ensures
            target_tallies(
                r@,
                self.scope_model().live,
                self.comment_models(),
                self.file_models(),
                self.scope_model(),
            ),
    {
        proof {
            use_type_invariant(self);
        }
        self.target_counts.as_slice()
    }

    pub fn files(&self) -> (r: &'a [FileEntry])
        ensures
            r.deep_view() == self.file_models(),
    {
        self.files
    }

    pub fn placements(&self) -> (r: &[Placement])
        ensures
            r.deep_view() == placements_of(
                self.comment_models(),
                self.file_models(),
                self.scope_model(),
            ),
    {
        proof {
            use_type_invariant(self);
        }
        let r: &[Placement] = self.placements.as_slice();
        assert(r.deep_view() =~= self.placements.deep_view());
        r
    }

    pub fn counts_for(&self, path: &str) -> (r: FileCounts)
        ensures
            self.counts_are(r, Group::File { path: path@ }),
    {
        self.tally(&Bucket::File(copy_of(path)))
    }

    /// The tree's "(review)" row: review-level and unattached comments
    /// bundled together, since the UI shows them as one group.
    pub fn review_level(&self) -> (r: FileCounts)
        ensures
            self.counts_are(r, Group::Overview),
    {
        self.tally(&Bucket::Overview)
    }

    /// Review-level comments alone (`path: null`), without the unattached
    /// group.
    pub fn review_only(&self) -> (r: FileCounts)
        ensures
            self.counts_are(r, Group::Review),
    {
        self.tally(&Bucket::Review)
    }

    /// Unattached comments alone (files gone beyond git's rename detection,
    /// and comments whose target left the stack).
    pub fn unattached(&self) -> (r: FileCounts)
        ensures
            self.counts_are(r, Group::Unattached),
    {
        self.tally(&Bucket::Unattached)
    }

    pub fn passes_filter(&self, file_index: usize) -> (r: bool)
        ensures
            r == (file_index < self.file_models().len() && self.shows(file_index as int)),
    {
        if file_index >= self.files.len() {
            return false;
        }
        let entry: &FileEntry = &self.files[file_index];
        assert(self.file_models()[file_index as int] == entry.deep_view());
        match self.filter {
            FileFilter::All => true,
            FileFilter::Annotated => self.counts_for(entry.path.as_str()).total > 0,
            FileFilter::Unreviewed => self.counts_for(entry.path.as_str()).total == 0,
        }
    }

    fn visible_indices(&self) -> (r: Vec<usize>)
        ensures
            r@ == self.shown_files(self.file_models().len() as int),
            forall|k: int| 0 <= k < r@.len() ==> (#[trigger] r@[k]) < self.files@.len(),
    {
        let mut out: Vec<usize> = Vec::new();
        let mut i: usize = 0;
        assert(out@ =~= Seq::empty());
        while i < self.files.len()
            invariant
                i <= self.files.len(),
                self.file_models().len() == self.files@.len(),
                out@ == self.shown_files(i as int),
                forall|k: int| 0 <= k < out@.len() ==> (#[trigger] out@[k]) < self.files@.len(),
            decreases self.files.len() - i,
        {
            if self.passes_filter(i) {
                out.push(i);
            }
            i += 1;
        }
        out
    }

    /// Canonical file indices that pass the current filter, in tree order.
    pub fn visible_files(&self) -> (r: Vec<usize>)
        ensures
            r@ == row_files(self.bare_rows(Seq::empty())),
    {
        let none: Vec<String> = Vec::new();
        assert(none.deep_view() =~= Seq::empty());
        let rows: Vec<TreeRow> = self.plain_rows(none.as_slice());
        let ghost model = rows.deep_view();
        let mut out: Vec<usize> = Vec::new();
        let mut i: usize = 0;
        assert(out@ =~= row_files(model.take(0)));
        while i < rows.len()
            invariant
                i <= rows.len(),
                model == rows.deep_view(),
                out@ == row_files(model.take(i as int)),
            decreases rows.len() - i,
        {
            assert(model[i as int] == rows[i as int].deep_view());
            assert(model.take(i + 1).drop_last() =~= model.take(i as int));
            if let Some(index) = rows[i].file_index {
                out.push(index);
            }
            i += 1;
        }
        assert(model.take(model.len() as int) =~= model);
        out
    }

    /// The tree rows without comment counts.
    fn plain_rows(&self, collapsed: &[String]) -> (r: Vec<TreeRow>)
        ensures
            r.deep_view() == self.bare_rows(collapsed.deep_view()),
    {
        let indices: Vec<usize> = self.visible_indices();
        let tree: Vec<TreeNode> = build_filtered_file_tree(self.files, indices.as_slice());
        let nodes: &[TreeNode] = tree.as_slice();
        assert(nodes.deep_view() =~= tree.deep_view());
        flatten_tree(nodes, collapsed)
    }

    /// Positions of the comments of a group.
    fn indices_in(&self, group: &Bucket) -> (r: Vec<usize>)
        ensures
            r@.len() == group_indices(
                self.comment_models(),
                group.model(),
                self.file_models(),
                self.scope_model(),
                self.comment_models().len() as int,
            ).len(),
            forall|k: int|
                0 <= k < r@.len() ==> (#[trigger] r@[k]) == group_indices(
                    self.comment_models(),
                    group.model(),
                    self.file_models(),
                    self.scope_model(),
                    self.comment_models().len() as int,
                )[k] && r@[k] < self.review.comments@.len() && in_group(
                    self.comment_models()[r@[k] as int],
                    group.model(),
                    self.file_models(),
                    self.scope_model(),
                ),
    {
        proof {
            use_type_invariant(self);
        }
        let ghost comments = self.comment_models();
        let ghost files = self.file_models();
        let ghost scope = self.scope_model();
        let mut out: Vec<usize> = Vec::new();
        let mut i: usize = 0;
        while i < self.review.comments.len()
            invariant
                i <= self.review.comments.len(),
                comments == self.review.deep_view().comments,
                comments.len() == self.review.comments@.len(),
                self.placements.deep_view() == placements_of(comments, files, scope),
                out@.len() == group_indices(comments, group.model(), files, scope, i as int).len(),
                forall|k: int|
                    0 <= k < out@.len() ==> (#[trigger] out@[k]) == group_indices(
                        comments,
                        group.model(),
                        files,
                        scope,
                        i as int,
                    )[k] && out@[k] < self.review.comments@.len() && in_group(
                        comments[out@[k] as int],
                        group.model(),
                        files,
                        scope,
                    ),
            decreases self.review.comments.len() - i,
        {
            let comment: &Comment = &self.review.comments[i];
            proof {
                assert(comments[i as int] == comment.deep_view());
                assert(self.placements.deep_view()[i as int] == placed(
                    comments[i as int],
                    files,
                    scope,
                ));
                assert(self.placements.deep_view().len() == self.placements@.len());
                assert(self.placements.deep_view()[i as int]
                    == self.placements@[i as int].deep_view());
            }
            if group.holds(&self.placements[i], comment) {
                out.push(i);
            }
            i += 1;
        }
        out
    }

    /// Comments placed on `path`, in comment order. The rename badge is the
    /// comment's own recorded path.
    pub fn file_comments(&self, path: &str) -> (r: Vec<PlacedComment<'a>>)
        ensures
            ({
                let idx = group_indices(
                    self.comment_models(),
                    Group::File { path: path@ },
                    self.file_models(),
                    self.scope_model(),
                    self.comment_models().len() as int,
                );
                &&& r@.len() == idx.len()
                &&& forall|k: int|
                    0 <= k < r@.len() ==> {
                        let p = #[trigger] r@[k];
                        let c = self.comment_models()[idx[k]];
                        &&& p.index == idx[k]
                        &&& *p.comment == self.comment_list()[idx[k]]
                        &&& match placed(c, self.file_models(), self.scope_model()) {
                            PlacementModel::File { was_path: Some(old), .. } =>
                                p.was_path matches Some(w) && w@ == old,
                            _ => p.was_path is None,
                        }
                    }
            }),
    {
        proof {
            use_type_invariant(self);
        }
        let bucket: Bucket = Bucket::File(copy_of(path));
        let indices: Vec<usize> = self.indices_in(&bucket);
        let review: &'a ReviewFile = self.review;
        let ghost idx = group_indices(
            self.comment_models(),
            bucket.model(),
            self.file_models(),
            self.scope_model(),
            self.comment_models().len() as int,
        );
        let ghost comments = self.comment_models();
        let ghost files = self.file_models();
        let ghost scope = self.scope_model();
        let mut out: Vec<PlacedComment<'a>> = Vec::new();
        let mut k: usize = 0;
        while k < indices.len()
            invariant
                k <= indices.len(),
                indices@.len() == idx.len(),
                review == self.review,
                comments == review.deep_view().comments,
                comments == self.comment_models(),
                files == self.file_models(),
                scope == self.scope_model(),
                self.placements.deep_view() == placements_of(comments, files, scope),
                forall|j: int|
                    0 <= j < indices@.len() ==> (#[trigger] indices@[j]) == idx[j] && indices@[j]
                        < review.comments@.len() && in_group(
                        comments[indices@[j] as int],
                        Group::File { path: path@ },
                        files,
                        scope,
                    ),
                out@.len() == k,
                forall|j: int|
                    0 <= j < k ==> {
                        let p = #[trigger] out@[j];
                        let c = comments[idx[j]];
                        &&& p.index == idx[j]
                        &&& *p.comment == review.comments@[idx[j]]
                        &&& match placed(c, files, scope) {
                            PlacementModel::File { was_path: Some(old), .. } =>
                                p.was_path matches Some(w) && w@ == old,
                            _ => p.was_path is None,
                        }
                    },
            decreases indices.len() - k,
        {
            let index: usize = indices[k];
            let comment: &'a Comment = &review.comments[index];
            proof {
                assert(comments[index as int] == comment.deep_view());
                assert(self.placements.deep_view()[index as int] == placed(
                    comments[index as int],
                    files,
                    scope,
                ));
                assert(self.placements.deep_view().len() == self.placements@.len());
                assert(self.placements.deep_view()[index as int]
                    == self.placements@[index as int].deep_view());
                crate::anchor::placements_are_faithful(comments[index as int], files, scope);
            }
            let renamed: bool = match &self.placements[index] {
                Placement::File { was_path, .. } => was_path.is_some(),
                _ => false,
            };
            let was_path: Option<&'a str> = if renamed {
                match &comment.path {
                    Some(p) => Some(p.as_str()),
                    None => None,
                }
            } else {
                None
            };
            out.push(PlacedComment { index, comment, was_path });
            k += 1;
        }
        out
    }

    /// The filtered file tree: directories with no passing descendant are
    /// pruned entirely (not just their files hidden), and every leaf's
    /// `file_index` is canonical (its position in the full changed-file
    /// list), never renumbered within the filtered subset.
    pub fn tree_rows(&self, collapsed: &[String]) -> (r: Vec<TreeRow>)
        ensures
            r@.len() == self.bare_rows(collapsed.deep_view()).len(),
            forall|k: int|
                0 <= k < r@.len() ==> self.counted(
                    (#[trigger] r@[k]).deep_view(),
                    self.bare_rows(collapsed.deep_view())[k],
                ),
    {
        let rows: Vec<TreeRow> = self.plain_rows(collapsed);
        let ghost bare = rows.deep_view();
        let mut out: Vec<TreeRow> = Vec::new();
        for row in it: rows.into_iter()
            invariant
                it.seq() == rows@,
                bare == rows.deep_view(),
                bare.len() == rows@.len(),
                bare == self.bare_rows(collapsed.deep_view()),
                out@.len() == it.index(),
                forall|k: int|
                    0 <= k < out@.len() ==> self.counted(
                        (#[trigger] out@[k]).deep_view(),
                        bare[k],
                    ),
        {
            let ghost bare_row = bare[it.index()];
            assert(bare_row == row.deep_view());
            let mut row: TreeRow = row;
            if let Some(index) = row.file_index {
                if index < self.files.len() {
                    assert(self.file_models()[index as int] == self.files@[index as int].deep_view());
                    let counts: FileCounts = self.counts_for(self.files[index].path.as_str());
                    row.comments_todo = counts.todo;
                    row.comments_total = counts.total;
                }
            }
            assert(self.counted(row.deep_view(), bare_row));
            out.push(row);
        }
        out
    }
}

impl<'a> ReviewProjection<'a> {
    /// The positions of the comments of a group, in order.
    pub open spec fn indices_of(&self, group: Group) -> Seq<int> {
        group_indices(
            self.comment_models(),
            group,
            self.file_models(),
            self.scope_model(),
            self.comment_models().len() as int,
        )
    }

    /// The badge of a comment whose target has left the stack.
    pub open spec fn badge(&self, i: int) -> Option<Seq<char>> {
        match placed(self.comment_models()[i], self.file_models(), self.scope_model()) {
            PlacementModel::WasOn { target } => Some(target.label()),
            _ => None,
        }
    }

    /// Whether an entry of the overview is that of comment `i`.
    pub open spec fn lists(&self, o: OverviewComment<'a>, i: int, unattached: bool) -> bool {
        &&& o.index == i
        &&& *o.comment == self.comment_list()[i]
        &&& o.unattached == unattached
        &&& match self.badge(i) {
            Some(label) => o.was_on matches Some(w) && w@ == label,
            None => o.was_on is None,
        }
    }

    /// Appends the overview entries of a group.
    fn push_overview(&self, out: &mut Vec<OverviewComment<'a>>, group: &Bucket, unattached: bool)
        requires
            group.model() == Group::Review || group.model() == Group::Unattached,
        ensures
            ({
                let idx = self.indices_of(group.model());
                let n = old(out)@.len() as int;
                &&& final(out)@.len() == n + idx.len()
                &&& forall|k: int| 0 <= k < n ==> final(out)@[k] == (#[trigger] old(out)@[k])
                &&& forall|k: int|
                    n <= k < final(out)@.len() ==> self.lists(
                        #[trigger] final(out)@[k],
                        idx[k - n],
                        unattached,
                    )
            }),
    {
        proof {
            use_type_invariant(self);
        }
        let indices: Vec<usize> = self.indices_in(group);
        let review: &'a ReviewFile = self.review;
        let ghost idx = self.indices_of(group.model());
        let ghost start = out@;
        let ghost n = start.len() as int;
        let ghost comments = self.comment_models();
        let mut k: usize = 0;
        while k < indices.len()
            invariant
                k <= indices.len(),
                indices@.len() == idx.len(),
                review == self.review,
                comments == self.comment_models(),
                n == start.len(),
                self.placements.deep_view() == placements_of(
                    comments,
                    self.file_models(),
                    self.scope_model(),
                ),
                forall|j: int|
                    0 <= j < indices@.len() ==> (#[trigger] indices@[j]) == idx[j] && indices@[j]
                        < review.comments@.len(),
                out@.len() == n + k,
                forall|j: int| 0 <= j < n ==> out@[j] == (#[trigger] start[j]),
                forall|j: int|
                    n <= j < out@.len() ==> self.lists(#[trigger] out@[j], idx[j - n], unattached),
            decreases indices.len() - k,
        {
            let index: usize = indices[k];
            let comment: &'a Comment = &review.comments[index];
            proof {
                assert(comments[index as int] == comment.deep_view());
                assert(self.placements.deep_view()[index as int] == placed(
                    comments[index as int],
                    self.file_models(),
                    self.scope_model(),
                ));
                assert(self.placements.deep_view().len() == self.placements@.len());
                assert(self.placements.deep_view()[index as int]
                    == self.placements@[index as int].deep_view());
            }
            let gone: bool = match &self.placements[index] {
                Placement::WasOn { .. } => true,
                _ => false,
            };
            let was_on: Option<&'a str> = if gone {
                match &comment.target {
                    Some(target) => Some(target.label()),
                    None => None,
                }
            } else {
                None
            };
            let entry = OverviewComment { index, comment, unattached, was_on };
            assert(self.lists(entry, index as int, unattached));
            out.push(entry);
            k += 1;
        }
    }

    /// Review-level comments first, then the unattached group (files gone
    /// from the diff, and comments whose target left the stack), each in
    /// comment order.
    pub fn overview(&self) -> (r: Vec<OverviewComment<'a>>)
        ensures
            ({
                let review = self.indices_of(Group::Review);
                let unattached = self.indices_of(Group::Unattached);
                &&& r@.len() == review.len() + unattached.len()
                &&& forall|k: int|
                    0 <= k < review.len() ==> self.lists(#[trigger] r@[k], review[k], false)
                &&& forall|k: int|
                    review.len() <= k < r@.len() ==> self.lists(
                        #[trigger] r@[k],
                        unattached[k - review.len()],
                        true,
                    )
            }),
    {
        let mut out: Vec<OverviewComment<'a>> = Vec::new();
        self.push_overview(&mut out, &Bucket::Review, false);
        let ghost first = out@;
        self.push_overview(&mut out, &Bucket::Unattached, true);
        proof {
            let review = self.indices_of(Group::Review);
            assert forall|k: int| 0 <= k < review.len() implies self.lists(
                #[trigger] out@[k],
                review[k],
                false,
            ) by {
                assert(out@[k] == first[k]);
            }
        }
        out
    }

    /// The files that comments are placed on, by path and with their tallies.
    fn path_counts(&self) -> (r: Vec<PathCounts>)
        ensures
            self.counts_listed(r@),
    {
        proof {
            use_type_invariant(self);
        }
        let ghost comments = self.comment_models();
        let ghost files = self.file_models();
        let ghost scope = self.scope_model();
        let mut names: Vec<String> = Vec::new();
        let mut i: usize = 0;
        assert(names.deep_view() =~= Seq::empty());
        while i < self.placements.len()
            invariant
                i <= self.placements.len(),
                self.placements.deep_view() == placements_of(comments, files, scope),
                self.placements.deep_view().len() == self.placements@.len(),
                ascending(names.deep_view()),
                forall|p: Seq<char>| #[trigger]
                    names.deep_view().contains(p) <==> exists|k: int|
                        0 <= k < i && on_path(#[trigger] self.placements.deep_view()[k], p),
            decreases self.placements.len() - i,
        {
            let ghost before = names.deep_view();
            assert(self.placements.deep_view()[i as int]
                == self.placements@[i as int].deep_view());
            if let Placement::File { path, .. } = &self.placements[i] {
                proof {
                    lemma_with_name(before, path@);
                }
                insert_name(&mut names, path.as_str());
            }
            proof {
                assert forall|p: Seq<char>| #[trigger]
                    names.deep_view().contains(p) <==> exists|k: int|
                        0 <= k < i + 1 && on_path(
                            #[trigger] self.placements.deep_view()[k],
                            p,
                        ) by {
                    if names.deep_view().contains(p) {
                        if before.contains(p) {
                            let k = choose|k: int|
                                0 <= k < i && on_path(
                                    #[trigger] self.placements.deep_view()[k],
                                    p,
                                );
                            assert(on_path(self.placements.deep_view()[k], p));
                        } else {
                            assert(on_path(self.placements.deep_view()[i as int], p));
                        }
                    }
                    if exists|k: int|
                        0 <= k < i + 1 && on_path(#[trigger] self.placements.deep_view()[k], p) {
                        let k = choose|k: int|
                            0 <= k < i + 1 && on_path(
                                #[trigger] self.placements.deep_view()[k],
                                p,
                            );
                        if k < i {
                            assert(before.contains(p));
                        }
                    }
                }
            }
            i += 1;
        }
        let ghost listed = names.deep_view();
        let mut out: Vec<PathCounts> = Vec::new();
        let mut n: usize = 0;
        while n < names.len()
            invariant
                n <= names.len(),
                listed == names.deep_view(),
                out@.len() == n,
                forall|k: int|
                    0 <= k < n ==> (#[trigger] out@[k]).path@ == listed[k] && self.counts_are(
                        out@[k].counts,
                        Group::File { path: listed[k] },
                    ),
            decreases names.len() - n,
        {
            let counts: FileCounts = self.counts_for(names[n].as_str());
            out.push(PathCounts { path: copy_of(names[n].as_str()), counts });
            n += 1;
        }
        proof {
            let paths = Seq::new(out@.len(), |k: int| out@[k].path@);
            assert(paths =~= listed);
            assert forall|p: Seq<char>| #[trigger] paths.contains(p) <==> exists|k: int|
                0 <= k < comments.len() && on_path(
                    #[trigger] placements_of(comments, files, scope)[k],
                    p,
                ) by {
                assert(listed.contains(p) <==> exists|k: int|
                    0 <= k < self.placements@.len() && on_path(
                        #[trigger] self.placements.deep_view()[k],
                        p,
                    ));
            }
        }
        out
    }

    /// Whether the list holds exactly the paths that comments are placed on,
    /// in ascending order, each with its tally.
    pub open spec fn counts_listed(&self, list: Seq<PathCounts>) -> bool {
        let paths = Seq::new(list.len(), |k: int| list[k].path@);
        let placements = placements_of(
            self.comment_models(),
            self.file_models(),
            self.scope_model(),
        );
        &&& ascending(paths)
        &&& forall|p: Seq<char>| #[trigger]
            paths.contains(p) <==> exists|k: int|
                0 <= k < self.comment_models().len() && on_path(#[trigger] placements[k], p)
        &&& forall|k: int|
            0 <= k < list.len() ==> self.counts_are(
                (#[trigger] list[k]).counts,
                Group::File { path: list[k].path@ },
            )
    }

    /// Everything a frontend needs to paint the file list in one message.
    pub fn snapshot(&self, collapsed: &[String]) -> (r: ProjectionSnapshot)
        ensures
            r.filter == self.filter_model(),
            r.files.deep_view() == self.file_models(),
            r.tree@.len() == self.bare_rows(collapsed.deep_view()).len(),
            forall|k: int|
                0 <= k < r.tree@.len() ==> self.counted(
                    (#[trigger] r.tree@[k]).deep_view(),
                    self.bare_rows(collapsed.deep_view())[k],
                ),
            self.counts_listed(r.counts@),
            exists|c: FileCounts| #[trigger]
                self.counts_are(c, Group::Review) && r.review_level_comments == c.total,
            exists|c: FileCounts| #[trigger]
                self.counts_are(c, Group::Unattached) && r.unattached_comments == c.total,
            exists|c: FileCounts| #[trigger]
                self.counts_are(c, Group::Untargeted) && r.untargeted_comments == c.total,
            exists|c: FileCounts| #[trigger]
                self.counts_are(c, Group::WasOn) && r.was_on_comments == c.total,
            r.selected.deep_view() == self.scope_model().selected,
            target_tallies(
                r.target_counts@,
                self.scope_model().live,
                self.comment_models(),
                self.file_models(),
                self.scope_model(),
            ),
            ({
                let review = self.indices_of(Group::Review);
                let unattached = self.indices_of(Group::Unattached);
                &&& r.overview@.len() == review.len() + unattached.len()
                &&& forall|k: int|
                    0 <= k < review.len() ==> self.lists_owned(
                        #[trigger] r.overview@[k],
                        review[k],
                        false,
                    )
                &&& forall|k: int|
                    review.len() <= k < r.overview@.len() ==> self.lists_owned(
                        #[trigger] r.overview@[k],
                        unattached[k - review.len()],
                        true,
                    )
            }),
    {
        let entries: Vec<OverviewComment<'a>> = self.overview();
        let overview: Vec<OverviewCommentOwned> = self.own_overview(&entries);
        let tree: Vec<TreeRow> = self.tree_rows(collapsed);
        let counts: Vec<PathCounts> = self.path_counts();
        let review_only: FileCounts = self.review_only();
        let unattached: FileCounts = self.unattached();
        let untargeted: FileCounts = self.untargeted();
        let was_on: FileCounts = self.was_on();
        let target_counts: Vec<TargetCounts> = copy_target_counts(self.target_counts());
        let files: Vec<FileEntry> = copy_entries(self.files);
        let ghost review_idx = self.indices_of(Group::Review);
        let ghost unattached_idx = self.indices_of(Group::Unattached);
        proof {
            assert forall|k: int| 0 <= k < review_idx.len() implies self.lists_owned(
                #[trigger] overview@[k],
                review_idx[k],
                false,
            ) by {
                assert(self.lists(entries@[k], review_idx[k], false));
                self.lemma_group_in_range(Group::Review, k);
            }
            assert forall|k: int| review_idx.len() <= k < overview@.len() implies self.lists_owned(
                #[trigger] overview@[k],
                unattached_idx[k - review_idx.len()],
                true,
            ) by {
                assert(self.lists(entries@[k], unattached_idx[k - review_idx.len()], true));
                self.lemma_group_in_range(Group::Unattached, k - review_idx.len());
            }
        }
        ProjectionSnapshot {
            filter: self.filter,
            files,
            tree,
            counts,
            review_level_comments: review_only.total,
            unattached_comments: unattached.total,
            overview,
            selected: copy_target(&self.scope.selected),
            target_counts,
            untargeted_comments: untargeted.total,
            was_on_comments: was_on.total,
        }
    }

    proof fn lemma_group_in_range(&self, group: Group, k: int)
        requires
            0 <= k < self.indices_of(group).len(),
        ensures
            0 <= self.indices_of(group)[k] < self.comment_models().len(),
            self.comment_models()[self.indices_of(group)[k]]
                == self.comment_list()[self.indices_of(group)[k]].deep_view(),
    {
        lemma_group_indices(
            self.comment_models(),
            group,
            self.file_models(),
            self.scope_model(),
            self.comment_models().len() as int,
        );
        assert(0 <= self.indices_of(group)[k] < self.comment_models().len());
    }

    /// Whether an owned entry of the overview is that of comment `i`.
    pub open spec fn lists_owned(&self, o: OverviewCommentOwned, i: int, unattached: bool) -> bool {
        &&& o.index == i
        &&& o.comment.deep_view() == self.comment_models()[i]
        &&& o.unattached == unattached
        &&& o.was_on.deep_view() == self.badge(i)
    }

    fn own_overview(&self, entries: &Vec<OverviewComment<'a>>) -> (r: Vec<OverviewCommentOwned>)
        ensures
            r@.len() == entries@.len(),
            forall|k: int|
                0 <= k < r@.len() ==> {
                    let o = #[trigger] r@[k];
                    let e = entries@[k];
                    &&& o.index == e.index
                    &&& o.comment.deep_view() == e.comment.deep_view()
                    &&& o.unattached == e.unattached
                    &&& match e.was_on {
                        Some(w) => o.was_on matches Some(t) && t@ == w@,
                        None => o.was_on is None,
                    }
                },
    {
        let mut out: Vec<OverviewCommentOwned> = Vec::new();
        let mut i: usize = 0;
        while i < entries.len()
            invariant
                i <= entries.len(),
                out@.len() == i,
                forall|k: int|
                    0 <= k < i ==> {
                        let o = #[trigger] out@[k];
                        let e = entries@[k];
                        &&& o.index == e.index
                        &&& o.comment.deep_view() == e.comment.deep_view()
                        &&& o.unattached == e.unattached
                        &&& match e.was_on {
                            Some(w) => o.was_on matches Some(t) && t@ == w@,
                            None => o.was_on is None,
                        }
                    },
            decreases entries.len() - i,
        {
            let e: &OverviewComment<'a> = &entries[i];
            out.push(
                OverviewCommentOwned {
                    index: e.index,
                    comment: e.comment.clone(),
                    unattached: e.unattached,
                    was_on: match e.was_on {
                        Some(w) => Some(copy_of(w)),
                        None => None,
                    },
                },
            );
            i += 1;
        }
        out
    }
}

/// Whether a placement is on the file of a path.
pub open spec fn on_path(placement: PlacementModel, path: Seq<char>) -> bool {
    placement matches PlacementModel::File { path: p, .. } && p == path
}

fn copy_target_counts(counts: &[TargetCounts]) -> (r: Vec<TargetCounts>)
    ensures
        r@.len() == counts@.len(),
        forall|k: int|
            0 <= k < r@.len() ==> (#[trigger] r@[k]).id.deep_view() == counts@[k].id.deep_view()
                && r@[k].counts == counts@[k].counts,
{
    let mut out: Vec<TargetCounts> = Vec::new();
    let mut i: usize = 0;
    while i < counts.len()
        invariant
            i <= counts.len(),
            out@.len() == i,
            forall|k: int|
                0 <= k < i ==> (#[trigger] out@[k]).id.deep_view() == counts@[k].id.deep_view()
                    && out@[k].counts == counts@[k].counts,
        decreases counts.len() - i,
    {
        out.push(TargetCounts { id: counts[i].id.clone(), counts: counts[i].counts });
        i += 1;
    }
    out
}

fn copy_entries(files: &[FileEntry]) -> (r: Vec<FileEntry>)
    ensures
        r.deep_view() == files.deep_view(),
{
    let mut out: Vec<FileEntry> = Vec::new();
    let mut i: usize = 0;
    while i < files.len()
        invariant
            i <= files.len(),
            out@.len() == i,
            forall|k: int| 0 <= k < i ==> (#[trigger] out@[k]).deep_view() == files@[k].deep_view(),
        decreases files.len() - i,
    {
        out.push(files[i].clone());
        i += 1;
    }
    assert(out.deep_view() =~= files.deep_view());
    out
}

/// The file indices of rows, in order.
pub open spec fn row_files(rows: Seq<TreeRowModel>) -> Seq<usize>
    decreases rows.len(),
{
    if rows.len() == 0 {
        Seq::empty()
    } else {
        match rows.last().file_index {
            Some(i) => row_files(rows.drop_last()).push(i),
            None => row_files(rows.drop_last()),
        }
    }
}

enum Bucket {
    File(String),
    Review,
    Unattached,
    Overview,
    WasOn,
    Untargeted,
}

impl Bucket {
    spec fn model(self) -> Group {
        match self {
            Bucket::File(path) => Group::File { path: path@ },
            Bucket::Review => Group::Review,
            Bucket::Unattached => Group::Unattached,
            Bucket::Overview => Group::Overview,
            Bucket::WasOn => Group::WasOn,
            Bucket::Untargeted => Group::Untargeted,
        }
    }

    /// Whether a comment with its placement belongs to the group.
    fn holds(&self, placement: &Placement, comment: &Comment) -> (r: bool)
        ensures
            forall|files: Seq<FileEntryModel>, scope: ScopeModel|
                placement.deep_view() == placed(comment.deep_view(), files, scope) ==> r
                    == #[trigger] in_group(comment.deep_view(), self.model(), files, scope),
    {
        match self {
            Bucket::File(path) => match placement {
                Placement::File { path: on, .. } => same_text(on.as_str(), path.as_str()),
                _ => false,
            },
            Bucket::Review => match placement {
                Placement::Review => true,
                _ => false,
            },
            Bucket::Unattached => match placement {
                Placement::Unattached | Placement::WasOn { .. } => true,
                _ => false,
            },
            Bucket::Overview => match placement {
                Placement::Review | Placement::Unattached | Placement::WasOn { .. } => true,
                _ => false,
            },
            Bucket::WasOn => match placement {
                Placement::WasOn { .. } => true,
                _ => false,
            },
            Bucket::Untargeted => comment.target.is_none(),
        }
    }
}

/// The tally of one target.
fn count_target(comments: &Vec<Comment>, id: &TargetId, Ghost(files): Ghost<
    Seq<FileEntryModel>,
>, Ghost(scope): Ghost<ScopeModel>) -> (r: FileCounts)
    ensures
        tallies(
            r,
            comments.deep_view(),
            group_pred(Group::Target { id: id.deep_view() }, files, scope),
        ),
{
    let ghost model = comments.deep_view();
    let ghost pred = group_pred(Group::Target { id: id.deep_view() }, files, scope);
    let ghost todo_pred = |c: CommentModel| pred(c) && c.status.todo();
    let mut counts: FileCounts = FileCounts::default();
    let mut i: usize = 0;
    while i < comments.len()
        invariant
            i <= comments.len(),
            model == comments.deep_view(),
            pred == group_pred(Group::Target { id: id.deep_view() }, files, scope),
            todo_pred == (|c: CommentModel| pred(c) && c.status.todo()),
            counts.total == count_if(model.take(i as int), pred),
            counts.todo == count_if(model.take(i as int), todo_pred),
            counts.total <= i,
            counts.todo <= i,
        decreases comments.len() - i,
    {
        let comment: &Comment = &comments[i];
        assert(model[i as int] == comment.deep_view());
        assert(model.take(i + 1).drop_last() =~= model.take(i as int));
        let own: bool = match &comment.target {
            Some(target) => same_target(target, id),
            None => false,
        };
        if own {
            counts.total = counts.total + 1;
            if comment.status.is_todo() {
                counts.todo = counts.todo + 1;
            }
        }
        i += 1;
    }
    assert(model.take(model.len() as int) =~= model);
    counts
}

/// One tally for each live target.
fn count_targets(comments: &Vec<Comment>, live: &Vec<TargetId>, Ghost(files): Ghost<
    Seq<FileEntryModel>,
>, Ghost(scope): Ghost<ScopeModel>) -> (r: Vec<TargetCounts>)
    ensures
        target_tallies(r@, live.deep_view(), comments.deep_view(), files, scope),
{
    let ghost model = live.deep_view();
    let mut out: Vec<TargetCounts> = Vec::new();
    let mut k: usize = 0;
    while k < live.len()
        invariant
            k <= live.len(),
            model == live.deep_view(),
            out@.len() == k,
            forall|j: int|
                0 <= j < k ==> {
                    let t = #[trigger] out@[j];
                    &&& t.id.deep_view() == model[j]
                    &&& if first_of_target(model, j) {
                        tallies(
                            t.counts,
                            comments.deep_view(),
                            group_pred(Group::Target { id: model[j] }, files, scope),
                        )
                    } else {
                        t.counts == (FileCounts { todo: 0, total: 0 })
                    }
                },
        decreases live.len() - k,
    {
        assert(model[k as int] == live[k as int].deep_view());
        let mut j: usize = 0;
        while j < k && !same_target(&live[j], &live[k])
            invariant
                j <= k,
                k < live.len(),
                model == live.deep_view(),
                forall|x: int| 0 <= x < j ==> (#[trigger] model[x]) != model[k as int],
            decreases k - j,
        {
            assert(model[j as int] != model[k as int]);
            j += 1;
        }
        let counts: FileCounts = if j < k {
            assert(model[j as int] == model[k as int]);
            FileCounts::default()
        } else {
            count_target(comments, &live[k], Ghost(files), Ghost(scope))
        };
        out.push(TargetCounts { id: live[k].clone(), counts });
        k += 1;
    }
    out
}

// ---------------------------------------------------------------------- laws

proof fn lemma_count_sum(
    comments: Seq<CommentModel>,
    p: spec_fn(CommentModel) -> bool,
    q: spec_fn(CommentModel) -> bool,
    both: spec_fn(CommentModel) -> bool,
)
    requires
        forall|c: CommentModel| #[trigger] both(c) == (p(c) || q(c)),
        forall|c: CommentModel| !(#[trigger] p(c) && q(c)),
    ensures
        count_if(comments, both) == count_if(comments, p) + count_if(comments, q),
    decreases comments.len(),
{
    if comments.len() > 0 {
        lemma_count_sum(comments.drop_last(), p, q, both);
        let c = comments.last();
        assert(both(c) == (p(c) || q(c)));
        assert(!(p(c) && q(c)));
    }
}

/// The "(review)" row is the review-level comments and the unattached ones
/// together, and none is counted in both.
pub proof fn overview_is_review_and_unattached(
    comments: Seq<CommentModel>,
    files: Seq<FileEntryModel>,
    scope: ScopeModel,
    review: FileCounts,
    unattached: FileCounts,
    overview: FileCounts,
)
    requires
        tallies(review, comments, group_pred(Group::Review, files, scope)),
        tallies(unattached, comments, group_pred(Group::Unattached, files, scope)),
        tallies(overview, comments, group_pred(Group::Overview, files, scope)),
    ensures
        overview.total == review.total + unattached.total,
        overview.todo == review.todo + unattached.todo,
{
    let p = group_pred(Group::Review, files, scope);
    let q = group_pred(Group::Unattached, files, scope);
    let both = group_pred(Group::Overview, files, scope);
    lemma_count_sum(comments, p, q, both);
    lemma_count_sum(
        comments,
        |c: CommentModel| p(c) && c.status.todo(),
        |c: CommentModel| q(c) && c.status.todo(),
        |c: CommentModel| both(c) && c.status.todo(),
    );
}

/// Without a scope every comment is shown: on a file, at review level, or
/// unattached.
pub proof fn unscoped_shows_every_comment(c: CommentModel, files: Seq<FileEntryModel>)
    ensures
        placed(c, files, no_scope()) !is OtherTarget,
        placed(c, files, no_scope()) !is WasOn,
        in_group(c, Group::Overview, files, no_scope()) || exists|path: Seq<char>| #[trigger]
            in_group(c, Group::File { path }, files, no_scope()),
{
    if let PlacementModel::File { path, .. } = placed(c, files, no_scope()) {
        assert(in_group(c, Group::File { path }, files, no_scope()));
    }
}

/// A comment counts in at most one place: on one file, or in the overview,
/// not both; one made on another live target counts nowhere.
pub proof fn comments_count_once(
    c: CommentModel,
    files: Seq<FileEntryModel>,
    scope: ScopeModel,
    a: Seq<char>,
    b: Seq<char>,
)
    ensures
        in_group(c, Group::File { path: a }, files, scope) && in_group(
            c,
            Group::File { path: b },
            files,
            scope,
        ) ==> a == b,
        in_group(c, Group::File { path: a }, files, scope) ==> !in_group(
            c,
            Group::Overview,
            files,
            scope,
        ),
        in_group(c, Group::WasOn, files, scope) ==> in_group(c, Group::Unattached, files, scope),
        placed(c, files, scope) is OtherTarget ==> !in_group(
            c,
            Group::File { path: a },
            files,
            scope,
        ) && !in_group(c, Group::Overview, files, scope),
{
}

proof fn lemma_listed_are_counted(
    comments: Seq<CommentModel>,
    group: Group,
    files: Seq<FileEntryModel>,
    scope: ScopeModel,
    n: int,
)
    requires
        0 <= n <= comments.len(),
    ensures
        group_indices(comments, group, files, scope, n).len() == count_if(
            comments.take(n),
            group_pred(group, files, scope),
        ),
    decreases n,
{
    if n > 0 {
        lemma_listed_are_counted(comments, group, files, scope, n - 1);
        assert(comments.take(n).drop_last() =~= comments.take(n - 1));
    }
}

/// A list of comments and its tally never disagree: of every group, as many are
/// listed as are counted.
pub proof fn listed_comments_are_counted(
    comments: Seq<CommentModel>,
    group: Group,
    files: Seq<FileEntryModel>,
    scope: ScopeModel,
    counts: FileCounts,
)
    requires
        tallies(counts, comments, group_pred(group, files, scope)),
    ensures
        group_indices(comments, group, files, scope, comments.len() as int).len() == counts.total,
{
    lemma_listed_are_counted(comments, group, files, scope, comments.len() as int);
    assert(comments.take(comments.len() as int) =~= comments);
}

/// The annotated files and the unreviewed ones part the list: every file passes
/// exactly one of the two filters.
pub proof fn filters_part_the_files(
    annotated: ReviewProjection<'_>,
    unreviewed: ReviewProjection<'_>,
    i: int,
)
    requires
        annotated.filter_model() == FileFilter::Annotated,
        unreviewed.filter_model() == FileFilter::Unreviewed,
        annotated.comment_models() == unreviewed.comment_models(),
        annotated.file_models() == unreviewed.file_models(),
        annotated.scope_model() == unreviewed.scope_model(),
    ensures
        annotated.shows(i) != unreviewed.shows(i),
{
}

} // verus!
