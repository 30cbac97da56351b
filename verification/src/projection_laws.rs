//! What the projection of a review counts and lists, told comment by comment.

use vstd::prelude::*;

use crate::anchor::{placed, PlacementModel, ScopeModel};
use crate::lifecycle::Status;
use crate::model::FileEntryModel;
use crate::projection::{
    count_if, group_indices, group_pred, in_group, row_files, tallies, FileCounts, FileFilter,
    Group, ReviewProjection,
};
use crate::review::CommentModel;
use crate::tree::TreeRowModel;

verus! {

/// Whether a comment is one that a group is about.
pub open spec fn is_about(
    c: CommentModel,
    group: Group,
    files: Seq<FileEntryModel>,
    scope: ScopeModel,
) -> bool {
    match placed(c, files, scope) {
        PlacementModel::Review => group == Group::Review || group == Group::Overview || made_on(
            c,
            group,
        ),
        PlacementModel::Unattached => group == Group::Unattached || group == Group::Overview
            || made_on(c, group),
        PlacementModel::WasOn { .. } => group == Group::WasOn || group == Group::Unattached || group
            == Group::Overview || made_on(c, group),
        PlacementModel::File { path, .. } => group == (Group::File { path }) || made_on(c, group),
        PlacementModel::OtherTarget => made_on(c, group),
    }
}

/// Whether a group is that of the comments made where this one was.
pub open spec fn made_on(c: CommentModel, group: Group) -> bool {
    match c.target {
        None => group == Group::Untargeted,
        Some(id) => group == (Group::Target { id }),
    }
}

/// Of no comments there is nothing to count. One more comment raises the
/// tally of a group by one where the group is about it, and the part that is
/// to be done where it is open or reopened as well.
pub proof fn tallies_grow_by_their_comments(
    comments: Seq<CommentModel>,
    c: CommentModel,
    group: Group,
    files: Seq<FileEntryModel>,
    scope: ScopeModel,
    before: FileCounts,
    after: FileCounts,
)
    requires
        tallies(before, comments, group_pred(group, files, scope)),
        tallies(after, comments.push(c), group_pred(group, files, scope)),
    ensures
        comments.len() == 0 ==> before.total == 0 && before.todo == 0,
        after.total == before.total + if is_about(c, group, files, scope) {
            1int
        } else {
            0
        },
        after.todo == before.todo + if is_about(c, group, files, scope) && (c.status
            == Status::Open || c.status == Status::Reopened) {
            1int
        } else {
            0
        },
{
    assert(comments.push(c).drop_last() =~= comments);
    assert(in_group(c, group, files, scope) == is_about(c, group, files, scope));
}

/// The comments listed for a group are those that it is about, each once, in
/// the order of the review.
pub proof fn listed_comments_are_the_groups(
    comments: Seq<CommentModel>,
    group: Group,
    files: Seq<FileEntryModel>,
    scope: ScopeModel,
)
    ensures
        ({
            let listed = group_indices(comments, group, files, scope, comments.len() as int);
            &&& forall|k: int|
                0 <= k < listed.len() ==> 0 <= #[trigger] listed[k] < comments.len() && is_about(
                    comments[listed[k]],
                    group,
                    files,
                    scope,
                )
            &&& forall|j: int, k: int|
                0 <= j < k < listed.len() ==> #[trigger] listed[j] < #[trigger] listed[k]
            &&& forall|i: int|
                0 <= i < comments.len() && is_about(#[trigger] comments[i], group, files, scope)
                    ==> listed.contains(i)
        }),
{
    lemma_listed(comments, group, files, scope, comments.len() as int);
}

/// Whether a comment is placed on the file with this path.
pub open spec fn is_on(
    c: CommentModel,
    on: Seq<char>,
    files: Seq<FileEntryModel>,
    scope: ScopeModel,
) -> bool {
    placed(c, files, scope) matches PlacementModel::File { path, .. } && path == on
}

/// Whether a comment of the projection is placed on a file.
pub open spec fn is_annotated(p: ReviewProjection<'_>, i: int) -> bool {
    exists|k: int|
        0 <= k < p.comment_models().len() && is_on(
            #[trigger] p.comment_models()[k],
            p.file_models()[i].path,
            p.file_models(),
            p.scope_model(),
        )
}

/// Every file passes when all do; otherwise the annotated ones are those that
/// a comment is placed on, and the unreviewed ones are the rest.
pub proof fn filters_ask_for_comments(p: ReviewProjection<'_>, i: int)
    ensures
        p.shows(i) == match p.filter_model() {
            FileFilter::All => true,
            FileFilter::Annotated => is_annotated(p, i),
            FileFilter::Unreviewed => !is_annotated(p, i),
        },
{
    let path = p.file_models()[i].path;
    let pred = group_pred(Group::File { path }, p.file_models(), p.scope_model());
    lemma_counts_some(p.comment_models(), pred);
    if count_if(p.comment_models(), pred) > 0 {
        let k = choose|k: int|
            0 <= k < p.comment_models().len() && pred(#[trigger] p.comment_models()[k]);
        assert(in_group(
            p.comment_models()[k],
            Group::File { path },
            p.file_models(),
            p.scope_model(),
        ));
    }
    if is_annotated(p, i) {
        let k = choose|k: int|
            0 <= k < p.comment_models().len() && is_on(
            #[trigger] p.comment_models()[k],
            p.file_models()[i].path,
            p.file_models(),
            p.scope_model(),
        );
        assert(pred(p.comment_models()[k]));
    }
}

/// The files shown are those that pass the filter, each once, in order.
pub proof fn shown_files_are_those_that_pass(p: ReviewProjection<'_>)
    requires
        p.file_models().len() <= usize::MAX,
    ensures
        ({
            let shown = p.shown_files(p.file_models().len() as int);
            &&& forall|k: int|
                0 <= k < shown.len() ==> (#[trigger] shown[k]) < p.file_models().len() && p.shows(
                    shown[k] as int,
                )
            &&& forall|j: int, k: int|
                0 <= j < k < shown.len() ==> #[trigger] shown[j] < #[trigger] shown[k]
            &&& forall|i: usize|
                i < p.file_models().len() && #[trigger] p.shows(i as int) ==> shown.contains(i)
        }),
{
    lemma_shown(p, p.file_models().len() as int);
}

/// The files of rows are those that the rows name, in their order.
pub proof fn row_files_follow_the_rows(rows: Seq<TreeRowModel>, row: TreeRowModel)
    ensures
        rows.len() == 0 ==> row_files(rows).len() == 0,
        row.file_index is None ==> row_files(rows.push(row)) == row_files(rows),
        row.file_index matches Some(i) ==> row_files(rows.push(row)) == row_files(rows).push(i),
{
    assert(rows.push(row).drop_last() =~= rows);
}

proof fn lemma_listed(
    comments: Seq<CommentModel>,
    group: Group,
    files: Seq<FileEntryModel>,
    scope: ScopeModel,
    n: int,
)
    requires
        0 <= n <= comments.len(),
    ensures
        ({
            let listed = group_indices(comments, group, files, scope, n);
            &&& forall|k: int|
                0 <= k < listed.len() ==> 0 <= #[trigger] listed[k] < n && is_about(
                    comments[listed[k]],
                    group,
                    files,
                    scope,
                )
            &&& forall|j: int, k: int|
                0 <= j < k < listed.len() ==> #[trigger] listed[j] < #[trigger] listed[k]
            &&& forall|i: int|
                0 <= i < n && is_about(#[trigger] comments[i], group, files, scope)
                    ==> listed.contains(i)
        }),
    decreases n,
{
    if n > 0 {
        lemma_listed(comments, group, files, scope, n - 1);
        let before = group_indices(comments, group, files, scope, n - 1);
        let listed = group_indices(comments, group, files, scope, n);
        assert(in_group(comments[n - 1], group, files, scope) == is_about(
            comments[n - 1],
            group,
            files,
            scope,
        ));
        assert forall|i: int|
            0 <= i < n && is_about(#[trigger] comments[i], group, files, scope) implies
            listed.contains(i) by {
            if i < n - 1 {
                let k = choose|k: int| 0 <= k < before.len() && before[k] == i;
                assert(listed[k] == i);
            } else {
                assert(listed.last() == i);
            }
        }
    }
}

proof fn lemma_shown(p: ReviewProjection<'_>, n: int)
    requires
        0 <= n <= p.file_models().len() <= usize::MAX,
    ensures
        ({
            let shown = p.shown_files(n);
            &&& forall|k: int|
                0 <= k < shown.len() ==> (#[trigger] shown[k]) < n && p.shows(shown[k] as int)
            &&& forall|j: int, k: int|
                0 <= j < k < shown.len() ==> #[trigger] shown[j] < #[trigger] shown[k]
            &&& forall|i: usize| i < n && #[trigger] p.shows(i as int) ==> shown.contains(i)
        }),
    decreases n,
{
    if n > 0 {
        lemma_shown(p, n - 1);
        let before = p.shown_files(n - 1);
        let shown = p.shown_files(n);
        assert forall|i: usize| i < n && #[trigger] p.shows(i as int) implies shown.contains(i) by {
            if i < n - 1 {
                let k = choose|k: int| 0 <= k < before.len() && before[k] == i;
                assert(shown[k] == i);
            } else {
                assert(shown.last() == i);
            }
        }
    }
}

proof fn lemma_counts_some(comments: Seq<CommentModel>, pred: spec_fn(CommentModel) -> bool)
    ensures
        count_if(comments, pred) > 0 <==> exists|k: int|
            0 <= k < comments.len() && pred(#[trigger] comments[k]),
    decreases comments.len(),
{
    if comments.len() > 0 {
        let front = comments.drop_last();
        lemma_counts_some(front, pred);
        if count_if(front, pred) > 0 {
            let k = choose|k: int| 0 <= k < front.len() && pred(#[trigger] front[k]);
            assert(pred(comments[k]));
        }
        if pred(comments.last()) {
            assert(pred(comments[comments.len() - 1]));
        }
        if exists|k: int| 0 <= k < comments.len() && pred(#[trigger] comments[k]) {
            let k = choose|k: int| 0 <= k < comments.len() && pred(#[trigger] comments[k]);
            if k < front.len() {
                assert(pred(front[k]));
            }
        }
    }
}

} // verus!
