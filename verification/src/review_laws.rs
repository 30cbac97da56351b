//! What the operations on a review do, told by the comments and fields that
//! they touch and those that they leave alone.

use vstd::prelude::*;

use crate::lifecycle::{Action, Actor, LifecycleErrorModel, Status};
use crate::review::{
    comment_fault, comment_index, count_status, first_comment_fault, id_char, lemma_comment_index,
    new_comment_fault, CommentModel, NewCommentModel, ReviewErrorModel, ReviewModel,
};
use crate::text::{occurs_at, white_space};

verus! {

/// Whether comment `i` is the one that an id speaks of: the first that has it.
pub open spec fn named(comments: Seq<CommentModel>, id: Seq<char>, i: int) -> bool {
    &&& 0 <= i < comments.len()
    &&& comments[i].id == id
    &&& forall|k: int| 0 <= k < i ==> (#[trigger] comments[k]).id != id
}

/// Whether no comment has the id.
pub open spec fn unnamed(comments: Seq<CommentModel>, id: Seq<char>) -> bool {
    forall|k: int| 0 <= k < comments.len() ==> (#[trigger] comments[k]).id != id
}

/// Whether two reviews differ in nothing but their comments, their revision
/// and the time of their last change.
pub open spec fn same_review(a: ReviewModel, b: ReviewModel) -> bool {
    &&& a.ambidiff == b.ambidiff
    &&& a.review == b.review
    &&& a.source == b.source
    &&& a.created_at == b.created_at
    &&& a.quarantined == b.quarantined
    &&& a.extra == b.extra
}

/// Whether two comments are one remark on one place, whatever became of it.
pub open spec fn same_remark(a: CommentModel, b: CommentModel) -> bool {
    &&& a.id == b.id
    &&& a.rev == b.rev
    &&& a.path == b.path
    &&& a.side == b.side
    &&& a.line == b.line
    &&& a.end_line == b.end_line
    &&& a.snippet == b.snippet
    &&& a.author == b.author
    &&& a.created_at == b.created_at
    &&& a.target == b.target
    &&& a.extra == b.extra
}

/// Whether something waits for the agent, or nothing was ever said: activity
/// then belongs to the pass at hand.
pub open spec fn pass_runs(review: ReviewModel) -> bool {
    review.comments.len() == 0 || exists|k: int|
        #![trigger review.comments[k]]
        0 <= k < review.comments.len() && (review.comments[k].status == Status::Open
            || review.comments[k].status == Status::Reopened)
}

/// Whether a comment other than `i` is as it was.
pub open spec fn others_kept(
    before: Seq<CommentModel>,
    after: Seq<CommentModel>,
    i: int,
) -> bool {
    &&& after.len() == before.len()
    &&& forall|k: int| 0 <= k < before.len() && k != i ==> #[trigger] after[k] == before[k]
}

/// Whether the verify loop has such a step: anyone may address what is to be
/// done, and a human alone may close what is not closed or reopen what is
/// off the list.
pub open spec fn may_act(status: Status, action: Action, actor: Actor) -> bool {
    match action {
        Action::Address => status == Status::Open || status == Status::Reopened,
        Action::Resolve => actor == Actor::Human && status != Status::Resolved,
        Action::Reopen => actor == Actor::Human && (status == Status::Addressed || status
            == Status::Resolved),
    }
}

/// A lifecycle action that succeeds gives the comment the status that the
/// action is named for. The comment carries exactly the response that came
/// with the action where that is not empty, and the one that it had
/// otherwise. Its time of change is now; the remark itself, every other
/// comment and the rest of the review stay. The revision moves by one where
/// a reopen lands while nothing waits for the agent, and not otherwise.
pub proof fn actions_answer_the_comment(
    before: ReviewModel,
    id: Seq<char>,
    action: Action,
    actor: Actor,
    response: Option<Seq<char>>,
    now: Seq<char>,
    i: int,
)
    requires
        named(before.comments, id, i),
        before.after_action(id, action, actor, response, now) is Ok,
    ensures
        ({
            let after = before.after_action(id, action, actor, response, now)->Ok_0;
            let was = before.comments[i];
            let is = after.comments[i];
            &&& others_kept(before.comments, after.comments, i)
            &&& same_remark(was, is)
            &&& is.body == was.body
            &&& action == Action::Address ==> is.status == Status::Addressed
            &&& action == Action::Resolve ==> is.status == Status::Resolved
            &&& action == Action::Reopen ==> is.status == Status::Reopened
            &&& (response matches Some(text) && text.len() > 0) ==> is.response == response
            &&& response is None ==> is.response == was.response
            &&& (response matches Some(text) && text.len() == 0) ==> is.response
                == was.response
            &&& is.updated_at == now
            &&& after.updated_at == now
            &&& same_review(before, after)
            &&& after.revision == before.revision + if action == Action::Reopen && !pass_runs(
                before,
            ) {
                1int
            } else {
                0
            }
        }),
{
    lemma_index_of_named(before.comments, id, i);
    lemma_pass(before);
}

/// An action succeeds exactly when a comment has the id, the verify loop has
/// the step, and the revision counter has room where a new pass opens.
pub proof fn actions_succeed_when_allowed(
    before: ReviewModel,
    id: Seq<char>,
    action: Action,
    actor: Actor,
    response: Option<Seq<char>>,
    now: Seq<char>,
    i: int,
)
    requires
        named(before.comments, id, i),
    ensures
        ({
            let status = before.comments[i].status;
            let r = before.after_action(id, action, actor, response, now);
            let full = action == Action::Reopen && !pass_runs(before) && before.revision
                == u32::MAX;
            &&& r is Ok <==> may_act(status, action, actor) && !full
            &&& r == Err::<ReviewModel, ReviewErrorModel>(ReviewErrorModel::RevisionExhausted)
                <==> may_act(status, action, actor) && full
            &&& (r matches Err(ReviewErrorModel::Lifecycle(LifecycleErrorModel::HumanOnly {
                ..
            }))) <==> actor == Actor::Agent && action != Action::Address
            &&& (r matches Err(ReviewErrorModel::Lifecycle(
                LifecycleErrorModel::InvalidTransition { .. },
            ))) <==> action == Action::Address && status == Status::Resolved
            &&& (r matches Err(ReviewErrorModel::Lifecycle(
                LifecycleErrorModel::AlreadyInState { .. },
            ))) <==> {
                ||| action == Action::Address && status == Status::Addressed
                ||| action == Action::Resolve && actor == Actor::Human && status
                    == Status::Resolved
                ||| action == Action::Reopen && actor == Actor::Human && (status
                    == Status::Open || status == Status::Reopened)
            }
        }),
{
    lemma_index_of_named(before.comments, id, i);
    lemma_pass(before);
}

/// What no comment is called can be neither acted on, edited nor deleted.
pub proof fn unknown_ids_are_reported(
    before: ReviewModel,
    id: Seq<char>,
    action: Action,
    actor: Actor,
    response: Option<Seq<char>>,
    body: Seq<char>,
    now: Seq<char>,
)
    requires
        unnamed(before.comments, id),
    ensures
        before.after_action(id, action, actor, response, now) == Err::<
            ReviewModel,
            ReviewErrorModel,
        >(ReviewErrorModel::CommentNotFound { id }),
        before.without_comment(id, now) == Err::<ReviewModel, ReviewErrorModel>(
            ReviewErrorModel::CommentNotFound { id },
        ),
        before.with_body(id, body, now) is Err,
        (exists|k: int| 0 <= k < body.len() && !white_space(#[trigger] body[k]))
            ==> before.with_body(id, body, now) == Err::<ReviewModel, ReviewErrorModel>(
            ReviewErrorModel::CommentNotFound { id },
        ),
{
    lemma_comment_index(before.comments, id);
}

/// Whether a remark can be made: it says something, a line stands in a named
/// file, a side and an end belong to a line, lines count from one, and a
/// range does not end before it starts.
pub open spec fn can_be_said(new: NewCommentModel) -> bool {
    &&& exists|k: int| 0 <= k < new.body.len() && !white_space(#[trigger] new.body[k])
    &&& new.path is Some ==> new.path->0.len() > 0
    &&& new.line is Some ==> new.path is Some && new.line->0 >= 1
    &&& new.side is Some ==> new.line is Some
    &&& new.end_line is Some ==> new.line is Some && new.line->0 <= new.end_line->0
}

/// A comment is added exactly when it can be said, its id is new and the
/// revision counter has room where a new pass opens. It then stands last,
/// open, as it was said and without a response, in the revision that the
/// review now has; everything else stays.
pub proof fn additions_are_what_was_said(
    before: ReviewModel,
    new: NewCommentModel,
    id: Seq<char>,
    now: Seq<char>,
)
    ensures
        ({
            let r = before.with_comment(new, id, now);
            let opens = !pass_runs(before);
            &&& r is Ok <==> can_be_said(new) && unnamed(before.comments, id) && !(opens
                && before.revision == u32::MAX)
            &&& r is Err && can_be_said(new) ==> if unnamed(before.comments, id) {
                r->Err_0 == ReviewErrorModel::RevisionExhausted
            } else {
                r->Err_0 == (ReviewErrorModel::DuplicateId { id })
            }
            &&& !can_be_said(new) ==> (r matches Err(ReviewErrorModel::Validation { .. }))
        }),
        before.with_comment(new, id, now) matches Ok(after) ==> {
            let n = before.comments.len() as int;
            let is = after.comments[n];
            &&& after.comments.len() == n + 1
            &&& forall|k: int| 0 <= k < n ==> #[trigger] after.comments[k] == before.comments[k]
            &&& after.revision == before.revision + if pass_runs(before) {
                0int
            } else {
                1
            }
            &&& is.id == id
            &&& is.rev == after.revision
            &&& is.status == Status::Open
            &&& is.path == new.path
            &&& is.side == new.side
            &&& is.line == new.line
            &&& is.end_line == new.end_line
            &&& is.snippet == new.snippet
            &&& is.body == new.body
            &&& is.author == new.author
            &&& is.response is None
            &&& is.target is None
            &&& is.extra.len() == 0
            &&& is.created_at == now
            &&& is.updated_at == now
            &&& after.updated_at == now
            &&& same_review(before, after)
        },
{
    lemma_pass(before);
    lemma_comment_index(before.comments, id);
    lemma_fault(new);
}

/// An edit succeeds exactly when the new body says something and a comment
/// has the id. That comment then has the new body; its status and response,
/// every other comment and the revision stay.
pub proof fn edits_change_the_body_alone(
    before: ReviewModel,
    id: Seq<char>,
    body: Seq<char>,
    now: Seq<char>,
    i: int,
)
    requires
        named(before.comments, id, i),
    ensures
        before.with_body(id, body, now) is Ok <==> exists|k: int|
            0 <= k < body.len() && !white_space(#[trigger] body[k]),
        before.with_body(id, body, now) matches Err(e) ==> e is Validation,
        before.with_body(id, body, now) matches Ok(after) ==> {
            let was = before.comments[i];
            let is = after.comments[i];
            &&& others_kept(before.comments, after.comments, i)
            &&& same_remark(was, is)
            &&& is.body == body
            &&& is.status == was.status
            &&& is.response == was.response
            &&& is.updated_at == now
            &&& after.updated_at == now
            &&& after.revision == before.revision
            &&& same_review(before, after)
        },
{
    lemma_index_of_named(before.comments, id, i);
}

/// A deletion takes the comment that the id speaks of out, and nothing else:
/// those before it keep their place, those behind it move up by one.
pub proof fn deletions_take_one_comment(
    before: ReviewModel,
    id: Seq<char>,
    now: Seq<char>,
    i: int,
)
    requires
        named(before.comments, id, i),
    ensures
        before.without_comment(id, now) matches Ok(after) && {
            &&& after.comments.len() == before.comments.len() - 1
            &&& forall|k: int| 0 <= k < i ==> #[trigger] after.comments[k] == before.comments[k]
            &&& forall|k: int|
                i <= k < after.comments.len() ==> #[trigger] after.comments[k]
                    == before.comments[k + 1]
            &&& after.updated_at == now
            &&& after.revision == before.revision
            &&& same_review(before, after)
        },
{
    lemma_index_of_named(before.comments, id, i);
}

/// What is added can be deleted again: all that is left of it is the
/// revision that it may have opened and the time of the change.
pub proof fn deleting_undoes_adding(
    before: ReviewModel,
    new: NewCommentModel,
    id: Seq<char>,
    now: Seq<char>,
    later: Seq<char>,
)
    requires
        before.with_comment(new, id, now) is Ok,
    ensures
        before.with_comment(new, id, now)->Ok_0.without_comment(id, later) matches Ok(after) && {
            &&& after.comments == before.comments
            &&& after.revision == before.with_comment(new, id, now)->Ok_0.revision
            &&& same_review(before, after)
        },
{
    additions_are_what_was_said(before, new, id, now);
    let added = before.with_comment(new, id, now)->Ok_0;
    let n = before.comments.len() as int;
    assert(named(added.comments, id, n)) by {
        assert forall|k: int| 0 <= k < n implies (#[trigger] added.comments[k]).id != id by {
            assert(added.comments[k] == before.comments[k]);
        }
    }
    deletions_take_one_comment(added, id, later, n);
    let after = added.without_comment(id, later)->Ok_0;
    assert(after.comments =~= before.comments) by {
        assert forall|k: int| 0 <= k < n implies after.comments[k] == before.comments[k] by {
            assert(after.comments[k] == added.comments[k]);
        }
    }
}

/// Whether a character is an ASCII letter or digit, a dash, an underscore or
/// a dot.
pub open spec fn plain_char(c: char) -> bool {
    let n = c as u32;
    (48 <= n && n <= 57) || (65 <= n && n <= 90) || (97 <= n && n <= 122) || n == 45 || n == 46
        || n == 95
}

/// Whether a comment may be written: its id is made of plain characters, a
/// line stands in a file, and a range does not end before it starts.
pub open spec fn can_be_kept(c: CommentModel) -> bool {
    &&& c.id.len() > 0
    &&& forall|k: int| 0 <= k < c.id.len() ==> plain_char(#[trigger] c.id[k])
    &&& c.line is Some || c.end_line is Some ==> c.path is Some
    &&& c.line is Some && c.end_line is Some ==> c.line->0 <= c.end_line->0
}

/// Whether no comment before `i` has its id.
pub open spec fn id_is_new(comments: Seq<CommentModel>, i: int) -> bool {
    forall|k: int| 0 <= k < i ==> (#[trigger] comments[k]).id != comments[i].id
}

/// A review passes validation exactly when its revision is not zero, each
/// comment may be written, and no two share an id.
pub proof fn valid_reviews_hold_together(review: ReviewModel)
    ensures
        review.fault() is None <==> {
            &&& review.revision >= 1
            &&& forall|i: int|
                0 <= i < review.comments.len() ==> can_be_kept(#[trigger] review.comments[i])
                    && id_is_new(review.comments, i)
        },
{
    let cs = review.comments;
    lemma_no_fault(cs, cs.len() as int);
    assert forall|i: int| 0 <= i < cs.len() implies (#[trigger] comment_fault(cs, i) is None <==> (
    can_be_kept(cs[i]) && id_is_new(cs, i))) by {
        lemma_comment_fault(cs, i);
    }
    if review.fault() is None {
        assert forall|i: int| 0 <= i < cs.len() implies can_be_kept(#[trigger] cs[i]) && id_is_new(
            cs,
            i,
        ) by {
            assert(comment_fault(cs, i) is None);
        }
    }
}

/// The tally of a status is the number of comments that have it, in any
/// order: taking a comment out lowers the tally of its status by one and no
/// other.
pub proof fn tallies_count_each_comment_once(
    comments: Seq<CommentModel>,
    status: Status,
    i: int,
)
    requires
        0 <= i < comments.len(),
    ensures
        count_status(comments, status) == count_status(comments.remove(i), status) + if
            comments[i].status == status {
            1nat
        } else {
            0
        },
        comments.len() == 1 ==> count_status(comments, status) <= 1,
    decreases comments.len(),
{
    if i == comments.len() - 1 {
        assert(comments.remove(i) =~= comments.drop_last());
    } else {
        tallies_count_each_comment_once(comments.drop_last(), status, i);
        assert(comments.remove(i).drop_last() =~= comments.drop_last().remove(i));
        assert(comments.remove(i).last() == comments.last());
    }
    if comments.len() == 1 {
        assert(count_status(comments.drop_last(), status) == 0);
    }
}

/// A comment asks a question exactly where two question marks stand side by
/// side in its body.
pub proof fn questions_have_two_marks(c: CommentModel)
    ensures
        c.question() <==> exists|i: int|
            0 <= i < c.body.len() - 1 && #[trigger] c.body[i] == '?' && c.body[i + 1] == '?',
{
    reveal_strlit("??");
    if c.question() {
        let i = choose|i: int| occurs_at(c.body, "??"@, i);
        assert(c.body.subrange(i, i + 2)[0] == '?' && c.body.subrange(i, i + 2)[1] == '?');
        assert(c.body[i] == '?' && c.body[i + 1] == '?');
    }
    if exists|i: int|
        0 <= i < c.body.len() - 1 && #[trigger] c.body[i] == '?' && c.body[i + 1] == '?' {
        let i = choose|i: int|
            0 <= i < c.body.len() - 1 && #[trigger] c.body[i] == '?' && c.body[i + 1] == '?';
        assert(c.body.subrange(i, i + 2) =~= "??"@);
        assert(occurs_at(c.body, "??"@, i));
    }
}

proof fn lemma_index_of_named(comments: Seq<CommentModel>, id: Seq<char>, i: int)
    requires
        named(comments, id, i),
    ensures
        comment_index(comments, id) == i,
{
    lemma_comment_index(comments, id);
    let j = comment_index(comments, id);
    if j < i {
        assert(comments[j].id != id);
    } else if i < j {
        assert(comments[i].id != id);
    }
}

proof fn lemma_pass(review: ReviewModel)
    ensures
        review.pass_complete() == !pass_runs(review),
{
    if pass_runs(review) && review.comments.len() > 0 {
        let k = choose|k: int|
            #![trigger review.comments[k]]
            0 <= k < review.comments.len() && (review.comments[k].status == Status::Open
                || review.comments[k].status == Status::Reopened);
        assert(review.comments[k].status.todo());
    }
}

proof fn lemma_fault(new: NewCommentModel)
    ensures
        new_comment_fault(new) is None <==> can_be_said(new),
{
}

proof fn lemma_no_fault(comments: Seq<CommentModel>, n: int)
    requires
        0 <= n <= comments.len(),
    ensures
        first_comment_fault(comments, n) is None <==> forall|i: int|
            0 <= i < n ==> #[trigger] comment_fault(comments, i) is None,
    decreases n,
{
    if n > 0 {
        lemma_no_fault(comments, n - 1);
    }
}

pub proof fn lemma_plain_char(c: char)
    ensures
        plain_char(c) == id_char(c),
{
    assert(c as u32 == 45 ==> c == '-');
    assert(id_char(c) ==> plain_char(c));
    assert(plain_char(c) ==> id_char(c));
}

proof fn lemma_comment_fault(comments: Seq<CommentModel>, i: int)
    requires
        0 <= i < comments.len(),
    ensures
        comment_fault(comments, i) is None <==> (can_be_kept(comments[i]) && id_is_new(
            comments,
            i,
        )),
{
    let c = comments[i];
    lemma_comment_index(comments, c.id);
    if comment_index(comments, c.id) < i {
        assert(comments[comment_index(comments, c.id)].id == c.id);
    }
    assert forall|k: int| 0 <= k < c.id.len() implies plain_char(#[trigger] c.id[k]) == id_char(
        c.id[k],
    ) by {
        lemma_plain_char(c.id[k]);
    }
}

} // verus!
