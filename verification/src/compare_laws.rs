//! What a base asks to compare, and what git's answers make of it.

use vstd::prelude::*;

use crate::git_source::{
    answered, asked, endpoint_words, first_stage, path_words, planned, PlanModel, QuestionModel,
    StageModel, UnsettledModel,
};
use crate::parser_laws::is_bare;
use crate::source::{ComparisonModel, EndpointModel, FileDiffRequest};
use crate::text::{
    find_text_from, lemma_find_text_from, occurs_at, trim, trim_end, trim_start, white_space,
};

verus! {

/// Whether two dots stand side by side.
pub open spec fn has_dots(s: Seq<char>) -> bool {
    exists|i: int| 0 <= i < s.len() - 1 && #[trigger] s[i] == '.' && s[i + 1] == '.'
}

/// An end of a range as it is looked up: what is left out is the head.
pub open spec fn end_or_head(s: Seq<char>) -> Seq<char> {
    if s.len() == 0 {
        "HEAD"@
    } else {
        s
    }
}

/// Without a base, or with an empty one, the working tree is compared with
/// the index, and what is staged with the head.
pub proof fn no_base_asks_for_the_usual(base: Option<Seq<char>>)
    requires
        base matches Some(s) ==> s.len() == 0,
    ensures
        planned(base, false) == Some(PlanModel::Plain),
        planned(base, true) == Some(PlanModel::StagedHead),
{
}

/// A base without two dots is one ref: the working tree is compared with it,
/// or what is staged.
pub proof fn plain_bases_are_refs(base: Seq<char>)
    requires
        base.len() > 0,
        !has_dots(base),
    ensures
        planned(Some(base), false) == Some(PlanModel::WorktreeRef { spec_text: base }),
        planned(Some(base), true) == Some(PlanModel::StagedRef { spec_text: base }),
{
    lemma_no_dots(base);
}

/// Two dots between refs ask for a range, and three for a range from the
/// commit that both have in common. An end that is left out is the head. A
/// range is never staged.
pub proof fn dots_ask_for_ranges(left: Seq<char>, right: Seq<char>)
    requires
        !has_dots(left),
        !has_dots(right),
        left.len() > 0 ==> left.last() != '.',
        right.len() > 0 ==> right[0] != '.',
    ensures
        planned(Some(left + seq!['.', '.'] + right), false) == Some(
            PlanModel::Range { left: end_or_head(left), right: end_or_head(right) },
        ),
        planned(Some(left + seq!['.', '.', '.'] + right), false) == Some(
            PlanModel::MergeBase { left: end_or_head(left), right: end_or_head(right) },
        ),
        planned(Some(left + seq!['.', '.'] + right), true) is None,
        planned(Some(left + seq!['.', '.', '.'] + right), true) is None,
{
    let n = left.len() as int;
    let two = left + seq!['.', '.'] + right;
    let three = left + seq!['.', '.', '.'] + right;
    reveal_strlit("..");
    reveal_strlit("...");
    lemma_find_text_from(two, ".."@, 0);
    lemma_find_text_from(two, "..."@, 0);
    lemma_find_text_from(three, ".."@, 0);
    lemma_find_text_from(three, "..."@, 0);
    assert(occurs_at(two, ".."@, n)) by {
        assert(two.subrange(n, n + 2) =~= ".."@);
    }
    assert(occurs_at(three, "..."@, n)) by {
        assert(three.subrange(n, n + 3) =~= "..."@);
    }
    assert(occurs_at(three, ".."@, n)) by {
        assert(three.subrange(n, n + 2) =~= ".."@);
    }
    assert forall|k: int| 0 <= k < n implies !(#[trigger] occurs_at(two, ".."@, k)) by {
        lemma_no_dots_at(two, left, k);
    }
    assert forall|k: int| 0 <= k < n implies !(#[trigger] occurs_at(three, "..."@, k)) by {
        if occurs_at(three, "..."@, k) {
            assert(three.subrange(k, k + 3)[0] == '.' && three.subrange(k, k + 3)[1] == '.');
            assert(three[k] == left[k]);
            if k + 1 < n {
                assert(three[k + 1] == left[k + 1]);
            }
        }
    }
    assert forall|k: int| 0 <= k implies !(#[trigger] occurs_at(two, "..."@, k)) by {
        if occurs_at(two, "..."@, k) {
            let s = two.subrange(k, k + 3);
            assert(s[0] == '.' && s[1] == '.' && s[2] == '.');
            assert(two[k] == '.' && two[k + 1] == '.' && two[k + 2] == '.');
            if k < n {
                assert(two[k] == left[k]);
                if k + 1 < n {
                    assert(two[k + 1] == left[k + 1]);
                }
            } else if k == n {
                assert(two[k + 2] == right[0]);
            } else if k == n + 1 {
                assert(two[k + 1] == right[0]);
            } else {
                assert(two[k] == right[k - n - 2]);
                assert(two[k + 1] == right[k - n - 1]);
            }
        }
    }
    assert(find_text_from(two, ".."@, 0) == Some(n));
    assert(find_text_from(three, "..."@, 0) == Some(n));
    assert(two.take(n) =~= left);
    assert(two.skip(n + 2) =~= right);
    assert(three.take(n) =~= left);
    assert(three.skip(n + 3) =~= right);
}

/// Git's answer with an object id in it.
pub open spec fn answer(oid: Seq<char>) -> Option<Seq<char>> {
    Some(oid.push('\n'))
}

/// Whether a text is an object id, as far as an answer shows.
pub open spec fn is_oid(oid: Seq<char>) -> bool {
    oid.len() > 0 && is_bare(oid)
}

/// A comparison of two commits.
pub open spec fn between(old: EndpointModel, new: EndpointModel) -> StageModel {
    StageModel::Settled { comparison: ComparisonModel { old, new } }
}

/// What is planned without a range is settled by one answer: the ref that was
/// named against the working tree, or against the index where it is staged.
/// Nothing has to be asked for the plain comparison.
pub proof fn refs_are_settled_by_one_answer(name: Seq<char>, oid: Seq<char>)
    requires
        is_oid(oid),
    ensures
        first_stage(PlanModel::Plain) == between(EndpointModel::Index, EndpointModel::Worktree),
        ({
            let plan = PlanModel::WorktreeRef { spec_text: name };
            let start = first_stage(plan);
            &&& asked(plan, start) == Some(QuestionModel::Commit { spec_text: name })
            &&& answered(plan, start, answer(oid)) == Ok::<StageModel, UnsettledModel>(
                between(EndpointModel::Commit { oid }, EndpointModel::Worktree),
            )
        }),
        ({
            let plan = PlanModel::StagedRef { spec_text: name };
            let start = first_stage(plan);
            &&& asked(plan, start) == Some(QuestionModel::Commit { spec_text: name })
            &&& answered(plan, start, answer(oid)) == Ok::<StageModel, UnsettledModel>(
                between(EndpointModel::Commit { oid }, EndpointModel::Index),
            )
        }),
        ({
            let plan = PlanModel::StagedHead;
            let start = first_stage(plan);
            &&& asked(plan, start) == Some(QuestionModel::Commit { spec_text: "HEAD"@ })
            &&& answered(plan, start, answer(oid)) == Ok::<StageModel, UnsettledModel>(
                between(EndpointModel::Commit { oid }, EndpointModel::Index),
            )
        }),
{
    lemma_answer(oid);
}

/// Before the first commit what is staged is compared with the empty tree.
pub proof fn unborn_heads_compare_with_nothing(oid: Seq<char>)
    requires
        is_oid(oid),
    ensures
        ({
            let plan = PlanModel::StagedHead;
            let next = answered(plan, first_stage(plan), None);
            &&& next is Ok
            &&& asked(plan, next->Ok_0) == Some(QuestionModel::EmptyTree)
            &&& answered(plan, next->Ok_0, answer(oid)) == Ok::<StageModel, UnsettledModel>(
                between(EndpointModel::EmptyTree { oid }, EndpointModel::Index),
            )
            &&& answered(plan, next->Ok_0, None) == Err::<StageModel, UnsettledModel>(
                UnsettledModel::Git,
            )
        }),
{
    lemma_answer(oid);
}

/// A range is settled by the answers on its two ends, left then right: the
/// left is the old side. Three dots ask for the commit in common as well,
/// which is then the old side.
pub proof fn ranges_are_settled_left_to_right(
    left: Seq<char>,
    right: Seq<char>,
    a: Seq<char>,
    b: Seq<char>,
    base: Seq<char>,
)
    requires
        is_oid(a),
        is_oid(b),
        is_oid(base),
    ensures
        ({
            let plan = PlanModel::Range { left, right };
            let start = first_stage(plan);
            let second = answered(plan, start, answer(a));
            &&& asked(plan, start) == Some(QuestionModel::Commit { spec_text: left })
            &&& second is Ok
            &&& asked(plan, second->Ok_0) == Some(QuestionModel::Commit { spec_text: right })
            &&& answered(plan, second->Ok_0, answer(b)) == Ok::<StageModel, UnsettledModel>(
                between(EndpointModel::Commit { oid: a }, EndpointModel::Commit { oid: b }),
            )
            &&& answered(plan, start, None) == Err::<StageModel, UnsettledModel>(
                UnsettledModel::InvalidRef { spec_text: left },
            )
            &&& answered(plan, second->Ok_0, None) == Err::<StageModel, UnsettledModel>(
                UnsettledModel::InvalidRef { spec_text: right },
            )
        }),
        ({
            let plan = PlanModel::MergeBase { left, right };
            let start = first_stage(plan);
            let second = answered(plan, start, answer(a));
            let third = answered(plan, second->Ok_0, answer(b));
            &&& asked(plan, start) == Some(QuestionModel::Commit { spec_text: left })
            &&& second is Ok
            &&& asked(plan, second->Ok_0) == Some(QuestionModel::Commit { spec_text: right })
            &&& third is Ok
            &&& asked(plan, third->Ok_0) == Some(QuestionModel::MergeBase { left: a, right: b })
            &&& answered(plan, third->Ok_0, answer(base)) == Ok::<StageModel, UnsettledModel>(
                between(EndpointModel::Commit { oid: base }, EndpointModel::Commit { oid: b }),
            )
            &&& answered(plan, third->Ok_0, None) == Err::<StageModel, UnsettledModel>(
                UnsettledModel::NoMergeBase { left, right },
            )
        }),
{
    lemma_answer(a);
    lemma_answer(b);
    lemma_answer(base);
}

/// A comparison is named to git by the commits in it, old before new; the
/// index takes a word of its own, and the working tree none.
pub proof fn comparisons_are_named_old_first(a: Seq<char>, b: Seq<char>)
    ensures
        ({
            let old = EndpointModel::Commit { oid: a };
            let new = EndpointModel::Commit { oid: b };
            let words = endpoint_words(ComparisonModel { old, new });
            &&& words.len() == 2
            &&& words[0] == a
            &&& words[1] == b
            &&& endpoint_words(ComparisonModel { old, new: EndpointModel::Worktree }) == seq![a]
            &&& endpoint_words(ComparisonModel { old, new: EndpointModel::Index }) == seq![
                "--cached"@,
                a,
            ]
            &&& endpoint_words(
                ComparisonModel { old: EndpointModel::Index, new: EndpointModel::Worktree },
            ).len() == 0
            &&& endpoint_words(
                ComparisonModel {
                    old: EndpointModel::EmptyTree { oid: a },
                    new: EndpointModel::Index,
                },
            ) == seq!["--cached"@, a]
        }),
{
}

/// A renamed file is asked for by both its paths, the old one first; any
/// other by its path alone.
pub proof fn requests_name_both_paths(req: FileDiffRequest)
    ensures
        ({
            let words = path_words(req);
            &&& words[0] == "--"@
            &&& (req.old_path matches Some(old) && old@ != req.path@) ==> words.len() == 3
                && words[1] == req.old_path->0@ && words[2] == req.path@
            &&& !(req.old_path matches Some(old) && old@ != req.path@) ==> words.len() == 2
                && words[1] == req.path@
        }),
{
}

proof fn lemma_no_dots_at(whole: Seq<char>, left: Seq<char>, k: int)
    requires
        !has_dots(left),
        0 <= k < left.len(),
        left.last() != '.',
        left.len() <= whole.len(),
        forall|i: int| 0 <= i < left.len() ==> whole[i] == #[trigger] left[i],
    ensures
        !occurs_at(whole, ".."@, k),
{
    reveal_strlit("..");
    if occurs_at(whole, ".."@, k) {
        let s = whole.subrange(k, k + 2);
        assert(s[0] == '.' && s[1] == '.');
        assert(whole[k] == left[k]);
        if k + 1 < left.len() {
            assert(whole[k + 1] == left[k + 1]);
            assert(left[k] == '.' && left[k + 1] == '.');
        }
    }
}

proof fn lemma_no_dots(s: Seq<char>)
    requires
        !has_dots(s),
    ensures
        find_text_from(s, ".."@, 0) is None,
        find_text_from(s, "..."@, 0) is None,
{
    reveal_strlit("..");
    reveal_strlit("...");
    lemma_find_text_from(s, ".."@, 0);
    lemma_find_text_from(s, "..."@, 0);
    if let Some(i) = find_text_from(s, ".."@, 0) {
        assert(s.subrange(i, i + 2)[0] == '.' && s.subrange(i, i + 2)[1] == '.');
        assert(s[i] == '.' && s[i + 1] == '.');
    }
    if let Some(i) = find_text_from(s, "..."@, 0) {
        assert(s.subrange(i, i + 3)[0] == '.' && s.subrange(i, i + 3)[1] == '.');
        assert(s[i] == '.' && s[i + 1] == '.');
    }
}

proof fn lemma_answer(oid: Seq<char>)
    requires
        is_oid(oid),
    ensures
        trim(oid.push('\n')) == oid,
{
    let out = oid.push('\n');
    reveal_with_fuel(trim_start, 2);
    reveal_with_fuel(trim_end, 3);
    assert(out[0] == oid[0]);
    assert(out.drop_last() =~= oid);
    assert(white_space('\n'));
}

} // verus!
