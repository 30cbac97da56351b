//! What a load makes of a review document: which records join, which are put
//! aside, and when the file must not be written.

use vstd::prelude::*;

use crate::json::{lookup, JsonModel, MemberModel, NumberModel};
use crate::review::{
    comment_index, id_char, lemma_comment_index, well_formed_id, CommentModel, Side,
};
use crate::review_json::{
    checked, read_comment, read_source, revision_field, salvaged, schema_field, schema_gate,
    source_field, take_record, take_records, text_field, SalvageModel,
};
use crate::review_laws::{lemma_plain_char, plain_char};

verus! {

/// Whether a record says a comment that can be loaded: its id is made of
/// plain characters, a line stands in a file, an end belongs to a line, and
/// a range does not end before it starts.
pub open spec fn can_be_loaded(c: CommentModel) -> bool {
    &&& c.id.len() > 0
    &&& forall|k: int| 0 <= k < c.id.len() ==> plain_char(#[trigger] c.id[k])
    &&& c.line is Some ==> c.path is Some
    &&& c.end_line is Some ==> c.line is Some && c.line->0 <= c.end_line->0
}

/// Whether a comment is what a record says, put right where that can be done:
/// a missing pass is the first, and a line without a side is on the new one.
pub open spec fn is_mended(c: CommentModel, said: CommentModel) -> bool {
    &&& c.id == said.id
    &&& c.rev == if said.rev == 0 {
        1
    } else {
        said.rev
    }
    &&& c.status == said.status
    &&& c.path == said.path
    &&& c.side == if said.line is Some && said.side is None {
        Some(Side::New)
    } else {
        said.side
    }
    &&& c.line == said.line
    &&& c.end_line == said.end_line
    &&& c.snippet == said.snippet
    &&& c.body == said.body
    &&& c.response == said.response
    &&& c.author == said.author
    &&& c.created_at == said.created_at
    &&& c.updated_at == said.updated_at
    &&& c.target == said.target
    &&& c.extra == said.extra
}

/// Whether record `i` can join: it reads as a comment that can be loaded, and
/// no comment that joined has its id.
pub open spec fn can_join(
    items: Seq<JsonModel>,
    i: int,
    joined: Seq<CommentModel>,
) -> bool {
    read_comment(items[i]) matches Ok(c) && can_be_loaded(c) && forall|k: int|
        0 <= k < joined.len() ==> (#[trigger] joined[k]).id != c.id
}

/// Whether positions go up.
pub open spec fn go_up(at: Seq<int>) -> bool {
    forall|j: int, k: int| 0 <= j < k < at.len() ==> #[trigger] at[j] < #[trigger] at[k]
}

/// Whether the records at `took` are the comments and those at `left` are
/// put aside: together they are the first `n`, both in order; each comment
/// is what its record says, put right; what is put aside is kept as it
/// stands, and could not have joined those before it.
pub open spec fn are_sorted_out(
    items: Seq<JsonModel>,
    n: int,
    comments: Seq<CommentModel>,
    aside: Seq<JsonModel>,
    took: Seq<int>,
    left: Seq<int>,
) -> bool {
    &&& go_up(took)
    &&& go_up(left)
    &&& took.len() == comments.len()
    &&& left.len() == aside.len()
    &&& took.len() + left.len() == n
    &&& forall|k: int|
        0 <= k < took.len() ==> {
            &&& 0 <= #[trigger] took[k] < n
            &&& can_join(items, took[k], comments.take(k))
            &&& is_mended(comments[k], read_comment(items[took[k]])->Ok_0)
        }
    &&& forall|k: int|
        0 <= k < left.len() ==> {
            &&& 0 <= #[trigger] left[k] < n
            &&& aside[k] == items[left[k]]
            &&& !can_join(items, left[k], comments.take(left[k] - k))
        }
}

/// A load sorts its records out: no record is lost, none is changed but for
/// what can be put right, and none is put aside without need.
pub proof fn records_are_sorted_out(
    warnings: Seq<Seq<char>>,
    items: Seq<JsonModel>,
    n: int,
)
    requires
        0 <= n <= items.len(),
    ensures
        exists|took: Seq<int>, left: Seq<int>| #[trigger]
            are_sorted_out(
                items,
                n,
                take_records(warnings, items, n).comments,
                take_records(warnings, items, n).quarantined,
                took,
                left,
            ),
{
    lemma_sorted_out(warnings, items, n);
    let (took, left) = positions(warnings, items, n);
    assert(are_sorted_out(
        items,
        n,
        take_records(warnings, items, n).comments,
        take_records(warnings, items, n).quarantined,
        took,
        left,
    ));
}

/// Whether a field is there and is no text.
pub open spec fn is_no_text(members: Seq<MemberModel>, key: Seq<char>) -> bool {
    lookup(members, key) matches Some(v) && v !is Text
}

/// Whether a field is there and is no list.
pub open spec fn is_no_list(members: Seq<MemberModel>, key: Seq<char>) -> bool {
    lookup(members, key) matches Some(v) && v !is Array
}

/// Whether the schema is none that this build writes.
pub open spec fn schema_is_strange(members: Seq<MemberModel>) -> bool {
    lookup(members, "ambidiff"@) matches Some(v) && !(v matches JsonModel::Number(
        NumberModel::Unsigned(n),
    ) && n <= 1)
}

/// Whether the revision is there and counts no passes.
pub open spec fn revision_is_strange(members: Seq<MemberModel>) -> bool {
    lookup(members, "revision"@) matches Some(v) && !(v matches JsonModel::Number(
        NumberModel::Unsigned(n),
    ) && 1 <= n && n <= 0xffff_ffff)
}

/// Whether the source is there and cannot be read.
pub open spec fn source_is_strange(members: Seq<MemberModel>) -> bool {
    lookup(members, "source"@) matches Some(v) && !(v matches JsonModel::Object(fields)
        && read_source(fields) is Ok)
}

/// A file must not be written exactly where a value is there that this build
/// cannot hold: a schema or a revision out of range, a source that cannot be
/// read, or a field of the wrong kind. There is then a reason, and otherwise
/// none. What is merely missing is no such reason.
pub proof fn strange_values_forbid_writing(members: Seq<MemberModel>)
    ensures
        ({
            let salvage = salvaged(members).salvage;
            &&& salvage.read_only <==> {
                ||| schema_is_strange(members)
                ||| is_no_text(members, "review"@)
                ||| revision_is_strange(members)
                ||| source_is_strange(members)
                ||| is_no_text(members, "createdAt"@)
                ||| is_no_text(members, "updatedAt"@)
                ||| is_no_list(members, "comments"@)
                ||| is_no_list(members, "quarantined"@)
            }
            &&& salvage.reason is Some <==> salvage.read_only
        }),
{
}

/// The texts, the revision and the source of a review are those of its
/// fields where these can be held. Otherwise the texts are empty, the
/// revision is the first and the source is git without a base.
pub proof fn fields_are_taken_as_they_are(members: Seq<MemberModel>)
    ensures
        ({
            let review = salvaged(members).review;
            &&& review.review == text_or_empty(members, "review"@)
            &&& review.created_at == text_or_empty(members, "createdAt"@)
            &&& review.updated_at == text_or_empty(members, "updatedAt"@)
            &&& match lookup(members, "ambidiff"@) {
                Some(JsonModel::Number(NumberModel::Unsigned(n))) => review.ambidiff == n,
                _ => review.ambidiff == 1,
            }
            &&& match lookup(members, "revision"@) {
                Some(JsonModel::Number(NumberModel::Unsigned(n))) => review.revision == if n >= 1
                    && n <= 0xffff_ffff {
                    n
                } else {
                    1
                },
                _ => review.revision == 1,
            }
            &&& match lookup(members, "source"@) {
                Some(JsonModel::Object(fields)) if read_source(fields) is Ok => review.source
                    == read_source(fields)->Ok_0,
                _ => review.source.kind == "git"@ && review.source.base is None
                    && review.source.extra.len() == 0,
            }
            &&& lookup(members, "comments"@) !is Some ==> review.comments.len() == 0
            &&& is_no_list(members, "comments"@) ==> review.comments.len() == 0
        }),
{
}

/// The records put aside come first, then those that the file had put aside
/// before.
pub proof fn old_quarantine_is_kept(members: Seq<MemberModel>)
    ensures
        ({
            let review = salvaged(members).review;
            let fresh = match lookup(members, "comments"@) {
                Some(JsonModel::Array(items)) => items.len() - review.comments.len(),
                _ => 0,
            };
            match lookup(members, "quarantined"@) {
                Some(JsonModel::Array(items)) => review.quarantined.len() == fresh + items.len()
                    && forall|k: int|
                    0 <= k < items.len() ==> review.quarantined[fresh + k] == #[trigger] items[k],
                _ => review.quarantined.len() == fresh,
            }
        }),
{
    if let Some(JsonModel::Array(items)) = lookup(members, "comments"@) {
        let (ambidiff, s1) = schema_field(members, SalvageModel::start());
        let s2 = schema_gate(ambidiff, s1);
        let (_name, s3) = text_field(
            members,
            s2,
            "review"@,
            "review name"@,
            "missing review name"@,
        );
        let (_revision, s4) = revision_field(members, s3);
        let (_source, s5) = source_field(members, s4);
        let (_created, s6) = text_field(
            members,
            s5,
            "createdAt"@,
            "createdAt"@,
            "missing createdAt; using empty"@,
        );
        let (_updated, s7) = text_field(
            members,
            s6,
            "updatedAt"@,
            "updatedAt"@,
            "missing updatedAt; using empty"@,
        );
        lemma_sorted_out(s7.warnings, items, items.len() as int);
    }
}

/// The text of a field, nothing where it is missing or no text.
pub open spec fn text_or_empty(members: Seq<MemberModel>, key: Seq<char>) -> Seq<char> {
    match lookup(members, key) {
        Some(JsonModel::Text(t)) => t,
        _ => Seq::empty(),
    }
}

spec fn positions(
    warnings: Seq<Seq<char>>,
    items: Seq<JsonModel>,
    n: int,
) -> (Seq<int>, Seq<int>)
    decreases n,
{
    if n <= 0 {
        (Seq::empty(), Seq::empty())
    } else {
        let (took, left) = positions(warnings, items, n - 1);
        if can_join(items, n - 1, take_records(warnings, items, n - 1).comments) {
            (took.push(n - 1), left)
        } else {
            (took, left.push(n - 1))
        }
    }
}

proof fn lemma_checked(c: CommentModel)
    ensures
        checked(c).refusal is None <==> can_be_loaded(c),
        checked(c).refusal is None ==> is_mended(checked(c).comment, c),
{
    assert forall|k: int| 0 <= k < c.id.len() implies plain_char(#[trigger] c.id[k])
        == id_char(c.id[k]) by {
        lemma_plain_char(c.id[k]);
    }
    assert(well_formed_id(c.id) <==> c.id.len() > 0 && forall|k: int|
        0 <= k < c.id.len() ==> plain_char(#[trigger] c.id[k]));
}

proof fn lemma_takes(warnings: Seq<Seq<char>>, items: Seq<JsonModel>, n: int)
    requires
        0 < n <= items.len(),
    ensures
        ({
            let before = take_records(warnings, items, n - 1);
            let after = take_records(warnings, items, n);
            if can_join(items, n - 1, before.comments) {
                &&& after.quarantined == before.quarantined
                &&& after.comments.len() == before.comments.len() + 1
                &&& after.comments.drop_last() == before.comments
                &&& is_mended(after.comments.last(), read_comment(items[n - 1])->Ok_0)
            } else {
                &&& after.comments == before.comments
                &&& after.quarantined == before.quarantined.push(items[n - 1])
            }
        }),
{
    let before = take_records(warnings, items, n - 1);
    let after = take_records(warnings, items, n);
    assert(after == take_record(before, (n - 1) as nat, items[n - 1]));
    if let Ok(c) = read_comment(items[n - 1]) {
        lemma_checked(c);
        lemma_comment_index(before.comments, c.id);
        let at = comment_index(before.comments, c.id);
        if at < before.comments.len() {
            assert(before.comments[at].id == c.id);
        }
        assert(before.comments.push(checked(c).comment).drop_last() =~= before.comments);
    }
}

proof fn lemma_sorted_out(warnings: Seq<Seq<char>>, items: Seq<JsonModel>, n: int)
    requires
        0 <= n <= items.len(),
    ensures
        are_sorted_out(
            items,
            n,
            take_records(warnings, items, n).comments,
            take_records(warnings, items, n).quarantined,
            positions(warnings, items, n).0,
            positions(warnings, items, n).1,
        ),
    decreases n,
{
    if n > 0 {
        lemma_sorted_out(warnings, items, n - 1);
        lemma_takes(warnings, items, n);
        let before = take_records(warnings, items, n - 1);
        let after = take_records(warnings, items, n);
        let (took0, left0) = positions(warnings, items, n - 1);
        let (took, left) = positions(warnings, items, n);
        let joins = can_join(items, n - 1, before.comments);
        assert forall|k: int| 0 <= k < before.comments.len() implies after.comments[k]
            == #[trigger] before.comments[k] by {
            if joins {
                assert(after.comments.drop_last()[k] == after.comments[k]);
            }
        }
        assert forall|k: int| 0 <= k <= before.comments.len() implies
            #[trigger] after.comments.take(k) == before.comments.take(k) by {
            assert(after.comments.take(k) =~= before.comments.take(k));
        }
        assert(before.comments.take(before.comments.len() as int) =~= before.comments);
        assert forall|k: int| 0 <= k < took.len() implies {
            &&& 0 <= #[trigger] took[k] < n
            &&& can_join(items, took[k], after.comments.take(k))
            &&& is_mended(after.comments[k], read_comment(items[took[k]])->Ok_0)
        } by {
            if k < took0.len() {
                assert(took[k] == took0[k]);
            }
        }
        assert forall|k: int| 0 <= k < left.len() implies {
            &&& 0 <= #[trigger] left[k] < n
            &&& after.quarantined[k] == items[left[k]]
            &&& !can_join(items, left[k], after.comments.take(left[k] - k))
        } by {
            if k < left0.len() {
                assert(left[k] == left0[k]);
                lemma_left_bound(left0, took0, n - 1, k);
            }
        }
    }
}

/// Up to the `k`-th position of one of two rising lists that part a range
/// there are no more of the other than fit.
proof fn lemma_left_bound(left: Seq<int>, took: Seq<int>, n: int, k: int)
    requires
        go_up(left),
        took.len() + left.len() == n,
        0 <= k < left.len(),
        forall|j: int| 0 <= j < left.len() ==> 0 <= #[trigger] left[j] < n,
    ensures
        0 <= left[k] - k <= took.len(),
{
    lemma_rising(left, k);
    lemma_rising_end(left, n, k);
}

proof fn lemma_rising(at: Seq<int>, k: int)
    requires
        go_up(at),
        0 <= k < at.len(),
        forall|j: int| 0 <= j < at.len() ==> 0 <= #[trigger] at[j],
    ensures
        at[k] >= k,
    decreases k,
{
    if k > 0 {
        lemma_rising(at, k - 1);
        assert(at[k - 1] < at[k]);
    }
}

proof fn lemma_rising_end(at: Seq<int>, n: int, k: int)
    requires
        go_up(at),
        0 <= k < at.len(),
        forall|j: int| 0 <= j < at.len() ==> #[trigger] at[j] < n,
    ensures
        at[k] + (at.len() - k) <= n,
    decreases at.len() - k,
{
    if k < at.len() - 1 {
        lemma_rising_end(at, n, k + 1);
        assert(at[k] < at[k + 1]);
    }
}

} // verus!
