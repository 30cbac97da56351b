//! In-diff search over the row model.
//!
//! Literal smart-case matching: a query with no ASCII uppercase matches
//! case-insensitively (ASCII folding only, so byte offsets into the original
//! text stay exact for span highlighting); any uppercase makes it sensitive.

use vstd::prelude::*;
use vstd::utf8::encode_utf8;

use crate::rows::{Row, RowModel};

verus! {

/// Which cell of a row a match landed in.
#[derive(Debug, Clone, Copy, PartialEq, Eq, Structural)]
pub enum MatchCell {
    Unified,
    Left,
    Right,
}

/// One search hit; byte offsets into the cell's text.
#[derive(Debug, Clone, Copy, PartialEq, Eq, Structural)]
pub struct SearchMatch {
    pub row: usize,
    pub cell: MatchCell,
    pub start: u32,
    pub end: u32,
}

pub open spec fn upper(b: u8) -> bool {
    65 <= b <= 90
}

/// An ASCII letter in lower case; every other byte as it is.
pub open spec fn folded(b: u8) -> u8 {
    if upper(b) {
        (b + 32) as u8
    } else {
        b
    }
}

/// Whether two bytes match.
pub open spec fn bytes_match(a: u8, b: u8, fold_case: bool) -> bool {
    if fold_case {
        folded(a) == folded(b)
    } else {
        a == b
    }
}

/// Whether the needle stands in the haystack at an offset.
pub open spec fn hit_at(h: Seq<u8>, n: Seq<u8>, start: int, fold_case: bool) -> bool {
    &&& 0 <= start
    &&& start + n.len() <= h.len()
    &&& forall|k: int| 0 <= k < n.len() ==> bytes_match(#[trigger] h[start + k], n[k], fold_case)
}

/// First offset from `from` on where the needle stands.
pub open spec fn first_hit(h: Seq<u8>, n: Seq<u8>, from: int, fold_case: bool) -> Option<int>
    decreases h.len() - from,
{
    if n.len() == 0 || from < 0 || from + n.len() > h.len() {
        None
    } else if hit_at(h, n, from, fold_case) {
        Some(from)
    } else {
        first_hit(h, n, from + 1, fold_case)
    }
}

pub proof fn lemma_first_hit(h: Seq<u8>, n: Seq<u8>, from: int, fold_case: bool)
    requires
        0 <= from,
        n.len() > 0,
    ensures
        match first_hit(h, n, from, fold_case) {
            Some(s) => from <= s && hit_at(h, n, s, fold_case) && forall|k: int|
                from <= k < s ==> !hit_at(h, n, k, fold_case),
            None => forall|k: int| from <= k ==> !hit_at(h, n, k, fold_case),
        },
    decreases h.len() - from,
{
    if from + n.len() <= h.len() && !hit_at(h, n, from, fold_case) {
        lemma_first_hit(h, n, from + 1, fold_case);
    }
}

/// The offsets of the matches from `from` on, each search starting where the
/// match before ends.
pub open spec fn hits_from(h: Seq<u8>, n: Seq<u8>, from: int, fold_case: bool) -> Seq<int>
    decreases h.len() - from,
{
    match first_hit(h, n, from, fold_case) {
        Some(s) => if from <= s && n.len() > 0 && s + n.len() <= h.len() {
            seq![s] + hits_from(h, n, s + n.len(), fold_case)
        } else {
            Seq::empty()
        },
        None => Seq::empty(),
    }
}

/// The matches of a query in one cell.
pub open spec fn cell_matches(
    row: int,
    cell: MatchCell,
    text: Seq<char>,
    query: Seq<char>,
    fold_case: bool,
) -> Seq<SearchMatch> {
    let n = encode_utf8(query);
    let hits = hits_from(encode_utf8(text), n, 0, fold_case);
    Seq::new(
        hits.len(),
        |i: int|
            SearchMatch {
                row: row as usize,
                cell,
                start: hits[i] as u32,
                end: (hits[i] + n.len()) as u32,
            },
    )
}

/// The matches of a query in one row, left before right.
pub open spec fn row_matches(row: int, model: RowModel, query: Seq<char>, fold_case: bool) -> Seq<
    SearchMatch,
> {
    match model {
        RowModel::Unified { cell, .. } => cell_matches(
            row,
            MatchCell::Unified,
            cell.text,
            query,
            fold_case,
        ),
        RowModel::Split { left, right, .. } => cell_matches(
            row,
            MatchCell::Left,
            left.text,
            query,
            fold_case,
        ) + cell_matches(row, MatchCell::Right, right.text, query, fold_case),
        _ => Seq::empty(),
    }
}

/// The matches in the first `n` rows.
pub open spec fn matches_in(rows: Seq<RowModel>, query: Seq<char>, fold_case: bool, n: int) -> Seq<
    SearchMatch,
>
    decreases n,
{
    if n <= 0 {
        Seq::empty()
    } else {
        matches_in(rows, query, fold_case, n - 1) + row_matches(
            n - 1,
            rows[n - 1],
            query,
            fold_case,
        )
    }
}

/// A query without an ASCII capital matches in either case.
pub open spec fn folds(query: Seq<char>) -> bool {
    forall|i: int|
        0 <= i < encode_utf8(query).len() ==> !upper(#[trigger] encode_utf8(query)[i])
}

/// All matches of a query; an empty query has none.
pub open spec fn all_matches(rows: Seq<RowModel>, query: Seq<char>) -> Seq<SearchMatch> {
    if query.len() == 0 {
        Seq::empty()
    } else {
        matches_in(rows, query, folds(query), rows.len() as int)
    }
}

fn fold(b: u8) -> (r: u8)
    ensures
        r == folded(b),
{
    if 65 <= b && b <= 90 {
        b + 32
    } else {
        b
    }
}

fn is_hit(h: &[u8], n: &[u8], start: usize, fold_case: bool) -> (r: bool)
    requires
        start + n.len() <= h.len(),
    ensures
        r == hit_at(h@, n@, start as int, fold_case),
{
    let mut k: usize = 0;
    while k < n.len()
        invariant
            k <= n.len(),
            start + n.len() <= h.len(),
            forall|j: int| 0 <= j < k ==> bytes_match(#[trigger] h@[start + j], n@[j], fold_case),
        decreases n.len() - k,
    {
        let same: bool = if fold_case {
            fold(h[start + k]) == fold(n[k])
        } else {
            h[start + k] == n[k]
        };
        if !same {
            assert(!bytes_match(h@[start + k], n@[k as int], fold_case));
            return false;
        }
        k += 1;
    }
    true
}

/// Find `needle` in `haystack` starting at `from`, optionally ASCII-folded.
fn find_from(h: &[u8], n: &[u8], from: usize, fold_case: bool) -> (r: Option<usize>)
    requires
        from <= h.len(),
    ensures
        match first_hit(h@, n@, from as int, fold_case) {
            Some(s) => r == Some(s as usize) && from <= s <= h.len() - n.len(),
            None => r is None,
        },
{
    if n.len() == 0 {
        return None;
    }
    let mut start: usize = from;
    while start <= h.len() && n.len() <= h.len() - start
        invariant
            from <= start <= h.len(),
            n.len() > 0,
            first_hit(h@, n@, from as int, fold_case) == first_hit(
                h@,
                n@,
                start as int,
                fold_case,
            ),
        decreases h.len() - start,
    {
        if is_hit(h, n, start, fold_case) {
            return Some(start);
        }
        start += 1;
    }
    None
}

fn push_matches(
    out: &mut Vec<SearchMatch>,
    row: usize,
    cell: MatchCell,
    text: &str,
    query: &str,
    fold_case: bool,
)
    ensures
        final(out)@ == old(out)@ + cell_matches(row as int, cell, text@, query@, fold_case),
{
    let h: &[u8] = text.as_bytes();
    let n: &[u8] = query.as_bytes();
    let ghost start_list = out@;
    let ghost hits = hits_from(h@, n@, 0, fold_case);
    let ghost goal = cell_matches(row as int, cell, text@, query@, fold_case);
    let mut from: usize = 0;
    let mut done: bool = false;
    let ghost mut count: int = 0;
    assert(goal.take(0) =~= Seq::empty());
    assert(hits.skip(0) =~= hits);
    assert(start_list + goal.take(0) =~= start_list);
    while !done
        invariant
            from <= h.len(),
            h@ == encode_utf8(text@),
            n@ == encode_utf8(query@),
            hits == hits_from(h@, n@, 0, fold_case),
            goal == cell_matches(row as int, cell, text@, query@, fold_case),
            0 <= count <= hits.len(),
            hits.skip(count) == if done {
                Seq::empty()
            } else {
                hits_from(h@, n@, from as int, fold_case)
            },
            out@ == start_list + goal.take(count),
        decreases h.len() - from, if done { 0int } else { 1 },
    {
        let ghost rest = hits.skip(count);
        match find_from(h, n, from, fold_case) {
            Some(start) => {
                let end: usize = start + n.len();
                proof {
                    if n@.len() == 0 {
                        assert(first_hit(h@, n@, from as int, fold_case) is None);
                    }
                    assert(rest =~= seq![start as int] + hits_from(
                        h@,
                        n@,
                        end as int,
                        fold_case,
                    ));
                    assert(rest.len() > 0);
                    assert(rest[0] == hits[count]);
                    assert(hits.skip(count + 1) =~= rest.skip(1));
                    assert(rest.skip(1) =~= hits_from(h@, n@, end as int, fold_case));
                }
                let m = SearchMatch { row, cell, start: start as u32, end: end as u32 };
                assert(m == goal[count]);
                out.push(m);
                assert(goal.take(count + 1) =~= goal.take(count).push(goal[count]));
                assert(out@ =~= start_list + goal.take(count + 1));
                from = end;
                proof {
                    count = count + 1;
                }
            },
            None => {
                done = true;
            },
        }
    }
    assert(hits.skip(count).len() == 0);
    assert(goal.take(count) =~= goal);
}

/// Whether the query has no ASCII capital.
fn folds_case(query: &str) -> (r: bool)
    ensures
        r == folds(query@),
{
    let bytes: &[u8] = query.as_bytes();
    let mut i: usize = 0;
    while i < bytes.len()
        invariant
            i <= bytes.len(),
            bytes@ == encode_utf8(query@),
            forall|k: int| 0 <= k < i ==> !upper(#[trigger] bytes@[k]),
        decreases bytes.len() - i,
    {
        if 65 <= bytes[i] && bytes[i] <= 90 {
            assert(upper(encode_utf8(query@)[i as int]));
            return false;
        }
        i += 1;
    }
    true
}

/// Search all line rows for a literal query. Empty queries match nothing.
pub fn search_rows(rows: &[Row], query: &str) -> (r: Vec<SearchMatch>)
    ensures
        r@ == all_matches(rows.deep_view(), query@),
{
    let mut out: Vec<SearchMatch> = Vec::new();
    if query.is_empty() {
        assert(out@ =~= Seq::empty());
        return out;
    }
    let fold_case: bool = folds_case(query);
    let ghost model = rows.deep_view();
    let mut idx: usize = 0;
    while idx < rows.len()
        invariant
            idx <= rows.len(),
            model == rows.deep_view(),
            fold_case == folds(query@),
            out@ == matches_in(model, query@, fold_case, idx as int),
        decreases rows.len() - idx,
    {
        let ghost before = out@;
        assert(model[idx as int] == rows[idx as int].deep_view());
        match &rows[idx] {
            Row::Unified { cell, .. } => {
                push_matches(
                    &mut out,
                    idx,
                    MatchCell::Unified,
                    cell.text.as_str(),
                    query,
                    fold_case,
                );
            },
            Row::Split { left, right, .. } => {
                push_matches(&mut out, idx, MatchCell::Left, left.text.as_str(), query, fold_case);
                push_matches(
                    &mut out,
                    idx,
                    MatchCell::Right,
                    right.text.as_str(),
                    query,
                    fold_case,
                );
            },
            _ => {},
        }
        assert(out@ =~= before + row_matches(idx as int, model[idx as int], query@, fold_case));
        idx += 1;
    }
    out
}

proof fn lemma_hits_hit(h: Seq<u8>, n: Seq<u8>, from: int, fold_case: bool)
    requires
        0 <= from,
        n.len() > 0,
    ensures
        forall|i: int|
            0 <= i < hits_from(h, n, from, fold_case).len() ==> from <= (#[trigger] hits_from(
                h,
                n,
                from,
                fold_case,
            )[i]) && hit_at(h, n, hits_from(h, n, from, fold_case)[i], fold_case),
    decreases h.len() - from,
{
    lemma_first_hit(h, n, from, fold_case);
    if let Some(s) = first_hit(h, n, from, fold_case) {
        let next = s + n.len() as int;
        lemma_hits_hit(h, n, next, fold_case);
        let rest = hits_from(h, n, next, fold_case);
        let hits = hits_from(h, n, from, fold_case);
        assert(hits =~= seq![s] + rest);
        assert forall|i: int| 0 <= i < hits.len() implies from <= (#[trigger] hits[i]) && hit_at(
            h,
            n,
            hits[i],
            fold_case,
        ) by {
            if i > 0 {
                assert(hits[i] == rest[i - 1]);
            }
        }
    }
}

proof fn lemma_hits_apart(h: Seq<u8>, n: Seq<u8>, from: int, fold_case: bool)
    requires
        0 <= from,
        n.len() > 0,
    ensures
        forall|i: int, j: int|
            0 <= i < j < hits_from(h, n, from, fold_case).len() ==> (#[trigger] hits_from(
                h,
                n,
                from,
                fold_case,
            )[i]) + n.len() <= (#[trigger] hits_from(h, n, from, fold_case)[j]),
    decreases h.len() - from,
{
    lemma_first_hit(h, n, from, fold_case);
    if let Some(s) = first_hit(h, n, from, fold_case) {
        let next = s + n.len() as int;
        lemma_hits_apart(h, n, next, fold_case);
        lemma_hits_hit(h, n, next, fold_case);
        let rest = hits_from(h, n, next, fold_case);
        let hits = hits_from(h, n, from, fold_case);
        assert(hits =~= seq![s] + rest);
        assert forall|i: int, j: int| 0 <= i < j < hits.len() implies (#[trigger] hits[i])
            + n.len() <= (#[trigger] hits[j]) by {
            assert(hits[j] == rest[j - 1]);
            if i > 0 {
                assert(hits[i] == rest[i - 1]);
            }
        }
    }
}

/// The matches in a text are where the query stands, in order, and none
/// reaches into the next.
pub proof fn matches_are_sound(h: Seq<u8>, n: Seq<u8>, from: int, fold_case: bool)
    requires
        0 <= from,
        n.len() > 0,
    ensures
        forall|i: int|
            0 <= i < hits_from(h, n, from, fold_case).len() ==> from <= (#[trigger] hits_from(
                h,
                n,
                from,
                fold_case,
            )[i]) && hit_at(h, n, hits_from(h, n, from, fold_case)[i], fold_case),
        forall|i: int, j: int|
            0 <= i < j < hits_from(h, n, from, fold_case).len() ==> (#[trigger] hits_from(
                h,
                n,
                from,
                fold_case,
            )[i]) + n.len() <= (#[trigger] hits_from(h, n, from, fold_case)[j]),
{
    lemma_hits_hit(h, n, from, fold_case);
    lemma_hits_apart(h, n, from, fold_case);
}

/// Wherever the query stands, a match covers that place.
pub proof fn matches_miss_nothing(h: Seq<u8>, n: Seq<u8>, from: int, fold_case: bool, k: int)
    requires
        0 <= from <= k,
        n.len() > 0,
        hit_at(h, n, k, fold_case),
    ensures
        exists|i: int|
            0 <= i < hits_from(h, n, from, fold_case).len() && (#[trigger] hits_from(
                h,
                n,
                from,
                fold_case,
            )[i]) <= k < hits_from(h, n, from, fold_case)[i] + n.len(),
    decreases h.len() - from,
{
    lemma_first_hit(h, n, from, fold_case);
    let s = first_hit(h, n, from, fold_case)->0;
    let next = s + n.len() as int;
    let rest = hits_from(h, n, next, fold_case);
    let hits = hits_from(h, n, from, fold_case);
    assert(hits =~= seq![s] + rest);
    if k < next {
        assert(hits[0] <= k < hits[0] + n.len());
    } else {
        matches_miss_nothing(h, n, next, fold_case, k);
        let i = choose|i: int| 0 <= i < rest.len() && (#[trigger] rest[i]) <= k < rest[i] + n.len();
        assert(hits[i + 1] == rest[i]);
    }
}

} // verus!
