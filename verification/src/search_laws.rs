//! What a search promises: every hit is one, and no place is missed.

use vstd::prelude::*;
use vstd::utf8::encode_utf8;

use crate::rows::RowModel;
use crate::search::{
    all_matches, bytes_match, cell_matches, folds, hit_at, hits_from, matches_are_sound, matches_in,
    matches_miss_nothing, row_matches, upper, MatchCell, SearchMatch,
};

verus! {

/// The text of a cell of a row, where the row has that cell.
pub open spec fn searched(row: RowModel, cell: MatchCell) -> Option<Seq<char>> {
    match (row, cell) {
        (RowModel::Unified { cell: only, .. }, MatchCell::Unified) => Some(only.text),
        (RowModel::Split { left, .. }, MatchCell::Left) => Some(left.text),
        (RowModel::Split { right, .. }, MatchCell::Right) => Some(right.text),
        _ => None,
    }
}

/// Whether a query holds an ASCII capital, at any position.
pub open spec fn has_capital(query: Seq<char>) -> bool {
    exists|i: int|
        0 <= i < encode_utf8(query).len() && 65 <= #[trigger] encode_utf8(query)[i] <= 90
}

/// Whether two bytes are the same but for the case of an ASCII letter.
pub open spec fn same_letter(a: u8, b: u8) -> bool {
    a == b || (65 <= a <= 90 && b == a + 32) || (65 <= b <= 90 && a == b + 32)
}

/// Whether a query stands in a text at a byte offset: byte for byte where it
/// holds a capital, else but for the case of ASCII letters.
pub open spec fn stands_at(text: Seq<char>, query: Seq<char>, k: int) -> bool {
    let h = encode_utf8(text);
    let n = encode_utf8(query);
    &&& 0 <= k
    &&& k + n.len() <= h.len()
    &&& if has_capital(query) {
        h.subrange(k, k + n.len()) == n
    } else {
        forall|i: int| 0 <= i < n.len() ==> same_letter(#[trigger] h[k + i], n[i])
    }
}

/// Whether a match is one: its row has the cell, and the query stands there from
/// its start to its end.
pub open spec fn is_match(rows: Seq<RowModel>, query: Seq<char>, m: SearchMatch) -> bool {
    &&& m.row < rows.len()
    &&& searched(rows[m.row as int], m.cell) is Some
    &&& stands_at(searched(rows[m.row as int], m.cell)->0, query, m.start as int)
    &&& m.end == m.start + encode_utf8(query).len()
}

/// Where a match stands: the right half of a row comes after the left one.
pub open spec fn place_in_row(cell: MatchCell) -> int {
    if cell == MatchCell::Right {
        1
    } else {
        0
    }
}

/// Whether a match comes before another, and does not reach into it.
pub open spec fn comes_before(a: SearchMatch, b: SearchMatch) -> bool {
    a.row < b.row || a.row == b.row && (place_in_row(a.cell) < place_in_row(b.cell) || a.cell
        == b.cell && a.end <= b.start)
}

/// Whether every text that is searched has a length that fits 32 bits.
pub open spec fn texts_fit(rows: Seq<RowModel>) -> bool {
    &&& rows.len() <= usize::MAX
    &&& forall|i: int, cell: MatchCell|
        0 <= i < rows.len() ==> (#[trigger] searched(rows[i], cell) matches Some(text)
            ==> encode_utf8(text).len() <= u32::MAX)
}

proof fn lemma_folds(query: Seq<char>)
    ensures
        folds(query) <==> !has_capital(query),
{
    if !folds(query) {
        let i = choose|i: int|
            0 <= i < encode_utf8(query).len() && upper(#[trigger] encode_utf8(query)[i]);
        assert(65 <= encode_utf8(query)[i] <= 90);
    }
    if has_capital(query) {
        let i = choose|i: int|
            0 <= i < encode_utf8(query).len() && 65 <= #[trigger] encode_utf8(query)[i] <= 90;
        assert(upper(encode_utf8(query)[i]));
    }
}

proof fn lemma_stands(text: Seq<char>, query: Seq<char>, k: int)
    ensures
        stands_at(text, query, k) <==> hit_at(
            encode_utf8(text),
            encode_utf8(query),
            k,
            folds(query),
        ),
{
    let h = encode_utf8(text);
    let n = encode_utf8(query);
    lemma_folds(query);
    if 0 <= k && k + n.len() <= h.len() {
        if has_capital(query) {
            let part = h.subrange(k, k + n.len());
            if hit_at(h, n, k, folds(query)) {
                assert forall|i: int| 0 <= i < n.len() implies part[i] == n[i] by {
                    assert(bytes_match(h[k + i], n[i], false));
                }
                assert(part =~= n);
            }
            if part == n {
                assert forall|i: int| 0 <= i < n.len() implies bytes_match(
                    #[trigger] h[k + i],
                    n[i],
                    false,
                ) by {
                    assert(part[i] == n[i]);
                }
            }
        } else {
            assert forall|i: int| 0 <= i < n.len() implies (same_letter(#[trigger] h[k + i], n[i])
                <==> bytes_match(h[k + i], n[i], true)) by {}
        }
    }
}

proof fn lemma_cell(row: int, cell: MatchCell, text: Seq<char>, query: Seq<char>)
    requires
        0 <= row <= usize::MAX,
        encode_utf8(text).len() <= u32::MAX,
        encode_utf8(query).len() > 0,
    ensures
        ({
            let all = cell_matches(row, cell, text, query, folds(query));
            &&& forall|i: int|
                0 <= i < all.len() ==> {
                    let m = #[trigger] all[i];
                    &&& m.row == row
                    &&& m.cell == cell
                    &&& stands_at(text, query, m.start as int)
                    &&& m.end == m.start + encode_utf8(query).len()
                }
            &&& forall|i: int, j: int|
                0 <= i < j < all.len() ==> (#[trigger] all[i]).end <= (#[trigger] all[j]).start
            &&& forall|k: int|
                #[trigger] stands_at(text, query, k) ==> exists|i: int|
                    0 <= i < all.len() && (#[trigger] all[i]).start <= k < all[i].end
        }),
{
    let h = encode_utf8(text);
    let n = encode_utf8(query);
    let all = cell_matches(row, cell, text, query, folds(query));
    let hits = hits_from(h, n, 0, folds(query));
    matches_are_sound(h, n, 0, folds(query));
    assert forall|i: int| 0 <= i < all.len() implies {
        let m = #[trigger] all[i];
        &&& m.row == row
        &&& m.cell == cell
        &&& stands_at(text, query, m.start as int)
        &&& m.end == m.start + encode_utf8(query).len()
    } by {
        assert(hit_at(h, n, hits[i], folds(query)));
        lemma_stands(text, query, hits[i]);
    }
    assert forall|i: int, j: int| 0 <= i < j < all.len() implies (#[trigger] all[i]).end <= (
    #[trigger] all[j]).start by {
        assert(hit_at(h, n, hits[i], folds(query)) && hit_at(h, n, hits[j], folds(query)));
        assert(hits[i] + n.len() <= hits[j]);
    }
    assert forall|k: int| #[trigger] stands_at(text, query, k) implies exists|i: int|
        0 <= i < all.len() && (#[trigger] all[i]).start <= k < all[i].end by {
        lemma_stands(text, query, k);
        matches_miss_nothing(h, n, 0, folds(query), k);
        let i = choose|i: int| 0 <= i < hits.len() && (#[trigger] hits[i]) <= k < hits[i] + n.len();
        assert(hit_at(h, n, hits[i], folds(query)));
        assert(all[i].start <= k < all[i].end);
    }
}

/// What the matches of one row come to.
spec fn row_is_right(
    row: int,
    model: RowModel,
    query: Seq<char>,
    all: Seq<SearchMatch>,
) -> bool {
    &&& forall|i: int|
        0 <= i < all.len() ==> {
            let m = #[trigger] all[i];
            &&& m.row == row
            &&& searched(model, m.cell) is Some
            &&& stands_at(searched(model, m.cell)->0, query, m.start as int)
            &&& m.end == m.start + encode_utf8(query).len()
        }
    &&& forall|i: int, j: int|
        0 <= i < j < all.len() ==> comes_before(#[trigger] all[i], #[trigger] all[j])
    &&& forall|cell: MatchCell, k: int|
        #![trigger stands_at(searched(model, cell)->0, query, k)]
        searched(model, cell) is Some && stands_at(searched(model, cell)->0, query, k)
            ==> exists|i: int|
            0 <= i < all.len() && (#[trigger] all[i]).cell == cell && all[i].start <= k
                < all[i].end
}

proof fn lemma_row(row: int, model: RowModel, query: Seq<char>)
    requires
        0 <= row <= usize::MAX,
        encode_utf8(query).len() > 0,
        forall|cell: MatchCell|
            (#[trigger] searched(model, cell)) matches Some(text) ==> encode_utf8(text).len()
                <= u32::MAX,
    ensures
        row_is_right(row, model, query, row_matches(row, model, query, folds(query))),
{
    let all = row_matches(row, model, query, folds(query));
    match model {
        RowModel::Unified { cell, .. } => {
            assert(searched(model, MatchCell::Unified) == Some(cell.text));
            lemma_cell(row, MatchCell::Unified, cell.text, query);
        },
        RowModel::Split { left, right, .. } => {
            assert(searched(model, MatchCell::Left) == Some(left.text));
            assert(searched(model, MatchCell::Right) == Some(right.text));
            let a = cell_matches(row, MatchCell::Left, left.text, query, folds(query));
            let b = cell_matches(row, MatchCell::Right, right.text, query, folds(query));
            lemma_cell(row, MatchCell::Left, left.text, query);
            lemma_cell(row, MatchCell::Right, right.text, query);
            assert(all == a + b);
            assert forall|i: int, j: int| 0 <= i < j < all.len() implies comes_before(
                #[trigger] all[i],
                #[trigger] all[j],
            ) by {
                if j < a.len() {
                    assert(all[i] == a[i] && all[j] == a[j]);
                } else if i >= a.len() {
                    assert(all[i] == b[i - a.len()] && all[j] == b[j - a.len()]);
                } else {
                    assert(all[i] == a[i] && all[j] == b[j - a.len()]);
                }
            }
            assert forall|i: int| 0 <= i < all.len() implies {
                let m = #[trigger] all[i];
                &&& m.row == row
                &&& searched(model, m.cell) is Some
                &&& stands_at(searched(model, m.cell)->0, query, m.start as int)
                &&& m.end == m.start + encode_utf8(query).len()
            } by {
                if i < a.len() {
                    assert(all[i] == a[i]);
                } else {
                    assert(all[i] == b[i - a.len()]);
                }
            }
            assert forall|cell: MatchCell, k: int|
                #![trigger stands_at(searched(model, cell)->0, query, k)]
                searched(model, cell) is Some && stands_at(
                    searched(model, cell)->0,
                    query,
                    k,
                ) implies exists|i: int|
                0 <= i < all.len() && (#[trigger] all[i]).cell == cell && all[i].start <= k
                    < all[i].end by {
                if cell == MatchCell::Left {
                    let i = choose|i: int|
                        0 <= i < a.len() && (#[trigger] a[i]).start <= k < a[i].end;
                    assert(all[i] == a[i]);
                } else {
                    let i = choose|i: int|
                        0 <= i < b.len() && (#[trigger] b[i]).start <= k < b[i].end;
                    assert(all[a.len() + i] == b[i]);
                }
            }
        },
        _ => {},
    }
}

proof fn lemma_rows(rows: Seq<RowModel>, query: Seq<char>, n: int)
    requires
        0 <= n <= rows.len(),
        texts_fit(rows),
        encode_utf8(query).len() > 0,
    ensures
        ({
            let all = matches_in(rows, query, folds(query), n);
            &&& forall|i: int|
                0 <= i < all.len() ==> (#[trigger] all[i]).row < n && is_match(rows, query, all[i])
            &&& forall|i: int, j: int|
                0 <= i < j < all.len() ==> comes_before(#[trigger] all[i], #[trigger] all[j])
            &&& forall|r: int, cell: MatchCell, k: int|
                #![trigger stands_at(searched(rows[r], cell)->0, query, k)]
                0 <= r < n && searched(rows[r], cell) is Some && stands_at(
                    searched(rows[r], cell)->0,
                    query,
                    k,
                ) ==> exists|i: int|
                    0 <= i < all.len() && (#[trigger] all[i]).row == r && all[i].cell == cell
                        && all[i].start <= k < all[i].end
        }),
    decreases n,
{
    if n > 0 {
        lemma_rows(rows, query, n - 1);
        let before = matches_in(rows, query, folds(query), n - 1);
        let own = row_matches(n - 1, rows[n - 1], query, folds(query));
        let all = matches_in(rows, query, folds(query), n);
        assert(all == before + own);
        lemma_row(n - 1, rows[n - 1], query);
        assert forall|i: int| 0 <= i < all.len() implies (#[trigger] all[i]).row < n && is_match(
            rows,
            query,
            all[i],
        ) by {
            if i < before.len() {
                assert(all[i] == before[i]);
            } else {
                assert(all[i] == own[i - before.len()]);
            }
        }
        assert forall|i: int, j: int| 0 <= i < j < all.len() implies comes_before(
            #[trigger] all[i],
            #[trigger] all[j],
        ) by {
            if j < before.len() {
                assert(all[i] == before[i] && all[j] == before[j]);
            } else if i >= before.len() {
                assert(all[i] == own[i - before.len()] && all[j] == own[j - before.len()]);
            } else {
                assert(all[i] == before[i] && all[j] == own[j - before.len()]);
            }
        }
        assert forall|r: int, cell: MatchCell, k: int|
            #![trigger stands_at(searched(rows[r], cell)->0, query, k)]
            0 <= r < n && searched(rows[r], cell) is Some && stands_at(
                searched(rows[r], cell)->0,
                query,
                k,
            ) implies exists|i: int|
            0 <= i < all.len() && (#[trigger] all[i]).row == r && all[i].cell == cell
                && all[i].start <= k < all[i].end by {
            if r < n - 1 {
                let i = choose|i: int|
                    0 <= i < before.len() && (#[trigger] before[i]).row == r && before[i].cell
                        == cell && before[i].start <= k < before[i].end;
                assert(all[i] == before[i]);
            } else {
                let i = choose|i: int|
                    0 <= i < own.len() && (#[trigger] own[i]).cell == cell && own[i].start <= k
                        < own[i].end;
                assert(all[before.len() + i] == own[i]);
            }
        }
    }
}

proof fn lemma_query_bytes(query: Seq<char>)
    requires
        query.len() > 0,
    ensures
        encode_utf8(query).len() > 0,
{
    crate::text::lemma_byte_len_is_encoded_len(query);
    crate::text::lemma_byte_len_take_grows(query, 0, query.len() as int);
    assert(query.take(query.len() as int) =~= query);
}

/// Every match is one: the query stands there, byte for byte where it holds a
/// capital at any position, else but for the case of ASCII letters. Matches come
/// from top to bottom, left before right, and none reaches into the next. An
/// empty query has none.
pub proof fn every_match_is_one(rows: Seq<RowModel>, query: Seq<char>)
    requires
        texts_fit(rows),
    ensures
        forall|i: int|
            0 <= i < all_matches(rows, query).len() ==> is_match(
                rows,
                query,
                #[trigger] all_matches(rows, query)[i],
            ),
        forall|i: int, j: int|
            0 <= i < j < all_matches(rows, query).len() ==> comes_before(
                #[trigger] all_matches(rows, query)[i],
                #[trigger] all_matches(rows, query)[j],
            ),
        query.len() == 0 ==> all_matches(rows, query).len() == 0,
{
    if query.len() > 0 {
        lemma_query_bytes(query);
        lemma_rows(rows, query, rows.len() as int);
    }
}

/// No place is missed: wherever a query stands in a line's text, a match of that
/// cell covers its start.
pub proof fn no_place_is_missed(
    rows: Seq<RowModel>,
    query: Seq<char>,
    row: int,
    cell: MatchCell,
    k: int,
)
    requires
        texts_fit(rows),
        query.len() > 0,
        0 <= row < rows.len(),
        searched(rows[row], cell) is Some,
        stands_at(searched(rows[row], cell)->0, query, k),
    ensures
        exists|i: int|
            0 <= i < all_matches(rows, query).len() && {
                let m = #[trigger] all_matches(rows, query)[i];
                m.row == row && m.cell == cell && m.start <= k < m.end
            },
{
    lemma_query_bytes(query);
    lemma_rows(rows, query, rows.len() as int);
    let all = all_matches(rows, query);
    let i = choose|i: int|
        0 <= i < all.len() && (#[trigger] all[i]).row == row && all[i].cell == cell
            && all[i].start <= k < all[i].end;
    assert(all_matches(rows, query)[i].row == row);
}

} // verus!
