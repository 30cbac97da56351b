//! What a reader of the row stream can rely on: which lines it shows, where,
//! and under which numbers.

use vstd::prelude::*;

use crate::model::{DiffLineModel, FileDiffModel, HunkModel, LineKind};
use crate::rows::{
    block_end, block_rows, diff_rows, expansion_rows, gap_after, gap_before, gap_lines, gap_rows,
    header_row, hunk_ranges, hunk_rows, kind_positions, lemma_block_end, rows_of_hunks, split_rows,
    unified_rows, BuildOptions, CellKind, CellModel, GapModel, RowModel, ViewMode,
};
use crate::text::{lines_of, without_cr};
use crate::worddiff::Range;

verus! {

// ------------------------------------------------------------ what is shown

/// A line as it is seen on a side.
#[verifier::ext_equal]
pub struct SeenModel {
    pub number: u32,
    pub text: Seq<char>,
    pub changed: bool,
}

/// What a cell shows.
pub open spec fn seen_in(cell: CellModel) -> Option<SeenModel> {
    if cell.kind != CellKind::Empty && cell.line is Some {
        Some(
            SeenModel {
                number: cell.line->0,
                text: cell.text,
                changed: cell.kind != CellKind::Context,
            },
        )
    } else {
        None
    }
}

/// What a row shows on the old side, or on the new one: a split row has a cell
/// for each, a unified row one cell with the numbers of the sides that have the
/// line.
pub open spec fn seen(row: RowModel, old: bool) -> Option<SeenModel> {
    match row {
        RowModel::Unified { old_num, new_num, cell, .. } => match if old {
            old_num
        } else {
            new_num
        } {
            Some(number) => Some(
                SeenModel { number, text: cell.text, changed: cell.kind != CellKind::Context },
            ),
            None => None,
        },
        RowModel::Split { left, right, .. } => if old {
            seen_in(left)
        } else {
            seen_in(right)
        },
        _ => None,
    }
}

/// What rows show on a side, from top to bottom.
pub open spec fn seen_all(rows: Seq<RowModel>, old: bool) -> Seq<SeenModel>
    decreases rows.len(),
{
    if rows.len() == 0 {
        Seq::empty()
    } else {
        match seen(rows.last(), old) {
            Some(line) => seen_all(rows.drop_last(), old).push(line),
            None => seen_all(rows.drop_last(), old),
        }
    }
}

/// The lines of a hunk that a side has: all but the added ones on the old side,
/// all but the removed ones on the new side.
pub open spec fn side_lines(lines: Seq<DiffLineModel>, old: bool) -> Seq<SeenModel>
    decreases lines.len(),
{
    if lines.len() == 0 {
        Seq::empty()
    } else {
        let before = side_lines(lines.drop_last(), old);
        let line = lines.last();
        if old && line.kind != LineKind::Add {
            before.push(
                SeenModel {
                    number: line.old_num,
                    text: line.content,
                    changed: line.kind == LineKind::Remove,
                },
            )
        } else if !old && line.kind != LineKind::Remove {
            before.push(
                SeenModel {
                    number: line.new_num,
                    text: line.content,
                    changed: line.kind == LineKind::Add,
                },
            )
        } else {
            before
        }
    }
}

/// The lines of the first `n` hunks that a side has.
pub open spec fn side_lines_of(hunks: Seq<HunkModel>, n: int, old: bool) -> Seq<SeenModel>
    decreases n,
{
    if n <= 0 {
        Seq::empty()
    } else {
        side_lines_of(hunks, n - 1, old) + side_lines(hunks[n - 1].lines, old)
    }
}

proof fn lemma_seen_concat(a: Seq<RowModel>, b: Seq<RowModel>, old: bool)
    ensures
        seen_all(a + b, old) == seen_all(a, old) + seen_all(b, old),
    decreases b.len(),
{
    if b.len() == 0 {
        assert(a + b =~= a);
        assert(seen_all(a, old) + seen_all(b, old) =~= seen_all(a, old));
    } else {
        assert((a + b).drop_last() =~= a + b.drop_last());
        lemma_seen_concat(a, b.drop_last(), old);
        assert(seen_all(a + b, old) =~= seen_all(a, old) + seen_all(b, old));
    }
}

proof fn lemma_side_lines_concat(a: Seq<DiffLineModel>, b: Seq<DiffLineModel>, old: bool)
    ensures
        side_lines(a + b, old) == side_lines(a, old) + side_lines(b, old),
    decreases b.len(),
{
    if b.len() == 0 {
        assert(a + b =~= a);
        assert(side_lines(a, old) + side_lines(b, old) =~= side_lines(a, old));
    } else {
        assert((a + b).drop_last() =~= a + b.drop_last());
        lemma_side_lines_concat(a, b.drop_last(), old);
        assert(side_lines(a + b, old) =~= side_lines(a, old) + side_lines(b, old));
    }
}

proof fn lemma_unified_seen(
    hunk: u32,
    lines: Seq<DiffLineModel>,
    ranges: Seq<Seq<Range>>,
    old: bool,
)
    ensures
        seen_all(unified_rows(hunk, lines, ranges), old) == side_lines(lines, old),
    decreases lines.len(),
{
    if lines.len() > 0 {
        lemma_unified_seen(hunk, lines.drop_last(), ranges, old);
        assert(unified_rows(hunk, lines, ranges).drop_last() =~= unified_rows(
            hunk,
            lines.drop_last(),
            ranges,
        ));
    }
}

/// The kind of a changed line that a side has.
spec fn changed_kind(old: bool) -> LineKind {
    if old {
        LineKind::Remove
    } else {
        LineKind::Add
    }
}

/// A changed line as it is seen on a side.
spec fn changed_line(line: DiffLineModel, old: bool) -> SeenModel {
    SeenModel {
        number: if old {
            line.old_num
        } else {
            line.new_num
        },
        text: line.content,
        changed: true,
    }
}

proof fn lemma_block_lines(lines: Seq<DiffLineModel>, from: int, end: int, old: bool)
    requires
        0 <= from <= end <= lines.len(),
        forall|k: int| from <= k < end ==> (#[trigger] lines[k]).kind != LineKind::Context,
    ensures
        ({
            let at = kind_positions(lines, changed_kind(old), from, end);
            side_lines(lines.subrange(from, end), old) == Seq::new(
                at.len(),
                |i: int| changed_line(lines[at[i]], old),
            )
        }),
    decreases end - from,
{
    let at = kind_positions(lines, changed_kind(old), from, end);
    let goal = Seq::new(at.len(), |i: int| changed_line(lines[at[i]], old));
    if from < end {
        lemma_block_lines(lines, from, end - 1, old);
        assert(lines.subrange(from, end).drop_last() =~= lines.subrange(from, end - 1));
        assert(lines[end - 1].kind != LineKind::Context);
        assert(side_lines(lines.subrange(from, end), old) =~= goal);
    } else {
        assert(side_lines(lines.subrange(from, end), old) =~= goal);
    }
}

proof fn lemma_positions_of_kind(lines: Seq<DiffLineModel>, kind: LineKind, from: int, end: int)
    requires
        0 <= from,
    ensures
        forall|i: int|
            #![trigger kind_positions(lines, kind, from, end)[i]]
            0 <= i < kind_positions(lines, kind, from, end).len() ==> from <= kind_positions(
                lines,
                kind,
                from,
                end,
            )[i] < end && lines[kind_positions(lines, kind, from, end)[i]].kind == kind,
    decreases end - from,
{
    if from < end {
        lemma_positions_of_kind(lines, kind, from, end - 1);
    }
}

proof fn lemma_block_seen(
    hunk: u32,
    lines: Seq<DiffLineModel>,
    ranges: Seq<Seq<Range>>,
    from: int,
    end: int,
    old: bool,
    k: int,
)
    requires
        0 <= from,
        0 <= k <= block_rows(hunk, lines, ranges, from, end).len(),
    ensures
        ({
            let at = kind_positions(lines, changed_kind(old), from, end);
            let n = if k <= at.len() {
                k
            } else {
                at.len() as int
            };
            seen_all(block_rows(hunk, lines, ranges, from, end).take(k), old) == Seq::new(
                n as nat,
                |i: int| changed_line(lines[at[i]], old),
            )
        }),
    decreases k,
{
    let rows = block_rows(hunk, lines, ranges, from, end);
    let at = kind_positions(lines, changed_kind(old), from, end);
    let n = if k <= at.len() {
        k
    } else {
        at.len() as int
    };
    let goal = Seq::new(n as nat, |i: int| changed_line(lines[at[i]], old));
    if k > 0 {
        lemma_block_seen(hunk, lines, ranges, from, end, old, k - 1);
        lemma_positions_of_kind(lines, changed_kind(old), from, end);
        assert(rows.take(k).drop_last() =~= rows.take(k - 1));
        assert(rows.take(k).last() == rows[k - 1]);
        if k <= at.len() {
            assert(lines[at[k - 1]].kind == changed_kind(old));
            assert(seen(rows[k - 1], old) == Some(changed_line(lines[at[k - 1]], old)));
        } else {
            assert(seen(rows[k - 1], old) is None);
        }
        assert(seen_all(rows.take(k), old) =~= goal);
    } else {
        assert(seen_all(rows.take(k), old) =~= goal);
    }
}

proof fn lemma_split_seen(
    hunk: u32,
    lines: Seq<DiffLineModel>,
    ranges: Seq<Seq<Range>>,
    from: int,
    old: bool,
)
    requires
        0 <= from <= lines.len(),
    ensures
        seen_all(split_rows(hunk, lines, ranges, from), old) == side_lines(lines.skip(from), old),
    decreases lines.len() - from,
{
    let rest = lines.skip(from);
    if from < lines.len() {
        if lines[from].kind == LineKind::Context {
            lemma_split_seen(hunk, lines, ranges, from + 1, old);
            let all = split_rows(hunk, lines, ranges, from);
            let head = all.take(1);
            let first = seq![lines[from]];
            assert(all =~= head + split_rows(hunk, lines, ranges, from + 1));
            lemma_seen_concat(head, split_rows(hunk, lines, ranges, from + 1), old);
            lemma_side_lines_concat(first, lines.skip(from + 1), old);
            assert(first + lines.skip(from + 1) =~= rest);
            assert(head.drop_last() =~= Seq::empty());
            assert(first.drop_last() =~= Seq::empty());
            reveal_with_fuel(seen_all, 2);
            reveal_with_fuel(side_lines, 2);
            assert(seen_all(head, old) =~= side_lines(first, old));
        } else {
            lemma_block_end(lines, from);
            let end = block_end(lines, from);
            let rows = block_rows(hunk, lines, ranges, from, end);
            lemma_split_seen(hunk, lines, ranges, end, old);
            lemma_seen_concat(rows, split_rows(hunk, lines, ranges, end), old);
            lemma_side_lines_concat(lines.subrange(from, end), lines.skip(end), old);
            assert(lines.subrange(from, end) + lines.skip(end) =~= rest);
            lemma_block_lines(lines, from, end, old);
            lemma_block_seen(hunk, lines, ranges, from, end, old, rows.len() as int);
            assert(rows.take(rows.len() as int) =~= rows);
            lemma_block_rows_are_enough(hunk, lines, ranges, from, end, old);
        }
    }
}

proof fn lemma_block_rows_are_enough(
    hunk: u32,
    lines: Seq<DiffLineModel>,
    ranges: Seq<Seq<Range>>,
    from: int,
    end: int,
    old: bool,
)
    ensures
        block_rows(hunk, lines, ranges, from, end).len() >= kind_positions(
            lines,
            changed_kind(old),
            from,
            end,
        ).len(),
{
}

/// The rows of the lines of a hunk.
spec fn body_rows(diff: FileDiffModel, opts: BuildOptions, idx: int) -> Seq<RowModel> {
    let hunk = diff.hunks[idx];
    let ranges = hunk_ranges(hunk.lines, opts.word_diff);
    match opts.mode {
        ViewMode::Unified => unified_rows(idx as u32, hunk.lines, ranges),
        ViewMode::Split => split_rows(idx as u32, hunk.lines, ranges, 0),
    }
}

proof fn lemma_body_seen(diff: FileDiffModel, opts: BuildOptions, idx: int, old: bool)
    requires
        0 <= idx < diff.hunks.len(),
    ensures
        hunk_rows(diff, opts, idx) == gap_rows(gap_before(diff, idx)).push(
            header_row(idx, diff.hunks[idx]),
        ) + body_rows(diff, opts, idx),
        seen_all(body_rows(diff, opts, idx), old) == side_lines(diff.hunks[idx].lines, old),
{
    let lines = diff.hunks[idx].lines;
    let ranges = hunk_ranges(lines, opts.word_diff);
    lemma_unified_seen(idx as u32, lines, ranges, old);
    lemma_split_seen(idx as u32, lines, ranges, 0, old);
    assert(lines.skip(0) =~= lines);
}

proof fn lemma_gap_unseen(gap: Option<GapModel>, old: bool)
    ensures
        seen_all(gap_rows(gap), old) == Seq::<SeenModel>::empty(),
{
    reveal_with_fuel(seen_all, 2);
    if gap is Some {
        assert(gap_rows(gap).drop_last() =~= Seq::empty());
    }
}

proof fn lemma_hunks_seen(diff: FileDiffModel, opts: BuildOptions, n: int, old: bool)
    requires
        0 <= n <= diff.hunks.len(),
    ensures
        seen_all(rows_of_hunks(diff, opts, n), old) == side_lines_of(diff.hunks, n, old),
    decreases n,
{
    if n > 0 {
        let idx = n - 1;
        lemma_hunks_seen(diff, opts, idx, old);
        lemma_body_seen(diff, opts, idx, old);
        lemma_seen_concat(rows_of_hunks(diff, opts, idx), hunk_rows(diff, opts, idx), old);
        let gap = gap_rows(gap_before(diff, idx));
        let front = gap.push(header_row(idx, diff.hunks[idx]));
        lemma_seen_concat(front, body_rows(diff, opts, idx), old);
        lemma_gap_unseen(gap_before(diff, idx), old);
        assert(front.drop_last() =~= gap);
        assert(seen_all(front, old) =~= Seq::<SeenModel>::empty());
        assert(seen_all(hunk_rows(diff, opts, idx), old) =~= side_lines(
            diff.hunks[idx].lines,
            old,
        ));
    }
}

/// Every line of a text diff is shown once on each side that has it, in order,
/// under its number there, with its text, and as changed exactly where it is
/// added or removed.
pub proof fn lines_are_shown_as_they_are(diff: FileDiffModel, opts: BuildOptions, old: bool)
    requires
        diff.kind is Text,
    ensures
        seen_all(diff_rows(diff, opts), old) == side_lines_of(
            diff.hunks,
            diff.hunks.len() as int,
            old,
        ),
{
    let n = diff.hunks.len() as int;
    lemma_hunks_seen(diff, opts, n, old);
    lemma_seen_concat(rows_of_hunks(diff, opts, n), gap_rows(gap_after(diff)), old);
    lemma_gap_unseen(gap_after(diff), old);
    assert(seen_all(diff_rows(diff, opts), old) =~= side_lines_of(diff.hunks, n, old));
}

// ------------------------------------------------------------------- tiling

/// The numbers from one up to another, that one left out.
pub open spec fn run(from: int, to: int) -> Seq<int> {
    if from <= to {
        Seq::new((to - from) as nat, |i: int| from + i)
    } else {
        Seq::empty()
    }
}

/// The line numbers of a side that a row accounts for: a gap for its whole
/// range, a line for its own.
pub open spec fn covers(row: RowModel, old: bool) -> Seq<int> {
    match row {
        RowModel::Gap { gap, .. } => if old {
            run(gap.old_range.0 as int, gap.old_range.1 + 1)
        } else {
            run(gap.new_range.0 as int, gap.new_range.1 + 1)
        },
        other => match seen(other, old) {
            Some(line) => seq![line.number as int],
            None => Seq::empty(),
        },
    }
}

/// The line numbers of a side that rows account for, from top to bottom.
pub open spec fn covered(rows: Seq<RowModel>, old: bool) -> Seq<int>
    decreases rows.len(),
{
    if rows.len() == 0 {
        Seq::empty()
    } else {
        covered(rows.drop_last(), old) + covers(rows.last(), old)
    }
}

/// Number of lines that a hunk's header says a side has.
pub open spec fn hunk_len(hunk: HunkModel, old: bool) -> int {
    if old {
        hunk.old_len as int
    } else {
        hunk.new_len as int
    }
}

/// The first line of a hunk on a side. A side without lines is named by the line
/// before it.
pub open spec fn hunk_first(hunk: HunkModel, old: bool) -> int {
    let start = if old {
        hunk.old_start as int
    } else {
        hunk.new_start as int
    };
    if hunk_len(hunk, old) > 0 {
        start
    } else {
        start + 1
    }
}

/// The line after a hunk on a side.
pub open spec fn hunk_next(hunk: HunkModel, old: bool) -> int {
    hunk_first(hunk, old) + hunk_len(hunk, old)
}

/// Whether the lines of a hunk are those that its header announces on a side.
pub open spec fn agrees(hunk: HunkModel, old: bool) -> bool {
    let lines = side_lines(hunk.lines, old);
    &&& lines.len() == hunk_len(hunk, old)
    &&& forall|i: int|
        0 <= i < lines.len() ==> (#[trigger] lines[i]).number == hunk_first(hunk, old) + i
}

/// Where the unchanged lines before a hunk start on a side.
pub open spec fn resumes_at(hunks: Seq<HunkModel>, idx: int, old: bool) -> int {
    if idx == 0 {
        1
    } else {
        hunk_next(hunks[idx - 1], old)
    }
}

/// Whether the hunks of a diff stand in order, with as many unchanged lines on
/// one side as on the other before each, and hold the lines they announce.
pub open spec fn in_order(hunks: Seq<HunkModel>) -> bool {
    forall|idx: int|
        0 <= idx < hunks.len() ==> {
            let hunk = #[trigger] hunks[idx];
            &&& agrees(hunk, true)
            &&& agrees(hunk, false)
            &&& resumes_at(hunks, idx, true) <= hunk_first(hunk, true)
            &&& hunk_first(hunk, true) - resumes_at(hunks, idx, true) == hunk_first(hunk, false)
                - resumes_at(hunks, idx, false)
        }
}

/// Number of unchanged lines after the last hunk, where the length of the old
/// file is known.
pub open spec fn lines_after(diff: FileDiffModel) -> int {
    match diff.old_total_lines {
        Some(total) => total + 1 - hunk_next(diff.hunks.last(), true),
        None => 0,
    }
}

proof fn lemma_covered_concat(a: Seq<RowModel>, b: Seq<RowModel>, old: bool)
    ensures
        covered(a + b, old) == covered(a, old) + covered(b, old),
    decreases b.len(),
{
    if b.len() == 0 {
        assert(a + b =~= a);
        assert(covered(a, old) + covered(b, old) =~= covered(a, old));
    } else {
        assert((a + b).drop_last() =~= a + b.drop_last());
        lemma_covered_concat(a, b.drop_last(), old);
        assert(covered(a + b, old) =~= covered(a, old) + covered(b, old));
    }
}

/// Rows without a gap account for the lines that they show.
proof fn lemma_covered_seen(rows: Seq<RowModel>, old: bool)
    requires
        forall|i: int| 0 <= i < rows.len() ==> !((#[trigger] rows[i]) is Gap),
    ensures
        covered(rows, old) == Seq::new(
            seen_all(rows, old).len(),
            |i: int| seen_all(rows, old)[i].number as int,
        ),
    decreases rows.len(),
{
    let goal = Seq::new(
        seen_all(rows, old).len(),
        |i: int| seen_all(rows, old)[i].number as int,
    );
    if rows.len() > 0 {
        let init = rows.drop_last();
        assert forall|i: int| 0 <= i < init.len() implies !((#[trigger] init[i]) is Gap) by {
            assert(init[i] == rows[i]);
        }
        lemma_covered_seen(init, old);
        assert(!(rows[rows.len() - 1] is Gap));
    }
    assert(covered(rows, old) =~= goal);
}

proof fn lemma_split_rows_are_split(
    hunk: u32,
    lines: Seq<DiffLineModel>,
    ranges: Seq<Seq<Range>>,
    from: int,
)
    requires
        0 <= from <= lines.len(),
    ensures
        forall|i: int|
            0 <= i < split_rows(hunk, lines, ranges, from).len() ==> (#[trigger] split_rows(
                hunk,
                lines,
                ranges,
                from,
            )[i]) is Split,
    decreases lines.len() - from,
{
    let all = split_rows(hunk, lines, ranges, from);
    if from < lines.len() {
        if lines[from].kind == LineKind::Context {
            lemma_split_rows_are_split(hunk, lines, ranges, from + 1);
            let rest = split_rows(hunk, lines, ranges, from + 1);
            assert forall|i: int| 0 <= i < all.len() implies (#[trigger] all[i]) is Split by {
                if i > 0 {
                    assert(all[i] == rest[i - 1]);
                }
            }
        } else {
            lemma_block_end(lines, from);
            let end = block_end(lines, from);
            lemma_split_rows_are_split(hunk, lines, ranges, end);
            let block = block_rows(hunk, lines, ranges, from, end);
            let rest = split_rows(hunk, lines, ranges, end);
            assert forall|i: int| 0 <= i < all.len() implies (#[trigger] all[i]) is Split by {
                if i < block.len() {
                    assert(all[i] == block[i]);
                } else {
                    assert(all[i] == rest[i - block.len()]);
                }
            }
        }
    }
}

proof fn lemma_one_covered(row: RowModel, old: bool)
    ensures
        covered(seq![row], old) == covers(row, old),
{
    assert(seq![row].drop_last() =~= Seq::empty());
    assert(covered(seq![row].drop_last(), old) =~= Seq::empty());
    assert(covered(seq![row], old) =~= covers(row, old));
}

proof fn lemma_body_covered(diff: FileDiffModel, opts: BuildOptions, idx: int, old: bool)
    requires
        0 <= idx < diff.hunks.len(),
        in_order(diff.hunks),
    ensures
        covered(body_rows(diff, opts, idx), old) == run(
            hunk_first(diff.hunks[idx], old),
            hunk_next(diff.hunks[idx], old),
        ),
{
    let hunk = diff.hunks[idx];
    let ranges = hunk_ranges(hunk.lines, opts.word_diff);
    let body = body_rows(diff, opts, idx);
    lemma_body_seen(diff, opts, idx, old);
    lemma_split_rows_are_split(idx as u32, hunk.lines, ranges, 0);
    assert forall|i: int| 0 <= i < body.len() implies !((#[trigger] body[i]) is Gap) by {
        match opts.mode {
            ViewMode::Unified => {},
            ViewMode::Split => {
                assert(split_rows(idx as u32, hunk.lines, ranges, 0)[i] is Split);
            },
        }
    }
    lemma_covered_seen(body, old);
    let lines = side_lines(hunk.lines, old);
    assert(agrees(hunk, old));
    assert(covered(body, old) =~= run(hunk_first(hunk, old), hunk_next(hunk, old))) by {
        assert forall|i: int| 0 <= i < lines.len() implies #[trigger] covered(body, old)[i]
            == hunk_first(hunk, old) + i by {
            assert(lines[i].number == hunk_first(hunk, old) + i);
        }
    }
}

proof fn lemma_gap_covered(diff: FileDiffModel, idx: int, old: bool)
    requires
        0 <= idx < diff.hunks.len(),
        in_order(diff.hunks),
    ensures
        covered(gap_rows(gap_before(diff, idx)), old) == run(
            resumes_at(diff.hunks, idx, old),
            hunk_first(diff.hunks[idx], old),
        ),
{
    let hunk = diff.hunks[idx];
    if idx > 0 {
        assert(agrees(diff.hunks[idx - 1], old));
    }
    match gap_before(diff, idx) {
        Some(gap) => {
            let row = gap_rows(Some(gap))[0];
            assert(gap_rows(Some(gap)) =~= seq![row]);
            lemma_one_covered(row, old);
            assert(covers(row, old) =~= run(
                resumes_at(diff.hunks, idx, old),
                hunk_first(hunk, old),
            ));
        },
        None => {
            assert(covered(gap_rows(gap_before(diff, idx)), old) =~= run(
                resumes_at(diff.hunks, idx, old),
                hunk_first(hunk, old),
            ));
        },
    }
}

proof fn lemma_runs_join(a: int, b: int, c: int)
    requires
        a <= b <= c,
    ensures
        run(a, b) + run(b, c) == run(a, c),
{
    assert(run(a, b) + run(b, c) =~= run(a, c));
}

proof fn lemma_hunks_tile(diff: FileDiffModel, opts: BuildOptions, n: int, old: bool)
    requires
        0 <= n <= diff.hunks.len(),
        in_order(diff.hunks),
    ensures
        covered(rows_of_hunks(diff, opts, n), old) == run(1, resumes_at(diff.hunks, n, old)),
        1 <= resumes_at(diff.hunks, n, old),
    decreases n,
{
    if n > 0 {
        let idx = n - 1;
        let hunk = diff.hunks[idx];
        lemma_hunks_tile(diff, opts, idx, old);
        lemma_body_seen(diff, opts, idx, old);
        lemma_body_covered(diff, opts, idx, old);
        lemma_gap_covered(diff, idx, old);
        let gap = gap_rows(gap_before(diff, idx));
        let header = seq![header_row(idx, hunk)];
        let body = body_rows(diff, opts, idx);
        lemma_one_covered(header[0], old);
        assert(hunk_rows(diff, opts, idx) =~= gap + header + body);
        lemma_covered_concat(gap, header, old);
        lemma_covered_concat(gap + header, body, old);
        lemma_covered_concat(rows_of_hunks(diff, opts, idx), hunk_rows(diff, opts, idx), old);
        let from = resumes_at(diff.hunks, idx, old);
        let first = hunk_first(hunk, old);
        let next = hunk_next(hunk, old);
        lemma_runs_join(from, first, next);
        lemma_runs_join(1, from, next);
        assert(covered(gap + header, old) =~= run(from, first));
        assert(covered(hunk_rows(diff, opts, idx), old) == run(from, next));
        assert(covered(rows_of_hunks(diff, opts, n), old) =~= run(1, next));
    } else {
        assert(covered(rows_of_hunks(diff, opts, n), old) =~= run(1, 1));
    }
}

/// The rows of a diff whose hunks are in order account for every line of the
/// file on each side, from the first on, without overlap or hole: gaps begin
/// where the hunk above ends and end where the hunk below begins. Where the
/// length of the old file is known they account for the rest of it too.
pub proof fn rows_tile_the_file(diff: FileDiffModel, opts: BuildOptions, old: bool)
    requires
        diff.kind is Text,
        in_order(diff.hunks),
        diff.hunks.len() > 0,
        0 <= lines_after(diff),
        hunk_next(diff.hunks.last(), false) + lines_after(diff) - 1 <= u32::MAX,
    ensures
        covered(diff_rows(diff, opts), old) == run(
            1,
            hunk_next(diff.hunks.last(), old) + lines_after(diff),
        ),
{
    let n = diff.hunks.len() as int;
    let last = diff.hunks.last();
    let next = hunk_next(last, old);
    let tail = gap_rows(gap_after(diff));
    lemma_hunks_tile(diff, opts, n, old);
    lemma_covered_concat(rows_of_hunks(diff, opts, n), tail, old);
    assert(agrees(diff.hunks[n - 1], old));
    match gap_after(diff) {
        Some(gap) => {
            assert(tail =~= seq![tail[0]]);
            lemma_one_covered(tail[0], old);
            assert(covers(tail[0], old) =~= run(next, next + lines_after(diff)));
        },
        None => {
            assert(covered(tail, old) =~= run(next, next + lines_after(diff)));
        },
    }
    lemma_runs_join(1, next, next + lines_after(diff));
}

// -------------------------------------------------------------- split layout

/// Whether the second of two neighbouring split rows may follow the first: once
/// one side of a change block has run out, it stays empty to the block's end.
pub open spec fn may_follow(above: RowModel, below: RowModel) -> bool {
    match (above, below) {
        (
            RowModel::Split { left: l1, right: r1, .. },
            RowModel::Split { left: l2, right: r2, .. },
        ) => {
            let same_block = l2.kind != CellKind::Context && r2.kind != CellKind::Context;
            &&& same_block && l1.kind == CellKind::Empty ==> l2.kind == CellKind::Empty
            &&& same_block && r1.kind == CellKind::Empty ==> r2.kind == CellKind::Empty
        },
        _ => true,
    }
}

proof fn lemma_split_rows_follow(
    hunk: u32,
    lines: Seq<DiffLineModel>,
    ranges: Seq<Seq<Range>>,
    from: int,
)
    requires
        0 <= from <= lines.len(),
    ensures
        forall|i: int, j: int|
            #![trigger split_rows(hunk, lines, ranges, from)[i], split_rows(
                hunk,
                lines,
                ranges,
                from,
            )[j]]
            0 <= i && j == i + 1 && j < split_rows(hunk, lines, ranges, from).len() ==> may_follow(
                split_rows(hunk, lines, ranges, from)[i],
                split_rows(hunk, lines, ranges, from)[j],
            ),
    decreases lines.len() - from,
{
    let all = split_rows(hunk, lines, ranges, from);
    if from < lines.len() {
        if lines[from].kind == LineKind::Context {
            lemma_split_rows_follow(hunk, lines, ranges, from + 1);
            let rest = split_rows(hunk, lines, ranges, from + 1);
            assert forall|i: int, j: int|
                0 <= i && j == i + 1 && j < all.len() implies may_follow(
                #[trigger] all[i],
                #[trigger] all[j],
            ) by {
                assert(all[j] == rest[j - 1]);
                if i > 0 {
                    assert(all[i] == rest[i - 1]);
                }
            }
        } else {
            lemma_block_end(lines, from);
            let end = block_end(lines, from);
            lemma_split_rows_follow(hunk, lines, ranges, end);
            lemma_positions_of_kind(lines, LineKind::Remove, from, end);
            lemma_positions_of_kind(lines, LineKind::Add, from, end);
            let block = block_rows(hunk, lines, ranges, from, end);
            let rest = split_rows(hunk, lines, ranges, end);
            assert forall|i: int, j: int|
                0 <= i && j == i + 1 && j < all.len() implies may_follow(
                #[trigger] all[i],
                #[trigger] all[j],
            ) by {
                if j < block.len() {
                    assert(all[i] == block[i] && all[j] == block[j]);
                } else if i >= block.len() {
                    assert(all[i] == rest[i - block.len()] && all[j] == rest[j - block.len()]);
                } else {
                    lemma_block_is_followed_by_context(lines, from);
                    assert(all[j] == rest[0]);
                }
            }
        }
    }
}

proof fn lemma_block_is_followed_by_context(lines: Seq<DiffLineModel>, from: int)
    requires
        0 <= from <= lines.len(),
    ensures
        block_end(lines, from) < lines.len() ==> lines[block_end(lines, from)].kind
            == LineKind::Context,
    decreases lines.len() - from,
{
    lemma_block_end(lines, from);
    if from < lines.len() && lines[from].kind != LineKind::Context {
        lemma_block_is_followed_by_context(lines, from + 1);
    }
}

proof fn lemma_hunk_rows_follow(diff: FileDiffModel, opts: BuildOptions, idx: int)
    requires
        0 <= idx < diff.hunks.len(),
    ensures
        ({
            let all = hunk_rows(diff, opts, idx);
            &&& all.len() > 0
            &&& !(all[0] is Split)
            &&& forall|i: int, j: int|
                0 <= i && j == i + 1 && j < all.len() ==> may_follow(
                    #[trigger] all[i],
                    #[trigger] all[j],
                )
        }),
{
    let all = hunk_rows(diff, opts, idx);
    let lines = diff.hunks[idx].lines;
    let ranges = hunk_ranges(lines, opts.word_diff);
    let body = body_rows(diff, opts, idx);
    let front = gap_rows(gap_before(diff, idx)).push(header_row(idx, diff.hunks[idx]));
    lemma_body_seen(diff, opts, idx, true);
    lemma_split_rows_follow(idx as u32, lines, ranges, 0);
    assert forall|i: int, j: int| 0 <= i && j == i + 1 && j < all.len() implies may_follow(
        #[trigger] all[i],
        #[trigger] all[j],
    ) by {
        if i >= front.len() {
            assert(all[i] == body[i - front.len()] && all[j] == body[j - front.len()]);
        } else {
            assert(all[i] == front[i]);
        }
    }
}

proof fn lemma_hunks_follow(diff: FileDiffModel, opts: BuildOptions, n: int)
    requires
        0 <= n <= diff.hunks.len(),
    ensures
        forall|i: int, j: int|
            #![trigger rows_of_hunks(diff, opts, n)[i], rows_of_hunks(diff, opts, n)[j]]
            0 <= i && j == i + 1 && j < rows_of_hunks(diff, opts, n).len() ==> may_follow(
                rows_of_hunks(diff, opts, n)[i],
                rows_of_hunks(diff, opts, n)[j],
            ),
    decreases n,
{
    if n > 0 {
        let before = rows_of_hunks(diff, opts, n - 1);
        let own = hunk_rows(diff, opts, n - 1);
        let all = rows_of_hunks(diff, opts, n);
        lemma_hunks_follow(diff, opts, n - 1);
        lemma_hunk_rows_follow(diff, opts, n - 1);
        assert forall|i: int, j: int| 0 <= i && j == i + 1 && j < all.len() implies may_follow(
            #[trigger] all[i],
            #[trigger] all[j],
        ) by {
            if j < before.len() {
                assert(all[i] == before[i] && all[j] == before[j]);
            } else if i >= before.len() {
                assert(all[i] == own[i - before.len()] && all[j] == own[j - before.len()]);
            } else {
                assert(all[j] == own[0]);
            }
        }
    }
}

/// In the split layout removed and added lines stand side by side as long as
/// there are both: padding comes only where a change block has no more lines on
/// that side.
pub proof fn padding_comes_last(diff: FileDiffModel, opts: BuildOptions)
    requires
        diff.kind is Text,
    ensures
        forall|i: int, j: int|
            #![trigger diff_rows(diff, opts)[i], diff_rows(diff, opts)[j]]
            0 <= i && j == i + 1 && j < diff_rows(diff, opts).len() ==> may_follow(
                diff_rows(diff, opts)[i],
                diff_rows(diff, opts)[j],
            ),
{
    let n = diff.hunks.len() as int;
    let before = rows_of_hunks(diff, opts, n);
    let tail = gap_rows(gap_after(diff));
    let all = diff_rows(diff, opts);
    lemma_hunks_follow(diff, opts, n);
    assert forall|i: int, j: int| 0 <= i && j == i + 1 && j < all.len() implies may_follow(
        #[trigger] all[i],
        #[trigger] all[j],
    ) by {
        if j < before.len() {
            assert(all[i] == before[i] && all[j] == before[j]);
        } else {
            assert(all[j] == tail[j - before.len()]);
        }
    }
}

// ---------------------------------------------------------------- expansions

proof fn lemma_expansion_covered(
    gap: GapModel,
    lines: Seq<Seq<char>>,
    mode: ViewMode,
    hunk: u32,
    old: bool,
    n: int,
)
    requires
        0 <= n <= expansion_rows(gap, lines, mode, hunk).len(),
    ensures
        ({
            let from = if old {
                gap.old_range.0 as int
            } else {
                gap.new_range.0 as int
            };
            covered(expansion_rows(gap, lines, mode, hunk).take(n), old) == run(from, from + n)
        }),
    decreases n,
{
    let rows = expansion_rows(gap, lines, mode, hunk);
    let from = if old {
        gap.old_range.0 as int
    } else {
        gap.new_range.0 as int
    };
    if n > 0 {
        lemma_expansion_covered(gap, lines, mode, hunk, old, n - 1);
        assert(rows.take(n).drop_last() =~= rows.take(n - 1));
        assert(rows.take(n).last() == rows[n - 1]);
        assert(covers(rows[n - 1], old) =~= run(from + n - 1, from + n));
        lemma_runs_join(from, from + n - 1, from + n);
    } else {
        assert(covered(rows.take(n), old) =~= run(from, from + n));
    }
}

/// An expanded gap accounts for exactly the lines that the gap did, on both
/// sides, where the content reaches to its end. The row of a new-side line shows
/// that line of the content, unchanged.
pub proof fn expansions_show_the_lines_of_their_gap(
    gap: GapModel,
    content: Seq<char>,
    mode: ViewMode,
    hunk: u32,
    old: bool,
)
    requires
        gap.old_range.0 + gap.count == gap.old_range.1 + 1,
        gap.new_range.0 + gap.count == gap.new_range.1 + 1,
        0 < gap.new_range.0,
        gap.new_range.1 <= lines_of(content).len(),
    ensures
        ({
            let rows = expansion_rows(gap, gap_lines(gap, content), mode, hunk);
            &&& covered(rows, old) == covers(RowModel::Gap { key: Seq::empty(), gap }, old)
            &&& forall|i: int|
                0 <= i < rows.len() ==> {
                    let line = #[trigger] seen(rows[i], false);
                    &&& line is Some
                    &&& line->0.number == gap.new_range.0 + i
                    &&& line->0.text == without_cr(lines_of(content)[line->0.number - 1])
                    &&& !line->0.changed
                    &&& seen(rows[i], true) is Some
                    &&& seen(rows[i], true)->0.text == line->0.text
                    &&& !seen(rows[i], true)->0.changed
                }
        }),
{
    let lines = gap_lines(gap, content);
    let rows = expansion_rows(gap, lines, mode, hunk);
    lemma_expansion_covered(gap, lines, mode, hunk, old, rows.len() as int);
    assert(rows.take(rows.len() as int) =~= rows);
    assert(rows.len() == gap.count);
}

} // verus!
