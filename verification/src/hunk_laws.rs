//! What the rows of a hunk say: its heading, its lines in their order, and
//! the marks on the words that changed.

use vstd::prelude::*;
use vstd::utf8::encode_utf8;

use crate::model::{DiffLineModel, FileDiffModel, HunkModel, LineKind};
use crate::parser_laws::heading;
use crate::rows::{
    block_end, block_ranges, block_rows, diff_rows, expansion_rows, gap_before, gap_rows,
    header_row, hunk_ranges, kind_positions, lemma_block_end, lemma_hunk_ranges_len, pairing_input,
    ranges_after_pairs, ranges_from, rows_of_hunks, split_hash, split_row, split_rows, unified_row,
    unified_rows, BuildOptions, CellKind, CellModel, GapModel, RowModel, ViewMode,
};
use crate::text::{decimal_text, hex_digits};
use crate::util::fnv32;
use crate::worddiff::{block_pairs, intra_ranges, pairing_never_reuses_a_line, BlockLine, Range};

verus! {

/// Whether a cell is line `i` of a hunk as the old file has it, or as the
/// new one has: its kind, its number there, its content, and its marks.
pub open spec fn is_line(
    cell: CellModel,
    lines: Seq<DiffLineModel>,
    marks: Seq<Seq<Range>>,
    i: int,
    old: bool,
) -> bool {
    &&& 0 <= i < lines.len()
    &&& cell.kind == CellKind::Context <==> lines[i].kind == LineKind::Context
    &&& cell.kind == CellKind::Add <==> lines[i].kind == LineKind::Add
    &&& cell.kind == CellKind::Remove <==> lines[i].kind == LineKind::Remove
    &&& cell.line == Some(if old {
        lines[i].old_num
    } else {
        lines[i].new_num
    })
    &&& cell.text == lines[i].content
    &&& cell.word_ranges == marks[i]
    &&& cell.hl.len() == 0
}

/// Whether a unified row is line `i` of a hunk.
pub open spec fn is_unified_line(
    row: RowModel,
    lines: Seq<DiffLineModel>,
    marks: Seq<Seq<Range>>,
    i: int,
) -> bool {
    row matches RowModel::Unified { old_num, new_num, cell, is_expansion, .. } && {
        &&& is_line(cell, lines, marks, i, lines[i].kind == LineKind::Remove)
        &&& old_num == if lines[i].kind == LineKind::Add {
            None
        } else {
            Some(lines[i].old_num)
        }
        &&& new_num == if lines[i].kind == LineKind::Remove {
            None
        } else {
            Some(lines[i].new_num)
        }
        &&& !is_expansion
    }
}

/// Whether a split row has lines of a hunk in its cells: a removed one on the
/// left, an added one on the right, or one context line on both.
pub open spec fn is_split_line(
    row: RowModel,
    lines: Seq<DiffLineModel>,
    marks: Seq<Seq<Range>>,
) -> bool {
    row matches RowModel::Split { left, right, is_expansion, .. } && {
        &&& !is_expansion
        &&& {
            ||| exists|i: int| #[trigger]
                is_line(left, lines, marks, i, true) && is_line(right, lines, marks, i, false)
                    && lines[i].kind == LineKind::Context
            ||| {
                &&& left.kind != CellKind::Empty || right.kind != CellKind::Empty
                &&& left.kind != CellKind::Empty ==> left.kind == CellKind::Remove && exists|
                    i: int,
                | #[trigger] is_line(left, lines, marks, i, true)
                &&& right.kind != CellKind::Empty ==> right.kind == CellKind::Add && exists|
                    i: int,
                | #[trigger] is_line(right, lines, marks, i, false)
            }
        }
    }
}

/// The hunk that a row says it belongs to.
pub open spec fn hunk_of(row: RowModel) -> Option<u32> {
    match row {
        RowModel::HunkHeader { hunk, .. } => Some(hunk),
        RowModel::Unified { hunk, .. } => Some(hunk),
        RowModel::Split { hunk, .. } => Some(hunk),
        _ => None,
    }
}

/// Whether a row is the heading of a hunk, or one of its lines in the layout
/// that was asked for.
pub open spec fn belongs(row: RowModel, diff: FileDiffModel, opts: BuildOptions, h: int) -> bool {
    &&& 0 <= h < diff.hunks.len()
    &&& hunk_of(row) == Some(h as u32)
    &&& {
        let lines = diff.hunks[h].lines;
        let marks = hunk_ranges(lines, opts.word_diff);
        ||| row is HunkHeader
        ||| opts.mode == ViewMode::Unified && exists|i: int| #[trigger]
            is_unified_line(row, lines, marks, i)
        ||| opts.mode == ViewMode::Split && is_split_line(row, lines, marks)
    }
}

/// Every row of a diff is a gap or belongs to one of its hunks.
pub proof fn rows_belong_to_hunks(diff: FileDiffModel, opts: BuildOptions, k: int)
    requires
        0 <= k < diff_rows(diff, opts).len(),
    ensures
        diff_rows(diff, opts)[k] is Gap || exists|h: int| #[trigger]
            belongs(diff_rows(diff, opts)[k], diff, opts, h),
{
    let n = diff.hunks.len() as int;
    let front = rows_of_hunks(diff, opts, n);
    lemma_hunks_belong(diff, opts, n);
    if k < front.len() {
        assert(diff_rows(diff, opts)[k] == front[k]);
    }
}

/// Whether a hunk stands at a row: its heading there, then its lines one by
/// one.
pub open spec fn stands_at(
    rows: Seq<RowModel>,
    at: int,
    hunk: HunkModel,
    h: int,
    marks: Seq<Seq<Range>>,
) -> bool {
    &&& 0 <= at && at + hunk.lines.len() < rows.len()
    &&& rows[at] matches RowModel::HunkHeader { hunk: number, text, .. } && number == h as u32
        && text == heading(
        hunk.old_start as nat,
        hunk.old_len as nat,
        hunk.new_start as nat,
        hunk.new_len as nat,
        hunk.context,
        false,
    )
    &&& forall|i: int|
        0 <= i < hunk.lines.len() ==> is_unified_line(
            #[trigger] rows[at + 1 + i],
            hunk.lines,
            marks,
            i,
        ) && hunk_of(rows[at + 1 + i]) == Some(h as u32)
}

/// In the unified layout every hunk stands in the row stream as it is: its
/// heading with its numbers and context, and under it its lines in their
/// order.
pub proof fn unified_hunks_stand_as_they_are(diff: FileDiffModel, opts: BuildOptions, h: int)
    requires
        diff.kind is Text,
        opts.mode == ViewMode::Unified,
        0 <= h < diff.hunks.len(),
    ensures
        exists|at: int| #[trigger]
            stands_at(
                diff_rows(diff, opts),
                at,
                diff.hunks[h],
                h,
                hunk_ranges(diff.hunks[h].lines, opts.word_diff),
            ),
{
    let marks = hunk_ranges(diff.hunks[h].lines, opts.word_diff);
    let n = diff.hunks.len() as int;
    let at = (rows_of_hunks(diff, opts, h).len() + gap_rows(gap_before(diff, h)).len()) as int;
    lemma_hunk_stands(diff, opts, h, n);
    let front = rows_of_hunks(diff, opts, n);
    let rows = diff_rows(diff, opts);
    assert forall|k: int| 0 <= k < front.len() implies rows[k] == #[trigger] front[k] by {}
    lemma_stands_longer(front, rows, at, diff.hunks[h], h, marks);
}

/// In either layout the heading of every hunk is there.
pub proof fn hunks_have_their_heading(diff: FileDiffModel, opts: BuildOptions, h: int)
    requires
        diff.kind is Text,
        0 <= h < diff.hunks.len(),
    ensures
        exists|at: int|
            #![trigger diff_rows(diff, opts)[at]]
            0 <= at < diff_rows(diff, opts).len() && diff_rows(diff, opts)[at] is HunkHeader
                && hunk_of(diff_rows(diff, opts)[at]) == Some(h as u32) && diff_rows(
                diff,
                opts,
            )[at]->HunkHeader_text == heading(
                diff.hunks[h].old_start as nat,
                diff.hunks[h].old_len as nat,
                diff.hunks[h].new_start as nat,
                diff.hunks[h].new_len as nat,
                diff.hunks[h].context,
                false,
            ),
{
    let n = diff.hunks.len() as int;
    lemma_prefix(diff, opts, h + 1, n);
    let before = rows_of_hunks(diff, opts, h);
    let at = (before.len() + gap_rows(gap_before(diff, h)).len()) as int;
    let upto = rows_of_hunks(diff, opts, h + 1);
    assert(upto[at] == header_row(h, diff.hunks[h]));
    assert(rows_of_hunks(diff, opts, n)[at] == upto[at]);
    assert(diff_rows(diff, opts)[at] == upto[at]);
    lemma_heading(diff.hunks[h], h);
}

/// Whether the row at `k` is a gap that is named after the hunk whose heading
/// comes right below it.
pub open spec fn names_the_hunk_below(rows: Seq<RowModel>, k: int) -> bool {
    rows[k] matches RowModel::Gap { key, gap } && key == "g:"@ + gap.id && k + 1 < rows.len()
        && rows[k + 1] is HunkHeader && exists|h: int|
        0 <= h && gap.id == "before:"@ + #[trigger] decimal_text(h as nat) && hunk_of(rows[k + 1])
            == Some(h as u32)
}

/// Every gap stands right above the heading of the hunk that it is named
/// after, but for the one at the end.
pub proof fn gaps_are_named_by_their_place(diff: FileDiffModel, opts: BuildOptions, k: int)
    requires
        0 <= k < diff_rows(diff, opts).len(),
        diff_rows(diff, opts)[k] is Gap,
    ensures
        names_the_hunk_below(diff_rows(diff, opts), k) || (k == diff_rows(diff, opts).len() - 1
            && diff_rows(diff, opts)[k]->gap.id == "trailing"@ && diff_rows(diff, opts)[k].key()
            == "g:"@ + "trailing"@),
{
    let n = diff.hunks.len() as int;
    let front = rows_of_hunks(diff, opts, n);
    let rows = diff_rows(diff, opts);
    if k < front.len() {
        assert(rows[k] == front[k]);
        lemma_gaps_named(diff, opts, n, k);
        assert(rows[k + 1] == front[k + 1]);
    }
}

/// Whether a cell is a context line that came with an opened gap.
pub open spec fn is_plain_line(cell: CellModel, number: int, text: Seq<char>) -> bool {
    &&& cell.kind == CellKind::Context
    &&& cell.line matches Some(n) && n == number
    &&& cell.text == text
    &&& cell.word_ranges.len() == 0
    &&& cell.hl.len() == 0
}

/// An opened gap gets a row for each line at hand, as far as the gap reaches
/// and numbers go, in the layout that was asked for. The rows count up from
/// the start of the gap on both sides.
pub proof fn opened_rows_count_up(
    gap: GapModel,
    lines: Seq<Seq<char>>,
    mode: ViewMode,
    hunk: u32,
    i: int,
)
    requires
        0 <= i < expansion_rows(gap, lines, mode, hunk).len(),
    ensures
        ({
            let rows = expansion_rows(gap, lines, mode, hunk);
            let old = gap.old_range.0 + i;
            let new = gap.new_range.0 + i;
            &&& old <= gap.old_range.1
            &&& new <= u32::MAX
            &&& i < lines.len()
            &&& rows.len() == lines.len() || gap.old_range.0 + rows.len() == gap.old_range.1 + 1
                || gap.new_range.0 + rows.len() == u32::MAX + 1
            &&& hunk_of(rows[i]) == Some(hunk)
            &&& match rows[i] {
                RowModel::Unified { old_num, new_num, cell, is_expansion, .. } => {
                    &&& mode == ViewMode::Unified
                    &&& old_num matches Some(n) && n == old
                    &&& new_num matches Some(m) && m == new
                    &&& is_plain_line(cell, new, lines[i])
                    &&& is_expansion
                },
                RowModel::Split { left, right, is_expansion, .. } => {
                    &&& mode == ViewMode::Split
                    &&& is_plain_line(left, old, lines[i])
                    &&& is_plain_line(right, new, lines[i])
                    &&& is_expansion
                },
                _ => false,
            }
        }),
{
}

/// Where there are lines at hand and the gap hides some, some are shown.
pub proof fn opened_gaps_show_something(
    gap: GapModel,
    lines: Seq<Seq<char>>,
    mode: ViewMode,
    hunk: u32,
)
    requires
        lines.len() > 0,
        gap.old_range.0 <= gap.old_range.1,
    ensures
        expansion_rows(gap, lines, mode, hunk).len() > 0,
        gap.old_range.0 + lines.len() <= gap.old_range.1 + 1 && gap.new_range.0 + lines.len()
            <= u32::MAX + 1 ==> expansion_rows(gap, lines, mode, hunk).len() == lines.len(),
{
}

/// Whether a key says a mark, two numbers and eight characters of a hash.
pub open spec fn is_key(key: Seq<char>, mark: char, old: u32, new: u32, hash: Seq<char>) -> bool {
    hash.len() == 8 && key == seq![mark, ':'] + decimal_text(old as nat) + seq![':'] + decimal_text(
        new as nat,
    ) + seq![':'] + hash
}

/// The number of a cell, zero where it has none.
pub open spec fn number_or_zero(cell: CellModel) -> u32 {
    match cell.line {
        Some(n) => n,
        None => 0,
    }
}

/// The key of a row says its numbers: of a unified row those of its line, of
/// a split row those of its two cells.
pub proof fn keys_say_the_numbers(
    hunk: u32,
    line: DiffLineModel,
    marks: Seq<Range>,
    left: CellModel,
    right: CellModel,
    is_expansion: bool,
)
    ensures
        exists|hash: Seq<char>| #[trigger]
            is_key(unified_row(hunk, line, marks).key(), 'l', line.old_num, line.new_num, hash),
        exists|hash: Seq<char>| #[trigger]
            is_key(
                split_row(hunk, left, right, is_expansion).key(),
                's',
                number_or_zero(left),
                number_or_zero(right),
                hash,
            ),
{
    reveal_strlit("l:");
    reveal_strlit("s:");
    reveal_strlit(":");
    assert("l:"@ =~= seq!['l', ':']);
    assert("s:"@ =~= seq!['s', ':']);
    assert(":"@ =~= seq![':']);
    let a = hex_digits(fnv32(encode_utf8(line.content)) as nat, 8);
    lemma_hash(fnv32(encode_utf8(line.content)) as nat, 8);
    assert(is_key(unified_row(hunk, line, marks).key(), 'l', line.old_num, line.new_num, a));
    let b = hex_digits(split_hash(left.text, right.text) as nat, 8);
    lemma_hash(split_hash(left.text, right.text) as nat, 8);
    assert(is_key(
        split_row(hunk, left, right, is_expansion).key(),
        's',
        number_or_zero(left),
        number_or_zero(right),
        b,
    ));
}

proof fn lemma_hash(n: nat, width: nat)
    ensures
        hex_digits(n, width).len() == width,
    decreases width,
{
    if width > 0 {
        lemma_hash(n / 16, (width - 1) as nat);
    }
}

/// Whether the lines from `from` up to `to` are a whole run of changes.
pub open spec fn is_change(lines: Seq<DiffLineModel>, from: int, to: int) -> bool {
    &&& 0 <= from < to <= lines.len()
    &&& forall|k: int| from <= k < to ==> (#[trigger] lines[k]).kind != LineKind::Context
    &&& from > 0 ==> lines[from - 1].kind == LineKind::Context
    &&& to < lines.len() ==> lines[to].kind == LineKind::Context
}

/// The lines of a run of changes as they are paired: what each says, and
/// whether it goes.
pub open spec fn said_in(lines: Seq<DiffLineModel>, from: int, to: int) -> Seq<BlockLine> {
    Seq::new(
        (to - from) as nat,
        |k: int|
            BlockLine {
                content: lines[from + k].content,
                is_remove: lines[from + k].kind == LineKind::Remove,
            },
    )
}

/// Whether a line is in one of the pairs.
pub open spec fn is_paired(pairs: Seq<(int, int)>, k: int) -> bool {
    exists|p: int| 0 <= p < pairs.len() && ((#[trigger] pairs[p]).0 == k || pairs[p].1 == k)
}

/// Marks stand on the lines of a pair alone, those of the removed line on it
/// and those of the added line on it: what the comparison of the two gives.
/// Without word diff there are none.
pub proof fn marks_come_from_pairs(
    lines: Seq<DiffLineModel>,
    word_diff: bool,
    from: int,
    to: int,
)
    requires
        is_change(lines, from, to),
    ensures
        ({
            let marks = hunk_ranges(lines, word_diff);
            let pairs = block_pairs(said_in(lines, from, to));
            &&& marks.len() == lines.len()
            &&& !word_diff ==> forall|k: int|
                0 <= k < lines.len() ==> (#[trigger] marks[k]).len() == 0
            &&& word_diff ==> forall|p: int|
                0 <= p < pairs.len() ==> match intra_ranges(
                    lines[from + (#[trigger] pairs[p]).0].content,
                    lines[from + pairs[p].1].content,
                ) {
                    Some(found) => marks[from + pairs[p].0] == found.0 && marks[from + pairs[p].1]
                        == found.1,
                    None => marks[from + pairs[p].0].len() == 0 && marks[from + pairs[p].1].len()
                        == 0,
                }
            &&& forall|k: int|
                from <= k < to && !is_paired(pairs, k - from) ==> (#[trigger] marks[k]).len() == 0
        }),
{
    lemma_hunk_ranges_len(lines, word_diff);
    if word_diff {
        let block = lines.subrange(from, to);
        assert(said_in(lines, from, to) =~= pairing_input(block));
        let input = pairing_input(block);
        let pairs = block_pairs(input);
        pairing_never_reuses_a_line(input);
        lemma_after_pairs(block, pairs, pairs.len() as int);
        lemma_ranges_of_change(lines, 0, from, to);
        let marks = hunk_ranges(lines, word_diff);
        assert forall|k: int| from <= k < to implies #[trigger] marks[k] == block_ranges(block)[k
            - from] by {
            assert(ranges_from(lines, 0)[k - 0] == block_ranges(block)[k - from]);
        }
        assert forall|p: int| 0 <= p < pairs.len() implies match intra_ranges(
            lines[from + (#[trigger] pairs[p]).0].content,
            lines[from + pairs[p].1].content,
        ) {
            Some(found) => marks[from + pairs[p].0] == found.0 && marks[from + pairs[p].1]
                == found.1,
            None => marks[from + pairs[p].0].len() == 0 && marks[from + pairs[p].1].len() == 0,
        } by {
            let (removed, added) = pairs[p];
            assert(block[removed] == lines[from + removed]);
            assert(block[added] == lines[from + added]);
            assert(marks[from + removed] == block_ranges(block)[removed]);
            assert(marks[from + added] == block_ranges(block)[added]);
        }
    }
}

// ------------------------------------------------------------------- proofs

proof fn lemma_after_pairs(block: Seq<DiffLineModel>, pairs: Seq<(int, int)>, n: int)
    requires
        0 <= n <= pairs.len(),
        forall|i: int|
            0 <= i < pairs.len() ==> 0 <= (#[trigger] pairs[i]).0 < block.len() && 0 <= pairs[i].1
                < block.len() && block[pairs[i].0].kind == LineKind::Remove
                && block[pairs[i].1].kind != LineKind::Remove,
        forall|i: int, j: int|
            0 <= i < j < pairs.len() ==> (#[trigger] pairs[i]).0 != (#[trigger] pairs[j]).0
                && pairs[i].1 != pairs[j].1,
    ensures
        ({
            let ranges = ranges_after_pairs(block, pairs, n);
            &&& ranges.len() == block.len()
            &&& forall|p: int|
                0 <= p < n ==> match intra_ranges(
                    block[(#[trigger] pairs[p]).0].content,
                    block[pairs[p].1].content,
                ) {
                    Some(found) => ranges[pairs[p].0] == found.0 && ranges[pairs[p].1] == found.1,
                    None => ranges[pairs[p].0].len() == 0 && ranges[pairs[p].1].len() == 0,
                }
            &&& forall|k: int|
                0 <= k < block.len() && !is_paired(pairs.take(n), k) ==> (
                #[trigger] ranges[k]).len() == 0
        }),
    decreases n,
{
    if n > 0 {
        lemma_after_pairs(block, pairs, n - 1);
        let before = ranges_after_pairs(block, pairs, n - 1);
        let ranges = ranges_after_pairs(block, pairs, n);
        let (removed, added) = pairs[n - 1];
        assert(removed != added);
        assert(!is_paired(pairs.take(n - 1), removed) && !is_paired(pairs.take(n - 1), added)) by {
            assert forall|p: int| 0 <= p < n - 1 implies (#[trigger] pairs.take(n - 1)[p]).0
                != removed && pairs.take(n - 1)[p].1 != removed && pairs.take(n - 1)[p].0 != added
                && pairs.take(n - 1)[p].1 != added by {
                assert(pairs.take(n - 1)[p] == pairs[p]);
            }
        }
        assert(before[removed].len() == 0 && before[added].len() == 0);
        assert forall|k: int| 0 <= k < block.len() && !is_paired(pairs.take(n), k) implies (
        #[trigger] ranges[k]).len() == 0 by {
            assert(pairs.take(n)[n - 1] == pairs[n - 1]);
            assert(k != removed && k != added);
            if is_paired(pairs.take(n - 1), k) {
                let p = choose|p: int|
                    0 <= p < pairs.take(n - 1).len() && ((#[trigger] pairs.take(n - 1)[p]).0 == k
                        || pairs.take(n - 1)[p].1 == k);
                assert(pairs.take(n)[p] == pairs.take(n - 1)[p]);
            }
            assert(before[k].len() == 0);
        }
        assert forall|p: int| 0 <= p < n implies match intra_ranges(
            block[(#[trigger] pairs[p]).0].content,
            block[pairs[p].1].content,
        ) {
            Some(found) => ranges[pairs[p].0] == found.0 && ranges[pairs[p].1] == found.1,
            None => ranges[pairs[p].0].len() == 0 && ranges[pairs[p].1].len() == 0,
        } by {
            if p < n - 1 {
                assert(pairs[p].0 != pairs[n - 1].0 && pairs[p].1 != pairs[n - 1].1);
            }
        }
    }
    if n == pairs.len() {
        assert(pairs.take(n) =~= pairs);
    }
}

/// The change that starts at `from` ends where the next context line is.
proof fn lemma_change_end(lines: Seq<DiffLineModel>, from: int, to: int)
    requires
        0 <= from <= to <= lines.len(),
        forall|k: int| from <= k < to ==> (#[trigger] lines[k]).kind != LineKind::Context,
        to < lines.len() ==> lines[to].kind == LineKind::Context,
    ensures
        block_end(lines, from) == to,
    decreases to - from,
{
    if from < to {
        assert(lines[from].kind != LineKind::Context);
        lemma_change_end(lines, from + 1, to);
    }
}

proof fn lemma_ranges_of_change(lines: Seq<DiffLineModel>, start: int, from: int, to: int)
    requires
        is_change(lines, from, to),
        0 <= start <= from,
        start == 0 || start == from || lines[start - 1].kind == LineKind::Context
            || lines[start].kind == LineKind::Context,
        start > 0 && lines[start].kind != LineKind::Context ==> lines[start - 1].kind
            == LineKind::Context,
    ensures
        ranges_from(lines, start).len() == lines.len() - start,
        forall|k: int|
            from <= k < to ==> #[trigger] ranges_from(lines, start)[k - start] == block_ranges(
                lines.subrange(from, to),
            )[k - from],
    decreases from - start,
{
    lemma_from_len(lines, start);
    if start == from {
        assert(lines[from].kind != LineKind::Context);
        lemma_change_end(lines, from, to);
        lemma_from_len(lines, to);
        assert(block_ranges(lines.subrange(from, to)).len() == to - from);
    } else if lines[start].kind == LineKind::Context {
        lemma_ranges_of_change(lines, start + 1, from, to);
        assert forall|k: int| from <= k < to implies #[trigger] ranges_from(lines, start)[k - start]
            == block_ranges(lines.subrange(from, to))[k - from] by {
            assert(ranges_from(lines, start)[k - start] == ranges_from(lines, start + 1)[k - (start
                + 1)]);
        }
    } else {
        lemma_block_end(lines, start);
        let end = block_end(lines, start);
        assert(end < from) by {
            if end >= from {
                assert(lines[from - 1].kind == LineKind::Context);
            }
        }
        lemma_block_stops(lines, start);
        lemma_ranges_of_change(lines, end, from, to);
        lemma_from_len(lines, end);
        let head = block_ranges(lines.subrange(start, end));
        assert forall|k: int| from <= k < to implies #[trigger] ranges_from(lines, start)[k - start]
            == block_ranges(lines.subrange(from, to))[k - from] by {
            assert(head.len() == end - start);
            assert(ranges_from(lines, start)[k - start] == ranges_from(lines, end)[k - end]);
        }
    }
}

proof fn lemma_block_stops(lines: Seq<DiffLineModel>, from: int)
    requires
        0 <= from <= lines.len(),
    ensures
        block_end(lines, from) < lines.len() ==> lines[block_end(lines, from)].kind
            == LineKind::Context,
    decreases lines.len() - from,
{
    if from < lines.len() && lines[from].kind != LineKind::Context {
        lemma_block_stops(lines, from + 1);
    }
}

proof fn lemma_block_ranges_len(block: Seq<DiffLineModel>)
    requires
        forall|k: int| 0 <= k < block.len() ==> (#[trigger] block[k]).kind != LineKind::Context,
    ensures
        block_ranges(block).len() == block.len(),
{
    let input = pairing_input(block);
    let pairs = block_pairs(input);
    pairing_never_reuses_a_line(input);
    lemma_after_pairs(block, pairs, pairs.len() as int);
}

proof fn lemma_from_len(lines: Seq<DiffLineModel>, from: int)
    requires
        0 <= from <= lines.len(),
    ensures
        ranges_from(lines, from).len() == lines.len() - from,
        from < lines.len() && lines[from].kind != LineKind::Context ==> block_ranges(
            lines.subrange(from, block_end(lines, from)),
        ).len() == block_end(lines, from) - from,
    decreases lines.len() - from,
{
    lemma_block_end(lines, from);
    if from < lines.len() {
        if lines[from].kind == LineKind::Context {
            lemma_from_len(lines, from + 1);
        } else {
            let end = block_end(lines, from);
            lemma_from_len(lines, end);
            let block = lines.subrange(from, end);
            assert forall|k: int| 0 <= k < block.len() implies (#[trigger] block[k]).kind
                != LineKind::Context by {
                assert(block[k] == lines[from + k]);
            }
            lemma_block_ranges_len(block);
        }
    }
}

proof fn lemma_heading(hunk: HunkModel, h: int)
    ensures
        header_row(h, hunk)->HunkHeader_text == heading(
            hunk.old_start as nat,
            hunk.old_len as nat,
            hunk.new_start as nat,
            hunk.new_len as nat,
            hunk.context,
            false,
        ),
{
    assert(header_row(h, hunk)->HunkHeader_text =~= heading(
        hunk.old_start as nat,
        hunk.old_len as nat,
        hunk.new_start as nat,
        hunk.new_len as nat,
        hunk.context,
        false,
    ));
}

proof fn lemma_prefix(diff: FileDiffModel, opts: BuildOptions, m: int, n: int)
    requires
        0 <= m <= n,
    ensures
        rows_of_hunks(diff, opts, m).len() <= rows_of_hunks(diff, opts, n).len(),
        forall|k: int|
            0 <= k < rows_of_hunks(diff, opts, m).len() ==> #[trigger] rows_of_hunks(
                diff,
                opts,
                n,
            )[k] == rows_of_hunks(diff, opts, m)[k],
    decreases n,
{
    if m < n {
        lemma_prefix(diff, opts, m, n - 1);
    }
}

proof fn lemma_gaps_named(diff: FileDiffModel, opts: BuildOptions, n: int, k: int)
    requires
        0 <= n <= diff.hunks.len(),
        0 <= k < rows_of_hunks(diff, opts, n).len(),
        rows_of_hunks(diff, opts, n)[k] is Gap,
    ensures
        names_the_hunk_below(rows_of_hunks(diff, opts, n), k),
    decreases n,
{
    if n > 0 {
        let h = n - 1;
        let before = rows_of_hunks(diff, opts, h);
        let rows = rows_of_hunks(diff, opts, n);
        let hunk = diff.hunks[h];
        let marks = hunk_ranges(hunk.lines, opts.word_diff);
        let gap = gap_rows(gap_before(diff, h));
        let at = before.len() + gap.len();
        assert(rows[at as int] == header_row(h, hunk));
        if k < before.len() {
            assert(rows[k] == before[k]);
            lemma_gaps_named(diff, opts, h, k);
            assert(rows[k + 1] == before[k + 1]);
        } else if k < at {
            assert(rows[k] == gap[k - before.len()]);
            assert(gap_before(diff, h)->0.id == "before:"@ + decimal_text(h as nat));
        } else if k > at {
            let i = k - at - 1;
            if opts.mode == ViewMode::Unified {
                assert(rows[k] == unified_rows(h as u32, hunk.lines, marks)[i]);
            } else {
                assert(rows[k] == split_rows(h as u32, hunk.lines, marks, 0)[i]);
                lemma_context_bare(hunk.lines, opts.word_diff);
                lemma_split_lines(h as u32, hunk.lines, marks, 0, i);
            }
        }
    }
}

proof fn lemma_stands_longer(
    front: Seq<RowModel>,
    rows: Seq<RowModel>,
    at: int,
    hunk: HunkModel,
    h: int,
    marks: Seq<Seq<Range>>,
)
    requires
        stands_at(front, at, hunk, h, marks),
        front.len() <= rows.len(),
        forall|k: int| 0 <= k < front.len() ==> rows[k] == #[trigger] front[k],
    ensures
        stands_at(rows, at, hunk, h, marks),
{
    assert(front[at] == rows[at]);
    assert forall|i: int| 0 <= i < hunk.lines.len() implies is_unified_line(
        #[trigger] rows[at + 1 + i],
        hunk.lines,
        marks,
        i,
    ) && hunk_of(rows[at + 1 + i]) == Some(h as u32) by {
        assert(rows[at + 1 + i] == front[at + 1 + i]);
    }
}

proof fn lemma_hunk_stands(diff: FileDiffModel, opts: BuildOptions, h: int, n: int)
    requires
        opts.mode == ViewMode::Unified,
        0 <= h < n <= diff.hunks.len(),
    ensures
        stands_at(
            rows_of_hunks(diff, opts, n),
            (rows_of_hunks(diff, opts, h).len() + gap_rows(gap_before(diff, h)).len()) as int,
            diff.hunks[h],
            h,
            hunk_ranges(diff.hunks[h].lines, opts.word_diff),
        ),
{
    let hunk = diff.hunks[h];
    let marks = hunk_ranges(hunk.lines, opts.word_diff);
    let before = rows_of_hunks(diff, opts, h);
    let gap = gap_rows(gap_before(diff, h));
    let at = (before.len() + gap.len()) as int;
    let upto = rows_of_hunks(diff, opts, h + 1);
    let body = unified_rows(h as u32, hunk.lines, marks);
    lemma_heading(hunk, h);
    assert(upto == before + (gap.push(header_row(h, hunk)) + body));
    assert(upto[at] == header_row(h, hunk));
    assert forall|i: int| 0 <= i < hunk.lines.len() implies is_unified_line(
        #[trigger] upto[at + 1 + i],
        hunk.lines,
        marks,
        i,
    ) && hunk_of(upto[at + 1 + i]) == Some(h as u32) by {
        assert(upto[at + 1 + i] == body[i]);
    }
    lemma_prefix(diff, opts, h + 1, n);
    let rows = rows_of_hunks(diff, opts, n);
    assert forall|k: int| 0 <= k < upto.len() implies rows[k] == #[trigger] upto[k] by {}
    lemma_stands_longer(upto, rows, at, hunk, h, marks);
}

proof fn lemma_split_lines(
    hunk: u32,
    lines: Seq<DiffLineModel>,
    marks: Seq<Seq<Range>>,
    from: int,
    k: int,
)
    requires
        0 <= from <= lines.len(),
        0 <= k < split_rows(hunk, lines, marks, from).len(),
        forall|i: int|
            0 <= i < lines.len() && (#[trigger] lines[i]).kind == LineKind::Context
                ==> marks[i].len() == 0,
    ensures
        is_split_line(split_rows(hunk, lines, marks, from)[k], lines, marks),
        hunk_of(split_rows(hunk, lines, marks, from)[k]) == Some(hunk),
    decreases lines.len() - from,
{
    let rows = split_rows(hunk, lines, marks, from);
    if from < lines.len() {
        if lines[from].kind == LineKind::Context {
            if k == 0 {
                assert(marks[from] =~= Seq::<Range>::empty());
                assert(is_line(rows[0]->left, lines, marks, from, true));
                assert(is_line(rows[0]->right, lines, marks, from, false));
            } else {
                lemma_split_lines(hunk, lines, marks, from + 1, k - 1);
            }
        } else {
            lemma_block_end(lines, from);
            let end = block_end(lines, from);
            let head = block_rows(hunk, lines, marks, from, end);
            if k < head.len() {
                assert(rows[k] == head[k]);
                let removes = kind_positions(lines, LineKind::Remove, from, end);
                let adds = kind_positions(lines, LineKind::Add, from, end);
                lemma_kind_positions(lines, LineKind::Remove, from, end);
                lemma_kind_positions(lines, LineKind::Add, from, end);
                if k < removes.len() {
                    assert(is_line(head[k]->left, lines, marks, removes[k], true));
                }
                if k < adds.len() {
                    assert(is_line(head[k]->right, lines, marks, adds[k], false));
                }
            } else {
                lemma_split_lines(hunk, lines, marks, end, k - head.len());
            }
        }
    }
}

proof fn lemma_kind_positions(lines: Seq<DiffLineModel>, kind: LineKind, from: int, end: int)
    requires
        0 <= from,
    ensures
        forall|i: int|
            #![trigger kind_positions(lines, kind, from, end)[i]]
            0 <= i < kind_positions(lines, kind, from, end).len() ==> {
                let at = kind_positions(lines, kind, from, end)[i];
                from <= at < end && lines[at].kind == kind
            },
    decreases end - from,
{
    if from < end {
        lemma_kind_positions(lines, kind, from, end - 1);
    }
}

proof fn lemma_hunks_belong(diff: FileDiffModel, opts: BuildOptions, n: int)
    requires
        0 <= n <= diff.hunks.len(),
    ensures
        forall|k: int|
            #![trigger rows_of_hunks(diff, opts, n)[k]]
            0 <= k < rows_of_hunks(diff, opts, n).len() ==> rows_of_hunks(diff, opts, n)[k] is Gap
                || exists|h: int| #[trigger]
                belongs(rows_of_hunks(diff, opts, n)[k], diff, opts, h),
    decreases n,
{
    if n > 0 {
        let h = n - 1;
        lemma_hunks_belong(diff, opts, h);
        let before = rows_of_hunks(diff, opts, h);
        let rows = rows_of_hunks(diff, opts, n);
        let hunk = diff.hunks[h];
        let marks = hunk_ranges(hunk.lines, opts.word_diff);
        let gap = gap_rows(gap_before(diff, h));
        let front = gap.push(header_row(h, hunk));
        assert forall|k: int| #![trigger rows[k]] 0 <= k < rows.len() implies rows[k] is Gap
            || exists|h: int| #[trigger] belongs(rows[k], diff, opts, h) by {
            if k < before.len() {
                assert(rows[k] == before[k]);
            } else if k < before.len() + front.len() {
                assert(rows[k] == front[k - before.len()]);
                if rows[k] !is Gap {
                    assert(belongs(rows[k], diff, opts, h));
                }
            } else {
                let i = k - before.len() - front.len();
                if opts.mode == ViewMode::Unified {
                    let body = unified_rows(h as u32, hunk.lines, marks);
                    assert(rows[k] == body[i]);
                    assert(is_unified_line(rows[k], hunk.lines, marks, i));
                } else {
                    let body = split_rows(h as u32, hunk.lines, marks, 0);
                    assert(rows[k] == body[i]);
                    lemma_context_bare(hunk.lines, opts.word_diff);
                    lemma_split_lines(h as u32, hunk.lines, marks, 0, i);
                }
                assert(belongs(rows[k], diff, opts, h));
            }
        }
    }
}

proof fn lemma_context_bare(lines: Seq<DiffLineModel>, word_diff: bool)
    ensures
        forall|i: int|
            0 <= i < lines.len() && (#[trigger] lines[i]).kind == LineKind::Context
                ==> hunk_ranges(lines, word_diff)[i].len() == 0,
{
    if word_diff {
        lemma_context_bare_from(lines, 0);
    }
}

proof fn lemma_context_bare_from(lines: Seq<DiffLineModel>, from: int)
    requires
        0 <= from <= lines.len(),
    ensures
        forall|i: int|
            from <= i < lines.len() && (#[trigger] lines[i]).kind == LineKind::Context
                ==> ranges_from(lines, from)[i - from].len() == 0,
    decreases lines.len() - from,
{
    lemma_block_end(lines, from);
    lemma_from_len(lines, from);
    if from < lines.len() {
        let all = ranges_from(lines, from);
        if lines[from].kind == LineKind::Context {
            lemma_context_bare_from(lines, from + 1);
            assert forall|i: int|
                from <= i < lines.len() && (#[trigger] lines[i]).kind
                    == LineKind::Context implies all[i - from].len() == 0 by {
                if i > from {
                    assert(all[i - from] == ranges_from(lines, from + 1)[i - from - 1]);
                }
            }
        } else {
            let end = block_end(lines, from);
            lemma_context_bare_from(lines, end);
            assert forall|i: int|
                from <= i < lines.len() && (#[trigger] lines[i]).kind
                    == LineKind::Context implies all[i - from].len() == 0 by {
                assert(i >= end);
                assert(all[i - from] == ranges_from(lines, end)[i - end]);
            }
        }
    }
}

} // verus!
