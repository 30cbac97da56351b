//! Where a line number leads, told by what the rows show and hide.

use vstd::prelude::*;

use crate::goto::{
    first_settling, gap_holding, last_below, line_target, number_on, scanned, settles, LineSide,
    LineTargetModel,
};
use crate::rows::RowModel;

verus! {

/// Whether a row carries the line with this number in the old file, or in
/// the new one.
pub open spec fn carries(row: RowModel, old: bool, line: u32) -> bool {
    match row {
        RowModel::Unified { old_num, new_num, .. } => if old {
            old_num == Some(line)
        } else {
            new_num == Some(line)
        },
        RowModel::Split { left, right, .. } => if old {
            left.line == Some(line)
        } else {
            right.line == Some(line)
        },
        _ => false,
    }
}

/// Whether a row is a gap with this id that hides the line.
pub open spec fn hides_as(row: RowModel, old: bool, line: u32, id: Seq<char>) -> bool {
    row matches RowModel::Gap { gap, .. } && gap.id == id && if old {
        gap.old_range.0 <= line <= gap.old_range.1
    } else {
        gap.new_range.0 <= line <= gap.new_range.1
    }
}

/// Whether a row has the line on a side, shown or hidden.
pub open spec fn has_line(row: RowModel, old: bool, line: u32) -> bool {
    carries(row, old, line) || exists|id: Seq<char>| #[trigger] hides_as(row, old, line, id)
}

/// Whether no row in a stretch has the line on a side.
pub open spec fn none_has(
    rows: Seq<RowModel>,
    from: int,
    to: int,
    old: bool,
    line: u32,
) -> bool {
    forall|k: int| from <= k < to ==> !has_line(#[trigger] rows[k], old, line)
}

/// Whether a row carries an earlier line of a side.
pub open spec fn carries_earlier(row: RowModel, old: bool, line: u32) -> bool {
    exists|n: u32| n < line && #[trigger] carries(row, old, n)
}

/// Whether `row` is the last that carries an earlier line of a side.
pub open spec fn is_last_earlier(rows: Seq<RowModel>, row: int, old: bool, line: u32) -> bool {
    &&& 0 <= row < rows.len()
    &&& carries_earlier(rows[row], old, line)
    &&& forall|k: int|
        row < k < rows.len() ==> !carries_earlier(#[trigger] rows[k], old, line)
}

/// Whether no row carries an earlier line of a side.
pub open spec fn none_earlier(rows: Seq<RowModel>, old: bool, line: u32) -> bool {
    forall|k: int| 0 <= k < rows.len() ==> !carries_earlier(#[trigger] rows[k], old, line)
}

/// Line zero leads nowhere. Any other line leads to the first row that shows
/// it on the new side, or to the first gap that hides it there, whichever
/// comes first; where the new side does not have it, the same on the old
/// side; and where neither has it, to the last row with an earlier line, of
/// the new side where there is one.
pub proof fn line_numbers_lead_to_their_line(rows: Seq<RowModel>, line: u32)
    ensures
        line == 0 ==> line_target(rows, line) == (LineTargetModel::Nearest { row: None }),
        line > 0 ==> match line_target(rows, line) {
            LineTargetModel::Exact { row, side } => {
                let old = side == LineSide::Old;
                &&& 0 <= row < rows.len()
                &&& carries(rows[row], old, line)
                &&& none_has(rows, 0, row, old, line)
                &&& old ==> none_has(rows, 0, rows.len() as int, false, line)
            },
            LineTargetModel::InGap { row, gap_id } => {
                &&& 0 <= row < rows.len()
                &&& {
                    ||| hides_as(rows[row], false, line, gap_id) && none_has(
                        rows,
                        0,
                        row,
                        false,
                        line,
                    )
                    ||| hides_as(rows[row], true, line, gap_id) && none_has(
                        rows,
                        0,
                        row,
                        true,
                        line,
                    ) && none_has(rows, 0, rows.len() as int, false, line)
                }
            },
            LineTargetModel::Nearest { row } => {
                &&& none_has(rows, 0, rows.len() as int, false, line)
                &&& none_has(rows, 0, rows.len() as int, true, line)
                &&& match row {
                    Some(r) => {
                        ||| is_last_earlier(rows, r, false, line)
                        ||| none_earlier(rows, false, line) && is_last_earlier(
                            rows,
                            r,
                            true,
                            line,
                        )
                    },
                    None => none_earlier(rows, false, line) && none_earlier(rows, true, line),
                }
            },
        },
{
    lemma_scanned(rows, line, LineSide::New);
    lemma_scanned(rows, line, LineSide::Old);
}

spec fn is_old(side: LineSide) -> bool {
    side == LineSide::Old
}

proof fn lemma_settles(row: RowModel, line: u32, side: LineSide)
    ensures
        number_on(row, side) == Some(line) <==> carries(row, is_old(side), line),
        settles(row, line, side) <==> has_line(row, is_old(side), line),
        gap_holding(row, line, side) matches Some(id) ==> hides_as(row, is_old(side), line, id),
        (number_on(row, side) matches Some(n) && n < line) <==> carries_earlier(
            row,
            is_old(side),
            line,
        ),
{
    if let RowModel::Gap { gap, .. } = row {
        if settles(row, line, side) {
            assert(hides_as(row, is_old(side), line, gap.id));
        }
    }
    if let Some(n) = number_on(row, side) {
        assert(carries(row, is_old(side), n));
    }
}

proof fn lemma_first(rows: Seq<RowModel>, line: u32, side: LineSide)
    ensures
        0 <= first_settling(rows, line, side) <= rows.len(),
        none_has(rows, 0, first_settling(rows, line, side), is_old(side), line),
        first_settling(rows, line, side) < rows.len() ==> settles(
            rows[first_settling(rows, line, side)],
            line,
            side,
        ),
    decreases rows.len(),
{
    if rows.len() > 0 {
        let front = rows.drop_last();
        lemma_first(front, line, side);
        lemma_settles(rows.last(), line, side);
        let i = first_settling(rows, line, side);
        assert forall|k: int| 0 <= k < i implies !has_line(
            #[trigger] rows[k],
            is_old(side),
            line,
        ) by {
            if k < front.len() {
                assert(front[k] == rows[k]);
            }
        }
    }
}

proof fn lemma_last(rows: Seq<RowModel>, line: u32, side: LineSide)
    ensures
        match last_below(rows, line, side) {
            Some(r) => is_last_earlier(rows, r, is_old(side), line),
            None => none_earlier(rows, is_old(side), line),
        },
    decreases rows.len(),
{
    if rows.len() > 0 {
        let front = rows.drop_last();
        lemma_last(front, line, side);
        lemma_settles(rows.last(), line, side);
        assert forall|k: int| 0 <= k < front.len() implies front[k] == #[trigger] rows[k] by {}
    }
}

proof fn lemma_scanned(rows: Seq<RowModel>, line: u32, side: LineSide)
    ensures
        match scanned(rows, line, side) {
            LineTargetModel::Exact { row, side: s } => {
                &&& s == side
                &&& 0 <= row < rows.len()
                &&& carries(rows[row], is_old(side), line)
                &&& none_has(rows, 0, row, is_old(side), line)
            },
            LineTargetModel::InGap { row, gap_id } => {
                &&& 0 <= row < rows.len()
                &&& hides_as(rows[row], is_old(side), line, gap_id)
                &&& none_has(rows, 0, row, is_old(side), line)
            },
            LineTargetModel::Nearest { row } => {
                &&& none_has(rows, 0, rows.len() as int, is_old(side), line)
                &&& match row {
                    Some(r) => is_last_earlier(rows, r, is_old(side), line),
                    None => none_earlier(rows, is_old(side), line),
                }
            },
        },
{
    lemma_first(rows, line, side);
    lemma_last(rows, line, side);
    let i = first_settling(rows, line, side);
    if i < rows.len() {
        lemma_settles(rows[i], line, side);
    }
}

} // verus!
