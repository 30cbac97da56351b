//! Resolving a line number to a row index (the `:<num>` motion).
//!
//! New-side numbering is tried first (the side rule prefers "line N of the
//! file as it will be"), old-side is the fallback for pure-deletion regions
//! the new side has no number for.

use vstd::prelude::*;

use crate::rows::{Row, RowModel};
use crate::text::copy_of;

verus! {

/// Which side's numbering matched.
#[derive(Debug, Clone, Copy, PartialEq, Eq, Structural)]
pub enum LineSide {
    New,
    Old,
}

/// Where a requested line number lands in the row stream.
#[allow(inconsistent_fields)]
#[derive(Debug, Clone, PartialEq, Eq)]
pub enum LineTarget {
    /// The line is visible at this row index.
    Exact { row: usize, side: LineSide },
    /// The line is hidden inside a collapsed gap; `row` is the gap's own
    /// row index and `gap_id` addresses it for expansion.
    InGap { row: usize, gap_id: String },
    /// The line is not in the diff; `row` is the nearest line row at or
    /// before it, or None when nothing precedes it.
    Nearest { row: Option<usize> },
}

#[allow(inconsistent_fields)]
#[verifier::ext_equal]
pub enum LineTargetModel {
    Exact { row: int, side: LineSide },
    InGap { row: int, gap_id: Seq<char> },
    Nearest { row: Option<int> },
}

impl DeepView for LineTarget {
    type V = LineTargetModel;

    open spec fn deep_view(&self) -> LineTargetModel {
        match *self {
            LineTarget::Exact { row, side } => LineTargetModel::Exact { row: row as int, side },
            LineTarget::InGap { row, gap_id } => LineTargetModel::InGap {
                row: row as int,
                gap_id: gap_id@,
            },
            LineTarget::Nearest { row } => LineTargetModel::Nearest {
                row: match row {
                    Some(r) => Some(r as int),
                    None => None,
                },
            },
        }
    }
}

/// One side's line number for a row, or None for rows that carry no line of
/// their own on that side (hunk headers, gaps, empty split padding).
pub open spec fn number_on(row: RowModel, side: LineSide) -> Option<u32> {
    match row {
        RowModel::Unified { old_num, new_num, .. } => if side == LineSide::New {
            new_num
        } else {
            old_num
        },
        RowModel::Split { left, right, .. } => if side == LineSide::New {
            right.line
        } else {
            left.line
        },
        _ => None,
    }
}

/// The id of the gap whose range on a side holds the line.
pub open spec fn gap_holding(row: RowModel, line: u32, side: LineSide) -> Option<Seq<char>> {
    match row {
        RowModel::Gap { gap, .. } => {
            let range = if side == LineSide::New {
                gap.new_range
            } else {
                gap.old_range
            };
            if range.0 <= line <= range.1 {
                Some(gap.id)
            } else {
                None
            }
        },
        _ => None,
    }
}

/// Whether a row settles where a line is: it shows the line, or hides it.
pub open spec fn settles(row: RowModel, line: u32, side: LineSide) -> bool {
    number_on(row, side) == Some(line) || gap_holding(row, line, side) is Some
}

/// First row that settles the line; the length where none does.
pub open spec fn first_settling(rows: Seq<RowModel>, line: u32, side: LineSide) -> int
    decreases rows.len(),
{
    if rows.len() == 0 {
        0
    } else {
        let before = first_settling(rows.drop_last(), line, side);
        if before < rows.len() - 1 || settles(rows.last(), line, side) {
            before
        } else {
            rows.len() as int
        }
    }
}

/// Last row with a smaller number on the side.
pub open spec fn last_below(rows: Seq<RowModel>, line: u32, side: LineSide) -> Option<int>
    decreases rows.len(),
{
    if rows.len() == 0 {
        None
    } else {
        match number_on(rows.last(), side) {
            Some(n) if n < line => Some(rows.len() - 1),
            _ => last_below(rows.drop_last(), line, side),
        }
    }
}

/// Where the scan of one side ends.
pub open spec fn scanned(rows: Seq<RowModel>, line: u32, side: LineSide) -> LineTargetModel {
    let i = first_settling(rows, line, side);
    if i < rows.len() {
        if number_on(rows[i], side) == Some(line) {
            LineTargetModel::Exact { row: i, side }
        } else {
            LineTargetModel::InGap { row: i, gap_id: gap_holding(rows[i], line, side)->0 }
        }
    } else {
        LineTargetModel::Nearest { row: last_below(rows, line, side) }
    }
}

/// Where a line is: on the new side, else on the old side, else near what
/// comes before it. Line 0 is nowhere.
pub open spec fn line_target(rows: Seq<RowModel>, line: u32) -> LineTargetModel {
    if line == 0 {
        LineTargetModel::Nearest { row: None }
    } else {
        match scanned(rows, line, LineSide::New) {
            LineTargetModel::Nearest { row: new_row } => match scanned(
                rows,
                line,
                LineSide::Old,
            ) {
                LineTargetModel::Nearest { row: old_row } => LineTargetModel::Nearest {
                    row: match new_row {
                        Some(r) => Some(r),
                        None => old_row,
                    },
                },
                found => found,
            },
            found => found,
        }
    }
}

fn line_num(row: &Row, side: LineSide) -> (r: Option<u32>)
    ensures
        r == number_on(row.deep_view(), side),
{
    match row {
        Row::Unified { old_num, new_num, .. } => match side {
            LineSide::New => *new_num,
            LineSide::Old => *old_num,
        },
        Row::Split { left, right, .. } => match side {
            LineSide::New => right.line,
            LineSide::Old => left.line,
        },
        _ => None,
    }
}

proof fn lemma_first_settling(rows: Seq<RowModel>, line: u32, side: LineSide, i: int)
    requires
        0 <= i <= rows.len(),
        forall|k: int| 0 <= k < i ==> !settles(#[trigger] rows[k], line, side),
        i < rows.len() ==> settles(rows[i], line, side),
    ensures
        first_settling(rows, line, side) == i,
    decreases rows.len(),
{
    if rows.len() > 0 {
        if i < rows.len() - 1 {
            lemma_first_settling(rows.drop_last(), line, side, i);
        } else {
            lemma_first_settling(rows.drop_last(), line, side, rows.len() - 1);
            if i == rows.len() {
                assert(!settles(rows[rows.len() - 1], line, side));
            }
        }
    }
}

/// The scan of one side.
fn scan_side(rows: &[Row], line: u32, side: LineSide) -> (r: LineTarget)
    ensures
        r.deep_view() == scanned(rows.deep_view(), line, side),
{
    let ghost model = rows.deep_view();
    let mut nearest: Option<usize> = None;
    let mut idx: usize = 0;
    while idx < rows.len()
        invariant
            idx <= rows.len(),
            model == rows.deep_view(),
            forall|k: int| 0 <= k < idx ==> !settles(#[trigger] model[k], line, side),
            match nearest {
                Some(n) => last_below(model.take(idx as int), line, side) == Some(n as int),
                None => last_below(model.take(idx as int), line, side) is None,
            },
        decreases rows.len() - idx,
    {
        let row: &Row = &rows[idx];
        assert(model[idx as int] == row.deep_view());
        assert(model.take(idx + 1).drop_last() =~= model.take(idx as int));
        if let Some(n) = line_num(row, side) {
            if n == line {
                proof {
                    lemma_first_settling(model, line, side, idx as int);
                }
                return LineTarget::Exact { row: idx, side };
            }
            if n < line {
                nearest = Some(idx);
            }
        } else if let Row::Gap { gap, .. } = row {
            let range: (u32, u32) = match side {
                LineSide::New => gap.new_range,
                LineSide::Old => gap.old_range,
            };
            if range.0 <= line && line <= range.1 {
                proof {
                    lemma_first_settling(model, line, side, idx as int);
                }
                return LineTarget::InGap { row: idx, gap_id: copy_of(gap.id.as_str()) };
            }
        }
        idx += 1;
    }
    proof {
        lemma_first_settling(model, line, side, idx as int);
        assert(model.take(model.len() as int) =~= model);
    }
    LineTarget::Nearest { row: nearest }
}

/// Resolve a 1-based line number against the row stream. Line 0 is never
/// valid and always resolves to `Nearest { row: None }`.
pub fn find_line(rows: &[Row], line: u32) -> (r: LineTarget)
    ensures
        r.deep_view() == line_target(rows.deep_view(), line),
{
    if line == 0 {
        return LineTarget::Nearest { row: None };
    }
    let on_new: LineTarget = scan_side(rows, line, LineSide::New);
    if let LineTarget::Nearest { row: new_row } = on_new {
        let on_old: LineTarget = scan_side(rows, line, LineSide::Old);
        if let LineTarget::Nearest { row: old_row } = on_old {
            return LineTarget::Nearest {
                row: match new_row {
                    Some(r) => Some(r),
                    None => old_row,
                },
            };
        }
        return on_old;
    }
    on_new
}

/// A visible line is found where it is shown, whichever side shows it first.
pub proof fn shown_lines_are_found(rows: Seq<RowModel>, line: u32, at: int)
    requires
        line > 0,
        0 <= at < rows.len(),
        number_on(rows[at], LineSide::New) == Some(line),
    ensures
        line_target(rows, line) !is Nearest,
{
    lemma_settling_found(rows, line, LineSide::New, at);
}

proof fn lemma_settling_found(rows: Seq<RowModel>, line: u32, side: LineSide, at: int)
    requires
        0 <= at < rows.len(),
        settles(rows[at], line, side),
    ensures
        first_settling(rows, line, side) <= at,
    decreases rows.len(),
{
    if at < rows.len() - 1 {
        lemma_settling_found(rows.drop_last(), line, side, at);
    } else {
        lemma_settling_bound(rows.drop_last(), line, side);
    }
}

proof fn lemma_settling_bound(rows: Seq<RowModel>, line: u32, side: LineSide)
    ensures
        0 <= first_settling(rows, line, side) <= rows.len(),
    decreases rows.len(),
{
    if rows.len() > 0 {
        lemma_settling_bound(rows.drop_last(), line, side);
    }
}

} // verus!
