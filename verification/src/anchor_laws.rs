//! What a reader of a review can rely on: where comments stand, and which line
//! a new comment speaks of.

use vstd::prelude::*;

use crate::anchor::{
    anchored, gap_covers, gap_row_of, line_row, placed, renamed_from, row_below, side_line,
    target_of, text_shown, ActiveCell, PlacementModel, ScopeModel,
};
use crate::model::FileEntryModel;
use crate::review::{CommentModel, Side};
use crate::row_laws::{covers, seen};
use crate::rows::{CellKind, RowModel};
use crate::text::{squeezed, white_space};

verus! {

// ------------------------------------------------------------------ anchors

/// The side that a comment speaks of; one that names none speaks of the new one.
pub open spec fn speaks_of_old(c: CommentModel) -> bool {
    c.side == Some(Side::Old)
}

/// Whether a row shows a line of a side.
pub open spec fn shows(row: RowModel, old: bool, line: u32) -> bool {
    seen(row, old) matches Some(at) && at.number == line
}

/// Whether a row stands for a line of a side that is folded away.
pub open spec fn hides(row: RowModel, old: bool, line: u32) -> bool {
    row is Gap && covers(row, old).contains(line as int)
}

/// Whether a row shows a line of a side that comes before this one.
pub open spec fn shows_earlier(row: RowModel, old: bool, line: u32) -> bool {
    seen(row, old) matches Some(at) && at.number < line
}

/// What a text says, spaces aside.
pub open spec fn said(s: Seq<char>) -> Seq<char> {
    s.filter(|c: char| !white_space(c))
}

/// Whether padding carries no number.
pub open spec fn padding_is_bare(rows: Seq<RowModel>) -> bool {
    forall|i: int|
        0 <= i < rows.len() ==> ((#[trigger] rows[i]) matches RowModel::Split { left, right, .. }
            ==> (left.kind == CellKind::Empty ==> left.line is None) && (right.kind
            == CellKind::Empty ==> right.line is None))
}

proof fn lemma_squeezed(s: Seq<char>)
    ensures
        squeezed(s) == said(s),
    decreases s.len(),
{
    reveal(Seq::filter);
    if s.len() > 0 {
        lemma_squeezed(s.drop_last());
    }
}

spec fn side_of(old: bool) -> Side {
    if old {
        Side::Old
    } else {
        Side::New
    }
}

proof fn lemma_text_shown(row: RowModel, old: bool, line: u32)
    ensures
        text_shown(row, side_of(old), line) is Some <==> shows(row, old, line),
        text_shown(row, side_of(old), line) is Some ==> text_shown(row, side_of(old), line)->0
            == seen(row, old)->0.text,
{
}

proof fn lemma_gap_covers(row: RowModel, old: bool, line: u32)
    ensures
        gap_covers(row, side_of(old), line) <==> hides(row, old, line),
{
    if let RowModel::Gap { gap, .. } = row {
        let (from, to) = if old {
            gap.old_range
        } else {
            gap.new_range
        };
        if from <= line <= to {
            assert(covers(row, old)[line - from] == line);
        }
    }
}

proof fn lemma_first_shown(rows: Seq<RowModel>, old: bool, line: u32)
    ensures
        ({
            let r = line_row(rows, side_of(old), line);
            &&& 0 <= r <= rows.len()
            &&& r < rows.len() ==> shows(rows[r], old, line)
            &&& forall|i: int| 0 <= i < r ==> !shows(#[trigger] rows[i], old, line)
        }),
    decreases rows.len(),
{
    if rows.len() > 0 {
        let init = rows.drop_last();
        lemma_first_shown(init, old, line);
        lemma_text_shown(rows.last(), old, line);
        assert forall|i: int| 0 <= i < line_row(rows, side_of(old), line) implies !shows(
            #[trigger] rows[i],
            old,
            line,
        ) by {
            if i < init.len() {
                assert(init[i] == rows[i]);
            }
        }
    }
}

proof fn lemma_first_hidden(rows: Seq<RowModel>, old: bool, line: u32)
    ensures
        ({
            let r = gap_row_of(rows, side_of(old), line);
            &&& 0 <= r <= rows.len()
            &&& r < rows.len() ==> hides(rows[r], old, line)
            &&& forall|i: int| 0 <= i < r ==> !hides(#[trigger] rows[i], old, line)
        }),
    decreases rows.len(),
{
    if rows.len() > 0 {
        let init = rows.drop_last();
        lemma_first_hidden(init, old, line);
        lemma_gap_covers(rows.last(), old, line);
        assert forall|i: int| 0 <= i < gap_row_of(rows, side_of(old), line) implies !hides(
            #[trigger] rows[i],
            old,
            line,
        ) by {
            if i < init.len() {
                assert(init[i] == rows[i]);
            }
        }
    }
}

proof fn lemma_last_earlier(rows: Seq<RowModel>, old: bool, line: u32)
    requires
        padding_is_bare(rows),
    ensures
        match row_below(rows, side_of(old), line) {
            Some(r) => 0 <= r < rows.len() && shows_earlier(rows[r], old, line) && forall|i: int|
                r < i < rows.len() ==> !shows_earlier(#[trigger] rows[i], old, line),
            None => forall|i: int|
                0 <= i < rows.len() ==> !shows_earlier(#[trigger] rows[i], old, line),
        },
    decreases rows.len(),
{
    if rows.len() > 0 {
        let init = rows.drop_last();
        assert(padding_is_bare(init)) by {
            assert forall|i: int| 0 <= i < init.len() implies (
            (#[trigger] init[i]) matches RowModel::Split { left, right, .. } ==> (left.kind
                == CellKind::Empty ==> left.line is None) && (right.kind == CellKind::Empty
                ==> right.line is None)) by {
                assert(init[i] == rows[i]);
            }
        }
        lemma_last_earlier(init, old, line);
        let last = rows[rows.len() - 1];
        assert(seen(last, old) is Some <==> side_line(last, side_of(old)) is Some);
        match row_below(rows, side_of(old), line) {
            Some(r) => {
                assert forall|i: int| r < i < rows.len() implies !shows_earlier(
                    #[trigger] rows[i],
                    old,
                    line,
                ) by {
                    if i < init.len() {
                        assert(init[i] == rows[i]);
                    }
                }
            },
            None => {
                assert forall|i: int| 0 <= i < rows.len() implies !shows_earlier(
                    #[trigger] rows[i],
                    old,
                    line,
                ) by {
                    if i < init.len() {
                        assert(init[i] == rows[i]);
                    }
                }
            },
        }
    }
}

/// A comment on a line whose row is shown stands on such a row, the first, and is
/// outdated exactly where it has a snippet that says something else than that
/// side of the row, spaces aside.
pub proof fn shown_lines_carry_their_comments(rows: Seq<RowModel>, c: CommentModel, i: int)
    requires
        c.line is Some,
        0 <= i < rows.len(),
        shows(rows[i], speaks_of_old(c), c.line->0),
    ensures
        ({
            let a = anchored(rows, c);
            let old = speaks_of_old(c);
            &&& a.comment_id == c.id
            &&& a.row is Some
            &&& 0 <= a.row->0 <= i
            &&& shows(rows[a.row->0], old, c.line->0)
            &&& forall|k: int| 0 <= k < a.row->0 ==> !shows(#[trigger] rows[k], old, c.line->0)
            &&& !a.clamped
            &&& a.outdated <==> (c.snippet is Some && said(c.snippet->0) != said(
                seen(rows[a.row->0], old)->0.text,
            ))
        }),
{
    let old = speaks_of_old(c);
    let line = c.line->0;
    lemma_first_shown(rows, old, line);
    let r = line_row(rows, side_of(old), line);
    lemma_text_shown(rows[r], old, line);
    if let Some(snippet) = c.snippet {
        lemma_squeezed(snippet);
    }
    lemma_squeezed(seen(rows[r], old)->0.text);
}

/// A comment on a line that no row shows and that is folded away stands on the
/// first gap that covers it, and is exact there.
pub proof fn gaps_carry_the_comments_they_hide(rows: Seq<RowModel>, c: CommentModel, i: int)
    requires
        c.line is Some,
        0 <= i < rows.len(),
        hides(rows[i], speaks_of_old(c), c.line->0),
        forall|k: int|
            0 <= k < rows.len() ==> !shows(#[trigger] rows[k], speaks_of_old(c), c.line->0),
    ensures
        ({
            let a = anchored(rows, c);
            let old = speaks_of_old(c);
            &&& a.comment_id == c.id
            &&& a.row is Some
            &&& 0 <= a.row->0 <= i
            &&& hides(rows[a.row->0], old, c.line->0)
            &&& forall|k: int| 0 <= k < a.row->0 ==> !hides(#[trigger] rows[k], old, c.line->0)
            &&& !a.clamped
            &&& !a.outdated
        }),
{
    let old = speaks_of_old(c);
    lemma_first_shown(rows, old, c.line->0);
    lemma_first_hidden(rows, old, c.line->0);
}

/// A comment on a line that is neither shown nor folded away is clamped to the
/// last row that shows an earlier line of its side, and outdated there; where
/// there is none it stands with the file. One without a line stands with the
/// file, unmarked.
pub proof fn lost_lines_are_clamped(rows: Seq<RowModel>, c: CommentModel)
    requires
        padding_is_bare(rows),
        c.line is Some ==> forall|k: int|
            0 <= k < rows.len() ==> !shows(#[trigger] rows[k], speaks_of_old(c), c.line->0)
                && !hides(rows[k], speaks_of_old(c), c.line->0),
    ensures
        ({
            let a = anchored(rows, c);
            let old = speaks_of_old(c);
            &&& a.comment_id == c.id
            &&& a.clamped <==> c.line is Some
            &&& a.outdated <==> a.row is Some
            &&& c.line is None ==> a.row is None
            &&& c.line is Some ==> match a.row {
                Some(r) => 0 <= r < rows.len() && shows_earlier(rows[r], old, c.line->0)
                    && forall|k: int|
                    r < k < rows.len() ==> !shows_earlier(#[trigger] rows[k], old, c.line->0),
                None => forall|k: int|
                    0 <= k < rows.len() ==> !shows_earlier(#[trigger] rows[k], old, c.line->0),
            }
        }),
{
    let old = speaks_of_old(c);
    if let Some(line) = c.line {
        lemma_first_shown(rows, old, line);
        lemma_first_hidden(rows, old, line);
        lemma_last_earlier(rows, old, line);
        let g = gap_row_of(rows, side_of(old), line);
        if g < rows.len() {
            assert(!shows(rows[g], old, line));
        }
    }
}

// --------------------------------------------------------------- new comments

/// What a new comment speaks of is shown by the row it is made on: the old side
/// only for a removed line, the new side for everything that the new file has.
/// A click on the left half of a split row speaks of the removed line there, one
/// on the right half of the new line there, and without a half the new side goes
/// first. There is nothing to speak of only where the row, or that half of it,
/// shows no line.
pub proof fn new_comments_speak_of_their_row(row: RowModel, cell: ActiveCell)
    requires
        crate::rows::side_coherent(row),
    ensures
        match target_of(row, cell) {
            Some((side, n)) => {
                &&& shows(row, side == Side::Old, n)
                &&& side == Side::Old ==> seen(row, true)->0.changed
                &&& side == Side::New <==> seen(row, false) is Some && !(row is Split && cell
                    == ActiveCell::Left && seen(row, true)->0.changed)
            },
            None => {
                &&& seen(row, true) is None || row is Split && cell == ActiveCell::Right
                &&& seen(row, false) is None || row is Split && cell == ActiveCell::Left
            },
        },
{
}

// ----------------------------------------------------------------- placement

proof fn lemma_first_renamed(files: Seq<FileEntryModel>, path: Seq<char>)
    ensures
        ({
            let i = renamed_from(files, path);
            &&& 0 <= i <= files.len()
            &&& i < files.len() ==> files[i].old_path == Some(path)
            &&& forall|k: int| 0 <= k < i ==> (#[trigger] files[k]).old_path != Some(path)
        }),
    decreases files.len(),
{
    if files.len() > 0 {
        let init = files.drop_last();
        lemma_first_renamed(init, path);
        assert forall|k: int| 0 <= k < renamed_from(files, path) implies (
        #[trigger] files[k]).old_path != Some(path) by {
            if k < init.len() {
                assert(init[k] == files[k]);
            }
        }
    }
}

/// Whether a comment is seen from a scope: it has no target, nothing is selected,
/// or its target is the selected one.
pub open spec fn in_view(c: CommentModel, scope: ScopeModel) -> bool {
    c.target is None || scope.selected is None || scope.selected == c.target
}

/// A comment in view stands at review level without a path, on the file of its
/// path where that is listed, else on the first file that was renamed from it
/// (with a badge), else with the unattached ones. One made on another target is
/// hidden while that is live, and afterwards shown with the target it was on.
pub proof fn comments_stand_where_they_belong(
    c: CommentModel,
    files: Seq<FileEntryModel>,
    scope: ScopeModel,
)
    ensures
        !in_view(c, scope) ==> placed(c, files, scope) == if exists|i: int|
            0 <= i < scope.live.len() && Some(#[trigger] scope.live[i]) == c.target {
            PlacementModel::OtherTarget
        } else {
            PlacementModel::WasOn { target: c.target->0 }
        },
        in_view(c, scope) && c.path is None ==> placed(c, files, scope) == PlacementModel::Review,
        forall|i: int|
            in_view(c, scope) && 0 <= i < files.len() && Some((#[trigger] files[i]).path) == c.path
                ==> placed(c, files, scope) == (PlacementModel::File {
                path: c.path->0,
                was_path: None,
            }),
        in_view(c, scope) && c.path is Some && (forall|i: int|
            0 <= i < files.len() ==> Some((#[trigger] files[i]).path) != c.path)
            ==> match placed(c, files, scope) {
            PlacementModel::File { path, was_path } => was_path == c.path && exists|i: int|
                #![trigger files[i]]
                0 <= i < files.len() && files[i].path == path && files[i].old_path == c.path && (
                forall|k: int| 0 <= k < i ==> (#[trigger] files[k]).old_path != c.path),
            PlacementModel::Unattached => forall|i: int|
                0 <= i < files.len() ==> (#[trigger] files[i]).old_path != c.path,
            _ => false,
        },
{
    if let Some(p) = c.path {
        lemma_first_renamed(files, p);
    }
    if let Some(t) = c.target {
        if scope.live.contains(t) {
            let i = choose|i: int| 0 <= i < scope.live.len() && scope.live[i] == t;
            assert(Some(scope.live[i]) == c.target);
        }
    }
}

} // verus!
