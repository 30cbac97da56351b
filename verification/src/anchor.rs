//! Anchor resolution: where each comment renders today, no matter what
//! happened to the code since it was written.
//!
//! Lifecycle is id-keyed, so paths never gate it; this module only decides
//! display placement. Review-wide resolution order per comment path:
//! (1) matches a current file path, (2) matches a file's rename origin
//! (anchor on the renamed file with a "was <old>" badge), (3) no match:
//! the comment renders in an "unattached" group with its snippet, never
//! silently dropped. Within a file, the recorded line either matches its
//! captured snippet (normal), mismatches (outdated badge), sits inside a
//! collapsed gap (anchored to the gap), or is gone entirely (clamped).
//!
//! In a stack review a comment belongs to a target: one made on another live
//! target is not shown, and one whose target left the stack joins the
//! unattached group with a "was on" badge.

use vstd::prelude::*;

use crate::model::{FileEntry, FileEntryModel};
use crate::projection::PlacedComment;
use crate::review::{snippet_matches, Comment, CommentModel, Side};
use crate::rows::{CellKind, Row, RowModel};
use crate::stack::{same_target, TargetId, TargetIdModel};
use crate::text::{copy_of, same_text, squeezed};

verus! {

/// Review-wide placement of one comment.
#[derive(Debug, Clone, PartialEq, Eq)]
pub enum Placement {
    /// Review-level comment (`path: null`).
    Review,
    /// Anchored to a current file; `was_path` carries the rename badge.
    File { path: String, was_path: Option<String> },
    /// No current file matches (deleted, or renamed beyond git's detection).
    Unattached,
    /// Made on a target that has left the stack.
    WasOn { target: TargetId },
    /// Made on another target of the stack.
    OtherTarget,
}

#[verifier::ext_equal]
pub enum PlacementModel {
    Review,
    File { path: Seq<char>, was_path: Option<Seq<char>> },
    Unattached,
    WasOn { target: TargetIdModel },
    OtherTarget,
}

impl DeepView for Placement {
    type V = PlacementModel;

    open spec fn deep_view(&self) -> PlacementModel {
        match *self {
            Placement::Review => PlacementModel::Review,
            Placement::File { path, was_path } => PlacementModel::File {
                path: path@,
                was_path: was_path.deep_view(),
            },
            Placement::Unattached => PlacementModel::Unattached,
            Placement::WasOn { target } => PlacementModel::WasOn { target: target.deep_view() },
            Placement::OtherTarget => PlacementModel::OtherTarget,
        }
    }
}

/// Which target a review is seen from: the selected one, among the live ones
/// of the stack. Without a selection every comment is placed by its path.
#[derive(Debug, Clone, PartialEq, Eq)]
pub struct TargetScope {
    pub selected: Option<TargetId>,
    pub live: Vec<TargetId>,
}

#[verifier::ext_equal]
pub struct ScopeModel {
    pub selected: Option<TargetIdModel>,
    pub live: Seq<TargetIdModel>,
}

impl DeepView for TargetScope {
    type V = ScopeModel;

    open spec fn deep_view(&self) -> ScopeModel {
        ScopeModel { selected: self.selected.deep_view(), live: self.live.deep_view() }
    }
}

/// The scope of a review outside stacks.
pub open spec fn no_scope() -> ScopeModel {
    ScopeModel { selected: None, live: Seq::empty() }
}

impl Default for TargetScope {
    fn default() -> (r: Self)
        ensures
            r.deep_view() == no_scope(),
    {
        let r = TargetScope { selected: None, live: Vec::new() };
        assert(r.deep_view() =~= no_scope());
        r
    }
}

// ----------------------------------------------------------------- placement

/// Whether a current file has the path.
pub open spec fn listed(files: Seq<FileEntryModel>, path: Seq<char>) -> bool {
    exists|i: int| 0 <= i < files.len() && (#[trigger] files[i]).path == path
}

/// First file that was renamed from the path; the length where none was.
pub open spec fn renamed_from(files: Seq<FileEntryModel>, path: Seq<char>) -> int
    decreases files.len(),
{
    if files.len() == 0 {
        0
    } else {
        let before = renamed_from(files.drop_last(), path);
        if before < files.len() - 1 || files.last().old_path == Some(path) {
            before
        } else {
            files.len() as int
        }
    }
}

/// Where a comment stands by its path.
pub open spec fn placed_by_path(
    path: Option<Seq<char>>,
    files: Seq<FileEntryModel>,
) -> PlacementModel {
    match path {
        None => PlacementModel::Review,
        Some(p) => if listed(files, p) {
            PlacementModel::File { path: p, was_path: None }
        } else {
            let i = renamed_from(files, p);
            if i < files.len() {
                PlacementModel::File { path: files[i].path, was_path: Some(p) }
            } else {
                PlacementModel::Unattached
            }
        },
    }
}

/// Where a comment stands as seen from a scope.
pub open spec fn placed(
    c: CommentModel,
    files: Seq<FileEntryModel>,
    scope: ScopeModel,
) -> PlacementModel {
    match c.target {
        Some(target) => if scope.selected is None || scope.selected == Some(target) {
            placed_by_path(c.path, files)
        } else if scope.live.contains(target) {
            PlacementModel::OtherTarget
        } else {
            PlacementModel::WasOn { target }
        },
        None => placed_by_path(c.path, files),
    }
}

proof fn lemma_renamed_from(files: Seq<FileEntryModel>, path: Seq<char>, i: int)
    requires
        0 <= i <= files.len(),
        forall|k: int| 0 <= k < i ==> (#[trigger] files[k]).old_path != Some(path),
        i < files.len() ==> files[i].old_path == Some(path),
    ensures
        renamed_from(files, path) == i,
    decreases files.len(),
{
    if files.len() > 0 {
        if i < files.len() - 1 {
            lemma_renamed_from(files.drop_last(), path, i);
        } else {
            lemma_renamed_from(files.drop_last(), path, files.len() - 1);
            if i == files.len() {
                assert(files[files.len() - 1].old_path != Some(path));
            }
        }
    }
}

fn place_by_path(comment: &Comment, files: &[FileEntry]) -> (r: Placement)
    ensures
        r.deep_view() == placed_by_path(comment.deep_view().path, files.deep_view()),
{
    let path: &str = match &comment.path {
        Some(path) => path.as_str(),
        None => {
            return Placement::Review;
        },
    };
    let ghost model = files.deep_view();
    let mut i: usize = 0;
    while i < files.len()
        invariant
            i <= files.len(),
            model == files.deep_view(),
            comment.deep_view().path == Some(path@),
            forall|k: int| 0 <= k < i ==> (#[trigger] model[k]).path != path@,
        decreases files.len() - i,
    {
        assert(model[i as int] == files[i as int].deep_view());
        if same_text(files[i].path.as_str(), path) {
            assert(model[i as int].path == path@);
            return Placement::File { path: copy_of(path), was_path: None };
        }
        i += 1;
    }
    assert(!listed(model, path@));
    let mut j: usize = 0;
    while j < files.len()
        invariant
            j <= files.len(),
            model == files.deep_view(),
            comment.deep_view().path == Some(path@),
            !listed(model, path@),
            forall|k: int| 0 <= k < j ==> (#[trigger] model[k]).old_path != Some(path@),
        decreases files.len() - j,
    {
        assert(model[j as int] == files[j as int].deep_view());
        if let Some(old) = &files[j].old_path {
            if same_text(old.as_str(), path) {
                proof {
                    lemma_renamed_from(model, path@, j as int);
                }
                return Placement::File {
                    path: copy_of(files[j].path.as_str()),
                    was_path: Some(copy_of(path)),
                };
            }
        }
        j += 1;
    }
    proof {
        lemma_renamed_from(model, path@, j as int);
    }
    Placement::Unattached
}

/// Whether a target is among the live ones.
fn is_live(live: &Vec<TargetId>, target: &TargetId) -> (r: bool)
    ensures
        r == live.deep_view().contains(target.deep_view()),
{
    let ghost model = live.deep_view();
    let mut i: usize = 0;
    while i < live.len()
        invariant
            i <= live.len(),
            model == live.deep_view(),
            forall|k: int| 0 <= k < i ==> (#[trigger] model[k]) != target.deep_view(),
        decreases live.len() - i,
    {
        if same_target(&live[i], target) {
            assert(model[i as int] == target.deep_view());
            return true;
        }
        assert(model[i as int] != target.deep_view());
        i += 1;
    }
    false
}

fn place(comment: &Comment, files: &[FileEntry], scope: &TargetScope) -> (r: Placement)
    ensures
        r.deep_view() == placed(comment.deep_view(), files.deep_view(), scope.deep_view()),
{
    if let Some(target) = &comment.target {
        if let Some(selected) = &scope.selected {
            if !same_target(selected, target) {
                if is_live(&scope.live, target) {
                    return Placement::OtherTarget;
                }
                return Placement::WasOn { target: target.clone() };
            }
        }
    }
    place_by_path(comment, files)
}

/// Place every comment against the current changed-file list as seen from a
/// scope. The result is parallel to `comments`.
pub fn place_comments_scoped(
    comments: &[Comment],
    files: &[FileEntry],
    scope: &TargetScope,
) -> (r: Vec<Placement>)
    ensures
        r.deep_view() == Seq::new(
            comments@.len(),
            |i: int| placed(comments@[i].deep_view(), files.deep_view(), scope.deep_view()),
        ),
{
    let mut out: Vec<Placement> = Vec::new();
    let mut i: usize = 0;
    while i < comments.len()
        invariant
            i <= comments.len(),
            out.len() == i,
            forall|k: int|
                0 <= k < i ==> (#[trigger] out@[k]).deep_view() == placed(
                    comments@[k].deep_view(),
                    files.deep_view(),
                    scope.deep_view(),
                ),
        decreases comments.len() - i,
    {
        out.push(place(&comments[i], files, scope));
        i += 1;
    }
    assert(out.deep_view() =~= Seq::new(
        comments@.len(),
        |i: int| placed(comments@[i].deep_view(), files.deep_view(), scope.deep_view()),
    ));
    out
}

/// Place every comment against the current changed-file list. The result is
/// parallel to `comments`.
pub fn place_comments(comments: &[Comment], files: &[FileEntry]) -> (r: Vec<Placement>)
    ensures
        r.deep_view() == Seq::new(
            comments@.len(),
            |i: int| placed_by_path(comments@[i].deep_view().path, files.deep_view()),
        ),
{
    let r: Vec<Placement> = place_comments_scoped(comments, files, &TargetScope::default());
    assert(r.deep_view() =~= Seq::new(
        comments@.len(),
        |i: int| placed_by_path(comments@[i].deep_view().path, files.deep_view()),
    ));
    r
}

/// A comment is placed on a file only if that file is listed: under the
/// comment's own path, or as what that path was renamed to. It is hidden only
/// if it was made on another live target.
pub proof fn placements_are_faithful(
    c: CommentModel,
    files: Seq<FileEntryModel>,
    scope: ScopeModel,
)
    ensures
        placed(c, files, scope) matches PlacementModel::File { path, was_path } ==> listed(
            files,
            path,
        ) && c.path is Some && match was_path {
            None => c.path->0 == path,
            Some(old) => c.path->0 == old && !listed(files, old),
        },
        placed(c, files, scope) == PlacementModel::OtherTarget ==> c.target is Some
            && scope.selected is Some && scope.selected != c.target && scope.live.contains(
            c.target->0,
        ),
{
    if let Some(p) = c.path {
        lemma_renamed_bound(files, p);
        let i = renamed_from(files, p);
        if 0 <= i < files.len() {
            assert(files[i].path == files[i].path);
        }
    }
}

proof fn lemma_renamed_bound(files: Seq<FileEntryModel>, path: Seq<char>)
    ensures
        0 <= renamed_from(files, path) <= files.len(),
    decreases files.len(),
{
    if files.len() > 0 {
        lemma_renamed_bound(files.drop_last(), path);
    }
}

// -------------------------------------------------------------------- anchors

/// Where a comment lands within one file's row stream.
#[derive(Debug, Clone, PartialEq, Eq)]
pub struct RowAnchor {
    pub comment_id: String,
    /// Index into the row stream the comment renders under; None for
    /// file-level comments (rendered in the file header area).
    pub row: Option<usize>,
    /// The recorded line no longer matches its captured snippet.
    pub outdated: bool,
    /// The recorded line is not visible; the anchor was clamped to the
    /// nearest earlier row.
    pub clamped: bool,
}

#[verifier::ext_equal]
pub struct AnchorModel {
    pub comment_id: Seq<char>,
    pub row: Option<int>,
    pub outdated: bool,
    pub clamped: bool,
}

impl DeepView for RowAnchor {
    type V = AnchorModel;

    open spec fn deep_view(&self) -> AnchorModel {
        AnchorModel {
            comment_id: self.comment_id@,
            row: match self.row {
                Some(r) => Some(r as int),
                None => None,
            },
            outdated: self.outdated,
            clamped: self.clamped,
        }
    }
}

/// The text of the row where it shows a line on a side.
pub open spec fn text_shown(row: RowModel, side: Side, line: u32) -> Option<Seq<char>> {
    match row {
        RowModel::Unified { old_num, new_num, cell, .. } => {
            let num = if side == Side::Old {
                old_num
            } else {
                new_num
            };
            if num == Some(line) {
                Some(cell.text)
            } else {
                None
            }
        },
        RowModel::Split { left, right, .. } => {
            let cell = if side == Side::Old {
                left
            } else {
                right
            };
            if cell.kind != CellKind::Empty && cell.line == Some(line) {
                Some(cell.text)
            } else {
                None
            }
        },
        _ => None,
    }
}

/// Whether the row is a gap that covers the line.
pub open spec fn gap_covers(row: RowModel, side: Side, line: u32) -> bool {
    match row {
        RowModel::Gap { gap, .. } => {
            let range = if side == Side::Old {
                gap.old_range
            } else {
                gap.new_range
            };
            range.0 <= line <= range.1
        },
        _ => false,
    }
}

/// The number of the row on a side.
pub open spec fn side_line(row: RowModel, side: Side) -> Option<u32> {
    match row {
        RowModel::Unified { old_num, new_num, .. } => if side == Side::Old {
            old_num
        } else {
            new_num
        },
        RowModel::Split { left, right, .. } => if side == Side::Old {
            left.line
        } else {
            right.line
        },
        _ => None,
    }
}

/// First row that shows the line; the length where none does.
pub open spec fn line_row(rows: Seq<RowModel>, side: Side, line: u32) -> int
    decreases rows.len(),
{
    if rows.len() == 0 {
        0
    } else {
        let before = line_row(rows.drop_last(), side, line);
        if before < rows.len() - 1 || text_shown(rows.last(), side, line) is Some {
            before
        } else {
            rows.len() as int
        }
    }
}

/// First gap that covers the line; the length where none does.
pub open spec fn gap_row_of(rows: Seq<RowModel>, side: Side, line: u32) -> int
    decreases rows.len(),
{
    if rows.len() == 0 {
        0
    } else {
        let before = gap_row_of(rows.drop_last(), side, line);
        if before < rows.len() - 1 || gap_covers(rows.last(), side, line) {
            before
        } else {
            rows.len() as int
        }
    }
}

/// Last row whose number on the side is below the line.
pub open spec fn row_below(rows: Seq<RowModel>, side: Side, line: u32) -> Option<int>
    decreases rows.len(),
{
    if rows.len() == 0 {
        None
    } else {
        match side_line(rows.last(), side) {
            Some(n) if n < line => Some(rows.len() - 1),
            _ => row_below(rows.drop_last(), side, line),
        }
    }
}

/// Where a comment lands. A shown line carries it, outdated where the text no
/// longer matches the snippet; a gap that covers the line carries it exactly;
/// else it is clamped to the last lower row, and where there is none to the
/// file.
pub open spec fn anchored(rows: Seq<RowModel>, c: CommentModel) -> AnchorModel {
    match c.line {
        None => AnchorModel { comment_id: c.id, row: None, outdated: false, clamped: false },
        Some(line) => {
            let side = match c.side {
                Some(s) => s,
                None => Side::New,
            };
            let shown = line_row(rows, side, line);
            let gap = gap_row_of(rows, side, line);
            if shown < rows.len() {
                let text = text_shown(rows[shown], side, line)->0;
                AnchorModel {
                    comment_id: c.id,
                    row: Some(shown),
                    outdated: c.snippet is Some && squeezed(c.snippet->0) != squeezed(text),
                    clamped: false,
                }
            } else if gap < rows.len() {
                AnchorModel { comment_id: c.id, row: Some(gap), outdated: false, clamped: false }
            } else {
                let below = row_below(rows, side, line);
                AnchorModel {
                    comment_id: c.id,
                    row: below,
                    outdated: below is Some,
                    clamped: true,
                }
            }
        },
    }
}

proof fn lemma_line_row(rows: Seq<RowModel>, side: Side, line: u32, i: int)
    requires
        0 <= i <= rows.len(),
        forall|k: int| 0 <= k < i ==> text_shown(#[trigger] rows[k], side, line) is None,
        i < rows.len() ==> text_shown(rows[i], side, line) is Some,
    ensures
        line_row(rows, side, line) == i,
    decreases rows.len(),
{
    if rows.len() > 0 {
        if i < rows.len() - 1 {
            lemma_line_row(rows.drop_last(), side, line, i);
        } else {
            lemma_line_row(rows.drop_last(), side, line, rows.len() - 1);
            if i == rows.len() {
                assert(text_shown(rows[rows.len() - 1], side, line) is None);
            }
        }
    }
}

proof fn lemma_gap_row_of(rows: Seq<RowModel>, side: Side, line: u32, i: int)
    requires
        0 <= i <= rows.len(),
        forall|k: int| 0 <= k < i ==> !gap_covers(#[trigger] rows[k], side, line),
        i < rows.len() ==> gap_covers(rows[i], side, line),
    ensures
        gap_row_of(rows, side, line) == i,
    decreases rows.len(),
{
    if rows.len() > 0 {
        if i < rows.len() - 1 {
            lemma_gap_row_of(rows.drop_last(), side, line, i);
        } else {
            lemma_gap_row_of(rows.drop_last(), side, line, rows.len() - 1);
            if i == rows.len() {
                assert(!gap_covers(rows[rows.len() - 1], side, line));
            }
        }
    }
}

/// The text of a row where it shows the line.
fn shown_text<'a>(row: &'a Row, side: Side, line: u32) -> (r: Option<&'a str>)
    ensures
        match text_shown(row.deep_view(), side, line) {
            Some(text) => r matches Some(t) && t@ == text,
            None => r is None,
        },
{
    match row {
        Row::Unified { old_num, new_num, cell, .. } => {
            let num: Option<u32> = match side {
                Side::Old => *old_num,
                Side::New => *new_num,
            };
            match num {
                Some(n) => if n == line {
                    Some(cell.text.as_str())
                } else {
                    None
                },
                None => None,
            }
        },
        Row::Split { left, right, .. } => {
            let cell = match side {
                Side::Old => left,
                Side::New => right,
            };
            match cell.line {
                Some(n) => if cell.kind != CellKind::Empty && n == line {
                    Some(cell.text.as_str())
                } else {
                    None
                },
                None => None,
            }
        },
        _ => None,
    }
}

/// Find the row showing `line` on `side`, returning (row index, cell text).
fn find_line_row<'a>(rows: &'a [Row], side: Side, line: u32) -> (r: Option<(usize, &'a str)>)
    ensures
        ({
            let i = line_row(rows.deep_view(), side, line);
            if i < rows.len() {
                r matches Some(v) && v.0 == i && Some(v.1@) == text_shown(
                    rows.deep_view()[i],
                    side,
                    line,
                )
            } else {
                r is None
            }
        }),
{
    let ghost model = rows.deep_view();
    let mut idx: usize = 0;
    while idx < rows.len()
        invariant
            idx <= rows.len(),
            model == rows.deep_view(),
            forall|k: int| 0 <= k < idx ==> text_shown(#[trigger] model[k], side, line) is None,
        decreases rows.len() - idx,
    {
        assert(model[idx as int] == rows[idx as int].deep_view());
        if let Some(text) = shown_text(&rows[idx], side, line) {
            proof {
                lemma_line_row(model, side, line, idx as int);
            }
            return Some((idx, text));
        }
        idx += 1;
    }
    proof {
        lemma_line_row(model, side, line, idx as int);
    }
    None
}

/// Find the gap row whose range covers `line` on `side`.
fn find_gap_row(rows: &[Row], side: Side, line: u32) -> (r: Option<usize>)
    ensures
        ({
            let i = gap_row_of(rows.deep_view(), side, line);
            if i < rows.len() {
                r matches Some(v) && v == i
            } else {
                r is None
            }
        }),
{
    let ghost model = rows.deep_view();
    let mut idx: usize = 0;
    while idx < rows.len()
        invariant
            idx <= rows.len(),
            model == rows.deep_view(),
            forall|k: int| 0 <= k < idx ==> !gap_covers(#[trigger] model[k], side, line),
        decreases rows.len() - idx,
    {
        assert(model[idx as int] == rows[idx as int].deep_view());
        if let Row::Gap { gap, .. } = &rows[idx] {
            let range: (u32, u32) = match side {
                Side::Old => gap.old_range,
                Side::New => gap.new_range,
            };
            if range.0 <= line && line <= range.1 {
                proof {
                    lemma_gap_row_of(model, side, line, idx as int);
                }
                return Some(idx);
            }
        }
        idx += 1;
    }
    proof {
        lemma_gap_row_of(model, side, line, idx as int);
    }
    None
}

/// Last row whose `side` line number is below `line` (clamp target). None
/// when no row carries a lower number on that side: there is nothing sensible
/// to clamp to, so the caller renders the comment in the file group.
fn clamp_row(rows: &[Row], side: Side, line: u32) -> (r: Option<usize>)
    ensures
        match row_below(rows.deep_view(), side, line) {
            Some(i) => r matches Some(v) && v == i,
            None => r is None,
        },
{
    let ghost model = rows.deep_view();
    let mut best: Option<usize> = None;
    let mut idx: usize = 0;
    while idx < rows.len()
        invariant
            idx <= rows.len(),
            model == rows.deep_view(),
            match row_below(model.take(idx as int), side, line) {
                Some(i) => best matches Some(v) && v == i,
                None => best is None,
            },
        decreases rows.len() - idx,
    {
        assert(model[idx as int] == rows[idx as int].deep_view());
        assert(model.take(idx + 1).drop_last() =~= model.take(idx as int));
        let num: Option<u32> = match &rows[idx] {
            Row::Unified { old_num, new_num, .. } => match side {
                Side::Old => *old_num,
                Side::New => *new_num,
            },
            Row::Split { left, right, .. } => match side {
                Side::Old => left.line,
                Side::New => right.line,
            },
            _ => None,
        };
        if let Some(n) = num {
            if n < line {
                best = Some(idx);
            }
        }
        idx += 1;
    }
    assert(model.take(model.len() as int) =~= model);
    best
}

/// Anchor one comment into a row stream.
fn anchor_comment(rows: &[Row], comment: &Comment) -> (r: RowAnchor)
    ensures
        r.deep_view() == anchored(rows.deep_view(), comment.deep_view()),
{
    let comment_id: String = copy_of(comment.id.as_str());
    let line: u32 = match comment.line {
        Some(line) => line,
        None => {
            return RowAnchor { comment_id, row: None, outdated: false, clamped: false };
        },
    };
    let side: Side = match comment.side {
        Some(side) => side,
        None => Side::New,
    };
    if let Some((idx, text)) = find_line_row(rows, side, line) {
        let outdated: bool = match &comment.snippet {
            Some(snippet) => !snippet_matches(snippet.as_str(), text),
            None => false,
        };
        return RowAnchor { comment_id, row: Some(idx), outdated, clamped: false };
    }
    if let Some(idx) = find_gap_row(rows, side, line) {
        return RowAnchor { comment_id, row: Some(idx), outdated: false, clamped: false };
    }
    match clamp_row(rows, side, line) {
        Some(idx) => RowAnchor { comment_id, row: Some(idx), outdated: true, clamped: true },
        None => RowAnchor { comment_id, row: None, outdated: false, clamped: true },
    }
}

/// Anchor one file's comments into its row stream.
pub fn anchor_comments_to_rows(rows: &[Row], comments: &[&Comment]) -> (r: Vec<RowAnchor>)
    ensures
        r.deep_view() == Seq::new(
            comments@.len(),
            |i: int| anchored(rows.deep_view(), comments@[i].deep_view()),
        ),
{
    let mut out: Vec<RowAnchor> = Vec::new();
    let mut i: usize = 0;
    while i < comments.len()
        invariant
            i <= comments.len(),
            out.len() == i,
            forall|k: int|
                0 <= k < i ==> (#[trigger] out@[k]).deep_view() == anchored(
                    rows.deep_view(),
                    comments@[k].deep_view(),
                ),
        decreases comments.len() - i,
    {
        out.push(anchor_comment(rows, comments[i]));
        i += 1;
    }
    assert(out.deep_view() =~= Seq::new(
        comments@.len(),
        |i: int| anchored(rows.deep_view(), comments@[i].deep_view()),
    ));
    out
}

/// A comment placed against a current file, with its row anchor and rename
/// badge.
#[derive(Debug, Clone)]
pub struct AnchoredComment<'a> {
    pub index: usize,
    pub comment: &'a Comment,
    pub anchor: RowAnchor,
    pub was_path: Option<&'a str>,
}

/// Anchor a file's already-placed comments into its row stream: callers get
/// placement, anchor, and rename badge from one call.
pub fn anchor_file_comments<'a>(rows: &[Row], comments: &[PlacedComment<'a>]) -> (r: Vec<
    AnchoredComment<'a>,
>)
    ensures
        r@.len() == comments@.len(),
        forall|i: int|
            0 <= i < r@.len() ==> {
                let a = #[trigger] r@[i];
                &&& a.index == comments@[i].index
                &&& a.comment == comments@[i].comment
                &&& a.was_path == comments@[i].was_path
                &&& a.anchor.deep_view() == anchored(
                    rows.deep_view(),
                    comments@[i].comment.deep_view(),
                )
            },
{
    let mut out: Vec<AnchoredComment<'a>> = Vec::new();
    let mut i: usize = 0;
    while i < comments.len()
        invariant
            i <= comments.len(),
            out.len() == i,
            forall|k: int|
                0 <= k < i ==> {
                    let a = #[trigger] out@[k];
                    &&& a.index == comments@[k].index
                    &&& a.comment == comments@[k].comment
                    &&& a.was_path == comments@[k].was_path
                    &&& a.anchor.deep_view() == anchored(
                        rows.deep_view(),
                        comments@[k].comment.deep_view(),
                    )
                },
        decreases comments.len() - i,
    {
        out.push(
            AnchoredComment {
                index: comments[i].index,
                comment: comments[i].comment,
                anchor: anchor_comment(rows, comments[i].comment),
                was_path: comments[i].was_path,
            },
        );
        i += 1;
    }
    out
}

/// An anchor is a row of the stream, and a comment is marked clamped only
/// where no row shows its line and no gap covers it.
pub proof fn anchors_are_rows(rows: Seq<RowModel>, c: CommentModel)
    ensures
        anchored(rows, c).row matches Some(i) ==> 0 <= i < rows.len(),
        anchored(rows, c).clamped ==> c.line is Some && forall|k: int|
            0 <= k < rows.len() ==> text_shown(
                #[trigger] rows[k],
                match c.side {
                    Some(s) => s,
                    None => Side::New,
                },
                c.line->0,
            ) is None && !gap_covers(
                rows[k],
                match c.side {
                    Some(s) => s,
                    None => Side::New,
                },
                c.line->0,
            ),
{
    if let Some(line) = c.line {
        let side = match c.side {
            Some(s) => s,
            None => Side::New,
        };
        lemma_anchor_bounds(rows, side, line);
    }
}

proof fn lemma_anchor_bounds(rows: Seq<RowModel>, side: Side, line: u32)
    ensures
        0 <= line_row(rows, side, line) <= rows.len(),
        0 <= gap_row_of(rows, side, line) <= rows.len(),
        row_below(rows, side, line) matches Some(i) ==> 0 <= i < rows.len(),
        line_row(rows, side, line) == rows.len() ==> forall|k: int|
            0 <= k < rows.len() ==> text_shown(#[trigger] rows[k], side, line) is None,
        gap_row_of(rows, side, line) == rows.len() ==> forall|k: int|
            0 <= k < rows.len() ==> !gap_covers(#[trigger] rows[k], side, line),
    decreases rows.len(),
{
    if rows.len() > 0 {
        let init = rows.drop_last();
        lemma_anchor_bounds(init, side, line);
        if line_row(rows, side, line) == rows.len() {
            assert forall|k: int| 0 <= k < rows.len() implies text_shown(
                #[trigger] rows[k],
                side,
                line,
            ) is None by {
                if k < init.len() {
                    assert(text_shown(init[k], side, line) is None);
                }
            }
        }
        if gap_row_of(rows, side, line) == rows.len() {
            assert forall|k: int| 0 <= k < rows.len() implies !gap_covers(
                #[trigger] rows[k],
                side,
                line,
            ) by {
                if k < init.len() {
                    assert(!gap_covers(init[k], side, line));
                }
            }
        }
    }
}

// -------------------------------------------------------------- new comments

/// Which split-mode cell last had focus, for anchoring a new comment.
#[derive(Debug, Clone, Copy, PartialEq, Eq, Structural)]
pub enum ActiveCell {
    Auto,
    Left,
    Right,
}

impl ActiveCell {
    pub fn parse(s: &str) -> (r: Option<ActiveCell>)
        ensures
            r == if s@ == "auto"@ {
                Some(ActiveCell::Auto)
            } else if s@ == "left"@ {
                Some(ActiveCell::Left)
            } else if s@ == "right"@ {
                Some(ActiveCell::Right)
            } else {
                None
            },
    {
        if same_text(s, "auto") {
            Some(ActiveCell::Auto)
        } else if same_text(s, "left") {
            Some(ActiveCell::Left)
        } else if same_text(s, "right") {
            Some(ActiveCell::Right)
        } else {
            None
        }
    }
}

/// A side with a line number, where there is one.
pub open spec fn sided(side: Side, line: Option<u32>) -> Option<(Side, u32)> {
    match line {
        Some(n) => Some((side, n)),
        None => None,
    }
}

/// What a comment on a row refers to. A unified row has one cell: the new
/// number where there is one, else the old. In a split row a removed left
/// cell is the old line, a context left cell the new line, and a right cell
/// with content the new line; `Auto` takes the right cell first.
pub open spec fn target_of(row: RowModel, cell: ActiveCell) -> Option<(Side, u32)> {
    match row {
        RowModel::Unified { old_num, new_num, .. } => if new_num is Some {
            sided(Side::New, new_num)
        } else {
            sided(Side::Old, old_num)
        },
        RowModel::Split { left, right, .. } => {
            let from_left = if left.kind == CellKind::Remove {
                sided(Side::Old, left.line)
            } else if left.kind == CellKind::Context {
                sided(Side::New, right.line)
            } else {
                None
            };
            let from_right = if right.kind == CellKind::Empty {
                None
            } else {
                sided(Side::New, right.line)
            };
            match cell {
                ActiveCell::Left => from_left,
                ActiveCell::Right => from_right,
                ActiveCell::Auto => if from_right is Some {
                    from_right
                } else {
                    from_left
                },
            }
        },
        _ => None,
    }
}

fn with_side(side: Side, line: Option<u32>) -> (r: Option<(Side, u32)>)
    ensures
        r == sided(side, line),
{
    match line {
        Some(n) => Some((side, n)),
        None => None,
    }
}

/// The semantic (side, line) a new comment on `row` should anchor to, given
/// which cell has focus: clicking a removed line in the left half of a paired
/// row does not create a new-side comment.
pub fn anchor_target(row: &Row, cell: ActiveCell) -> (r: Option<(Side, u32)>)
    ensures
        r == target_of(row.deep_view(), cell),
{
    match row {
        Row::Unified { old_num, new_num, .. } => if new_num.is_some() {
            with_side(Side::New, *new_num)
        } else {
            with_side(Side::Old, *old_num)
        },
        Row::Split { left, right, .. } => {
            let from_left: Option<(Side, u32)> = match left.kind {
                CellKind::Remove => with_side(Side::Old, left.line),
                CellKind::Context => with_side(Side::New, right.line),
                _ => None,
            };
            let from_right: Option<(Side, u32)> = if right.kind == CellKind::Empty {
                None
            } else {
                with_side(Side::New, right.line)
            };
            match cell {
                ActiveCell::Left => from_left,
                ActiveCell::Right => from_right,
                ActiveCell::Auto => if from_right.is_some() {
                    from_right
                } else {
                    from_left
                },
            }
        },
        _ => None,
    }
}

} // verus!
