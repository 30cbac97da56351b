//! View assembly: the single entry point every frontend calls to get a
//! paintable file view. Frontends only paint what comes out of here.

use std::collections::BTreeMap;

use vstd::prelude::*;

use crate::highlight::{
    highlight_diff, highlights, span_lists, HighlightMap, HighlightModel, HlSpan, ThemeChoice,
};
use crate::model::{
    capped, changes_of_kind, copy_option, FileDiff, FileDiffKind, FileDiffKindModel, FileDiffModel,
    FileEntry, FileEntryModel, FileStatus, LineKind,
};
use crate::rows::{
    build_rows, copy_rows, diff_rows, gaps_are_named_once, gaps_distinct, BuildOptions, Cell,
    CellKind, CellModel, Row, RowModel, ViewMode,
};
use crate::text::copy_of;

verus! {

/// Options controlling view derivation.
#[derive(Debug, Clone, Copy)]
pub struct ViewOptions {
    pub mode: ViewMode,
    pub word_diff: bool,
    /// Compute and attach syntax highlight spans for this theme.
    pub highlight: Option<ThemeChoice>,
}

impl Default for ViewOptions {
    fn default() -> (r: Self)
        ensures
            r == (ViewOptions { mode: ViewMode::Unified, word_diff: true, highlight: None }),
    {
        ViewOptions { mode: ViewMode::Unified, word_diff: true, highlight: None }
    }
}

/// A fully derived, paint-ready view of one file's diff.
#[derive(Debug, PartialEq, Eq)]
pub struct FileView {
    pub path: String,
    pub old_path: Option<String>,
    pub status: FileStatus,
    pub kind: FileDiffKind,
    pub mode: ViewMode,
    pub adds: u64,
    pub dels: u64,
    pub old_missing_newline: bool,
    pub new_missing_newline: bool,
    pub rows: Vec<Row>,
}

#[verifier::ext_equal]
pub struct FileViewModel {
    pub path: Seq<char>,
    pub old_path: Option<Seq<char>>,
    pub status: FileStatus,
    pub kind: FileDiffKindModel,
    pub mode: ViewMode,
    pub adds: u64,
    pub dels: u64,
    pub old_missing_newline: bool,
    pub new_missing_newline: bool,
    pub rows: Seq<RowModel>,
}

impl DeepView for FileView {
    type V = FileViewModel;

    open spec fn deep_view(&self) -> FileViewModel {
        FileViewModel {
            path: self.path@,
            old_path: self.old_path.deep_view(),
            status: self.status,
            kind: self.kind.deep_view(),
            mode: self.mode,
            adds: self.adds,
            dels: self.dels,
            old_missing_newline: self.old_missing_newline,
            new_missing_newline: self.new_missing_newline,
            rows: self.rows.deep_view(),
        }
    }
}

impl Clone for FileView {
    fn clone(&self) -> (r: Self)
        ensures
            r.deep_view() == self.deep_view(),
    {
        FileView {
            path: copy_of(self.path.as_str()),
            old_path: copy_option(&self.old_path),
            status: self.status,
            kind: self.kind.clone(),
            mode: self.mode,
            adds: self.adds,
            dels: self.dels,
            old_missing_newline: self.old_missing_newline,
            new_missing_newline: self.new_missing_newline,
            rows: copy_rows(&self.rows),
        }
    }
}

// --------------------------------------------------------------- highlights

/// The spans of a side for a line, where there are any.
pub open spec fn spans_at(map: Map<u32, Seq<HlSpan>>, line: Option<u32>) -> Option<Seq<HlSpan>> {
    match line {
        Some(n) if map.contains_key(n) => Some(map[n]),
        _ => None,
    }
}

/// A cell with spans, where there are any.
pub open spec fn with_spans(cell: CellModel, spans: Option<Seq<HlSpan>>) -> CellModel {
    match spans {
        Some(hl) => CellModel { hl, ..cell },
        None => cell,
    }
}

/// A cell with the spans of one side's map; padding has none.
pub open spec fn painted_cell(cell: CellModel, map: Map<u32, Seq<HlSpan>>) -> CellModel {
    if cell.kind == CellKind::Empty {
        cell
    } else {
        with_spans(cell, spans_at(map, cell.line))
    }
}

/// A row with its spans. Removed cells read the old side's map, added and
/// context cells the new side's; a left cell of a split row always reads the
/// old side's, so that each side keeps its own lexical state.
pub open spec fn painted_row(row: RowModel, map: HighlightModel) -> RowModel {
    match row {
        RowModel::Unified { key, hunk, old_num, new_num, cell, is_expansion } => RowModel::Unified {
            key,
            hunk,
            old_num,
            new_num,
            cell: painted_cell(
                cell,
                if cell.kind == CellKind::Remove {
                    map.old
                } else {
                    map.new
                },
            ),
            is_expansion,
        },
        RowModel::Split { key, hunk, left, right, is_expansion } => RowModel::Split {
            key,
            hunk,
            left: painted_cell(left, map.old),
            right: painted_cell(right, map.new),
            is_expansion,
        },
        other => other,
    }
}

/// The rows with their spans.
pub open spec fn painted_rows(rows: Seq<RowModel>, map: HighlightModel) -> Seq<RowModel> {
    Seq::new(rows.len(), |i: int| painted_row(rows[i], map))
}

fn paint_cell(cell: &mut Cell, map: &BTreeMap<u32, Vec<HlSpan>>)
    ensures
        final(cell).deep_view() == painted_cell(old(cell).deep_view(), span_lists(map@)),
{
    let padding: bool = match cell.kind {
        CellKind::Empty => true,
        _ => false,
    };
    if padding {
        return ;
    }
    if let Some(line) = cell.line {
        if let Some(spans) = map.get(&line) {
            cell.hl = vstd::slice::slice_to_vec(spans.as_slice());
        }
    }
}

fn paint_row(row: &mut Row, map: &HighlightMap)
    ensures
        final(row).deep_view() == painted_row(old(row).deep_view(), map.deep_view()),
{
    match row {
        Row::Unified { cell, .. } => {
            let removed: bool = match cell.kind {
                CellKind::Remove => true,
                _ => false,
            };
            if removed {
                paint_cell(cell, &map.old);
            } else {
                paint_cell(cell, &map.new);
            }
        },
        Row::Split { left, right, .. } => {
            paint_cell(left, &map.old);
            paint_cell(right, &map.new);
        },
        _ => {},
    }
}

/// Attach highlight spans to row cells by (side, line number) lookup.
pub fn attach_highlights(rows: &mut Vec<Row>, map: &HighlightMap)
    ensures
        final(rows).deep_view() == painted_rows(old(rows).deep_view(), map.deep_view()),
{
    let ghost model = rows.deep_view();
    let ghost start = rows@;
    let mut i: usize = 0;
    while i < rows.len()
        invariant
            i <= rows.len(),
            rows.len() == start.len(),
            model.len() == start.len(),
            forall|k: int| 0 <= k < start.len() ==> model[k] == (#[trigger] start[k]).deep_view(),
            forall|k: int| i <= k < start.len() ==> (#[trigger] rows[k]) == start[k],
            forall|k: int|
                0 <= k < i ==> (#[trigger] rows[k]).deep_view() == painted_row(
                    model[k],
                    map.deep_view(),
                ),
        decreases rows.len() - i,
    {
        let ghost before = rows@;
        paint_row(&mut rows[i], map);
        proof {
            assert(before[i as int] == start[i as int]);
            assert forall|k: int| 0 <= k < i + 1 implies (#[trigger] rows[k]).deep_view()
                == painted_row(model[k], map.deep_view()) by {
                if k < i {
                    assert(rows[k] == before[k]);
                }
            }
            assert forall|k: int| i + 1 <= k < start.len() implies (#[trigger] rows[k])
                == start[k] by {
                assert(rows[k] == before[k]);
            }
        }
        i += 1;
    }
    assert(rows.deep_view() =~= painted_rows(model, map.deep_view()));
}

// ----------------------------------------------------------------- assembly

/// The rows of a view, before any gap is opened.
pub open spec fn view_rows(path: Seq<char>, diff: FileDiffModel, opts: ViewOptions) -> Seq<
    RowModel,
> {
    let rows = diff_rows(diff, BuildOptions { mode: opts.mode, word_diff: opts.word_diff });
    match opts.highlight {
        Some(theme) => painted_rows(rows, highlights(path, diff, theme)),
        None => rows,
    }
}

/// The counts of a view: those of the placeholder for a diff that is too
/// large, whose hunks are not there to count, and the hunks' own otherwise.
pub open spec fn view_counts(diff: FileDiffModel) -> (u64, u64) {
    match diff.kind {
        FileDiffKindModel::TooLarge { adds, dels } => (adds, dels),
        _ => (
            capped(changes_of_kind(diff.hunks, LineKind::Add)),
            capped(changes_of_kind(diff.hunks, LineKind::Remove)),
        ),
    }
}

/// The view of a file.
pub open spec fn file_view(
    entry: FileEntryModel,
    diff: FileDiffModel,
    opts: ViewOptions,
) -> FileViewModel {
    FileViewModel {
        path: entry.path,
        old_path: entry.old_path,
        status: entry.status,
        kind: diff.kind,
        mode: opts.mode,
        adds: view_counts(diff).0,
        dels: view_counts(diff).1,
        old_missing_newline: diff.old_missing_newline,
        new_missing_newline: diff.new_missing_newline,
        rows: view_rows(entry.path, diff, opts),
    }
}

impl FileView {
    /// Build the complete view for one file: the one placeholder-capable
    /// path every frontend and transport calls, whether the diff is text,
    /// binary, or a too-large preflight placeholder
    /// ([`FileDiff::placeholder`]).
    pub fn assemble(entry: &FileEntry, diff: &FileDiff, opts: ViewOptions) -> (r: FileView)
        ensures
            r.deep_view() == file_view(entry.deep_view(), diff.deep_view(), opts),
    {
        let mut rows: Vec<Row> = build_rows(
            diff,
            BuildOptions { mode: opts.mode, word_diff: opts.word_diff },
        );
        if let Some(theme) = opts.highlight {
            let map: HighlightMap = highlight_diff(entry.path.as_str(), diff, theme);
            attach_highlights(&mut rows, &map);
        }
        let (adds, dels): (u64, u64) = match &diff.kind {
            FileDiffKind::TooLarge { adds, dels } => (*adds, *dels),
            _ => diff.count_changes(),
        };
        FileView {
            path: copy_of(entry.path.as_str()),
            old_path: copy_option(&entry.old_path),
            status: entry.status,
            kind: diff.kind.clone(),
            mode: opts.mode,
            adds,
            dels,
            old_missing_newline: diff.old_missing_newline,
            new_missing_newline: diff.new_missing_newline,
            rows,
        }
    }
}

/// Build the complete view for one file. Alias for [`FileView::assemble`].
pub fn build_file_view(entry: &FileEntry, diff: &FileDiff, opts: ViewOptions) -> (r: FileView)
    ensures
        r.deep_view() == file_view(entry.deep_view(), diff.deep_view(), opts),
{
    FileView::assemble(entry, diff, opts)
}

// --------------------------------------------------------------------- laws

/// Whether two cells differ in their spans at most.
pub open spec fn same_but_spans(a: CellModel, b: CellModel) -> bool {
    a == (CellModel { hl: a.hl, ..b })
}

/// Highlighting changes nothing of a row but the spans of its cells.
pub proof fn highlights_only_paint(row: RowModel, map: HighlightModel)
    ensures
        match (row, painted_row(row, map)) {
            (
                RowModel::Unified { key, hunk, old_num, new_num, cell, is_expansion },
                RowModel::Unified {
                    key: key2,
                    hunk: hunk2,
                    old_num: old2,
                    new_num: new2,
                    cell: cell2,
                    is_expansion: exp2,
                },
            ) => key == key2 && hunk == hunk2 && old_num == old2 && new_num == new2
                && is_expansion == exp2 && same_but_spans(cell2, cell),
            (
                RowModel::Split { key, hunk, left, right, is_expansion },
                RowModel::Split {
                    key: key2,
                    hunk: hunk2,
                    left: left2,
                    right: right2,
                    is_expansion: exp2,
                },
            ) => key == key2 && hunk == hunk2 && is_expansion == exp2 && same_but_spans(left2, left)
                && same_but_spans(right2, right),
            (a, b) => a == b,
        },
{
}

/// Every gap of a view has an id of its own.
pub proof fn view_gaps_are_named_once(path: Seq<char>, diff: FileDiffModel, opts: ViewOptions)
    ensures
        gaps_distinct(view_rows(path, diff, opts)),
{
    let build = BuildOptions { mode: opts.mode, word_diff: opts.word_diff };
    gaps_are_named_once(diff, build);
    let rows = diff_rows(diff, build);
    let shown = view_rows(path, diff, opts);
    assert(forall|i: int|
        0 <= i < rows.len() ==> (rows[i] is Gap || #[trigger] shown[i] is Gap) ==> shown[i]
            == rows[i]);
    assert(shown.len() == rows.len());
    assert forall|i: int, j: int|
        0 <= i < j < shown.len() && #[trigger] shown[i] is Gap implies !crate::rows::is_gap(
        #[trigger] shown[j],
        shown[i]->gap.id,
    ) by {
        assert(shown[i] == rows[i]);
    }
}

} // verus!
