//! Row builder: the shared render model every frontend paints.
//!
//! Turns a [`FileDiff`] into a flat stream of rows for either unified or
//! split (side-by-side) layout: change blocks pair removes and adds
//! positionally with empty-cell padding, collapsed gaps are addressed by
//! stable ids (`before:<hunk>` / `trailing`), and every row carries a stable
//! content-addressed key so cursors survive reloads. Word-diff ranges attach
//! to lines through the greedy pairing of [`crate::worddiff`].

use vstd::prelude::*;
use vstd::utf8::encode_utf8;

use crate::highlight::HlSpan;
use crate::model::{
    DiffLine, DiffLineModel, FileDiff, FileDiffKind, FileDiffModel, Hunk, HunkModel, LineKind,
};
use crate::text::{
    copy_of, decimal_round_trip, decimal_text, hex_digits, lemma_crlf_keeps_the_lines,
    lemma_final_newline_adds_no_line, lines_of, push_decimal, push_hex, push_text, str_lines,
    strip_cr, strs, with_crlf, without_cr,
};
use crate::util::{fnv1a32, fnv32};
use crate::worddiff::{
    block_of, block_pairs, compute_intra_ranges, intra_ranges, pair_lines, pair_models,
    pairing_never_reuses_a_line, BlockLine, LinePair, Pair, Range,
};

verus! {

/// Layout mode for the row stream.
#[derive(Debug, Clone, Copy, PartialEq, Eq, Structural)]
pub enum ViewMode {
    Unified,
    Split,
}

/// The role of one rendered cell.
#[derive(Debug, Clone, Copy, PartialEq, Eq, Structural)]
pub enum CellKind {
    Context,
    Add,
    Remove,
    /// Split-mode padding opposite an unpaired add or remove.
    Empty,
}

/// One rendered cell: a side of a split row, or the body of a unified row.
#[derive(Debug, PartialEq, Eq)]
pub struct Cell {
    pub kind: CellKind,
    /// Line number on this cell's side; None for empty padding.
    pub line: Option<u32>,
    pub text: String,
    /// Changed byte ranges from word-diff (only on add/remove cells).
    pub word_ranges: Vec<Range>,
    /// Syntax highlight spans (byte offsets into `text`).
    pub hl: Vec<HlSpan>,
}

#[verifier::ext_equal]
pub struct CellModel {
    pub kind: CellKind,
    pub line: Option<u32>,
    pub text: Seq<char>,
    pub word_ranges: Seq<Range>,
    pub hl: Seq<HlSpan>,
}

impl DeepView for Cell {
    type V = CellModel;

    open spec fn deep_view(&self) -> CellModel {
        CellModel {
            kind: self.kind,
            line: self.line,
            text: self.text@,
            word_ranges: self.word_ranges@,
            hl: self.hl@,
        }
    }
}

/// Split-mode padding.
pub open spec fn empty_cell() -> CellModel {
    CellModel {
        kind: CellKind::Empty,
        line: None,
        text: Seq::empty(),
        word_ranges: Seq::empty(),
        hl: Seq::empty(),
    }
}

impl Cell {
    fn empty() -> (r: Self)
        ensures
            r.deep_view() == empty_cell(),
    {
        let r = Cell {
            kind: CellKind::Empty,
            line: None,
            text: String::new(),
            word_ranges: Vec::new(),
            hl: Vec::new(),
        };
        assert(r.deep_view() =~= empty_cell());
        r
    }
}

impl Clone for Cell {
    fn clone(&self) -> (r: Self)
        ensures
            r.deep_view() == self.deep_view(),
    {
        Cell {
            kind: self.kind,
            line: self.line,
            text: copy_of(self.text.as_str()),
            word_ranges: vstd::slice::slice_to_vec(self.word_ranges.as_slice()),
            hl: vstd::slice::slice_to_vec(self.hl.as_slice()),
        }
    }
}

/// A collapsed unchanged region between (or around) hunks.
#[derive(Debug, PartialEq, Eq)]
pub struct GapInfo {
    /// Stable gap id: `before:<hunkIndex>` or `trailing`.
    pub id: String,
    /// Number of collapsed lines.
    pub count: u32,
    /// 1-based inclusive old-side line range this gap covers.
    pub old_range: (u32, u32),
    /// 1-based inclusive new-side line range this gap covers.
    pub new_range: (u32, u32),
}

#[verifier::ext_equal]
pub struct GapModel {
    pub id: Seq<char>,
    pub count: u32,
    pub old_range: (u32, u32),
    pub new_range: (u32, u32),
}

impl DeepView for GapInfo {
    type V = GapModel;

    open spec fn deep_view(&self) -> GapModel {
        GapModel {
            id: self.id@,
            count: self.count,
            old_range: self.old_range,
            new_range: self.new_range,
        }
    }
}

impl GapModel {
    /// Both ranges hold `count` lines, and that is at least one.
    pub open spec fn consistent(self) -> bool {
        &&& self.count > 0
        &&& self.old_range.1 - self.old_range.0 + 1 == self.count
        &&& self.new_range.1 - self.new_range.0 + 1 == self.count
    }
}

impl GapInfo {
    /// A gap is internally consistent when its recorded `count` equals the
    /// span of both its old and new ranges and it is non-empty. Defends
    /// `ViewState::expand` against a corrupted `GapInfo` crossing a wire
    /// boundary. A range that spans all 2^32 lines has no `count` and is
    /// never consistent.
    pub fn is_consistent(&self) -> (r: bool)
        ensures
            r == self.deep_view().consistent(),
    {
        if self.count == 0 {
            return false;
        }
        let old_matches: bool = self.old_range.1 >= self.old_range.0 && self.old_range.1
            - self.old_range.0 == self.count - 1;
        let new_matches: bool = self.new_range.1 >= self.new_range.0 && self.new_range.1
            - self.new_range.0 == self.count - 1;
        old_matches && new_matches
    }
}

impl Clone for GapInfo {
    fn clone(&self) -> (r: Self)
        ensures
            r.deep_view() == self.deep_view(),
    {
        GapInfo {
            id: copy_of(self.id.as_str()),
            count: self.count,
            old_range: self.old_range,
            new_range: self.new_range,
        }
    }
}

/// One row of the render model.
#[derive(Debug, PartialEq, Eq)]
pub enum Row {
    HunkHeader { key: String, hunk: u32, text: String },
    Gap { key: String, gap: GapInfo },
    /// Unified-mode line: one cell, both line numbers live on the cell side
    /// semantics (old for removes, new for adds, both for context).
    Unified {
        key: String,
        hunk: u32,
        old_num: Option<u32>,
        new_num: Option<u32>,
        cell: Cell,
        is_expansion: bool,
    },
    /// Split-mode line: old side left, new side right.
    Split { key: String, hunk: u32, left: Cell, right: Cell, is_expansion: bool },
}

#[verifier::ext_equal]
pub enum RowModel {
    HunkHeader { key: Seq<char>, hunk: u32, text: Seq<char> },
    Gap { key: Seq<char>, gap: GapModel },
    Unified {
        key: Seq<char>,
        hunk: u32,
        old_num: Option<u32>,
        new_num: Option<u32>,
        cell: CellModel,
        is_expansion: bool,
    },
    Split { key: Seq<char>, hunk: u32, left: CellModel, right: CellModel, is_expansion: bool },
}

impl DeepView for Row {
    type V = RowModel;

    open spec fn deep_view(&self) -> RowModel {
        match *self {
            Row::HunkHeader { key, hunk, text } => RowModel::HunkHeader {
                key: key@,
                hunk,
                text: text@,
            },
            Row::Gap { key, gap } => RowModel::Gap { key: key@, gap: gap.deep_view() },
            Row::Unified { key, hunk, old_num, new_num, cell, is_expansion } => RowModel::Unified {
                key: key@,
                hunk,
                old_num,
                new_num,
                cell: cell.deep_view(),
                is_expansion,
            },
            Row::Split { key, hunk, left, right, is_expansion } => RowModel::Split {
                key: key@,
                hunk,
                left: left.deep_view(),
                right: right.deep_view(),
                is_expansion,
            },
        }
    }
}

impl RowModel {
    pub open spec fn key(self) -> Seq<char> {
        match self {
            RowModel::HunkHeader { key, .. } => key,
            RowModel::Gap { key, .. } => key,
            RowModel::Unified { key, .. } => key,
            RowModel::Split { key, .. } => key,
        }
    }
}

impl Row {
    pub fn key(&self) -> (r: &str)
        ensures
            r@ == self.deep_view().key(),
    {
        match self {
            Row::HunkHeader { key, .. } => key.as_str(),
            Row::Gap { key, .. } => key.as_str(),
            Row::Unified { key, .. } => key.as_str(),
            Row::Split { key, .. } => key.as_str(),
        }
    }
}

impl Clone for Row {
    fn clone(&self) -> (r: Self)
        ensures
            r.deep_view() == self.deep_view(),
    {
        match self {
            Row::HunkHeader { key, hunk, text } => Row::HunkHeader {
                key: copy_of(key.as_str()),
                hunk: *hunk,
                text: copy_of(text.as_str()),
            },
            Row::Gap { key, gap } => Row::Gap { key: copy_of(key.as_str()), gap: gap.clone() },
            Row::Unified { key, hunk, old_num, new_num, cell, is_expansion } => Row::Unified {
                key: copy_of(key.as_str()),
                hunk: *hunk,
                old_num: *old_num,
                new_num: *new_num,
                cell: cell.clone(),
                is_expansion: *is_expansion,
            },
            Row::Split { key, hunk, left, right, is_expansion } => Row::Split {
                key: copy_of(key.as_str()),
                hunk: *hunk,
                left: left.clone(),
                right: right.clone(),
                is_expansion: *is_expansion,
            },
        }
    }
}

/// A copy of a row stream.
pub fn copy_rows(rows: &Vec<Row>) -> (r: Vec<Row>)
    ensures
        r.deep_view() == rows.deep_view(),
{
    let ghost model = rows.deep_view();
    let mut out: Vec<Row> = Vec::new();
    let mut i: usize = 0;
    assert(out.deep_view() =~= model.take(0));
    while i < rows.len()
        invariant
            i <= rows.len(),
            model == rows.deep_view(),
            model.len() == rows.len(),
            out.deep_view() == model.take(i as int),
        decreases rows.len() - i,
    {
        let row: Row = rows[i].clone();
        assert(model[i as int] == rows[i as int].deep_view());
        let ghost before = out.deep_view();
        out.push(row);
        assert(out.deep_view() =~= before.push(row.deep_view()));
        assert(model.take(i + 1) =~= model.take(i as int).push(model[i as int]));
        i += 1;
    }
    assert(model.take(i as int) =~= model);
    out
}

/// Options for [`build_rows`].
#[derive(Debug, Clone, Copy)]
pub struct BuildOptions {
    pub mode: ViewMode,
    /// Compute intra-line word-diff ranges for paired remove/add lines.
    pub word_diff: bool,
}

impl Default for BuildOptions {
    fn default() -> (r: Self)
        ensures
            r == (BuildOptions { mode: ViewMode::Unified, word_diff: true }),
    {
        BuildOptions { mode: ViewMode::Unified, word_diff: true }
    }
}

// ------------------------------------------------------------------ row keys

/// The key of a line: its numbers and a hash of its content.
pub open spec fn line_key_text(old_num: u32, new_num: u32, content: Seq<char>) -> Seq<char> {
    "l:"@ + decimal_text(old_num as nat) + ":"@ + decimal_text(new_num as nat) + ":"@ + hex_digits(
        fnv32(encode_utf8(content)) as nat,
        8,
    )
}

/// The line number of a cell, 0 where it has none.
pub open spec fn cell_number(cell: CellModel) -> u32 {
    match cell.line {
        Some(n) => n,
        None => 0,
    }
}

/// The hash of a split row: that of the left text plus that of the right text
/// with its halves exchanged.
pub open spec fn split_hash(left: Seq<char>, right: Seq<char>) -> u32 {
    let r = fnv32(encode_utf8(right));
    fnv32(encode_utf8(left)).wrapping_add((r << 16u32) | (r >> 16u32))
}

/// The key of a split row: the numbers of its sides and a hash of both.
pub open spec fn split_key_text(left: CellModel, right: CellModel) -> Seq<char> {
    "s:"@ + decimal_text(cell_number(left) as nat) + ":"@ + decimal_text(
        cell_number(right) as nat,
    ) + ":"@ + hex_digits(split_hash(left.text, right.text) as nat, 8)
}

fn line_key(old_num: u32, new_num: u32, content: &str) -> (r: String)
    ensures
        r@ == line_key_text(old_num, new_num, content@),
{
    let mut out: String = copy_of("l:");
    push_decimal(&mut out, old_num as u64);
    push_text(&mut out, ":");
    push_decimal(&mut out, new_num as u64);
    push_text(&mut out, ":");
    push_hex(&mut out, fnv1a32(content) as u64, 8);
    out
}

fn split_key(left: &Cell, right: &Cell) -> (r: String)
    ensures
        r@ == split_key_text(left.deep_view(), right.deep_view()),
{
    let old: u32 = match left.line {
        Some(n) => n,
        None => 0,
    };
    let new: u32 = match right.line {
        Some(n) => n,
        None => 0,
    };
    let r: u32 = fnv1a32(right.text.as_str());
    let h: u32 = fnv1a32(left.text.as_str()).wrapping_add((r << 16u32) | (r >> 16u32));
    let mut out: String = copy_of("s:");
    push_decimal(&mut out, old as u64);
    push_text(&mut out, ":");
    push_decimal(&mut out, new as u64);
    push_text(&mut out, ":");
    push_hex(&mut out, h as u64, 8);
    out
}

/// The hunk header text shown to users.
pub open spec fn header_text(hunk: HunkModel) -> Seq<char> {
    let base = "@@ -"@ + decimal_text(hunk.old_start as nat) + ","@ + decimal_text(
        hunk.old_len as nat,
    ) + " +"@ + decimal_text(hunk.new_start as nat) + ","@ + decimal_text(hunk.new_len as nat)
        + " @@"@;
    if hunk.context.len() == 0 {
        base
    } else {
        base + " "@ + hunk.context
    }
}

/// Format the hunk header text shown to users.
fn hunk_header_text(hunk: &Hunk) -> (r: String)
    ensures
        r@ == header_text(hunk.deep_view()),
{
    let mut out: String = copy_of("@@ -");
    push_decimal(&mut out, hunk.old_start as u64);
    push_text(&mut out, ",");
    push_decimal(&mut out, hunk.old_len as u64);
    push_text(&mut out, " +");
    push_decimal(&mut out, hunk.new_start as u64);
    push_text(&mut out, ",");
    push_decimal(&mut out, hunk.new_len as u64);
    push_text(&mut out, " @@");
    if !hunk.context.as_str().is_empty() {
        push_text(&mut out, " ");
        push_text(&mut out, hunk.context.as_str());
    }
    out
}

// ---------------------------------------------------------------------- gaps

/// Lines a hunk takes up on a side where its header says `len`: an empty side
/// stands after its start line, so the region after it resumes one further.
pub open spec fn after_side(start: u32, len: u32) -> int {
    start + if len == 0 {
        1
    } else {
        len as int
    }
}

/// First old-side line that a hunk covers; an insertion-only hunk covers none
/// and its boundary sits after its start line.
pub open spec fn covered_from(hunk: HunkModel) -> int {
    if hunk.old_len > 0 {
        hunk.old_start as int
    } else {
        hunk.old_start + 1
    }
}

/// The gap of `count` lines from the two line numbers on, where there is such
/// a gap and all its numbers fit 32 bits.
pub open spec fn gap_at(id: Seq<char>, count: int, old_from: int, new_from: int) -> Option<
    GapModel,
> {
    if 0 < count <= u32::MAX && old_from + count - 1 <= u32::MAX && new_from + count - 1
        <= u32::MAX {
        Some(
            GapModel {
                id,
                count: count as u32,
                old_range: (old_from as u32, (old_from + count - 1) as u32),
                new_range: (new_from as u32, (new_from + count - 1) as u32),
            },
        )
    } else {
        None
    }
}

/// The collapsed gap before a hunk. The lines of a gap are the same on both
/// sides, so the new-side range follows from where the previous hunk ends.
pub open spec fn gap_before(diff: FileDiffModel, idx: int) -> Option<GapModel> {
    let (old_from, new_from) = if idx == 0 {
        (1int, 1int)
    } else {
        let prev = diff.hunks[idx - 1];
        (after_side(prev.old_start, prev.old_len), after_side(prev.new_start, prev.new_len))
    };
    gap_at(
        "before:"@ + decimal_text(idx as nat),
        covered_from(diff.hunks[idx]) - old_from,
        old_from,
        new_from,
    )
}

/// The collapsed gap after the last hunk, when the old file's total line
/// count is known.
pub open spec fn gap_after(diff: FileDiffModel) -> Option<GapModel> {
    match diff.old_total_lines {
        None => None,
        Some(total) => if diff.hunks.len() == 0 {
            None
        } else {
            let last = diff.hunks.last();
            let old_from = after_side(last.old_start, last.old_len);
            let new_from = after_side(last.new_start, last.new_len);
            gap_at("trailing"@, total - old_from + 1, old_from, new_from)
        },
    }
}

/// The row of a gap.
pub open spec fn gap_row_model(gap: GapModel) -> RowModel {
    RowModel::Gap { key: "g:"@ + gap.id, gap }
}

/// The row of a gap, where there is one.
pub open spec fn gap_rows(gap: Option<GapModel>) -> Seq<RowModel> {
    match gap {
        Some(g) => seq![gap_row_model(g)],
        None => Seq::empty(),
    }
}

fn next_untouched_old(hunk: &Hunk) -> (r: u64)
    ensures
        r == after_side(hunk.old_start, hunk.old_len),
        r <= 0x1_ffff_ffff,
{
    hunk.old_start as u64 + if hunk.old_len == 0 {
        1
    } else {
        hunk.old_len as u64
    }
}

fn next_untouched_new(hunk: &Hunk) -> (r: u64)
    ensures
        r == after_side(hunk.new_start, hunk.new_len),
        r <= 0x1_ffff_ffff,
{
    hunk.new_start as u64 + if hunk.new_len == 0 {
        1
    } else {
        hunk.new_len as u64
    }
}

fn covered_start_old(hunk: &Hunk) -> (r: u64)
    ensures
        r == covered_from(hunk.deep_view()),
        r <= 0x1_0000_0000,
{
    if hunk.old_len > 0 {
        hunk.old_start as u64
    } else {
        hunk.old_start as u64 + 1
    }
}

/// A gap from 64-bit numbers: none at all, rather than a truncated one, where
/// a field would not fit 32 bits.
fn gap_from_u64(id: String, count: u64, old_from: u64, new_from: u64) -> (r: Option<GapInfo>)
    requires
        0 < count <= 0x1_ffff_ffff,
        old_from <= 0x1_ffff_ffff,
        new_from <= 0x1_ffff_ffff,
    ensures
        r.deep_view() == gap_at(id@, count as int, old_from as int, new_from as int),
{
    let limit: u64 = u32::MAX as u64;
    let old_to: u64 = old_from + count - 1;
    let new_to: u64 = new_from + count - 1;
    if count > limit || old_to > limit || new_to > limit {
        return None;
    }
    Some(
        GapInfo {
            id,
            count: count as u32,
            old_range: (old_from as u32, old_to as u32),
            new_range: (new_from as u32, new_to as u32),
        },
    )
}

/// Compute the collapsed gap before hunk `idx`, if any.
fn leading_gap(diff: &FileDiff, idx: usize) -> (r: Option<GapInfo>)
    requires
        idx < diff.hunks.len(),
    ensures
        r.deep_view() == gap_before(diff.deep_view(), idx as int),
{
    let hunk: &Hunk = &diff.hunks[idx];
    assert(diff.deep_view().hunks[idx as int] == hunk.deep_view());
    let (prev_old, prev_new): (u64, u64) = if idx == 0 {
        (1, 1)
    } else {
        let prev: &Hunk = &diff.hunks[idx - 1];
        assert(diff.deep_view().hunks[idx - 1] == prev.deep_view());
        (next_untouched_old(prev), next_untouched_new(prev))
    };
    let old_start: u64 = covered_start_old(hunk);
    if old_start <= prev_old {
        return None;
    }
    let mut id: String = copy_of("before:");
    push_decimal(&mut id, idx as u64);
    gap_from_u64(id, old_start - prev_old, prev_old, prev_new)
}

/// Compute the trailing gap after the last hunk, when the old file's total
/// line count is known.
fn trailing_gap(diff: &FileDiff) -> (r: Option<GapInfo>)
    ensures
        r.deep_view() == gap_after(diff.deep_view()),
{
    let total: u64 = match diff.old_total_lines {
        Some(t) => t as u64,
        None => {
            return None;
        },
    };
    if diff.hunks.len() == 0 {
        return None;
    }
    let last: &Hunk = &diff.hunks[diff.hunks.len() - 1];
    assert(diff.deep_view().hunks.last() == last.deep_view());
    let next_old: u64 = next_untouched_old(last);
    let next_new: u64 = next_untouched_new(last);
    if total < next_old {
        return None;
    }
    gap_from_u64(copy_of("trailing"), total - next_old + 1, next_old, next_new)
}

fn gap_row(gap: GapInfo) -> (r: Row)
    ensures
        r.deep_view() == gap_row_model(gap.deep_view()),
{
    let mut key: String = copy_of("g:");
    push_text(&mut key, gap.id.as_str());
    Row::Gap { key, gap }
}

// ----------------------------------------------------------------- word ranges

/// The lines of a change block as input to pairing.
pub open spec fn pairing_input(block: Seq<DiffLineModel>) -> Seq<BlockLine> {
    Seq::new(
        block.len(),
        |i: int|
            BlockLine { content: block[i].content, is_remove: block[i].kind == LineKind::Remove },
    )
}

/// The ranges of the lines of a change block after its first `n` pairs have
/// been compared.
pub open spec fn ranges_after_pairs(
    block: Seq<DiffLineModel>,
    pairs: Seq<(int, int)>,
    n: int,
) -> Seq<Seq<Range>>
    decreases n,
{
    if n <= 0 {
        Seq::new(block.len(), |i: int| Seq::<Range>::empty())
    } else {
        let before = ranges_after_pairs(block, pairs, n - 1);
        let (removed, added) = pairs[n - 1];
        match intra_ranges(block[removed].content, block[added].content) {
            Some(ranges) => before.update(removed, ranges.0).update(added, ranges.1),
            None => before,
        }
    }
}

/// The word-diff ranges of the lines of a change block.
pub open spec fn block_ranges(block: Seq<DiffLineModel>) -> Seq<Seq<Range>> {
    let pairs = block_pairs(pairing_input(block));
    ranges_after_pairs(block, pairs, pairs.len() as int)
}

/// Where the change block that starts at `from` ends: at the next context
/// line, or with the lines.
pub open spec fn block_end(lines: Seq<DiffLineModel>, from: int) -> int
    decreases lines.len() - from,
{
    if from < 0 || from >= lines.len() || lines[from].kind == LineKind::Context {
        from
    } else {
        block_end(lines, from + 1)
    }
}

pub proof fn lemma_block_end(lines: Seq<DiffLineModel>, from: int)
    requires
        0 <= from <= lines.len(),
    ensures
        from <= block_end(lines, from) <= lines.len(),
        forall|k: int|
            from <= k < block_end(lines, from) ==> (#[trigger] lines[k]).kind != LineKind::Context,
        from < lines.len() && lines[from].kind != LineKind::Context ==> from < block_end(
            lines,
            from,
        ),
    decreases lines.len() - from,
{
    if from < lines.len() && lines[from].kind != LineKind::Context {
        lemma_block_end(lines, from + 1);
    }
}

/// The word-diff ranges of the lines of a hunk from position `from` on.
pub open spec fn ranges_from(lines: Seq<DiffLineModel>, from: int) -> Seq<Seq<Range>>
    decreases lines.len() - from,
{
    if from < 0 || from >= lines.len() {
        Seq::empty()
    } else if lines[from].kind == LineKind::Context {
        seq![Seq::<Range>::empty()] + ranges_from(lines, from + 1)
    } else {
        let end = block_end(lines, from);
        if from < end <= lines.len() {
            block_ranges(lines.subrange(from, end)) + ranges_from(lines, end)
        } else {
            Seq::empty()
        }
    }
}

/// The word-diff ranges of the lines of a hunk, one list for each line.
pub open spec fn hunk_ranges(lines: Seq<DiffLineModel>, word_diff: bool) -> Seq<Seq<Range>> {
    if word_diff {
        ranges_from(lines, 0)
    } else {
        Seq::new(lines.len(), |i: int| Seq::<Range>::empty())
    }
}

/// The models of lists of ranges.
pub open spec fn range_lists(v: Seq<Vec<Range>>) -> Seq<Seq<Range>> {
    Seq::new(v.len(), |i: int| v[i]@)
}

proof fn lemma_pair_ranges_len(block: Seq<DiffLineModel>, pairs: Seq<(int, int)>, n: int)
    requires
        n <= pairs.len(),
        forall|k: int|
            0 <= k < pairs.len() ==> 0 <= (#[trigger] pairs[k]).0 < block.len() && 0 <= pairs[k].1
                < block.len(),
    ensures
        ranges_after_pairs(block, pairs, n).len() == block.len(),
    decreases n,
{
    if n > 0 {
        lemma_pair_ranges_len(block, pairs, n - 1);
        assert(0 <= pairs[n - 1].0 < block.len());
    }
}

proof fn lemma_ranges_from_len(lines: Seq<DiffLineModel>, from: int)
    requires
        0 <= from <= lines.len(),
    ensures
        ranges_from(lines, from).len() == lines.len() - from,
    decreases lines.len() - from,
{
    lemma_block_end(lines, from);
    if from < lines.len() {
        if lines[from].kind == LineKind::Context {
            lemma_ranges_from_len(lines, from + 1);
        } else {
            let end = block_end(lines, from);
            let block = lines.subrange(from, end);
            let pairs = block_pairs(pairing_input(block));
            pairing_never_reuses_a_line(pairing_input(block));
            lemma_pair_ranges_len(block, pairs, pairs.len() as int);
            lemma_ranges_from_len(lines, end);
        }
    }
}

/// A hunk has one list of ranges for each of its lines.
pub proof fn lemma_hunk_ranges_len(lines: Seq<DiffLineModel>, word_diff: bool)
    ensures
        hunk_ranges(lines, word_diff).len() == lines.len(),
{
    lemma_ranges_from_len(lines, 0);
}

/// Run pairing and intra-line diff over the change block `lines[from..end]`.
fn compute_block_ranges(lines: &Vec<DiffLine>, from: usize, end: usize) -> (r: Vec<Vec<Range>>)
    requires
        from <= end <= lines.len(),
    ensures
        range_lists(r@) == block_ranges(lines.deep_view().subrange(from as int, end as int)),
{
    let ghost block = lines.deep_view().subrange(from as int, end as int);
    let mut inputs: Vec<LinePair<'_>> = Vec::new();
    let mut ranges: Vec<Vec<Range>> = Vec::new();
    let mut i: usize = from;
    while i < end
        invariant
            from <= i <= end <= lines.len(),
            block == lines.deep_view().subrange(from as int, end as int),
            inputs.len() == i - from,
            forall|k: int|
                0 <= k < i - from ==> (#[trigger] inputs[k]).content@ == block[k].content
                    && inputs[k].is_remove == (block[k].kind == LineKind::Remove),
            ranges.len() == i - from,
            forall|k: int| 0 <= k < i - from ==> (#[trigger] ranges[k])@ == Seq::<Range>::empty(),
        decreases end - i,
    {
        assert(block[i - from] == lines[i as int].deep_view());
        inputs.push(
            LinePair {
                content: lines[i].content.as_str(),
                is_remove: lines[i].kind == LineKind::Remove,
            },
        );
        ranges.push(Vec::new());
        i += 1;
    }
    assert(block_of(inputs@) =~= pairing_input(block));
    let pairs: Vec<Pair> = pair_lines(inputs.as_slice());
    let ghost models = pair_models(pairs@);
    proof {
        pairing_never_reuses_a_line(pairing_input(block));
        assert(range_lists(ranges@) =~= ranges_after_pairs(block, models, 0));
    }
    let mut n: usize = 0;
    while n < pairs.len()
        invariant
            n <= pairs.len(),
            from <= end <= lines.len(),
            block == lines.deep_view().subrange(from as int, end as int),
            models == pair_models(pairs@),
            models == block_pairs(pairing_input(block)),
            forall|k: int|
                0 <= k < models.len() ==> 0 <= (#[trigger] models[k]).0 < block.len() && 0
                    <= models[k].1 < block.len(),
            range_lists(ranges@) == ranges_after_pairs(block, models, n as int),
            ranges.len() == block.len(),
        decreases pairs.len() - n,
    {
        let removed: usize = pairs[n].remove_idx;
        let added: usize = pairs[n].add_idx;
        proof {
            assert(models[n as int] == (removed as int, added as int));
            assert(block[removed as int] == lines[from + removed].deep_view());
            assert(block[added as int] == lines[from + added].deep_view());
        }
        let ghost before = range_lists(ranges@);
        if let Some((minus_ranges, plus_ranges)) = compute_intra_ranges(
            lines[from + removed].content.as_str(),
            lines[from + added].content.as_str(),
        ) {
            let ghost minus = minus_ranges@;
            let ghost plus = plus_ranges@;
            ranges[removed] = minus_ranges;
            ranges[added] = plus_ranges;
            assert(range_lists(ranges@) =~= before.update(removed as int, minus).update(
                added as int,
                plus,
            ));
        }
        n += 1;
    }
    ranges
}

/// Word-diff ranges computed for the lines of one hunk, indexed by position
/// in `lines`.
fn hunk_word_ranges(lines: &Vec<DiffLine>) -> (r: Vec<Vec<Range>>)
    ensures
        range_lists(r@) == ranges_from(lines.deep_view(), 0),
{
    let ghost model = lines.deep_view();
    let mut ranges: Vec<Vec<Range>> = Vec::new();
    let mut i: usize = 0;
    assert(range_lists(ranges@) + ranges_from(model, 0) =~= ranges_from(model, 0));
    while i < lines.len()
        invariant
            i <= lines.len(),
            model == lines.deep_view(),
            range_lists(ranges@) + ranges_from(model, i as int) == ranges_from(model, 0),
        decreases lines.len() - i,
    {
        let ghost before = range_lists(ranges@);
        assert(model[i as int] == lines[i as int].deep_view());
        if lines[i].kind == LineKind::Context {
            ranges.push(Vec::new());
            assert(range_lists(ranges@) =~= before.push(Seq::empty()));
            assert(range_lists(ranges@) + ranges_from(model, i + 1) =~= before + ranges_from(
                model,
                i as int,
            ));
            i += 1;
        } else {
            let end: usize = find_block_end(lines, i);
            proof {
                lemma_block_end(model, i as int);
            }
            let mut block: Vec<Vec<Range>> = compute_block_ranges(lines, i, end);
            let ghost block_model = range_lists(block@);
            ranges.append(&mut block);
            assert(range_lists(ranges@) =~= before + block_model);
            assert(range_lists(ranges@) + ranges_from(model, end as int) =~= before + ranges_from(
                model,
                i as int,
            ));
            i = end;
        }
    }
    assert(range_lists(ranges@) =~= ranges_from(model, 0));
    ranges
}

fn find_block_end(lines: &Vec<DiffLine>, from: usize) -> (r: usize)
    requires
        from <= lines.len(),
    ensures
        r == block_end(lines.deep_view(), from as int),
{
    let ghost model = lines.deep_view();
    let mut i: usize = from;
    while i < lines.len() && lines[i].kind != LineKind::Context
        invariant
            from <= i <= lines.len(),
            model == lines.deep_view(),
            block_end(model, from as int) == block_end(model, i as int),
        decreases lines.len() - i,
    {
        assert(model[i as int] == lines[i as int].deep_view());
        i += 1;
    }
    if i < lines.len() {
        assert(model[i as int] == lines[i as int].deep_view());
    }
    i
}

// ---------------------------------------------------------------- line rows

/// The cell of a diff line with the number of its side.
pub open spec fn line_cell(line: DiffLineModel, number: u32, ranges: Seq<Range>) -> CellModel {
    CellModel {
        kind: match line.kind {
            LineKind::Context => CellKind::Context,
            LineKind::Add => CellKind::Add,
            LineKind::Remove => CellKind::Remove,
        },
        line: Some(number),
        text: line.content,
        word_ranges: ranges,
        hl: Seq::empty(),
    }
}

fn make_cell(line: &DiffLine, side_num: u32, word_ranges: Vec<Range>) -> (r: Cell)
    ensures
        r.deep_view() == line_cell(line.deep_view(), side_num, word_ranges@),
{
    let r = Cell {
        kind: match line.kind {
            LineKind::Context => CellKind::Context,
            LineKind::Add => CellKind::Add,
            LineKind::Remove => CellKind::Remove,
        },
        line: Some(side_num),
        text: copy_of(line.content.as_str()),
        word_ranges,
        hl: Vec::new(),
    };
    assert(r.deep_view() =~= line_cell(line.deep_view(), side_num, word_ranges@));
    r
}

/// A copy of a list of ranges.
fn copy_ranges(ranges: &Vec<Range>) -> (r: Vec<Range>)
    ensures
        r@ == ranges@,
{
    vstd::slice::slice_to_vec(ranges.as_slice())
}

/// The unified row of a line: the numbers of the sides that have it.
pub open spec fn unified_row(hunk: u32, line: DiffLineModel, ranges: Seq<Range>) -> RowModel {
    RowModel::Unified {
        key: line_key_text(line.old_num, line.new_num, line.content),
        hunk,
        old_num: if line.kind == LineKind::Add {
            None
        } else {
            Some(line.old_num)
        },
        new_num: if line.kind == LineKind::Remove {
            None
        } else {
            Some(line.new_num)
        },
        cell: line_cell(
            line,
            if line.kind == LineKind::Remove {
                line.old_num
            } else {
                line.new_num
            },
            ranges,
        ),
        is_expansion: false,
    }
}

/// The unified rows of the lines of a hunk.
pub open spec fn unified_rows(
    hunk: u32,
    lines: Seq<DiffLineModel>,
    ranges: Seq<Seq<Range>>,
) -> Seq<RowModel> {
    Seq::new(lines.len(), |i: int| unified_row(hunk, lines[i], ranges[i]))
}

/// A split row of two cells.
pub open spec fn split_row(
    hunk: u32,
    left: CellModel,
    right: CellModel,
    is_expansion: bool,
) -> RowModel {
    RowModel::Split { key: split_key_text(left, right), hunk, left, right, is_expansion }
}

/// Positions from `from` up to `end` of the lines of a kind.
pub open spec fn kind_positions(
    lines: Seq<DiffLineModel>,
    kind: LineKind,
    from: int,
    end: int,
) -> Seq<int>
    decreases end - from,
{
    if from >= end {
        Seq::empty()
    } else if lines[end - 1].kind == kind {
        kind_positions(lines, kind, from, end - 1).push(end - 1)
    } else {
        kind_positions(lines, kind, from, end - 1)
    }
}

/// The left cell of row `k` of a change block: its `k`-th removed line, or
/// padding.
pub open spec fn block_left(
    lines: Seq<DiffLineModel>,
    ranges: Seq<Seq<Range>>,
    removes: Seq<int>,
    k: int,
) -> CellModel {
    if k < removes.len() {
        line_cell(lines[removes[k]], lines[removes[k]].old_num, ranges[removes[k]])
    } else {
        empty_cell()
    }
}

/// The right cell of row `k` of a change block: its `k`-th added line, or
/// padding.
pub open spec fn block_right(
    lines: Seq<DiffLineModel>,
    ranges: Seq<Seq<Range>>,
    adds: Seq<int>,
    k: int,
) -> CellModel {
    if k < adds.len() {
        line_cell(lines[adds[k]], lines[adds[k]].new_num, ranges[adds[k]])
    } else {
        empty_cell()
    }
}

/// The split rows of the change block `lines[from..end]`: as many as the
/// longer side needs.
pub open spec fn block_rows(
    hunk: u32,
    lines: Seq<DiffLineModel>,
    ranges: Seq<Seq<Range>>,
    from: int,
    end: int,
) -> Seq<RowModel> {
    let removes = kind_positions(lines, LineKind::Remove, from, end);
    let adds = kind_positions(lines, LineKind::Add, from, end);
    let n = if removes.len() >= adds.len() {
        removes.len()
    } else {
        adds.len()
    };
    Seq::new(
        n,
        |k: int|
            split_row(
                hunk,
                block_left(lines, ranges, removes, k),
                block_right(lines, ranges, adds, k),
                false,
            ),
    )
}

/// The split row of a context line: the line on both sides, each with its
/// number there.
pub open spec fn context_row(hunk: u32, line: DiffLineModel) -> RowModel {
    split_row(
        hunk,
        line_cell(line, line.old_num, Seq::empty()),
        line_cell(line, line.new_num, Seq::empty()),
        false,
    )
}

/// The split rows of the lines of a hunk from position `from` on.
pub open spec fn split_rows(
    hunk: u32,
    lines: Seq<DiffLineModel>,
    ranges: Seq<Seq<Range>>,
    from: int,
) -> Seq<RowModel>
    decreases lines.len() - from,
{
    if from < 0 || from >= lines.len() {
        Seq::empty()
    } else if lines[from].kind == LineKind::Context {
        seq![context_row(hunk, lines[from])] + split_rows(hunk, lines, ranges, from + 1)
    } else {
        let end = block_end(lines, from);
        if from < end <= lines.len() {
            block_rows(hunk, lines, ranges, from, end) + split_rows(hunk, lines, ranges, end)
        } else {
            Seq::empty()
        }
    }
}

/// The header row of a hunk.
pub open spec fn header_row(idx: int, hunk: HunkModel) -> RowModel {
    RowModel::HunkHeader {
        key: "h:"@ + decimal_text(idx as nat),
        hunk: idx as u32,
        text: header_text(hunk),
    }
}

/// The rows of one hunk: the gap before it, its header, and its lines.
pub open spec fn hunk_rows(diff: FileDiffModel, opts: BuildOptions, idx: int) -> Seq<RowModel> {
    let hunk = diff.hunks[idx];
    let ranges = hunk_ranges(hunk.lines, opts.word_diff);
    gap_rows(gap_before(diff, idx)).push(header_row(idx, hunk)) + match opts.mode {
        ViewMode::Unified => unified_rows(idx as u32, hunk.lines, ranges),
        ViewMode::Split => split_rows(idx as u32, hunk.lines, ranges, 0),
    }
}

/// The rows of the first `n` hunks.
pub open spec fn rows_of_hunks(diff: FileDiffModel, opts: BuildOptions, n: int) -> Seq<RowModel>
    decreases n,
{
    if n <= 0 {
        Seq::empty()
    } else {
        rows_of_hunks(diff, opts, n - 1) + hunk_rows(diff, opts, n - 1)
    }
}

/// The row stream of a diff. Only a text diff has rows: what is binary or too
/// large is shown by a placeholder.
pub open spec fn diff_rows(diff: FileDiffModel, opts: BuildOptions) -> Seq<RowModel> {
    if diff.kind is Text {
        rows_of_hunks(diff, opts, diff.hunks.len() as int) + gap_rows(gap_after(diff))
    } else {
        Seq::empty()
    }
}

/// Build the row stream for a text diff. Binary and too-large diffs have no
/// rows; the caller renders their placeholders from [`FileDiff::kind`].
pub fn build_rows(diff: &FileDiff, opts: BuildOptions) -> (r: Vec<Row>)
    ensures
        r.deep_view() == diff_rows(diff.deep_view(), opts),
{
    let ghost model = diff.deep_view();
    let mut rows: Vec<Row> = Vec::new();
    let mut idx: usize = 0;
    assert(rows.deep_view() =~= Seq::empty());
    let text: bool = match diff.kind {
        FileDiffKind::Text => true,
        _ => false,
    };
    if !text {
        return rows;
    }
    while idx < diff.hunks.len()
        invariant
            idx <= diff.hunks.len(),
            model == diff.deep_view(),
            rows.deep_view() == rows_of_hunks(model, opts, idx as int),
        decreases diff.hunks.len() - idx,
    {
        let ghost start = rows.deep_view();
        let hunk: &Hunk = &diff.hunks[idx];
        assert(model.hunks[idx as int] == hunk.deep_view());
        let gap: Option<GapInfo> = leading_gap(diff, idx);
        if let Some(gap) = gap {
            let row: Row = gap_row(gap);
            let ghost row_model = row.deep_view();
            rows.push(row);
            assert(rows.deep_view() =~= start.push(row_model));
        }
        assert(rows.deep_view() =~= start + gap_rows(gap_before(model, idx as int)));
        let ghost with_gap = rows.deep_view();
        let mut key: String = copy_of("h:");
        push_decimal(&mut key, idx as u64);
        let header = Row::HunkHeader { key, hunk: idx as u32, text: hunk_header_text(hunk) };
        let ghost header_model = header.deep_view();
        rows.push(header);
        assert(rows.deep_view() =~= with_gap.push(header_model));
        let ghost with_header = rows.deep_view();
        let ghost lines = hunk.deep_view().lines;
        let word_ranges: Vec<Vec<Range>> = if opts.word_diff {
            hunk_word_ranges(&hunk.lines)
        } else {
            no_ranges(hunk.lines.len())
        };
        proof {
            lemma_hunk_ranges_len(lines, opts.word_diff);
            assert(range_lists(word_ranges@) =~= hunk_ranges(lines, opts.word_diff));
        }
        match opts.mode {
            ViewMode::Unified => build_unified_hunk(idx as u32, hunk, &word_ranges, &mut rows),
            ViewMode::Split => build_split_hunk(idx as u32, hunk, &word_ranges, &mut rows),
        }
        assert(rows.deep_view() =~= start + hunk_rows(model, opts, idx as int));
        idx += 1;
    }
    let ghost before = rows.deep_view();
    if let Some(gap) = trailing_gap(diff) {
        let row: Row = gap_row(gap);
        let ghost row_model = row.deep_view();
        rows.push(row);
        assert(rows.deep_view() =~= before.push(row_model));
    }
    assert(rows.deep_view() =~= before + gap_rows(gap_after(model)));
    rows
}

/// As many empty range lists.
fn no_ranges(n: usize) -> (r: Vec<Vec<Range>>)
    ensures
        range_lists(r@) == Seq::new(n as nat, |i: int| Seq::<Range>::empty()),
{
    let mut out: Vec<Vec<Range>> = Vec::new();
    let mut i: usize = 0;
    while i < n
        invariant
            i <= n,
            out.len() == i,
            forall|k: int| 0 <= k < i ==> (#[trigger] out[k])@ == Seq::<Range>::empty(),
        decreases n - i,
    {
        out.push(Vec::new());
        i += 1;
    }
    assert(range_lists(out@) =~= Seq::new(n as nat, |i: int| Seq::<Range>::empty()));
    out
}

fn build_unified_hunk(
    hunk_idx: u32,
    hunk: &Hunk,
    word_ranges: &Vec<Vec<Range>>,
    rows: &mut Vec<Row>,
)
    requires
        word_ranges.len() == hunk.lines.len(),
    ensures
        final(rows).deep_view() == old(rows).deep_view() + unified_rows(
            hunk_idx,
            hunk.deep_view().lines,
            range_lists(word_ranges@),
        ),
{
    let ghost start = rows.deep_view();
    let ghost lines = hunk.deep_view().lines;
    let ghost ranges = range_lists(word_ranges@);
    let ghost goal = unified_rows(hunk_idx, lines, ranges);
    let mut i: usize = 0;
    assert(start + goal.take(0) =~= start);
    while i < hunk.lines.len()
        invariant
            i <= hunk.lines.len(),
            word_ranges.len() == hunk.lines.len(),
            lines == hunk.deep_view().lines,
            ranges == range_lists(word_ranges@),
            goal == unified_rows(hunk_idx, lines, ranges),
            rows.deep_view() == start + goal.take(i as int),
        decreases hunk.lines.len() - i,
    {
        let line: &DiffLine = &hunk.lines[i];
        assert(lines[i as int] == line.deep_view());
        let (old_num, new_num, side_num): (Option<u32>, Option<u32>, u32) = match line.kind {
            LineKind::Context => (Some(line.old_num), Some(line.new_num), line.new_num),
            LineKind::Add => (None, Some(line.new_num), line.new_num),
            LineKind::Remove => (Some(line.old_num), None, line.old_num),
        };
        let row = Row::Unified {
            key: line_key(line.old_num, line.new_num, line.content.as_str()),
            hunk: hunk_idx,
            old_num,
            new_num,
            cell: make_cell(line, side_num, copy_ranges(&word_ranges[i])),
            is_expansion: false,
        };
        let ghost row_model = row.deep_view();
        assert(row_model == goal[i as int]);
        let ghost before = rows.deep_view();
        rows.push(row);
        assert(rows.deep_view() =~= before.push(row_model));
        assert(goal.take(i + 1) =~= goal.take(i as int).push(goal[i as int]));
        assert(rows.deep_view() =~= start + goal.take(i + 1));
        i += 1;
    }
    assert(goal.take(goal.len() as int) =~= goal);
}

/// Positions of the lines of a kind in `lines[from..end]`.
fn collect_kind(lines: &Vec<DiffLine>, kind: LineKind, from: usize, end: usize) -> (r: Vec<usize>)
    requires
        from <= end <= lines.len(),
    ensures
        r.len() == kind_positions(lines.deep_view(), kind, from as int, end as int).len(),
        forall|k: int|
            0 <= k < r.len() ==> (#[trigger] r[k]) == kind_positions(
                lines.deep_view(),
                kind,
                from as int,
                end as int,
            )[k] && from <= r[k] < end,
{
    let ghost model = lines.deep_view();
    let mut out: Vec<usize> = Vec::new();
    let mut i: usize = from;
    while i < end
        invariant
            from <= i <= end <= lines.len(),
            model == lines.deep_view(),
            out.len() == kind_positions(model, kind, from as int, i as int).len(),
            forall|k: int|
                0 <= k < out.len() ==> (#[trigger] out[k]) == kind_positions(
                    model,
                    kind,
                    from as int,
                    i as int,
                )[k] && from <= out[k] < end,
        decreases end - i,
    {
        assert(model[i as int] == lines[i as int].deep_view());
        if lines[i].kind == kind {
            out.push(i);
        }
        i += 1;
    }
    out
}

/// Appends the split rows of one change block.
fn build_split_block(
    hunk_idx: u32,
    lines: &Vec<DiffLine>,
    word_ranges: &Vec<Vec<Range>>,
    from: usize,
    end: usize,
    rows: &mut Vec<Row>,
)
    requires
        word_ranges.len() == lines.len(),
        from <= end <= lines.len(),
    ensures
        final(rows).deep_view() == old(rows).deep_view() + block_rows(
            hunk_idx,
            lines.deep_view(),
            range_lists(word_ranges@),
            from as int,
            end as int,
        ),
{
    let ghost start = rows.deep_view();
    let ghost model = lines.deep_view();
    let ghost ranges = range_lists(word_ranges@);
    let ghost goal = block_rows(hunk_idx, model, ranges, from as int, end as int);
    let removes: Vec<usize> = collect_kind(lines, LineKind::Remove, from, end);
    let adds: Vec<usize> = collect_kind(lines, LineKind::Add, from, end);
    let ghost remove_model = kind_positions(model, LineKind::Remove, from as int, end as int);
    let ghost add_model = kind_positions(model, LineKind::Add, from as int, end as int);
    let n: usize = if removes.len() >= adds.len() {
        removes.len()
    } else {
        adds.len()
    };
    let mut k: usize = 0;
    assert(start + goal.take(0) =~= start);
    while k < n
        invariant
            k <= n,
            n == goal.len(),
            word_ranges.len() == lines.len(),
            from <= end <= lines.len(),
            model == lines.deep_view(),
            ranges == range_lists(word_ranges@),
            goal == block_rows(hunk_idx, model, ranges, from as int, end as int),
            remove_model == kind_positions(model, LineKind::Remove, from as int, end as int),
            add_model == kind_positions(model, LineKind::Add, from as int, end as int),
            removes.len() == remove_model.len(),
            adds.len() == add_model.len(),
            forall|i: int|
                0 <= i < removes.len() ==> (#[trigger] removes[i]) == remove_model[i] && from
                    <= removes[i] < end,
            forall|i: int|
                0 <= i < adds.len() ==> (#[trigger] adds[i]) == add_model[i] && from <= adds[i]
                    < end,
            rows.deep_view() == start + goal.take(k as int),
        decreases n - k,
    {
        let left: Cell = if k < removes.len() {
            let j: usize = removes[k];
            assert(model[j as int] == lines[j as int].deep_view());
            make_cell(&lines[j], lines[j].old_num, copy_ranges(&word_ranges[j]))
        } else {
            Cell::empty()
        };
        let right: Cell = if k < adds.len() {
            let j: usize = adds[k];
            assert(model[j as int] == lines[j as int].deep_view());
            make_cell(&lines[j], lines[j].new_num, copy_ranges(&word_ranges[j]))
        } else {
            Cell::empty()
        };
        assert(left.deep_view() == block_left(model, ranges, remove_model, k as int));
        assert(right.deep_view() == block_right(model, ranges, add_model, k as int));
        let key: String = split_key(&left, &right);
        let row = Row::Split { key, hunk: hunk_idx, left, right, is_expansion: false };
        let ghost row_model = row.deep_view();
        assert(row_model == goal[k as int]);
        let ghost before = rows.deep_view();
        rows.push(row);
        assert(rows.deep_view() =~= before.push(row_model));
        assert(goal.take(k + 1) =~= goal.take(k as int).push(goal[k as int]));
        assert(rows.deep_view() =~= start + goal.take(k + 1));
        k += 1;
    }
    assert(goal.take(goal.len() as int) =~= goal);
}

fn build_split_hunk(
    hunk_idx: u32,
    hunk: &Hunk,
    word_ranges: &Vec<Vec<Range>>,
    rows: &mut Vec<Row>,
)
    requires
        word_ranges.len() == hunk.lines.len(),
    ensures
        final(rows).deep_view() == old(rows).deep_view() + split_rows(
            hunk_idx,
            hunk.deep_view().lines,
            range_lists(word_ranges@),
            0,
        ),
{
    let ghost start = rows.deep_view();
    let lines: &Vec<DiffLine> = &hunk.lines;
    let ghost model = lines.deep_view();
    let ghost ranges = range_lists(word_ranges@);
    let ghost goal = start + split_rows(hunk_idx, model, ranges, 0);
    let mut i: usize = 0;
    while i < lines.len()
        invariant
            i <= lines.len(),
            word_ranges.len() == lines.len(),
            model == lines.deep_view(),
            ranges == range_lists(word_ranges@),
            rows.deep_view() + split_rows(hunk_idx, model, ranges, i as int) == goal,
        decreases lines.len() - i,
    {
        assert(model[i as int] == lines[i as int].deep_view());
        let ghost before = rows.deep_view();
        if lines[i].kind == LineKind::Context {
            let line: &DiffLine = &lines[i];
            let left: Cell = make_cell(line, line.old_num, Vec::new());
            let right: Cell = make_cell(line, line.new_num, Vec::new());
            assert(left.deep_view() =~= line_cell(line.deep_view(), line.old_num, Seq::empty()));
            assert(right.deep_view() =~= line_cell(line.deep_view(), line.new_num, Seq::empty()));
            let key: String = split_key(&left, &right);
            let row = Row::Split { key, hunk: hunk_idx, left, right, is_expansion: false };
            let ghost row_model = row.deep_view();
            assert(row_model == context_row(hunk_idx, model[i as int]));
            rows.push(row);
            assert(rows.deep_view() =~= before.push(row_model));
            assert(rows.deep_view() + split_rows(hunk_idx, model, ranges, i + 1) =~= before
                + split_rows(hunk_idx, model, ranges, i as int));
            i += 1;
        } else {
            let end: usize = find_block_end(lines, i);
            proof {
                lemma_block_end(model, i as int);
            }
            build_split_block(hunk_idx, lines, word_ranges, i, end, rows);
            assert(rows.deep_view() + split_rows(hunk_idx, model, ranges, end as int) =~= before
                + split_rows(hunk_idx, model, ranges, i as int));
            i = end;
        }
    }
    assert(rows.deep_view() + Seq::<RowModel>::empty() =~= rows.deep_view());
}

// ----------------------------------------------------------------- expansion

/// Number of rows that replace a gap when `n` lines are at hand: never more
/// than the gap covers, and never past the 32-bit line numbers.
pub open spec fn expansion_len(gap: GapModel, n: nat) -> nat {
    let span: int = if gap.old_range.1 >= gap.old_range.0 {
        gap.old_range.1 - gap.old_range.0 + 1
    } else {
        0
    };
    let room: int = 0x1_0000_0000 - gap.new_range.0;
    if n <= span && n <= room {
        n
    } else if span <= room {
        span as nat
    } else {
        room as nat
    }
}

/// The row of one line of an expanded gap.
pub open spec fn expansion_row(
    old_num: u32,
    new_num: u32,
    text: Seq<char>,
    mode: ViewMode,
    hunk: u32,
) -> RowModel {
    let cell = CellModel {
        kind: CellKind::Context,
        line: Some(new_num),
        text,
        word_ranges: Seq::empty(),
        hl: Seq::empty(),
    };
    match mode {
        ViewMode::Unified => RowModel::Unified {
            key: line_key_text(old_num, new_num, text),
            hunk,
            old_num: Some(old_num),
            new_num: Some(new_num),
            cell,
            is_expansion: true,
        },
        ViewMode::Split => split_row(hunk, CellModel { line: Some(old_num), ..cell }, cell, true),
    }
}

/// The rows that replace an expanded gap, numbered up from its ranges.
pub open spec fn expansion_rows(
    gap: GapModel,
    lines: Seq<Seq<char>>,
    mode: ViewMode,
    hunk: u32,
) -> Seq<RowModel> {
    Seq::new(
        expansion_len(gap, lines.len()),
        |i: int|
            expansion_row(
                (gap.old_range.0 + i) as u32,
                (gap.new_range.0 + i) as u32,
                lines[i],
                mode,
                hunk,
            ),
    )
}

/// Build the rows that replace an expanded gap. `lines` is the new-side file
/// content for the gap's `new_range` (context lines are identical on both
/// sides). Line numbers count up from the gap's recorded ranges.
pub fn build_expansion_rows(gap: &GapInfo, lines: &[&str], mode: ViewMode, hunk: u32) -> (r: Vec<
    Row,
>)
    ensures
        r.deep_view() == expansion_rows(gap.deep_view(), strs(lines@), mode, hunk),
{
    let ghost model = gap.deep_view();
    let ghost texts = strs(lines@);
    let ghost goal = expansion_rows(model, texts, mode, hunk);
    let mut rows: Vec<Row> = Vec::new();
    let mut i: usize = 0;
    assert(rows.deep_view() =~= goal.take(0));
    while i < lines.len() && i as u64 <= u32::MAX as u64 && gap.old_range.0 as u64 + i as u64
        <= gap.old_range.1 as u64 && gap.new_range.0 as u64 + i as u64 <= u32::MAX as u64
        invariant
            i <= lines.len(),
            i <= 0x1_0000_0000,
            i <= goal.len(),
            model == gap.deep_view(),
            texts == strs(lines@),
            goal == expansion_rows(model, texts, mode, hunk),
            rows.deep_view() == goal.take(i as int),
        decreases lines.len() - i,
    {
        let old_num: u32 = gap.old_range.0 + i as u32;
        let new_num: u32 = gap.new_range.0 + i as u32;
        let text: &str = lines[i];
        let cell = Cell {
            kind: CellKind::Context,
            line: Some(new_num),
            text: copy_of(text),
            word_ranges: Vec::new(),
            hl: Vec::new(),
        };
        let ghost cell_model = CellModel {
            kind: CellKind::Context,
            line: Some(new_num),
            text: texts[i as int],
            word_ranges: Seq::empty(),
            hl: Seq::empty(),
        };
        assert(cell.deep_view() =~= cell_model);
        let row: Row = match mode {
            ViewMode::Unified => Row::Unified {
                key: line_key(old_num, new_num, text),
                hunk,
                old_num: Some(old_num),
                new_num: Some(new_num),
                cell,
                is_expansion: true,
            },
            ViewMode::Split => {
                let left = Cell {
                    kind: CellKind::Context,
                    line: Some(old_num),
                    text: copy_of(text),
                    word_ranges: Vec::new(),
                    hl: Vec::new(),
                };
                assert(left.deep_view() =~= CellModel { line: Some(old_num), ..cell_model });
                let key: String = split_key(&left, &cell);
                Row::Split { key, hunk, left, right: cell, is_expansion: true }
            },
        };
        let ghost row_model = row.deep_view();
        assert(i < goal.len());
        assert(row_model == goal[i as int]);
        let ghost before = rows.deep_view();
        rows.push(row);
        assert(rows.deep_view() =~= before.push(row_model));
        assert(goal.take(i + 1) =~= goal.take(i as int).push(goal[i as int]));
        i += 1;
    }
    assert(i == goal.len());
    assert(goal.take(goal.len() as int) =~= goal);
    rows
}

/// The lines of a gap in the new-side text of the file, each without one
/// carriage return at its end.
pub open spec fn gap_lines(gap: GapModel, content: Seq<char>) -> Seq<Seq<char>> {
    let all = lines_of(content);
    let lines = Seq::new(all.len(), |i: int| without_cr(all[i]));
    let start: int = if gap.new_range.0 > 0 {
        gap.new_range.0 - 1
    } else {
        0
    };
    let end: int = if gap.new_range.1 <= lines.len() {
        gap.new_range.1 as int
    } else {
        lines.len() as int
    };
    if start <= end {
        lines.subrange(start, end)
    } else {
        Seq::empty()
    }
}

/// Slice the lines of one gap out of a full new-side file text. Strips one
/// trailing `\r` per line (CRLF tolerance) and drops the trailing empty
/// piece after a final newline, the same rule the parser applies to raw diff
/// text.
pub fn slice_gap_lines<'a>(gap: &GapInfo, content: &'a str) -> (r: Vec<&'a str>)
    ensures
        strs(r@) == gap_lines(gap.deep_view(), content@),
{
    let lines: Vec<&'a str> = str_lines(content);
    let ghost all = lines_of(content@);
    let start: u32 = if gap.new_range.0 > 0 {
        gap.new_range.0 - 1
    } else {
        0
    };
    let mut out: Vec<&'a str> = Vec::new();
    let ghost goal = gap_lines(gap.deep_view(), content@);
    assert(strs(out@) =~= goal.take(0));
    if (start as usize) < lines.len() {
        let mut i: usize = start as usize;
        while i < lines.len() && i < gap.new_range.1 as usize
            invariant
                strs(lines@) == all,
                all == lines_of(content@),
                start == if gap.new_range.0 > 0 {
                    (gap.new_range.0 - 1) as u32
                } else {
                    0
                },
                start <= i <= lines.len(),
                i <= gap.new_range.1 || i == start,
                goal == gap_lines(gap.deep_view(), content@),
                i - start <= goal.len(),
                strs(out@) == goal.take(i - start),
            decreases lines.len() - i,
        {
            let line: &'a str = strip_cr(lines[i]);
            assert(lines@[i as int]@ == all[i as int]);
            assert(goal[i - start] == without_cr(all[i as int]));
            let ghost before = strs(out@);
            out.push(line);
            assert(strs(out@) =~= before.push(line@));
            assert(goal.take(i - start + 1) =~= goal.take(i - start).push(goal[i - start]));
            i += 1;
        }
        assert(i - start == goal.len());
    }
    assert(lines@.len() == all.len());
    assert(strs(out@) =~= goal);
    out
}

/// Slice `content` for `gap` and build its expansion rows in one call: the
/// shared path frontends use instead of re-deriving gap content slicing.
pub fn expansion_rows_from_content(
    gap: &GapInfo,
    content: &str,
    mode: ViewMode,
    hunk: u32,
) -> (r: Vec<Row>)
    ensures
        r.deep_view() == expansion_rows(
            gap.deep_view(),
            gap_lines(gap.deep_view(), content@),
            mode,
            hunk,
        ),
{
    let lines: Vec<&str> = slice_gap_lines(gap, content);
    build_expansion_rows(gap, lines.as_slice(), mode, hunk)
}

// ------------------------------------------------------------ conservation

/// The line number that a row shows on a side: old where `old`, else new.
pub open spec fn row_number(row: RowModel, old: bool) -> Option<u32> {
    match row {
        RowModel::Unified { old_num, new_num, .. } => if old {
            old_num
        } else {
            new_num
        },
        RowModel::Split { left, right, .. } => {
            let cell = if old {
                left
            } else {
                right
            };
            if cell.kind == CellKind::Empty {
                None
            } else {
                Some(cell_number(cell))
            }
        },
        _ => None,
    }
}

/// The line numbers that rows show on a side, from top to bottom.
pub open spec fn shown_numbers(rows: Seq<RowModel>, old: bool) -> Seq<u32>
    decreases rows.len(),
{
    if rows.len() == 0 {
        Seq::empty()
    } else {
        let before = shown_numbers(rows.drop_last(), old);
        match row_number(rows.last(), old) {
            Some(n) => before.push(n),
            None => before,
        }
    }
}

/// Whether a line stands on a side.
pub open spec fn on_side(kind: LineKind, old: bool) -> bool {
    if old {
        kind != LineKind::Add
    } else {
        kind != LineKind::Remove
    }
}

/// The number of a line on a side.
pub open spec fn side_number(line: DiffLineModel, old: bool) -> u32 {
    if old {
        line.old_num
    } else {
        line.new_num
    }
}

/// The numbers of the lines that stand on a side, in order.
pub open spec fn line_numbers(lines: Seq<DiffLineModel>, old: bool) -> Seq<u32>
    decreases lines.len(),
{
    if lines.len() == 0 {
        Seq::empty()
    } else {
        let before = line_numbers(lines.drop_last(), old);
        if on_side(lines.last().kind, old) {
            before.push(side_number(lines.last(), old))
        } else {
            before
        }
    }
}

/// The numbers of the lines of the first `n` hunks that stand on a side.
pub open spec fn hunk_numbers(hunks: Seq<HunkModel>, n: int, old: bool) -> Seq<u32>
    decreases n,
{
    if n <= 0 {
        Seq::empty()
    } else {
        hunk_numbers(hunks, n - 1, old) + line_numbers(hunks[n - 1].lines, old)
    }
}

proof fn lemma_shown_concat(a: Seq<RowModel>, b: Seq<RowModel>, old: bool)
    ensures
        shown_numbers(a + b, old) == shown_numbers(a, old) + shown_numbers(b, old),
    decreases b.len(),
{
    if b.len() == 0 {
        assert(a + b =~= a);
        assert(shown_numbers(a, old) + shown_numbers(b, old) =~= shown_numbers(a, old));
    } else {
        assert((a + b).drop_last() =~= a + b.drop_last());
        lemma_shown_concat(a, b.drop_last(), old);
        assert(shown_numbers(a + b, old) =~= shown_numbers(a, old) + shown_numbers(b, old));
    }
}

proof fn lemma_numbers_concat(a: Seq<DiffLineModel>, b: Seq<DiffLineModel>, old: bool)
    ensures
        line_numbers(a + b, old) == line_numbers(a, old) + line_numbers(b, old),
    decreases b.len(),
{
    if b.len() == 0 {
        assert(a + b =~= a);
        assert(line_numbers(a, old) + line_numbers(b, old) =~= line_numbers(a, old));
    } else {
        assert((a + b).drop_last() =~= a + b.drop_last());
        lemma_numbers_concat(a, b.drop_last(), old);
        assert(line_numbers(a + b, old) =~= line_numbers(a, old) + line_numbers(b, old));
    }
}

proof fn lemma_unified_conserves(
    hunk: u32,
    lines: Seq<DiffLineModel>,
    ranges: Seq<Seq<Range>>,
    old: bool,
)
    ensures
        shown_numbers(unified_rows(hunk, lines, ranges), old) == line_numbers(lines, old),
    decreases lines.len(),
{
    if lines.len() > 0 {
        lemma_unified_conserves(hunk, lines.drop_last(), ranges, old);
        assert(unified_rows(hunk, lines, ranges).drop_last() =~= unified_rows(
            hunk,
            lines.drop_last(),
            ranges,
        ));
    }
}

/// The kind of a changed line that stands on a side.
spec fn side_kind(old: bool) -> LineKind {
    if old {
        LineKind::Remove
    } else {
        LineKind::Add
    }
}

proof fn lemma_block_numbers(lines: Seq<DiffLineModel>, from: int, end: int, old: bool)
    requires
        0 <= from <= end <= lines.len(),
        forall|k: int| from <= k < end ==> (#[trigger] lines[k]).kind != LineKind::Context,
    ensures
        ({
            let at = kind_positions(lines, side_kind(old), from, end);
            line_numbers(lines.subrange(from, end), old) == Seq::new(
                at.len(),
                |i: int| side_number(lines[at[i]], old),
            )
        }),
    decreases end - from,
{
    let at = kind_positions(lines, side_kind(old), from, end);
    let goal = Seq::new(at.len(), |i: int| side_number(lines[at[i]], old));
    if from < end {
        lemma_block_numbers(lines, from, end - 1, old);
        assert(lines.subrange(from, end).drop_last() =~= lines.subrange(from, end - 1));
        assert(lines[end - 1].kind != LineKind::Context);
        assert(line_numbers(lines.subrange(from, end), old) =~= goal);
    } else {
        assert(line_numbers(lines.subrange(from, end), old) =~= goal);
    }
}

proof fn lemma_kind_positions(lines: Seq<DiffLineModel>, kind: LineKind, from: int, end: int)
    ensures
        forall|i: int|
            0 <= i < kind_positions(lines, kind, from, end).len() ==> lines[#[trigger] kind_positions(
                lines,
                kind,
                from,
                end,
            )[i]].kind == kind,
    decreases end - from,
{
    if from < end {
        lemma_kind_positions(lines, kind, from, end - 1);
    }
}

proof fn lemma_block_rows_numbers(
    hunk: u32,
    lines: Seq<DiffLineModel>,
    ranges: Seq<Seq<Range>>,
    from: int,
    end: int,
    old: bool,
    k: int,
)
    requires
        0 <= k <= block_rows(hunk, lines, ranges, from, end).len(),
    ensures
        ({
            let at = kind_positions(lines, side_kind(old), from, end);
            let n = if k <= at.len() {
                k
            } else {
                at.len() as int
            };
            shown_numbers(block_rows(hunk, lines, ranges, from, end).take(k), old) == Seq::new(
                n as nat,
                |i: int| side_number(lines[at[i]], old),
            )
        }),
    decreases k,
{
    let rows = block_rows(hunk, lines, ranges, from, end);
    let at = kind_positions(lines, side_kind(old), from, end);
    let n = if k <= at.len() {
        k
    } else {
        at.len() as int
    };
    let goal = Seq::new(n as nat, |i: int| side_number(lines[at[i]], old));
    if k > 0 {
        lemma_block_rows_numbers(hunk, lines, ranges, from, end, old, k - 1);
        lemma_kind_positions(lines, side_kind(old), from, end);
        assert(rows.take(k).drop_last() =~= rows.take(k - 1));
        assert(rows.take(k).last() == rows[k - 1]);
        assert(shown_numbers(rows.take(k), old) =~= goal);
    } else {
        assert(shown_numbers(rows.take(k), old) =~= goal);
    }
}

proof fn lemma_split_conserves(
    hunk: u32,
    lines: Seq<DiffLineModel>,
    ranges: Seq<Seq<Range>>,
    from: int,
    old: bool,
)
    requires
        0 <= from <= lines.len(),
    ensures
        shown_numbers(split_rows(hunk, lines, ranges, from), old) == line_numbers(
            lines.skip(from),
            old,
        ),
    decreases lines.len() - from,
{
    let rest = lines.skip(from);
    if from < lines.len() {
        if lines[from].kind == LineKind::Context {
            lemma_split_conserves(hunk, lines, ranges, from + 1, old);
            let head = seq![context_row(hunk, lines[from])];
            let first = seq![lines[from]];
            lemma_shown_concat(head, split_rows(hunk, lines, ranges, from + 1), old);
            lemma_numbers_concat(first, lines.skip(from + 1), old);
            assert(first + lines.skip(from + 1) =~= rest);
            assert(head.drop_last() =~= Seq::empty());
            assert(first.drop_last() =~= Seq::empty());
            reveal_with_fuel(shown_numbers, 2);
            reveal_with_fuel(line_numbers, 2);
            assert(shown_numbers(head, old) =~= line_numbers(first, old));
        } else {
            lemma_block_end(lines, from);
            let end = block_end(lines, from);
            let rows = block_rows(hunk, lines, ranges, from, end);
            lemma_split_conserves(hunk, lines, ranges, end, old);
            lemma_shown_concat(rows, split_rows(hunk, lines, ranges, end), old);
            lemma_numbers_concat(lines.subrange(from, end), lines.skip(end), old);
            assert(lines.subrange(from, end) + lines.skip(end) =~= rest);
            lemma_block_numbers(lines, from, end, old);
            lemma_block_rows_numbers(hunk, lines, ranges, from, end, old, rows.len() as int);
            assert(rows.take(rows.len() as int) =~= rows);
        }
    }
}

proof fn lemma_gap_rows_show_nothing(gap: Option<GapModel>, old: bool)
    ensures
        shown_numbers(gap_rows(gap), old) == Seq::<u32>::empty(),
{
    reveal_with_fuel(shown_numbers, 2);
    if gap is Some {
        assert(gap_rows(gap).drop_last() =~= Seq::empty());
    }
}

proof fn lemma_hunks_conserve(diff: FileDiffModel, opts: BuildOptions, n: int, old: bool)
    requires
        0 <= n <= diff.hunks.len(),
    ensures
        shown_numbers(rows_of_hunks(diff, opts, n), old) == hunk_numbers(diff.hunks, n, old),
    decreases n,
{
    if n > 0 {
        lemma_hunks_conserve(diff, opts, n - 1, old);
        let idx = n - 1;
        let hunk = diff.hunks[idx];
        let ranges = hunk_ranges(hunk.lines, opts.word_diff);
        lemma_shown_concat(rows_of_hunks(diff, opts, idx), hunk_rows(diff, opts, idx), old);
        let gap = gap_rows(gap_before(diff, idx));
        let header = header_row(idx, hunk);
        let body = match opts.mode {
            ViewMode::Unified => unified_rows(idx as u32, hunk.lines, ranges),
            ViewMode::Split => split_rows(idx as u32, hunk.lines, ranges, 0),
        };
        lemma_shown_concat(gap.push(header), body, old);
        lemma_gap_rows_show_nothing(gap_before(diff, idx), old);
        assert(gap.push(header).drop_last() =~= gap);
        assert(shown_numbers(gap.push(header), old) =~= Seq::<u32>::empty());
        lemma_unified_conserves(idx as u32, hunk.lines, ranges, old);
        lemma_split_conserves(idx as u32, hunk.lines, ranges, 0, old);
        assert(hunk.lines.skip(0) =~= hunk.lines);
        assert(shown_numbers(hunk_rows(diff, opts, idx), old) =~= line_numbers(hunk.lines, old));
    }
}

/// Rows conserve lines: in either layout, on either side, the rows of a text
/// diff show the numbers of exactly the lines that stand on that side, in order,
/// each once. So do those of a placeholder, where it has no hunks.
pub proof fn rows_conserve_lines(diff: FileDiffModel, opts: BuildOptions, old: bool)
    requires
        diff.kind is Text || diff.hunks.len() == 0,
    ensures
        shown_numbers(diff_rows(diff, opts), old) == hunk_numbers(
            diff.hunks,
            diff.hunks.len() as int,
            old,
        ),
{
    let n = diff.hunks.len() as int;
    lemma_hunks_conserve(diff, opts, n, old);
    lemma_shown_concat(rows_of_hunks(diff, opts, n), gap_rows(gap_after(diff)), old);
    lemma_gap_rows_show_nothing(gap_after(diff), old);
    assert(shown_numbers(diff_rows(diff, opts), old) =~= hunk_numbers(diff.hunks, n, old));
}

/// Expanding a gap never shows a line outside it: every row carries an old
/// number of the gap's old range and the new number as far into the new one.
pub proof fn expansion_stays_in_the_gap(
    gap: GapModel,
    lines: Seq<Seq<char>>,
    mode: ViewMode,
    hunk: u32,
)
    ensures
        forall|i: int|
            0 <= i < expansion_rows(gap, lines, mode, hunk).len() ==> {
                let row = #[trigger] expansion_rows(gap, lines, mode, hunk)[i];
                &&& row_number(row, true) == Some((gap.old_range.0 + i) as u32)
                &&& gap.old_range.0 + i <= gap.old_range.1
                &&& row_number(row, false) == Some((gap.new_range.0 + i) as u32)
                &&& gap.new_range.0 + i <= u32::MAX
            },
{
}

/// Whether a row is a gap of this id.
pub open spec fn is_gap(row: RowModel, id: Seq<char>) -> bool {
    row matches RowModel::Gap { gap, .. } && gap.id == id
}

/// No two gap rows share an id.
pub open spec fn gaps_distinct(rows: Seq<RowModel>) -> bool {
    forall|i: int, j: int|
        0 <= i < j < rows.len() && #[trigger] rows[i] is Gap ==> !is_gap(
            #[trigger] rows[j],
            rows[i]->gap.id,
        )
}

proof fn lemma_split_rows_have_no_gap(
    hunk: u32,
    lines: Seq<DiffLineModel>,
    ranges: Seq<Seq<Range>>,
    from: int,
)
    ensures
        forall|i: int|
            0 <= i < split_rows(hunk, lines, ranges, from).len() ==> !(#[trigger] split_rows(
                hunk,
                lines,
                ranges,
                from,
            )[i] is Gap),
    decreases lines.len() - from,
{
    if from < 0 || from >= lines.len() {
    } else if lines[from].kind == LineKind::Context {
        lemma_split_rows_have_no_gap(hunk, lines, ranges, from + 1);
    } else {
        let end = block_end(lines, from);
        if from < end <= lines.len() {
            lemma_split_rows_have_no_gap(hunk, lines, ranges, end);
        }
    }
}

/// A gap row of a hunk's rows is the gap before that hunk, and comes first.
proof fn lemma_hunk_gap(diff: FileDiffModel, opts: BuildOptions, idx: int)
    ensures
        forall|i: int|
            #![trigger hunk_rows(diff, opts, idx)[i]]
            0 <= i < hunk_rows(diff, opts, idx).len() && hunk_rows(diff, opts, idx)[i] is Gap
                ==> i == 0 && hunk_rows(diff, opts, idx)[i]->gap.id == "before:"@ + decimal_text(
                idx as nat,
            ),
{
    let hunk = diff.hunks[idx];
    let ranges = hunk_ranges(hunk.lines, opts.word_diff);
    lemma_split_rows_have_no_gap(idx as u32, hunk.lines, ranges, 0);
}

proof fn lemma_hunk_gaps(diff: FileDiffModel, opts: BuildOptions, n: int)
    requires
        0 <= n,
    ensures
        gaps_distinct(rows_of_hunks(diff, opts, n)),
        forall|i: int|
            #![trigger rows_of_hunks(diff, opts, n)[i]]
            0 <= i < rows_of_hunks(diff, opts, n).len() && rows_of_hunks(diff, opts, n)[i] is Gap
                ==> exists|k: int|
                0 <= k < n && rows_of_hunks(diff, opts, n)[i]->gap.id == "before:"@
                    + #[trigger] decimal_text(k as nat),
    decreases n,
{
    if n > 0 {
        let before = rows_of_hunks(diff, opts, n - 1);
        let own = hunk_rows(diff, opts, n - 1);
        let all = rows_of_hunks(diff, opts, n);
        let last = "before:"@ + decimal_text((n - 1) as nat);
        lemma_hunk_gaps(diff, opts, n - 1);
        lemma_hunk_gap(diff, opts, n - 1);
        assert(all == before + own);
        assert forall|i: int| 0 <= i < all.len() && #[trigger] all[i] is Gap implies exists|k: int|
            0 <= k < n && all[i]->gap.id == "before:"@ + #[trigger] decimal_text(k as nat) by {
            if i < before.len() {
                assert(all[i] == before[i]);
                let k = choose|k: int|
                    0 <= k < n - 1 && before[i]->gap.id == "before:"@ + #[trigger] decimal_text(
                        k as nat,
                    );
                assert(0 <= k < n && all[i]->gap.id == "before:"@ + decimal_text(k as nat));
            } else {
                assert(all[i] == own[i - before.len()]);
                assert(all[i]->gap.id == "before:"@ + decimal_text((n - 1) as nat));
            }
        }
        assert forall|i: int, j: int|
            0 <= i < j < all.len() && #[trigger] all[i] is Gap implies !is_gap(
            #[trigger] all[j],
            all[i]->gap.id,
        ) by {
            if j < before.len() {
                assert(all[i] == before[i] && all[j] == before[j]);
            } else if i < before.len() {
                assert(all[i] == before[i]);
                assert(all[j] == own[j - before.len()]);
                if all[j] is Gap {
                    let k = choose|k: int|
                        0 <= k < n - 1 && before[i]->gap.id == "before:"@ + #[trigger] decimal_text(
                            k as nat,
                        );
                    decimal_round_trip(k as nat);
                    decimal_round_trip((n - 1) as nat);
                    if all[i]->gap.id == all[j]->gap.id {
                        let head = "before:"@;
                        assert((head + decimal_text(k as nat)).skip(head.len() as int)
                            =~= decimal_text(k as nat));
                        assert(last.skip(head.len() as int) =~= decimal_text((n - 1) as nat));
                    }
                }
            } else {
                assert(all[i] == own[i - before.len()]);
                assert(all[j] == own[j - before.len()]);
            }
        }
    }
}

/// Every gap of a row stream has an id of its own.
pub proof fn gaps_are_named_once(diff: FileDiffModel, opts: BuildOptions)
    ensures
        gaps_distinct(diff_rows(diff, opts)),
{
    let n = diff.hunks.len() as int;
    let hunks = rows_of_hunks(diff, opts, n);
    let tail = gap_rows(gap_after(diff));
    let all = diff_rows(diff, opts);
    lemma_hunk_gaps(diff, opts, n);
    assert forall|i: int, j: int|
        0 <= i < j < all.len() && #[trigger] all[i] is Gap implies !is_gap(
        #[trigger] all[j],
        all[i]->gap.id,
    ) by {
        if j < hunks.len() {
            assert(all[i] == hunks[i] && all[j] == hunks[j]);
        } else {
            assert(all[i] == hunks[i]);
            assert(all[j] == tail[j - hunks.len()]);
            let k = choose|k: int|
                0 <= k < n && hunks[i]->gap.id == "before:"@ + #[trigger] decimal_text(k as nat);
            reveal_strlit("before:");
            reveal_strlit("trailing");
            assert(all[i]->gap.id[0] == 'b');
            assert("trailing"@[0] == 't');
        }
    }
}

proof fn lemma_hunk_gaps_consistent(diff: FileDiffModel, opts: BuildOptions, n: int)
    requires
        0 <= n,
    ensures
        forall|i: int|
            #![trigger rows_of_hunks(diff, opts, n)[i]]
            0 <= i < rows_of_hunks(diff, opts, n).len() && rows_of_hunks(diff, opts, n)[i] is Gap
                ==> rows_of_hunks(diff, opts, n)[i]->gap.consistent(),
    decreases n,
{
    if n > 0 {
        let before = rows_of_hunks(diff, opts, n - 1);
        let own = hunk_rows(diff, opts, n - 1);
        let all = rows_of_hunks(diff, opts, n);
        lemma_hunk_gaps_consistent(diff, opts, n - 1);
        lemma_hunk_gap(diff, opts, n - 1);
        assert forall|i: int| 0 <= i < all.len() && #[trigger] all[i] is Gap implies
            all[i]->gap.consistent() by {
            if i < before.len() {
                assert(all[i] == before[i]);
            } else {
                assert(all[i] == own[i - before.len()]);
                assert(i == before.len());
            }
        }
    }
}

/// Every gap of a row stream is consistent.
pub proof fn gap_rows_are_consistent(diff: FileDiffModel, opts: BuildOptions)
    ensures
        forall|i: int|
            #![trigger diff_rows(diff, opts)[i]]
            0 <= i < diff_rows(diff, opts).len() && diff_rows(diff, opts)[i] is Gap ==> diff_rows(
                diff,
                opts,
            )[i]->gap.consistent(),
{
    let n = diff.hunks.len() as int;
    let hunks = rows_of_hunks(diff, opts, n);
    let all = diff_rows(diff, opts);
    lemma_hunk_gaps_consistent(diff, opts, n);
    assert forall|i: int| 0 <= i < all.len() && #[trigger] all[i] is Gap implies
        all[i]->gap.consistent() by {
        if i < hunks.len() {
            assert(all[i] == hunks[i]);
        } else {
            assert(all[i] == gap_rows(gap_after(diff))[i - hunks.len()]);
        }
    }
}

/// Whether a row's cells stand on their own sides. A unified row lacks the old
/// number exactly where its line was added and the new one exactly where it was
/// removed. A split row has no added line on the left and no removed one on the
/// right, a context line on both sides or on neither, and padding on one side at
/// most. Word-diff marks changed lines only.
pub open spec fn side_coherent(row: RowModel) -> bool {
    match row {
        RowModel::Unified { old_num, new_num, cell, .. } => {
            &&& cell.kind != CellKind::Empty
            &&& old_num is None <==> cell.kind == CellKind::Add
            &&& new_num is None <==> cell.kind == CellKind::Remove
            &&& cell.line == if cell.kind == CellKind::Remove {
                old_num
            } else {
                new_num
            }
            &&& cell.kind == CellKind::Context ==> cell.word_ranges.len() == 0
        },
        RowModel::Split { left, right, .. } => {
            &&& left.kind != CellKind::Add
            &&& right.kind != CellKind::Remove
            &&& left.kind == CellKind::Context <==> right.kind == CellKind::Context
            &&& left.kind != CellKind::Empty || right.kind != CellKind::Empty
            &&& left.line is None <==> left.kind == CellKind::Empty
            &&& right.line is None <==> right.kind == CellKind::Empty
            &&& left.kind == CellKind::Context ==> left.word_ranges.len() == 0
                && right.word_ranges.len() == 0
        },
        _ => true,
    }
}

/// Context lines get no ranges.
proof fn lemma_context_unmarked(lines: Seq<DiffLineModel>, from: int)
    requires
        0 <= from <= lines.len(),
    ensures
        forall|i: int|
            from <= i < lines.len() && (#[trigger] lines[i]).kind == LineKind::Context
                ==> ranges_from(lines, from)[i - from].len() == 0,
    decreases lines.len() - from,
{
    lemma_block_end(lines, from);
    lemma_ranges_from_len(lines, from);
    if from < lines.len() {
        if lines[from].kind == LineKind::Context {
            lemma_context_unmarked(lines, from + 1);
            assert forall|i: int|
                from <= i < lines.len() && (#[trigger] lines[i]).kind
                    == LineKind::Context implies ranges_from(lines, from)[i - from].len() == 0 by {
                if i > from {
                    assert(ranges_from(lines, from)[i - from] == ranges_from(lines, from + 1)[i
                        - from - 1]);
                }
            }
        } else {
            let end = block_end(lines, from);
            lemma_context_unmarked(lines, end);
            lemma_ranges_from_len(lines, end);
            let block = block_ranges(lines.subrange(from, end));
            assert(ranges_from(lines, from) == block + ranges_from(lines, end));
            assert(block.len() == end - from);
            assert forall|i: int|
                from <= i < lines.len() && (#[trigger] lines[i]).kind
                    == LineKind::Context implies ranges_from(lines, from)[i - from].len() == 0 by {
                assert(i >= end);
                assert(ranges_from(lines, from)[i - from] == ranges_from(lines, end)[i - end]);
            }
        }
    }
}

/// The positions of a kind are positions of lines of that kind.
proof fn lemma_positions_are_of_kind(
    lines: Seq<DiffLineModel>,
    kind: LineKind,
    from: int,
    end: int,
)
    requires
        0 <= from <= end <= lines.len(),
    ensures
        forall|k: int|
            0 <= k < kind_positions(lines, kind, from, end).len() ==> from
                <= #[trigger] kind_positions(lines, kind, from, end)[k] < end
                && lines[kind_positions(lines, kind, from, end)[k]].kind == kind,
    decreases end - from,
{
    if from < end {
        lemma_positions_are_of_kind(lines, kind, from, end - 1);
    }
}

proof fn lemma_split_coherent(
    hunk: u32,
    lines: Seq<DiffLineModel>,
    ranges: Seq<Seq<Range>>,
    from: int,
)
    requires
        0 <= from <= lines.len(),
    ensures
        forall|i: int|
            0 <= i < split_rows(hunk, lines, ranges, from).len() ==> side_coherent(
                #[trigger] split_rows(hunk, lines, ranges, from)[i],
            ),
    decreases lines.len() - from,
{
    let all = split_rows(hunk, lines, ranges, from);
    if from < lines.len() {
        if lines[from].kind == LineKind::Context {
            lemma_split_coherent(hunk, lines, ranges, from + 1);
            let rest = split_rows(hunk, lines, ranges, from + 1);
            assert forall|i: int| 0 <= i < all.len() implies side_coherent(#[trigger] all[i]) by {
                if i > 0 {
                    assert(all[i] == rest[i - 1]);
                }
            }
        } else {
            lemma_block_end(lines, from);
            let end = block_end(lines, from);
            lemma_split_coherent(hunk, lines, ranges, end);
            lemma_positions_are_of_kind(lines, LineKind::Remove, from, end);
            lemma_positions_are_of_kind(lines, LineKind::Add, from, end);
            let block = block_rows(hunk, lines, ranges, from, end);
            let rest = split_rows(hunk, lines, ranges, end);
            assert forall|i: int| 0 <= i < all.len() implies side_coherent(#[trigger] all[i]) by {
                if i < block.len() {
                    assert(all[i] == block[i]);
                } else {
                    assert(all[i] == rest[i - block.len()]);
                }
            }
        }
    }
}

proof fn lemma_hunk_coherent(diff: FileDiffModel, opts: BuildOptions, idx: int)
    requires
        0 <= idx < diff.hunks.len(),
    ensures
        forall|i: int|
            0 <= i < hunk_rows(diff, opts, idx).len() ==> side_coherent(
                #[trigger] hunk_rows(diff, opts, idx)[i],
            ),
{
    let hunk = diff.hunks[idx];
    let lines = hunk.lines;
    let ranges = hunk_ranges(lines, opts.word_diff);
    let all = hunk_rows(diff, opts, idx);
    let front = gap_rows(gap_before(diff, idx)).len() + 1;
    lemma_context_unmarked(lines, 0);
    lemma_split_coherent(idx as u32, lines, ranges, 0);
    assert forall|i: int| 0 <= i < all.len() implies side_coherent(#[trigger] all[i]) by {
        if i >= front {
            match opts.mode {
                ViewMode::Unified => {
                    assert(all[i] == unified_row(
                        idx as u32,
                        lines[i - front],
                        ranges[i - front],
                    ));
                },
                ViewMode::Split => {
                    assert(all[i] == split_rows(idx as u32, lines, ranges, 0)[i - front]);
                },
            }
        }
    }
}

proof fn lemma_hunks_coherent(diff: FileDiffModel, opts: BuildOptions, n: int)
    requires
        0 <= n <= diff.hunks.len(),
    ensures
        forall|i: int|
            0 <= i < rows_of_hunks(diff, opts, n).len() ==> side_coherent(
                #[trigger] rows_of_hunks(diff, opts, n)[i],
            ),
    decreases n,
{
    if n > 0 {
        let before = rows_of_hunks(diff, opts, n - 1);
        let own = hunk_rows(diff, opts, n - 1);
        let all = rows_of_hunks(diff, opts, n);
        lemma_hunks_coherent(diff, opts, n - 1);
        lemma_hunk_coherent(diff, opts, n - 1);
        assert forall|i: int| 0 <= i < all.len() implies side_coherent(#[trigger] all[i]) by {
            if i < before.len() {
                assert(all[i] == before[i]);
            } else {
                assert(all[i] == own[i - before.len()]);
            }
        }
    }
}

/// The rows of a diff keep every line on its own side.
pub proof fn rows_keep_their_sides(diff: FileDiffModel, opts: BuildOptions)
    ensures
        forall|i: int|
            0 <= i < diff_rows(diff, opts).len() ==> side_coherent(
                #[trigger] diff_rows(diff, opts)[i],
            ),
{
    let n = diff.hunks.len() as int;
    let hunks = rows_of_hunks(diff, opts, n);
    let all = diff_rows(diff, opts);
    lemma_hunks_coherent(diff, opts, n);
    assert forall|i: int| 0 <= i < all.len() implies side_coherent(#[trigger] all[i]) by {
        if i < hunks.len() {
            assert(all[i] == hunks[i]);
        } else {
            assert(all[i] == gap_rows(gap_after(diff))[i - hunks.len()]);
        }
    }
}

/// The rows of an expanded gap keep every line on its own side.
pub proof fn expansions_keep_their_sides(
    gap: GapModel,
    lines: Seq<Seq<char>>,
    mode: ViewMode,
    hunk: u32,
)
    ensures
        forall|i: int|
            0 <= i < expansion_rows(gap, lines, mode, hunk).len() ==> side_coherent(
                #[trigger] expansion_rows(gap, lines, mode, hunk)[i],
            ),
{
}

/// The header rows of a row stream, in order.
pub open spec fn headers_in(rows: Seq<RowModel>) -> Seq<RowModel>
    decreases rows.len(),
{
    if rows.len() == 0 {
        Seq::empty()
    } else if rows.last() is HunkHeader {
        headers_in(rows.drop_last()).push(rows.last())
    } else {
        headers_in(rows.drop_last())
    }
}

proof fn lemma_headers_concat(a: Seq<RowModel>, b: Seq<RowModel>)
    ensures
        headers_in(a + b) == headers_in(a) + headers_in(b),
    decreases b.len(),
{
    if b.len() == 0 {
        assert(a + b =~= a);
        assert(headers_in(a) + headers_in(b) =~= headers_in(a));
    } else {
        assert((a + b).drop_last() =~= a + b.drop_last());
        lemma_headers_concat(a, b.drop_last());
        assert(headers_in(a + b) =~= headers_in(a) + headers_in(b));
    }
}

proof fn lemma_no_headers(rows: Seq<RowModel>)
    requires
        forall|i: int| 0 <= i < rows.len() ==> !((#[trigger] rows[i]) is HunkHeader),
    ensures
        headers_in(rows) == Seq::<RowModel>::empty(),
    decreases rows.len(),
{
    if rows.len() > 0 {
        let init = rows.drop_last();
        assert forall|i: int| 0 <= i < init.len() implies !((#[trigger] init[i]) is HunkHeader) by {
            assert(init[i] == rows[i]);
        }
        lemma_no_headers(init);
        assert(!(rows[rows.len() - 1] is HunkHeader));
    }
}

proof fn lemma_split_rows_are_lines(
    hunk: u32,
    lines: Seq<DiffLineModel>,
    ranges: Seq<Seq<Range>>,
    from: int,
)
    requires
        0 <= from <= lines.len(),
    ensures
        forall|i: int|
            0 <= i < split_rows(hunk, lines, ranges, from).len() ==> (#[trigger] split_rows(
                hunk,
                lines,
                ranges,
                from,
            )[i]) is Split,
    decreases lines.len() - from,
{
    let all = split_rows(hunk, lines, ranges, from);
    if from < lines.len() {
        if lines[from].kind == LineKind::Context {
            lemma_split_rows_are_lines(hunk, lines, ranges, from + 1);
            let rest = split_rows(hunk, lines, ranges, from + 1);
            assert forall|i: int| 0 <= i < all.len() implies (#[trigger] all[i]) is Split by {
                if i > 0 {
                    assert(all[i] == rest[i - 1]);
                }
            }
        } else {
            lemma_block_end(lines, from);
            let end = block_end(lines, from);
            lemma_split_rows_are_lines(hunk, lines, ranges, end);
            let block = block_rows(hunk, lines, ranges, from, end);
            let rest = split_rows(hunk, lines, ranges, end);
            assert forall|i: int| 0 <= i < all.len() implies (#[trigger] all[i]) is Split by {
                if i < block.len() {
                    assert(all[i] == block[i]);
                } else {
                    assert(all[i] == rest[i - block.len()]);
                }
            }
        }
    }
}

proof fn lemma_hunk_headers(diff: FileDiffModel, opts: BuildOptions, n: int)
    requires
        0 <= n <= diff.hunks.len(),
    ensures
        headers_in(rows_of_hunks(diff, opts, n)) == Seq::new(
            n as nat,
            |i: int| header_row(i, diff.hunks[i]),
        ),
    decreases n,
{
    let goal = Seq::new(n as nat, |i: int| header_row(i, diff.hunks[i]));
    if n > 0 {
        let idx = n - 1;
        lemma_hunk_headers(diff, opts, idx);
        let hunk = diff.hunks[idx];
        let ranges = hunk_ranges(hunk.lines, opts.word_diff);
        let gap = gap_rows(gap_before(diff, idx));
        let front = gap.push(header_row(idx, hunk));
        let body = match opts.mode {
            ViewMode::Unified => unified_rows(idx as u32, hunk.lines, ranges),
            ViewMode::Split => split_rows(idx as u32, hunk.lines, ranges, 0),
        };
        assert(hunk_rows(diff, opts, idx) == front + body);
        lemma_headers_concat(rows_of_hunks(diff, opts, idx), hunk_rows(diff, opts, idx));
        lemma_headers_concat(front, body);
        lemma_no_headers(gap);
        assert(front.drop_last() =~= gap);
        lemma_split_rows_are_lines(idx as u32, hunk.lines, ranges, 0);
        lemma_no_headers(body);
        assert(headers_in(hunk_rows(diff, opts, idx)) =~= seq![header_row(idx, hunk)]);
    }
    assert(headers_in(rows_of_hunks(diff, opts, n)) =~= goal);
}

/// A text diff has one header row for each hunk, in the order of the hunks. So
/// has a placeholder, where it has no hunks.
pub proof fn every_hunk_has_one_header(diff: FileDiffModel, opts: BuildOptions)
    requires
        diff.kind is Text || diff.hunks.len() == 0,
    ensures
        headers_in(diff_rows(diff, opts)) == Seq::new(
            diff.hunks.len(),
            |i: int| header_row(i, diff.hunks[i]),
        ),
{
    let n = diff.hunks.len() as int;
    lemma_hunk_headers(diff, opts, n);
    lemma_headers_concat(rows_of_hunks(diff, opts, n), gap_rows(gap_after(diff)));
    lemma_no_headers(gap_rows(gap_after(diff)));
    assert(headers_in(diff_rows(diff, opts)) =~= Seq::new(
        diff.hunks.len(),
        |i: int| header_row(i, diff.hunks[i]),
    ));
}

/// What is binary or too large has no rows, whatever hunks it holds.
pub proof fn placeholders_have_no_rows(diff: FileDiffModel, opts: BuildOptions)
    requires
        !(diff.kind is Text),
    ensures
        diff_rows(diff, opts) == Seq::<RowModel>::empty(),
{
}

/// A final newline makes no difference to the rows of an expanded gap.
pub proof fn final_newlines_leave_expansions_alone(
    gap: GapModel,
    content: Seq<char>,
    mode: ViewMode,
    hunk: u32,
)
    requires
        content.len() > 0 ==> content.last() != '\n',
    ensures
        expansion_rows(gap, gap_lines(gap, content.push('\n')), mode, hunk) == expansion_rows(
            gap,
            gap_lines(gap, content),
            mode,
            hunk,
        ),
{
    lemma_final_newline_adds_no_line(content);
}

/// CRLF endings make no difference to the rows of an expanded gap.
pub proof fn crlf_endings_leave_expansions_alone(
    gap: GapModel,
    content: Seq<char>,
    mode: ViewMode,
    hunk: u32,
)
    requires
        !content.contains('\r'),
    ensures
        expansion_rows(gap, gap_lines(gap, with_crlf(content)), mode, hunk) == expansion_rows(
            gap,
            gap_lines(gap, content),
            mode,
            hunk,
        ),
{
    lemma_crlf_keeps_the_lines(content);
    assert(gap_lines(gap, with_crlf(content)) =~= gap_lines(gap, content));
}

} // verus!
