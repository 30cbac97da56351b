//! Per-file view state: the assembled [`FileView`] plus the expansion and
//! generation bookkeeping every frontend needs, derived in one place. A caller
//! reads an expansion straight off [`ViewState::expand`] and the cached view
//! it leaves behind, never by reloading.

use vstd::prelude::*;

use crate::anchor::{
    anchor_file_comments, anchor_target as anchor_target_of, anchored, placed, target_of,
    ActiveCell, AnchoredComment, PlacementModel,
};
use crate::model::{FileDiff, FileDiffModel, FileEntry, FileEntryModel};
use crate::projection::{group_indices, Group, PlacedComment, ReviewProjection};
use crate::review::Side;
use crate::rows::{
    copy_rows, diff_rows, expansion_rows, expansion_rows_from_content, gap_lines,
    gap_rows_are_consistent, gaps_distinct, is_gap, BuildOptions, GapInfo, GapModel, Row,
    RowModel, ViewMode,
};
use crate::search::{all_matches, search_rows, SearchMatch};
use crate::stack::{ascending, insert_name, lemma_with_name, with_name};
use crate::text::{
    all_digits, chars_of, copy_of, debug_text, decimal, decimal_text, decimal_value, digits_only,
    parse_u32, push_text, quoted, same_text, starts_with, text_le,
};
use crate::view::{
    file_view, view_gaps_are_named_once, view_rows, FileView, FileViewModel, ViewOptions,
};

verus! {

/// Why [`ViewState::expand`] could not apply an expansion.
#[derive(Debug, Clone, PartialEq, Eq)]
pub enum ExpandError {
    NoSuchGap { gap_id: String },
    InvalidGap { gap_id: String },
    StaleContent { expected: u64, got: u64 },
}

#[verifier::ext_equal]
pub enum ExpandErrorModel {
    NoSuchGap { gap_id: Seq<char> },
    InvalidGap { gap_id: Seq<char> },
    StaleContent { expected: u64, got: u64 },
}

impl DeepView for ExpandError {
    type V = ExpandErrorModel;

    open spec fn deep_view(&self) -> ExpandErrorModel {
        match *self {
            ExpandError::NoSuchGap { gap_id } => ExpandErrorModel::NoSuchGap { gap_id: gap_id@ },
            ExpandError::InvalidGap { gap_id } => ExpandErrorModel::InvalidGap { gap_id: gap_id@ },
            ExpandError::StaleContent { expected, got } => ExpandErrorModel::StaleContent {
                expected,
                got,
            },
        }
    }
}

impl ExpandErrorModel {
    /// The error in words.
    pub open spec fn text(self) -> Seq<char> {
        match self {
            ExpandErrorModel::NoSuchGap { gap_id } => "no gap "@ + debug_text(gap_id)
                + " in the current view"@,
            ExpandErrorModel::InvalidGap { gap_id } => "gap "@ + debug_text(gap_id)
                + " is internally inconsistent"@,
            ExpandErrorModel::StaleContent { expected, got } =>
                "stale content: view is at generation "@ + decimal_text(expected as nat)
                    + ", content is from "@ + decimal_text(got as nat),
        }
    }
}

impl ExpandError {
    pub fn message(&self) -> (r: String)
        ensures
            r@ == self.deep_view().text(),
    {
        match self {
            ExpandError::NoSuchGap { gap_id } => {
                let mut out: String = copy_of("no gap ");
                push_text(&mut out, quoted(gap_id.as_str()).as_str());
                push_text(&mut out, " in the current view");
                out
            },
            ExpandError::InvalidGap { gap_id } => {
                let mut out: String = copy_of("gap ");
                push_text(&mut out, quoted(gap_id.as_str()).as_str());
                push_text(&mut out, " is internally inconsistent");
                out
            },
            ExpandError::StaleContent { expected, got } => {
                let mut out: String = copy_of("stale content: view is at generation ");
                push_text(&mut out, decimal(*expected).as_str());
                push_text(&mut out, ", content is from ");
                push_text(&mut out, decimal(*got).as_str());
                out
            },
        }
    }
}

/// The result of successfully expanding one gap: the gap that was expanded,
/// where its rows now sit in the view, and the rows themselves -- enough for a
/// frontend to splice them into its own copy of the row stream, or simply to
/// repaint from the (already updated) cached [`FileView`].
#[derive(Debug, Clone)]
pub struct ExpansionResult {
    pub gap: GapInfo,
    pub at: usize,
    pub rows: Vec<Row>,
}

/// Everything one frontend needs to paint one file: the assembled view, and
/// its comments already anchored into that view's rows.
#[derive(Debug, Clone)]
pub struct FileProjection<'a> {
    pub view: &'a FileView,
    pub comments: Vec<AnchoredComment<'a>>,
}

/// One held expansion: the gap's id and the content it was opened with. The
/// content belongs to the generation of the state that holds it.
struct HeldExpansion {
    id: String,
    content: String,
}

/// A cached, paint-ready view of one file plus its expansion state, held
/// across calls so expanding a gap or changing view options never needs to
/// re-parse the diff.
pub struct ViewState {
    entry: FileEntry,
    diff: FileDiff,
    opts: ViewOptions,
    generation: u64,
    /// Held content for gaps the caller has actually expanded, replayed
    /// whenever the view is rebuilt.
    expansions: Vec<HeldExpansion>,
    /// Gap ids the caller wants expanded, in ascending order, independent of
    /// whether content is currently held for them. Survives a generation bump
    /// so the caller knows which gaps to re-supply content for after the file
    /// changes.
    wanted: Vec<String>,
    view: FileView,
}

/// What a view state is about. The view itself follows from these.
#[verifier::ext_equal]
pub struct ViewStateModel {
    pub entry: FileEntryModel,
    pub diff: FileDiffModel,
    pub opts: ViewOptions,
    pub generation: u64,
    /// The content held for each opened gap.
    pub held: Map<Seq<char>, Seq<char>>,
    pub wanted: Seq<Seq<char>>,
}

/// The content by gap id; a later entry wins.
spec fn held_map(held: Seq<HeldExpansion>) -> Map<Seq<char>, Seq<char>>
    decreases held.len(),
{
    if held.len() == 0 {
        Map::empty()
    } else {
        held_map(held.drop_last()).insert(held.last().id@, held.last().content@)
    }
}

/// The hunk a gap's expansion rows belong to: the gap's own index for a
/// `before:<idx>` gap, the last hunk for `trailing`.
pub open spec fn gap_hunk(id: Seq<char>, hunks: nat) -> u32 {
    let head = "before:"@;
    let tail = id.skip(head.len() as int);
    if head.is_prefix_of(id) && tail.len() > 0 && all_digits(tail) && decimal_value(tail)
        <= u32::MAX {
        decimal_value(tail) as u32
    } else if hunks == 0 {
        0
    } else {
        (hunks - 1) as u32
    }
}

/// What stands in a view for a row: an opened gap gives way to its lines.
pub open spec fn opened_row(
    row: RowModel,
    held: Map<Seq<char>, Seq<char>>,
    mode: ViewMode,
    hunks: nat,
) -> Seq<RowModel> {
    match row {
        RowModel::Gap { gap, .. } if held.contains_key(gap.id) => expansion_rows(
            gap,
            gap_lines(gap, held[gap.id]),
            mode,
            gap_hunk(gap.id, hunks),
        ),
        other => seq![other],
    }
}

/// A row stream with the held gaps opened.
pub open spec fn opened(
    rows: Seq<RowModel>,
    held: Map<Seq<char>, Seq<char>>,
    mode: ViewMode,
    hunks: nat,
) -> Seq<RowModel>
    decreases rows.len(),
{
    if rows.len() == 0 {
        Seq::empty()
    } else {
        opened(rows.drop_last(), held, mode, hunks) + opened_row(rows.last(), held, mode, hunks)
    }
}

/// Position of the gap of this id; the length where there is none.
pub open spec fn gap_position(rows: Seq<RowModel>, id: Seq<char>) -> int
    decreases rows.len(),
{
    if rows.len() == 0 {
        0
    } else {
        let before = gap_position(rows.drop_last(), id);
        if before < rows.len() - 1 || is_gap(rows.last(), id) {
            before
        } else {
            rows.len() as int
        }
    }
}

/// The gap of this id in a row stream.
pub open spec fn gap_named(rows: Seq<RowModel>, id: Seq<char>) -> Option<GapModel> {
    let at = gap_position(rows, id);
    if at < rows.len() {
        Some(rows[at]->gap)
    } else {
        None
    }
}

/// The named gaps that are in a row stream, in the order of the names.
pub open spec fn gaps_named(rows: Seq<RowModel>, ids: Seq<Seq<char>>) -> Seq<GapModel>
    decreases ids.len(),
{
    if ids.len() == 0 {
        Seq::empty()
    } else {
        let before = gaps_named(rows, ids.drop_last());
        match gap_named(rows, ids.last()) {
            Some(gap) => before.push(gap),
            None => before,
        }
    }
}

/// The ids of gaps.
pub open spec fn gap_ids(gaps: Seq<GapModel>) -> Seq<Seq<char>> {
    Seq::new(gaps.len(), |i: int| gaps[i].id)
}

/// Whether a gap is closed in a row stream.
pub open spec fn shows_gap(rows: Seq<RowModel>, gap: GapModel) -> bool {
    exists|i: int|
        0 <= i < rows.len() && (#[trigger] rows[i] matches RowModel::Gap { gap: g, .. } && g == gap)
}

impl ViewStateModel {
    /// The rows before any gap is opened.
    pub open spec fn closed_rows(self) -> Seq<RowModel> {
        view_rows(self.entry.path, self.diff, self.opts)
    }

    /// The rows that are shown.
    pub open spec fn shown_rows(self) -> Seq<RowModel> {
        opened(self.closed_rows(), self.held, self.opts.mode, self.diff.hunks.len())
    }

    /// The gaps that are wanted open and still closed, in the order of the
    /// wishes.
    pub open spec fn pending(self) -> Seq<GapModel> {
        gaps_named(self.shown_rows(), self.wanted)
    }

    /// The state with a diff loaded again: at the same generation the held
    /// content is kept, at another it is dropped. The wishes stay.
    pub open spec fn reloaded(
        self,
        entry: FileEntryModel,
        diff: FileDiffModel,
        generation: u64,
    ) -> ViewStateModel {
        ViewStateModel {
            entry,
            diff,
            generation,
            held: if generation == self.generation {
                self.held
            } else {
                Map::empty()
            },
            ..self
        }
    }

    /// The view that is shown.
    pub open spec fn shown(self) -> FileViewModel {
        FileViewModel { rows: self.shown_rows(), ..file_view(self.entry, self.diff, self.opts) }
    }

    /// Why an expansion does not apply, where it does not.
    pub open spec fn refusal(self, id: Seq<char>, content_generation: u64) -> Option<
        ExpandErrorModel,
    > {
        if content_generation != self.generation {
            Some(
                ExpandErrorModel::StaleContent {
                    expected: self.generation,
                    got: content_generation,
                },
            )
        } else {
            match gap_named(self.shown_rows(), id) {
                None => Some(ExpandErrorModel::NoSuchGap { gap_id: id }),
                Some(gap) => if gap.consistent() {
                    None
                } else {
                    Some(ExpandErrorModel::InvalidGap { gap_id: id })
                },
            }
        }
    }
}

/// Whether this is what opening a gap of a state came to: the gap, where it
/// stood, and the rows that take its place.
pub open spec fn expansion_of(
    state: ViewStateModel,
    id: Seq<char>,
    content: Seq<char>,
    done: ExpansionResult,
) -> bool {
    let rows = state.shown_rows();
    let at = gap_position(rows, id);
    let gap = rows[at]->gap;
    &&& done.gap.deep_view() == gap
    &&& done.at == at
    &&& done.rows.deep_view() == expansion_rows(
        gap,
        gap_lines(gap, content),
        state.opts.mode,
        gap_hunk(id, state.diff.hunks.len()),
    )
}

proof fn lemma_gap_position(rows: Seq<RowModel>, id: Seq<char>)
    ensures
        ({
            let at = gap_position(rows, id);
            &&& 0 <= at <= rows.len()
            &&& at < rows.len() ==> is_gap(rows[at], id)
            &&& forall|i: int| 0 <= i < at ==> !is_gap(#[trigger] rows[i], id)
        }),
    decreases rows.len(),
{
    if rows.len() > 0 {
        let init = rows.drop_last();
        lemma_gap_position(init, id);
        assert(forall|i: int| 0 <= i < init.len() ==> init[i] == rows[i]);
    }
}

proof fn lemma_gap_position_is(rows: Seq<RowModel>, id: Seq<char>, at: int)
    requires
        0 <= at <= rows.len(),
        at < rows.len() ==> is_gap(rows[at], id),
        forall|i: int| 0 <= i < at ==> !is_gap(#[trigger] rows[i], id),
    ensures
        gap_position(rows, id) == at,
{
    lemma_gap_position(rows, id);
    let found = gap_position(rows, id);
    if found < at {
        assert(is_gap(rows[found], id));
    } else if at < found {
        assert(is_gap(rows[at], id));
    }
}

/// A gap that is left in an opened stream is a gap of the stream whose
/// content is not held.
proof fn lemma_gaps_left(
    rows: Seq<RowModel>,
    held: Map<Seq<char>, Seq<char>>,
    mode: ViewMode,
    hunks: nat,
    id: Seq<char>,
)
    ensures
        forall|k: int|
            #![trigger opened(rows, held, mode, hunks)[k]]
            0 <= k < opened(rows, held, mode, hunks).len() && is_gap(
                opened(rows, held, mode, hunks)[k],
                id,
            ) ==> !held.contains_key(id) && exists|j: int|
                0 <= j < rows.len() && is_gap(#[trigger] rows[j], id),
    decreases rows.len(),
{
    if rows.len() > 0 {
        let init = rows.drop_last();
        let all = opened(rows, held, mode, hunks);
        let before = opened(init, held, mode, hunks);
        let piece = opened_row(rows.last(), held, mode, hunks);
        lemma_gaps_left(init, held, mode, hunks, id);
        assert forall|k: int| 0 <= k < all.len() && is_gap(#[trigger] all[k], id) implies
            !held.contains_key(id) && exists|j: int|
            0 <= j < rows.len() && is_gap(#[trigger] rows[j], id) by {
            if k < before.len() {
                assert(all[k] == before[k]);
                let j = choose|j: int| 0 <= j < init.len() && is_gap(#[trigger] init[j], id);
                assert(is_gap(rows[j], id));
            } else {
                assert(all[k] == piece[k - before.len()]);
                assert(is_gap(rows[rows.len() - 1], id));
            }
        }
    }
}

/// Content for a gap that is not in the stream changes nothing.
proof fn lemma_open_other(
    rows: Seq<RowModel>,
    held: Map<Seq<char>, Seq<char>>,
    mode: ViewMode,
    hunks: nat,
    id: Seq<char>,
    content: Seq<char>,
)
    requires
        forall|j: int| 0 <= j < rows.len() ==> !is_gap(#[trigger] rows[j], id),
    ensures
        opened(rows, held.insert(id, content), mode, hunks) == opened(rows, held, mode, hunks),
    decreases rows.len(),
{
    if rows.len() > 0 {
        let init = rows.drop_last();
        assert forall|j: int| 0 <= j < init.len() implies !is_gap(#[trigger] init[j], id) by {
            assert(init[j] == rows[j]);
        }
        lemma_open_other(init, held, mode, hunks, id, content);
        assert(!is_gap(rows[rows.len() - 1], id));
    }
}

/// Opening one more gap puts its lines in its place and moves nothing else.
proof fn lemma_open_one(
    rows: Seq<RowModel>,
    held: Map<Seq<char>, Seq<char>>,
    mode: ViewMode,
    hunks: nat,
    id: Seq<char>,
    content: Seq<char>,
    at: int,
)
    requires
        gaps_distinct(rows),
        0 <= at < opened(rows, held, mode, hunks).len(),
        is_gap(opened(rows, held, mode, hunks)[at], id),
    ensures
        ({
            let before = opened(rows, held, mode, hunks);
            let gap = before[at]->gap;
            opened(rows, held.insert(id, content), mode, hunks) == before.take(at) + expansion_rows(
                gap,
                gap_lines(gap, content),
                mode,
                gap_hunk(id, hunks),
            ) + before.skip(at + 1)
        }),
    decreases rows.len(),
{
    let shown = opened(rows, held, mode, hunks);
    let more = held.insert(id, content);
    lemma_gaps_left(rows, held, mode, hunks, id);
    assert(!held.contains_key(id));
    if rows.len() > 0 {
        let init = rows.drop_last();
        let last = rows.last();
        let head = opened(init, held, mode, hunks);
        let piece = opened_row(last, held, mode, hunks);
        assert(shown == head + piece);
        assert(gaps_distinct(init)) by {
            assert forall|i: int, j: int|
                0 <= i < j < init.len() && #[trigger] init[i] is Gap implies !is_gap(
                #[trigger] init[j],
                init[i]->gap.id,
            ) by {
                assert(init[i] == rows[i] && init[j] == rows[j]);
            }
        }
        if is_gap(last, id) {
            assert forall|j: int| 0 <= j < init.len() implies !is_gap(#[trigger] init[j], id) by {
                assert(init[j] == rows[j]);
                assert(rows[rows.len() - 1] == last);
            }
            lemma_open_other(init, held, mode, hunks, id, content);
            lemma_gaps_left(init, held, mode, hunks, id);
            assert(piece == seq![last]);
            if at < head.len() {
                assert(head[at] == shown[at]);
                assert(false);
            }
            assert(at == head.len());
            assert(shown.take(at) =~= head);
            assert(shown.skip(at + 1) =~= Seq::<RowModel>::empty());
            let gap = shown[at]->gap;
            let lines = expansion_rows(gap, gap_lines(gap, content), mode, gap_hunk(id, hunks));
            assert(opened_row(last, more, mode, hunks) == lines);
            assert(opened(rows, more, mode, hunks) == head + lines);
            assert(shown.take(at) + lines + shown.skip(at + 1) =~= head + lines);
        } else {
            if at >= head.len() {
                assert(shown[at] == piece[at - head.len()]);
                assert(false);
            }
            assert(head[at] == shown[at]);
            lemma_open_one(init, held, mode, hunks, id, content, at);
            assert(opened_row(last, more, mode, hunks) == piece);
            let gap = shown[at]->gap;
            let lines = expansion_rows(gap, gap_lines(gap, content), mode, gap_hunk(id, hunks));
            assert(opened(rows, more, mode, hunks) == head.take(at) + lines + head.skip(at + 1)
                + piece);
            assert(shown.take(at) =~= head.take(at));
            assert(shown.skip(at + 1) =~= head.skip(at + 1) + piece);
            assert(shown.take(at) + lines + shown.skip(at + 1) =~= head.take(at) + lines
                + head.skip(at + 1) + piece);
        }
    }
}

fn hunk_for_gap(gap: &GapInfo, hunks: usize) -> (r: u32)
    ensures
        r == gap_hunk(gap.id@, hunks as nat),
{
    let id: Vec<char> = chars_of(gap.id.as_str());
    proof {
        reveal_strlit("before:");
    }
    if starts_with(id.as_slice(), "before:") {
        let tail: &[char] = vstd::slice::slice_subrange(id.as_slice(), 7, id.len());
        assert(tail@ =~= gap.id@.skip(7));
        if tail.len() > 0 && digits_only(tail) {
            if let Some(idx) = parse_u32(tail) {
                return idx;
            }
        }
    }
    if hunks == 0 {
        0
    } else {
        #[verifier::truncate]
        let last: u32 = (hunks - 1) as u32;
        last
    }
}

fn find_gap(rows: &Vec<Row>, id: &str) -> (r: usize)
    ensures
        r == gap_position(rows.deep_view(), id@),
        r <= rows.len(),
        r < rows.len() ==> rows[r as int] is Gap,
{
    let ghost model = rows.deep_view();
    let mut i: usize = 0;
    while i < rows.len()
        invariant
            i <= rows.len(),
            model == rows.deep_view(),
            model.len() == rows.len(),
            forall|k: int| 0 <= k < i ==> !is_gap(#[trigger] model[k], id@),
        decreases rows.len() - i,
    {
        assert(model[i as int] == rows[i as int].deep_view());
        if let Row::Gap { gap, .. } = &rows[i] {
            if same_text(gap.id.as_str(), id) {
                proof {
                    lemma_gap_position_is(model, id@, i as int);
                }
                return i;
            }
        }
        i += 1;
    }
    proof {
        lemma_gap_position_is(model, id@, i as int);
    }
    i
}

fn held_content<'a>(held: &'a Vec<HeldExpansion>, id: &str) -> (r: Option<&'a str>)
    ensures
        match r {
            Some(content) => held_map(held@).contains_key(id@) && held_map(held@)[id@] == content@,
            None => !held_map(held@).contains_key(id@),
        },
{
    let mut i: usize = held.len();
    assert(held@.take(i as int) =~= held@);
    while i > 0
        invariant
            i <= held.len(),
            held_map(held@).contains_key(id@) == held_map(held@.take(i as int)).contains_key(id@),
            held_map(held@).contains_key(id@) ==> held_map(held@)[id@] == held_map(
                held@.take(i as int),
            )[id@],
        decreases i,
    {
        assert(held@.take(i as int).drop_last() =~= held@.take(i - 1));
        assert(held@.take(i as int).last() == held@[i - 1]);
        if same_text(held[i - 1].id.as_str(), id) {
            return Some(held[i - 1].content.as_str());
        }
        i -= 1;
    }
    None
}

/// Opens the held gaps of a row stream.
fn open_rows(rows: Vec<Row>, held: &Vec<HeldExpansion>, mode: ViewMode, hunks: usize) -> (r: Vec<
    Row,
>)
    ensures
        r.deep_view() == opened(rows.deep_view(), held_map(held@), mode, hunks as nat),
{
    let ghost model = rows.deep_view();
    let ghost map = held_map(held@);
    let mut out: Vec<Row> = Vec::new();
    assert(out.deep_view() =~= Seq::empty());
    assert(model.take(0) =~= Seq::empty());
    for row in it: rows.into_iter()
        invariant
            it.seq() == rows@,
            model == rows.deep_view(),
            map == held_map(held@),
            out.deep_view() == opened(model.take(it.index()), map, mode, hunks as nat),
    {
        let ghost i = it.index();
        let ghost before = out.deep_view();
        proof {
            assert(row == rows@[i]);
            assert(model[i] == row.deep_view());
            assert(model.take(i + 1).drop_last() =~= model.take(i));
            assert(model.take(i + 1).last() == model[i]);
        }
        let content: Option<&str> = match &row {
            Row::Gap { gap, .. } => held_content(held, gap.id.as_str()),
            _ => None,
        };
        match (&row, content) {
            (Row::Gap { gap, .. }, Some(content)) => {
                let mut lines: Vec<Row> = expansion_rows_from_content(
                    gap,
                    content,
                    mode,
                    hunk_for_gap(gap, hunks),
                );
                let ghost piece = lines.deep_view();
                out.append(&mut lines);
                assert(out.deep_view() =~= before + piece);
            },
            _ => {
                out.push(row);
                assert(out.deep_view() =~= before + seq![row.deep_view()]);
            },
        }
    }
    assert(model.take(model.len() as int) =~= model);
    out
}

/// Puts rows in the place of one.
fn replace_row(rows: &mut Vec<Row>, at: usize, lines: Vec<Row>)
    requires
        at < old(rows)@.len(),
    ensures
        final(rows).deep_view() == old(rows).deep_view().take(at as int) + lines.deep_view() + old(
            rows,
        ).deep_view().skip(at + 1),
{
    let ghost start = rows.deep_view();
    let ghost middle = lines.deep_view();
    let mut lines: Vec<Row> = lines;
    let mut tail: Vec<Row> = rows.split_off(at);
    tail.remove(0);
    rows.append(&mut lines);
    rows.append(&mut tail);
    assert(rows.deep_view() =~= start.take(at as int) + middle + start.skip(at + 1));
}

/// The view of a state: the file's view with the held gaps opened.
fn build_view(
    entry: &FileEntry,
    diff: &FileDiff,
    opts: ViewOptions,
    held: &Vec<HeldExpansion>,
) -> (r: FileView)
    ensures
        ({
            let base = file_view(entry.deep_view(), diff.deep_view(), opts);
            r.deep_view() == (FileViewModel {
                rows: opened(base.rows, held_map(held@), opts.mode, diff.deep_view().hunks.len()),
                ..base
            })
        }),
{
    let mut view: FileView = FileView::assemble(entry, diff, opts);
    let mut rows: Vec<Row> = Vec::new();
    core::mem::swap(&mut rows, &mut view.rows);
    view.rows = open_rows(rows, held, opts.mode, diff.hunks.len());
    view
}

impl DeepView for ViewState {
    type V = ViewStateModel;

    closed spec fn deep_view(&self) -> ViewStateModel {
        ViewStateModel {
            entry: self.entry.deep_view(),
            diff: self.diff.deep_view(),
            opts: self.opts,
            generation: self.generation,
            held: held_map(self.expansions@),
            wanted: self.wanted.deep_view(),
        }
    }
}

impl ViewState {
    /// The cached view is the one that the rest of the state calls for, and the
    /// wanted ids stand in ascending order, each once.
    pub closed spec fn wf(&self) -> bool {
        &&& self.view.deep_view() == self.deep_view().shown()
        &&& ascending(self.deep_view().wanted)
    }

    pub fn new(
        entry: FileEntry,
        diff: FileDiff,
        opts: ViewOptions,
        generation: u64,
    ) -> (r: ViewState)
        ensures
            r.wf(),
            r.deep_view() == (ViewStateModel {
                entry: entry.deep_view(),
                diff: diff.deep_view(),
                opts,
                generation,
                held: Map::empty(),
                wanted: Seq::empty(),
            }),
    {
        let expansions: Vec<HeldExpansion> = Vec::new();
        let view: FileView = build_view(&entry, &diff, opts, &expansions);
        let r = ViewState { entry, diff, opts, generation, expansions, wanted: Vec::new(), view };
        assert(r.wanted.deep_view() =~= Seq::empty());
        r
    }

    pub fn path(&self) -> (r: &str)
        ensures
            r@ == self.deep_view().entry.path,
    {
        self.entry.path.as_str()
    }

    pub fn entry(&self) -> (r: &FileEntry)
        ensures
            r.deep_view() == self.deep_view().entry,
    {
        &self.entry
    }

    pub fn generation(&self) -> (r: u64)
        ensures
            r == self.deep_view().generation,
    {
        self.generation
    }

    pub fn options(&self) -> (r: ViewOptions)
        ensures
            r == self.deep_view().opts,
    {
        self.opts
    }

    pub fn view(&self) -> (r: &FileView)
        requires
            self.wf(),
        ensures
            r.deep_view() == self.deep_view().shown(),
    {
        &self.view
    }

    /// Rebuild the view under new options, then replay every held expansion
    /// over the fresh row stream so an option change (word-diff off, split vs
    /// unified, theme) never collapses gaps the caller had already opened.
    pub fn set_options(&mut self, opts: ViewOptions)
        requires
            old(self).wf(),
        ensures
            final(self).wf(),
            final(self).deep_view() == (ViewStateModel { opts, ..old(self).deep_view() }),
    {
        self.opts = opts;
        self.view = build_view(&self.entry, &self.diff, self.opts, &self.expansions);
    }

    /// Fold in a reloaded diff. Same generation means the content did not
    /// actually change (only metadata, or a redundant reload): held expansions
    /// are replayed as-is. A new generation means the diff may have changed
    /// underneath any held expansion content, so that content is dropped --
    /// but `wanted` is kept, so the caller knows which gaps still need
    /// re-expanding once it has fresh content for them.
    pub fn reload(&mut self, entry: FileEntry, diff: FileDiff, generation: u64)
        requires
            old(self).wf(),
        ensures
            final(self).wf(),
            final(self).deep_view() == old(self).deep_view().reloaded(
                entry.deep_view(),
                diff.deep_view(),
                generation,
            ),
    {
        self.entry = entry;
        self.diff = diff;
        if generation != self.generation {
            self.expansions = Vec::new();
            self.generation = generation;
        }
        self.view = build_view(&self.entry, &self.diff, self.opts, &self.expansions);
    }

    pub fn gap(&self, id: &str) -> (r: Option<&GapInfo>)
        requires
            self.wf(),
        ensures
            r.deep_view() == gap_named(self.deep_view().shown_rows(), id@),
    {
        let ghost model = self.view.rows.deep_view();
        let at: usize = find_gap(&self.view.rows, id);
        if at < self.view.rows.len() {
            assert(model[at as int] == self.view.rows[at as int].deep_view());
            match &self.view.rows[at] {
                Row::Gap { gap, .. } => Some(gap),
                _ => None,
            }
        } else {
            None
        }
    }

    /// The wanted gap ids, in ascending order.
    pub fn wanted(&self) -> (r: &Vec<String>)
        requires
            self.wf(),
        ensures
            r.deep_view() == self.deep_view().wanted,
            ascending(r.deep_view()),
    {
        &self.wanted
    }

    pub fn mark_wanted(&mut self, gap_id: &str)
        ensures
            old(self).wf() ==> final(self).wf(),
            final(self).deep_view() == (ViewStateModel {
                wanted: with_name(old(self).deep_view().wanted, gap_id@),
                ..old(self).deep_view()
            }),
    {
        proof {
            if self.wf() {
                lemma_with_name(self.deep_view().wanted, gap_id@);
            }
        }
        insert_name(&mut self.wanted, gap_id);
    }

    /// Gaps the caller wants expanded that are still collapsed in the current
    /// view -- what the caller needs to fetch content for (again, after a
    /// generation bump dropped the previous content).
    pub fn pending_expansions(&self) -> (r: Vec<GapInfo>)
        requires
            self.wf(),
        ensures
            r.deep_view() == self.deep_view().pending(),
            ascending(gap_ids(r.deep_view())),
            forall|gap: GapModel| #[trigger]
                r.deep_view().contains(gap) <==> self.deep_view().wanted.contains(gap.id)
                    && shows_gap(self.deep_view().shown_rows(), gap),
    {
        proof {
            pending_gaps_are_the_wanted_ones(self.deep_view());
        }
        let ghost rows = self.deep_view().shown_rows();
        let ghost ids = self.wanted.deep_view();
        let mut out: Vec<GapInfo> = Vec::new();
        assert(out.deep_view() =~= Seq::empty());
        assert(ids.take(0) =~= Seq::empty());
        let mut i: usize = 0;
        while i < self.wanted.len()
            invariant
                i <= self.wanted.len(),
                self.wf(),
                rows == self.deep_view().shown_rows(),
                ids == self.wanted.deep_view(),
                ids.len() == self.wanted.len(),
                out.deep_view() == gaps_named(rows, ids.take(i as int)),
            decreases self.wanted.len() - i,
        {
            let ghost before = out.deep_view();
            proof {
                assert(ids[i as int] == self.wanted[i as int]@);
                assert(ids.take(i + 1).drop_last() =~= ids.take(i as int));
                assert(ids.take(i + 1).last() == ids[i as int]);
            }
            if let Some(gap) = self.gap(self.wanted[i].as_str()) {
                let copy: GapInfo = gap.clone();
                out.push(copy);
                assert(out.deep_view() =~= before.push(copy.deep_view()));
            }
            i += 1;
        }
        assert(ids.take(i as int) =~= ids);
        out
    }

    /// Expand one collapsed gap using `content` (the new-side file text) at
    /// `content_generation`. Splices the resulting rows into the cached view
    /// so the caller can simply repaint from [`ViewState::view`] afterwards.
    pub fn expand(&mut self, gap_id: &str, content: &str, content_generation: u64) -> (r: Result<
        ExpansionResult,
        ExpandError,
    >)
        requires
            old(self).wf(),
        ensures
            final(self).wf(),
            match (old(self).deep_view().refusal(gap_id@, content_generation), r) {
                (Some(error), Err(e)) => e.deep_view() == error && *final(self) == *old(self),
                (None, Ok(done)) => {
                    let before = old(self).deep_view();
                    let rows = before.shown_rows();
                    let at = gap_position(rows, gap_id@);
                    &&& expansion_of(before, gap_id@, content@, done)
                    &&& final(self).deep_view() == (ViewStateModel {
                        held: before.held.insert(gap_id@, content@),
                        ..before
                    })
                    &&& final(self).deep_view().shown_rows() == rows.take(at)
                        + done.rows.deep_view() + rows.skip(at + 1)
                },
                _ => false,
            },
    {
        let ghost before = self.deep_view();
        let ghost shown = self.view.rows.deep_view();
        if content_generation != self.generation {
            return Err(
                ExpandError::StaleContent { expected: self.generation, got: content_generation },
            );
        }
        let at: usize = find_gap(&self.view.rows, gap_id);
        proof {
            lemma_gap_position(shown, gap_id@);
        }
        if at >= self.view.rows.len() {
            return Err(ExpandError::NoSuchGap { gap_id: copy_of(gap_id) });
        }
        assert(shown[at as int] == self.view.rows[at as int].deep_view());
        let gap: GapInfo = match &self.view.rows[at] {
            Row::Gap { gap, .. } => gap.clone(),
            _ => {
                return Err(ExpandError::NoSuchGap { gap_id: copy_of(gap_id) });
            },
        };
        if !gap.is_consistent() {
            return Err(ExpandError::InvalidGap { gap_id: copy_of(gap_id) });
        }
        let hunk: u32 = hunk_for_gap(&gap, self.diff.hunks.len());
        let rows: Vec<Row> = expansion_rows_from_content(&gap, content, self.opts.mode, hunk);
        let lines: Vec<Row> = copy_rows(&rows);
        replace_row(&mut self.view.rows, at, lines);
        let ghost held = self.expansions@;
        self.expansions.push(HeldExpansion { id: copy_of(gap_id), content: copy_of(content) });
        proof {
            assert(self.expansions@.drop_last() =~= held);
            assert(held_map(self.expansions@) == before.held.insert(gap_id@, content@));
            view_gaps_are_named_once(before.entry.path, before.diff, before.opts);
            lemma_open_one(
                before.closed_rows(),
                before.held,
                before.opts.mode,
                before.diff.hunks.len(),
                gap_id@,
                content@,
                at as int,
            );
            assert(self.view.deep_view() =~= self.deep_view().shown());
        }
        Ok(ExpansionResult { gap, at, rows })
    }

    /// This file's comments, anchored into the current view's rows.
    pub fn file_projection<'a>(
        &'a self,
        projection: &ReviewProjection<'a>,
    ) -> (r: FileProjection<'a>)
        requires
            self.wf(),
        ensures
            r.view.deep_view() == self.deep_view().shown(),
            ({
                let idx = group_indices(
                    projection.comment_models(),
                    Group::File { path: self.deep_view().entry.path },
                    projection.file_models(),
                    projection.scope_model(),
                    projection.comment_models().len() as int,
                );
                &&& r.comments@.len() == idx.len()
                &&& forall|k: int|
                    0 <= k < r.comments@.len() ==> {
                        let p = #[trigger] r.comments@[k];
                        let c = projection.comment_models()[idx[k]];
                        &&& p.index == idx[k]
                        &&& *p.comment == projection.comment_list()[idx[k]]
                        &&& p.anchor.deep_view() == anchored(
                            self.deep_view().shown_rows(),
                            p.comment.deep_view(),
                        )
                        &&& match placed(c, projection.file_models(), projection.scope_model()) {
                            PlacementModel::File { was_path: Some(old), .. } =>
                                p.was_path matches Some(w) && w@ == old,
                            _ => p.was_path is None,
                        }
                    }
            }),
    {
        let placed_here: Vec<PlacedComment<'a>> = projection.file_comments(self.path());
        FileProjection {
            view: &self.view,
            comments: anchor_file_comments(self.view.rows.as_slice(), placed_here.as_slice()),
        }
    }

    pub fn search(&self, query: &str) -> (r: Vec<SearchMatch>)
        requires
            self.wf(),
        ensures
            r@ == all_matches(self.deep_view().shown_rows(), query@),
    {
        search_rows(self.view.rows.as_slice(), query)
    }

    pub fn anchor_target(&self, row: usize, cell: ActiveCell) -> (r: Option<(Side, u32)>)
        requires
            self.wf(),
        ensures
            r == (if row < self.deep_view().shown_rows().len() {
                target_of(self.deep_view().shown_rows()[row as int], cell)
            } else {
                None
            }),
    {
        let ghost rows = self.view.rows.deep_view();
        if row < self.view.rows.len() {
            assert(rows[row as int] == self.view.rows[row as int].deep_view());
            anchor_target_of(&self.view.rows[row], cell)
        } else {
            None
        }
    }
}

// --------------------------------------------------------------------- laws

/// A gap that was opened stays open whatever the options: no view of the state
/// shows a gap whose content is held.
pub proof fn opened_gaps_stay_open(state: ViewStateModel, opts: ViewOptions, id: Seq<char>)
    requires
        state.held.contains_key(id),
    ensures
        gap_named((ViewStateModel { opts, ..state }).shown_rows(), id) is None,
{
    let next = ViewStateModel { opts, ..state };
    lemma_gaps_left(next.closed_rows(), next.held, opts.mode, next.diff.hunks.len(), id);
    lemma_gap_position(next.shown_rows(), id);
}

/// Opening two gaps comes to the same view in either order.
pub proof fn openings_commute(
    state: ViewStateModel,
    a: Seq<char>,
    a_content: Seq<char>,
    b: Seq<char>,
    b_content: Seq<char>,
)
    requires
        a != b,
    ensures
        (ViewStateModel {
            held: state.held.insert(a, a_content).insert(b, b_content),
            ..state
        }).shown() == (ViewStateModel {
            held: state.held.insert(b, b_content).insert(a, a_content),
            ..state
        }).shown(),
{
    assert(state.held.insert(a, a_content).insert(b, b_content) =~= state.held.insert(
        b,
        b_content,
    ).insert(a, a_content));
}

proof fn lemma_opened_gaps_consistent(
    rows: Seq<RowModel>,
    held: Map<Seq<char>, Seq<char>>,
    mode: ViewMode,
    hunks: nat,
)
    requires
        forall|i: int| 0 <= i < rows.len() && #[trigger] rows[i] is Gap ==> rows[i]->gap.consistent(),
    ensures
        forall|i: int|
            #![trigger opened(rows, held, mode, hunks)[i]]
            0 <= i < opened(rows, held, mode, hunks).len() && opened(rows, held, mode, hunks)[i] is Gap
                ==> opened(rows, held, mode, hunks)[i]->gap.consistent(),
    decreases rows.len(),
{
    if rows.len() > 0 {
        let init = rows.drop_last();
        let all = opened(rows, held, mode, hunks);
        let before = opened(init, held, mode, hunks);
        assert(forall|i: int| 0 <= i < init.len() ==> init[i] == rows[i]);
        lemma_opened_gaps_consistent(init, held, mode, hunks);
        assert forall|i: int| 0 <= i < all.len() && #[trigger] all[i] is Gap implies
            all[i]->gap.consistent() by {
            if i < before.len() {
                assert(all[i] == before[i]);
            } else {
                assert(all[i] == opened_row(rows.last(), held, mode, hunks)[i - before.len()]);
                assert(all[i] == rows[rows.len() - 1]);
            }
        }
    }
}

/// Every gap that is still closed can be opened: with content of the state's
/// generation the only refusal is that there is no such gap.
pub proof fn closed_gaps_can_be_opened(state: ViewStateModel, id: Seq<char>)
    requires
        gap_named(state.shown_rows(), id) is Some,
    ensures
        state.refusal(id, state.generation) is None,
{
    let build = BuildOptions { mode: state.opts.mode, word_diff: state.opts.word_diff };
    gap_rows_are_consistent(state.diff, build);
    let rows = diff_rows(state.diff, build);
    let closed = state.closed_rows();
    assert forall|i: int| 0 <= i < closed.len() && #[trigger] closed[i] is Gap implies
        closed[i]->gap.consistent() by {
        assert(closed[i] == rows[i]);
    }
    lemma_opened_gaps_consistent(closed, state.held, state.opts.mode, state.diff.hunks.len());
    lemma_gap_position(state.shown_rows(), id);
}

/// The named gaps of a stream: each stands for a name, in the order of the names.
proof fn lemma_gaps_named(rows: Seq<RowModel>, ids: Seq<Seq<char>>)
    requires
        ascending(ids),
    ensures
        ascending(gap_ids(gaps_named(rows, ids))),
        forall|k: int|
            0 <= k < gaps_named(rows, ids).len() ==> ids.contains(
                (#[trigger] gaps_named(rows, ids)[k]).id,
            ) && gap_named(rows, gaps_named(rows, ids)[k].id) == Some(gaps_named(rows, ids)[k]),
        forall|i: int|
            0 <= i < ids.len() ==> (gap_named(rows, #[trigger] ids[i]) matches Some(gap) ==> gap.id
                == ids[i] && gaps_named(rows, ids).contains(gap)),
    decreases ids.len(),
{
    let all = gaps_named(rows, ids);
    if ids.len() > 0 {
        let init = ids.drop_last();
        assert(ascending(init)) by {
            assert forall|i: int, j: int| 0 <= i < j < init.len() implies text_le(
                #[trigger] init[i],
                #[trigger] init[j],
            ) && init[i] != init[j] by {
                assert(text_le(ids[i], ids[j]));
            }
        }
        lemma_gaps_named(rows, init);
        lemma_gap_position(rows, ids.last());
        let before = gaps_named(rows, init);
        let names = gap_ids(before);
        assert forall|k: int| 0 <= k < all.len() implies ids.contains((#[trigger] all[k]).id)
            && gap_named(rows, all[k].id) == Some(all[k]) by {
            if k < before.len() {
                assert(all[k] == before[k]);
                let i = choose|i: int| 0 <= i < init.len() && init[i] == before[k].id;
                assert(ids[i] == all[k].id);
            } else {
                assert(ids[ids.len() - 1] == all[k].id);
            }
        }
        assert forall|i: int, j: int| 0 <= i < j < gap_ids(all).len() implies text_le(
            #[trigger] gap_ids(all)[i],
            #[trigger] gap_ids(all)[j],
        ) && gap_ids(all)[i] != gap_ids(all)[j] by {
            if j < before.len() {
                assert(text_le(names[i], names[j]) && names[i] != names[j]);
            } else {
                assert(all[i] == before[i]);
                let m = choose|m: int| 0 <= m < init.len() && init[m] == before[i].id;
                assert(text_le(ids[m], ids[ids.len() - 1]) && ids[m] != ids[ids.len() - 1]);
            }
        }
        assert forall|i: int| 0 <= i < ids.len() implies (gap_named(
            rows,
            #[trigger] ids[i],
        ) matches Some(gap) ==> gap.id == ids[i] && all.contains(gap)) by {
            if let Some(gap) = gap_named(rows, ids[i]) {
                if i < init.len() {
                    assert(init[i] == ids[i]);
                    assert(before.contains(gap));
                    let k = choose|k: int| 0 <= k < before.len() && before[k] == gap;
                    assert(all[k] == gap);
                } else {
                    assert(all[before.len() as int] == gap);
                }
            }
        }
    }
}

/// Opening gaps leaves the others with ids of their own.
proof fn lemma_opened_gaps_distinct(
    rows: Seq<RowModel>,
    held: Map<Seq<char>, Seq<char>>,
    mode: ViewMode,
    hunks: nat,
)
    requires
        gaps_distinct(rows),
    ensures
        gaps_distinct(opened(rows, held, mode, hunks)),
    decreases rows.len(),
{
    if rows.len() > 0 {
        let init = rows.drop_last();
        let all = opened(rows, held, mode, hunks);
        let before = opened(init, held, mode, hunks);
        let piece = opened_row(rows.last(), held, mode, hunks);
        assert(gaps_distinct(init)) by {
            assert forall|i: int, j: int|
                0 <= i < j < init.len() && #[trigger] init[i] is Gap implies !is_gap(
                #[trigger] init[j],
                init[i]->gap.id,
            ) by {
                assert(init[i] == rows[i] && init[j] == rows[j]);
            }
        }
        lemma_opened_gaps_distinct(init, held, mode, hunks);
        assert forall|i: int, j: int|
            0 <= i < j < all.len() && #[trigger] all[i] is Gap implies !is_gap(
            #[trigger] all[j],
            all[i]->gap.id,
        ) by {
            let id = all[i]->gap.id;
            if j < before.len() {
                assert(all[i] == before[i] && all[j] == before[j]);
            } else if i < before.len() {
                assert(all[i] == before[i]);
                assert(all[j] == piece[j - before.len()]);
                lemma_gaps_left(init, held, mode, hunks, id);
                assert(is_gap(before[i], id));
                let k = choose|k: int| 0 <= k < init.len() && is_gap(#[trigger] init[k], id);
                assert(rows[k] is Gap && rows[k]->gap.id == id);
                if is_gap(all[j], id) {
                    assert(all[j] == rows[rows.len() - 1]);
                }
            } else {
                assert(all[i] == piece[i - before.len()]);
                assert(all[j] == piece[j - before.len()]);
            }
        }
    }
}

/// The pending gaps are exactly the gaps that the view shows closed and that
/// are wanted open: each once, by ascending id.
pub proof fn pending_gaps_are_the_wanted_ones(state: ViewStateModel)
    requires
        ascending(state.wanted),
    ensures
        ascending(gap_ids(state.pending())),
        forall|gap: GapModel| #[trigger]
            state.pending().contains(gap) <==> state.wanted.contains(gap.id) && shows_gap(
                state.shown_rows(),
                gap,
            ),
{
    let rows = state.shown_rows();
    let all = state.pending();
    lemma_gaps_named(rows, state.wanted);
    view_gaps_are_named_once(state.entry.path, state.diff, state.opts);
    lemma_opened_gaps_distinct(
        state.closed_rows(),
        state.held,
        state.opts.mode,
        state.diff.hunks.len(),
    );
    assert forall|gap: GapModel| #[trigger]
        all.contains(gap) <==> state.wanted.contains(gap.id) && shows_gap(rows, gap) by {
        lemma_gap_position(rows, gap.id);
        let at = gap_position(rows, gap.id);
        if all.contains(gap) {
            let k = choose|k: int| 0 <= k < all.len() && all[k] == gap;
            assert(gap_named(rows, all[k].id) == Some(all[k]));
            assert(rows[at] is Gap && rows[at]->gap == gap);
        }
        if state.wanted.contains(gap.id) && shows_gap(rows, gap) {
            let i = choose|i: int|
                0 <= i < rows.len() && (#[trigger] rows[i] matches RowModel::Gap { gap: g, .. }
                    && g == gap);
            assert(is_gap(rows[i], gap.id));
            assert(at <= i);
            if at < i {
                assert(rows[at] is Gap && rows[at]->gap.id == gap.id);
            }
            let m = choose|m: int| 0 <= m < state.wanted.len() && state.wanted[m] == gap.id;
            assert(gap_named(rows, state.wanted[m]) == Some(gap));
        }
    }
}

/// A gap that was opened is not pending.
pub proof fn opened_gaps_are_not_pending(state: ViewStateModel, id: Seq<char>, content: Seq<char>)
    requires
        ascending(state.wanted),
    ensures
        ({
            let next = ViewStateModel { held: state.held.insert(id, content), ..state };
            !gap_ids(next.pending()).contains(id)
        }),
{
    let next = ViewStateModel { held: state.held.insert(id, content), ..state };
    let ids = gap_ids(next.pending());
    opened_gaps_stay_open(next, next.opts, id);
    lemma_gaps_named(next.shown_rows(), next.wanted);
    if ids.contains(id) {
        let k = choose|k: int| 0 <= k < ids.len() && ids[k] == id;
        assert(gap_named(next.shown_rows(), next.pending()[k].id) is Some);
    }
}

proof fn lemma_nothing_opened(rows: Seq<RowModel>, mode: ViewMode, hunks: nat)
    ensures
        opened(rows, Map::empty(), mode, hunks) == rows,
    decreases rows.len(),
{
    if rows.len() > 0 {
        lemma_nothing_opened(rows.drop_last(), mode, hunks);
        assert(rows =~= rows.drop_last() + seq![rows.last()]);
    }
}

/// After a reload to a new generation a wanted gap is pending again, where the
/// new view has it.
pub proof fn reloads_bring_wishes_back(
    state: ViewStateModel,
    entry: FileEntryModel,
    diff: FileDiffModel,
    generation: u64,
    gap: GapModel,
)
    requires
        ascending(state.wanted),
        generation != state.generation,
        state.wanted.contains(gap.id),
        shows_gap(view_rows(entry.path, diff, state.opts), gap),
    ensures
        state.reloaded(entry, diff, generation).pending().contains(gap),
{
    let next = state.reloaded(entry, diff, generation);
    lemma_nothing_opened(next.closed_rows(), next.opts.mode, next.diff.hunks.len());
    pending_gaps_are_the_wanted_ones(next);
}

} // verus!
