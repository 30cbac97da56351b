//! What a view does when gaps are opened and diffs are loaded again.

use vstd::prelude::*;

use crate::model::{FileDiffModel, FileEntryModel};
use crate::rows::{GapModel, RowModel, ViewMode};
use crate::text::{decimal_round_trip, decimal_text};
use crate::view_state::{
    gap_hunk, gap_named, gap_position, opened_row, ExpandErrorModel, ViewStateModel,
};

verus! {

/// Whether a row is a closed gap with this id.
pub open spec fn is_closed(row: RowModel, id: Seq<char>) -> bool {
    row matches RowModel::Gap { gap, .. } && gap.id == id
}

/// Whether row `at` is the first closed gap with this id.
pub open spec fn is_first_closed(rows: Seq<RowModel>, id: Seq<char>, at: int) -> bool {
    &&& 0 <= at < rows.len()
    &&& is_closed(rows[at], id)
    &&& forall|k: int| 0 <= k < at ==> !is_closed(#[trigger] rows[k], id)
}

/// Whether a gap says how many lines it hides: some, and as many on either
/// side.
pub open spec fn adds_up(gap: GapModel) -> bool {
    &&& gap.count >= 1
    &&& gap.old_range.0 + gap.count == gap.old_range.1 + 1
    &&& gap.new_range.0 + gap.count == gap.new_range.1 + 1
}

/// Content of another generation opens nothing, whatever the gap. At the
/// right generation a gap that is not shown cannot be opened, one that does
/// not add up is refused, and every other opens.
pub proof fn gaps_open_when_they_can(state: ViewStateModel, id: Seq<char>, generation: u64)
    ensures
        generation != state.generation ==> state.refusal(id, generation) == Some(
            ExpandErrorModel::StaleContent { expected: state.generation, got: generation },
        ),
        generation == state.generation && (forall|at: int|
            !(#[trigger] is_first_closed(state.shown_rows(), id, at))) ==> state.refusal(
            id,
            generation,
        ) == Some(ExpandErrorModel::NoSuchGap { gap_id: id }),
        generation == state.generation ==> forall|at: int| #[trigger]
            is_first_closed(state.shown_rows(), id, at) ==> state.refusal(id, generation)
                == if adds_up(state.shown_rows()[at]->gap) {
                None
            } else {
                Some(ExpandErrorModel::InvalidGap { gap_id: id })
            },
{
    let rows = state.shown_rows();
    lemma_position(rows, id);
    if gap_position(rows, id) < rows.len() {
        assert(is_first_closed(rows, id, gap_position(rows, id)));
    }
    assert forall|at: int| #[trigger] is_first_closed(rows, id, at) implies at == gap_position(
        rows,
        id,
    ) by {
        let first = gap_position(rows, id);
        if at < first {
            assert(!is_closed(rows[at], id));
        } else if first < at {
            assert(!is_closed(rows[first], id));
        }
    }
}

/// A gap is found by its id where it is shown closed.
pub proof fn gaps_are_found_by_id(rows: Seq<RowModel>, id: Seq<char>)
    ensures
        forall|at: int| #[trigger]
            is_first_closed(rows, id, at) ==> gap_named(rows, id) == Some(rows[at]->gap),
        (forall|at: int| !(#[trigger] is_first_closed(rows, id, at))) ==> gap_named(
            rows,
            id,
        ) is None,
{
    lemma_position(rows, id);
    let first = gap_position(rows, id);
    if first < rows.len() {
        assert(is_first_closed(rows, id, first));
    }
    assert forall|at: int| #[trigger] is_first_closed(rows, id, at) implies at == first by {
        if at < first {
            assert(!is_closed(rows[at], id));
        } else if first < at {
            assert(!is_closed(rows[first], id));
        }
    }
}

/// Loading again takes the new file and diff in and keeps the options and the
/// wishes. Opened gaps keep their content exactly where the generation is
/// the same.
pub proof fn reloads_keep_content_of_their_generation(
    state: ViewStateModel,
    entry: FileEntryModel,
    diff: FileDiffModel,
    generation: u64,
)
    ensures
        ({
            let after = state.reloaded(entry, diff, generation);
            &&& after.entry == entry
            &&& after.diff == diff
            &&& after.generation == generation
            &&& after.opts == state.opts
            &&& after.wanted == state.wanted
            &&& generation == state.generation ==> after.held == state.held
            &&& generation != state.generation ==> forall|id: Seq<char>|
                !(#[trigger] after.held.contains_key(id))
        }),
{
}

/// Whether a row is a line that came with an opened gap, at this hunk and in
/// this layout.
pub open spec fn came_with_gap(row: RowModel, mode: ViewMode, hunk: u32) -> bool {
    match row {
        RowModel::Unified { hunk: h, is_expansion, .. } => is_expansion && h == hunk && mode
            == ViewMode::Unified,
        RowModel::Split { hunk: h, is_expansion, .. } => is_expansion && h == hunk && mode
            == ViewMode::Split,
        _ => false,
    }
}

/// The lines of an opened gap belong to the hunk that the gap is named after,
/// and to the last one where it is not named after a hunk.
pub proof fn opened_lines_belong_to_their_hunk(
    key: Seq<char>,
    gap: GapModel,
    held: Map<Seq<char>, Seq<char>>,
    mode: ViewMode,
    hunks: nat,
    h: u32,
)
    requires
        held.contains_key(gap.id),
        gap.id == "before:"@ + decimal_text(h as nat) || (gap.id == "trailing"@ && hunks == h + 1),
    ensures
        ({
            let rows = opened_row(RowModel::Gap { key, gap }, held, mode, hunks);
            forall|k: int| 0 <= k < rows.len() ==> came_with_gap(#[trigger] rows[k], mode, h)
        }),
{
    let digits = decimal_text(h as nat);
    decimal_round_trip(h as nat);
    reveal_strlit("before:");
    reveal_strlit("trailing");
    if gap.id == "trailing"@ {
        assert("before:"@[0] == 'b');
        assert("trailing"@[0] == 't');
    } else {
        assert(gap.id.skip(7) =~= digits);
        assert(gap.id.take(7) =~= "before:"@);
    }
    assert(gap_hunk(gap.id, hunks) == h);
}

/// Rows other than opened gaps stay as they are.
pub proof fn other_rows_stay(
    row: RowModel,
    held: Map<Seq<char>, Seq<char>>,
    mode: ViewMode,
    hunks: nat,
)
    requires
        row matches RowModel::Gap { gap, .. } ==> !held.contains_key(gap.id),
    ensures
        opened_row(row, held, mode, hunks).len() == 1,
        opened_row(row, held, mode, hunks)[0] == row,
{
}

proof fn lemma_position(rows: Seq<RowModel>, id: Seq<char>)
    ensures
        0 <= gap_position(rows, id) <= rows.len(),
        gap_position(rows, id) < rows.len() ==> is_closed(rows[gap_position(rows, id)], id),
        forall|k: int| 0 <= k < gap_position(rows, id) ==> !is_closed(#[trigger] rows[k], id),
    decreases rows.len(),
{
    if rows.len() > 0 {
        let front = rows.drop_last();
        lemma_position(front, id);
        assert forall|k: int| 0 <= k < gap_position(rows, id) implies !is_closed(
            #[trigger] rows[k],
            id,
        ) by {
            if k < front.len() {
                assert(front[k] == rows[k]);
            }
        }
    }
}

} // verus!
