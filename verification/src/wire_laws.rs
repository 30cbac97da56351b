//! What goes out over the wire, told field by field.

use vstd::prelude::*;

use crate::goto::{LineSide, LineTarget};
use crate::json::{
    distinct_keys, lemma_key_index, lemma_with_member, lemma_with_other_member, lookup, with_member,
    JsonModel, MemberModel, NumberModel,
};
use crate::model::{FileEntry, FileStatus};
use crate::review::Side;
use crate::rows::{Cell, CellKind, GapInfo, Row};
use crate::search::{MatchCell, SearchMatch};
use crate::tree::TreeRow;
use crate::wire::{anchor_target_doc, cell_kind_name, status_name, Wire};

verus! {

/// The value of a field of a document; none where the document has no fields.
pub open spec fn field(doc: JsonModel, name: Seq<char>) -> Option<JsonModel> {
    match doc {
        JsonModel::Object(members) => lookup(members, name),
        _ => None,
    }
}

/// Whether a field is this number.
pub open spec fn is_number(doc: JsonModel, name: Seq<char>, n: int) -> bool {
    field(doc, name) matches Some(JsonModel::Number(NumberModel::Unsigned(v))) && v == n
}

/// Whether a field is this text.
pub open spec fn is_text(doc: JsonModel, name: Seq<char>, s: Seq<char>) -> bool {
    field(doc, name) == Some(JsonModel::Text(s))
}

/// Whether a field is this number, and null where there is none.
pub open spec fn is_number_or_null(doc: JsonModel, name: Seq<char>, n: Option<int>) -> bool {
    match n {
        Some(v) => is_number(doc, name, v),
        None => field(doc, name) == Some(JsonModel::Null),
    }
}

/// Whether a field is this number, and left out where there is none.
pub open spec fn is_number_or_out(doc: JsonModel, name: Seq<char>, n: Option<int>) -> bool {
    match n {
        Some(v) => is_number(doc, name, v),
        None => field(doc, name) is None,
    }
}

/// Whether a field is set, and left out where it is not.
pub open spec fn is_set_or_out(doc: JsonModel, name: Seq<char>, flag: bool) -> bool {
    field(doc, name) == if flag {
        Some(JsonModel::Bool(true))
    } else {
        None
    }
}

/// A number of 32 bits as any.
pub open spec fn as_int(n: Option<u32>) -> Option<int> {
    match n {
        Some(v) => Some(v as int),
        None => None,
    }
}

/// A row goes out with its type, its key and what it shows: a line with its
/// numbers, null on a side that lacks it, and split lines with a cell on
/// each side.
pub proof fn rows_go_out_as_they_are(row: Row)
    ensures
        match row {
            Row::HunkHeader { key, hunk, text } => {
                &&& is_text(row.doc(), "type"@, "hunkHeader"@)
                &&& is_text(row.doc(), "key"@, key@)
                &&& is_number(row.doc(), "hunk"@, hunk as int)
                &&& is_text(row.doc(), "text"@, text@)
            },
            Row::Gap { key, gap } => {
                &&& is_text(row.doc(), "type"@, "gap"@)
                &&& is_text(row.doc(), "key"@, key@)
                &&& field(row.doc(), "gap"@) == Some(gap.doc())
            },
            Row::Unified { key, hunk, old_num, new_num, cell, is_expansion } => {
                &&& is_text(row.doc(), "type"@, "unified"@)
                &&& is_text(row.doc(), "key"@, key@)
                &&& is_number(row.doc(), "hunk"@, hunk as int)
                &&& is_number_or_null(row.doc(), "oldNum"@, as_int(old_num))
                &&& is_number_or_null(row.doc(), "newNum"@, as_int(new_num))
                &&& field(row.doc(), "cell"@) == Some(cell.doc())
                &&& is_set_or_out(row.doc(), "isExpansion"@, is_expansion)
            },
            Row::Split { key, hunk, left, right, is_expansion } => {
                &&& is_text(row.doc(), "type"@, "split"@)
                &&& is_text(row.doc(), "key"@, key@)
                &&& is_number(row.doc(), "hunk"@, hunk as int)
                &&& field(row.doc(), "left"@) == Some(left.doc())
                &&& field(row.doc(), "right"@) == Some(right.doc())
                &&& is_set_or_out(row.doc(), "isExpansion"@, is_expansion)
            },
        },
{
    lemma_puts();
    reveal_strlit("type");
    reveal_strlit("key");
    reveal_strlit("hunk");
    reveal_strlit("text");
    reveal_strlit("gap");
    reveal_strlit("oldNum");
    reveal_strlit("newNum");
    reveal_strlit("cell");
    reveal_strlit("isExpansion");
    reveal_strlit("left");
    reveal_strlit("right");
    assert("type"@.len() == 4);
    assert("key"@.len() == 3);
    assert("hunk"@.len() == 4);
    assert("text"@.len() == 4);
    assert("gap"@.len() == 3);
    assert("oldNum"@.len() == 6);
    assert("newNum"@.len() == 6);
    assert("cell"@.len() == 4);
    assert("isExpansion"@.len() == 11);
    assert("left"@.len() == 4);
    assert("right"@.len() == 5);
    assert("type"@[0] == 't');
    assert("hunk"@[0] == 'h');
    assert("type"@[1] == 'y');
    assert("text"@[1] == 'e');
    assert("cell"@[0] == 'c');
    assert("left"@[0] == 'l');
    assert("text"@[0] == 't');
    assert("key"@[0] == 'k');
    assert("gap"@[0] == 'g');
    assert("oldNum"@[0] == 'o');
    assert("newNum"@[0] == 'n');
}

/// A gap goes out with its count and its range on each side, first line then
/// last.
pub proof fn gaps_go_out_as_they_are(gap: GapInfo)
    ensures
        is_text(gap.doc(), "id"@, gap.id@),
        is_number(gap.doc(), "count"@, gap.count as int),
        is_range(gap.doc(), "oldRange"@, gap.old_range),
        is_range(gap.doc(), "newRange"@, gap.new_range),
{
    lemma_puts();
    reveal_strlit("id");
    reveal_strlit("count");
    reveal_strlit("oldRange");
    reveal_strlit("newRange");
    assert("id"@.len() == 2);
    assert("count"@.len() == 5);
    assert("oldRange"@.len() == 8);
    assert("newRange"@.len() == 8);
    assert("oldRange"@[0] == 'o');
    assert("newRange"@[0] == 'n');
}

/// Whether a field is a range: its first number and its last.
pub open spec fn is_range(doc: JsonModel, name: Seq<char>, range: (u32, u32)) -> bool {
    field(doc, name) matches Some(JsonModel::Array(items)) && items.len() == 2 && items[0] == (
    JsonModel::Number(NumberModel::Unsigned(range.0 as u64))) && items[1] == (JsonModel::Number(
        NumberModel::Unsigned(range.1 as u64),
    ))
}

/// A cell goes out with its kind, its number where it has one, and its text;
/// lists of marks and spans are left out where they are empty.
pub proof fn cells_go_out_as_they_are(cell: Cell)
    ensures
        is_text(cell.doc(), "kind"@, cell_kind_name(cell.kind)),
        is_number_or_out(cell.doc(), "line"@, as_int(cell.line)),
        is_text(cell.doc(), "text"@, cell.text@),
        cell.word_ranges@.len() == 0 ==> field(cell.doc(), "wordRanges"@) is None,
        cell.word_ranges@.len() > 0 ==> (field(cell.doc(), "wordRanges"@) matches Some(
            JsonModel::Array(items),
        ) && items.len() == cell.word_ranges@.len() && forall|k: int|
            0 <= k < items.len() ==> #[trigger] items[k] == cell.word_ranges@[k].doc()),
        cell.hl@.len() == 0 ==> field(cell.doc(), "hl"@) is None,
        cell.hl@.len() > 0 ==> (field(cell.doc(), "hl"@) matches Some(JsonModel::Array(items))
            && items.len() == cell.hl@.len() && forall|k: int|
            0 <= k < items.len() ==> #[trigger] items[k] == cell.hl@[k].doc()),
{
    lemma_puts();
    reveal_strlit("kind");
    reveal_strlit("line");
    reveal_strlit("text");
    reveal_strlit("wordRanges");
    reveal_strlit("hl");
    assert("kind"@.len() == 4);
    assert("line"@.len() == 4);
    assert("text"@.len() == 4);
    assert("wordRanges"@.len() == 10);
    assert("hl"@.len() == 2);
    assert("kind"@[0] == 'k');
    assert("line"@[0] == 'l');
    assert("text"@[0] == 't');
}

/// A changed file goes out with its path and its status, and with its former
/// path and its counts where they are known.
pub proof fn files_go_out_as_they_are(entry: FileEntry)
    ensures
        is_text(entry.doc(), "path"@, entry.path@),
        is_text(entry.doc(), "status"@, status_name(entry.status)),
        entry.old_path is None ==> field(entry.doc(), "oldPath"@) is None,
        entry.old_path matches Some(old) ==> is_text(entry.doc(), "oldPath"@, old@),
        match entry.adds {
            Some(n) => is_number(entry.doc(), "adds"@, n as int),
            None => field(entry.doc(), "adds"@) is None,
        },
        match entry.dels {
            Some(n) => is_number(entry.doc(), "dels"@, n as int),
            None => field(entry.doc(), "dels"@) is None,
        },
{
    lemma_puts();
    reveal_strlit("path");
    reveal_strlit("oldPath");
    reveal_strlit("status");
    reveal_strlit("adds");
    reveal_strlit("dels");
    assert("path"@.len() == 4);
    assert("oldPath"@.len() == 7);
    assert("status"@.len() == 6);
    assert("adds"@.len() == 4);
    assert("dels"@.len() == 4);
    assert("path"@[0] == 'p');
    assert("adds"@[0] == 'a');
    assert("dels"@[0] == 'd');
}

/// A match goes out with its row, the cell it is in and its bytes.
pub proof fn matches_go_out_as_they_are(m: SearchMatch)
    ensures
        is_number(m.doc(), "row"@, m.row as int),
        is_number(m.doc(), "start"@, m.start as int),
        is_number(m.doc(), "end"@, m.end as int),
        m.cell == MatchCell::Unified <==> is_text(m.doc(), "cell"@, "unified"@),
        m.cell == MatchCell::Left <==> is_text(m.doc(), "cell"@, "left"@),
        m.cell == MatchCell::Right <==> is_text(m.doc(), "cell"@, "right"@),
{
    lemma_puts();
    reveal_strlit("row");
    reveal_strlit("cell");
    reveal_strlit("start");
    reveal_strlit("end");
    reveal_strlit("unified");
    reveal_strlit("left");
    reveal_strlit("right");
    assert("row"@.len() == 3);
    assert("cell"@.len() == 4);
    assert("start"@.len() == 5);
    assert("end"@.len() == 3);
    assert("unified"@.len() == 7);
    assert("left"@.len() == 4);
    assert("right"@.len() == 5);
    assert("row"@[0] == 'r');
    assert("end"@[0] == 'e');
    assert("cell"@[0] == 'c');
    assert("left"@[0] == 'l');
    assert("start"@[0] == 's');
    assert("right"@[0] == 'r');
}

/// Where a line number leads goes out as it was found.
pub proof fn line_targets_go_out_as_they_are(target: LineTarget)
    ensures
        match target {
            LineTarget::Exact { row, side } => {
                &&& is_text(target.doc(), "kind"@, "exact"@)
                &&& is_number(target.doc(), "row"@, row as int)
                &&& side == LineSide::New <==> is_text(target.doc(), "side"@, "new"@)
                &&& side == LineSide::Old <==> is_text(target.doc(), "side"@, "old"@)
            },
            LineTarget::InGap { row, gap_id } => {
                &&& is_text(target.doc(), "kind"@, "inGap"@)
                &&& is_number(target.doc(), "row"@, row as int)
                &&& is_text(target.doc(), "gap_id"@, gap_id@)
            },
            LineTarget::Nearest { row } => {
                &&& is_text(target.doc(), "kind"@, "nearest"@)
                &&& match row {
                    Some(n) => is_number(target.doc(), "row"@, n as int),
                    None => field(target.doc(), "row"@) == Some(JsonModel::Null),
                }
            },
        },
{
    lemma_puts();
    reveal_strlit("kind");
    reveal_strlit("row");
    reveal_strlit("side");
    reveal_strlit("gap_id");
    reveal_strlit("exact");
    reveal_strlit("inGap");
    reveal_strlit("nearest");
    reveal_strlit("new");
    reveal_strlit("old");
    assert("kind"@.len() == 4);
    assert("row"@.len() == 3);
    assert("side"@.len() == 4);
    assert("gap_id"@.len() == 6);
    assert("exact"@.len() == 5);
    assert("inGap"@.len() == 5);
    assert("nearest"@.len() == 7);
    assert("new"@.len() == 3);
    assert("old"@.len() == 3);
    assert("kind"@[0] == 'k');
    assert("side"@[0] == 's');
    assert("row"@[0] == 'r');
    assert("new"@[0] == 'n');
    assert("old"@[0] == 'o');
    assert("exact"@[0] == 'e');
    assert("inGap"@[0] == 'i');
}

/// Where a new comment would stand goes out with its side and its line, and
/// as null where there is no such place.
pub proof fn anchors_go_out_as_they_are(side: Side, line: u32)
    ensures
        ({
            let doc = anchor_target_doc(Some((side, line)));
            &&& is_number(doc, "line"@, line as int)
            &&& side == Side::Old <==> is_text(doc, "side"@, "old"@)
            &&& side == Side::New <==> is_text(doc, "side"@, "new"@)
        }),
        anchor_target_doc(None) == JsonModel::Null,
{
    lemma_puts();
    reveal_strlit("side");
    reveal_strlit("line");
    reveal_strlit("old");
    reveal_strlit("new");
    assert("side"@.len() == 4);
    assert("line"@.len() == 4);
    assert("old"@.len() == 3);
    assert("new"@.len() == 3);
    assert("side"@[0] == 's');
    assert("line"@[0] == 'l');
    assert("old"@[0] == 'o');
    assert("new"@[0] == 'n');
}

/// A row of the file tree goes out with its depth, its name and path, what
/// it is, and its counts.
pub proof fn tree_rows_go_out_as_they_are(row: TreeRow)
    ensures
        is_number(row.doc(), "depth"@, row.depth as int),
        is_text(row.doc(), "name"@, row.name@),
        is_text(row.doc(), "path"@, row.path@),
        field(row.doc(), "isDir"@) == Some(JsonModel::Bool(row.is_dir)),
        field(row.doc(), "collapsed"@) == Some(JsonModel::Bool(row.collapsed)),
        match row.file_index {
            Some(n) => is_number(row.doc(), "fileIndex"@, n as int),
            None => field(row.doc(), "fileIndex"@) is None,
        },
        is_number(row.doc(), "commentsTodo"@, row.comments_todo as int),
        is_number(row.doc(), "commentsTotal"@, row.comments_total as int),
{
    lemma_puts();
    reveal_strlit("depth");
    reveal_strlit("name");
    reveal_strlit("path");
    reveal_strlit("isDir");
    reveal_strlit("collapsed");
    reveal_strlit("fileIndex");
    reveal_strlit("commentsTodo");
    reveal_strlit("commentsTotal");
    assert("depth"@.len() == 5);
    assert("name"@.len() == 4);
    assert("path"@.len() == 4);
    assert("isDir"@.len() == 5);
    assert("collapsed"@.len() == 9);
    assert("fileIndex"@.len() == 9);
    assert("commentsTodo"@.len() == 12);
    assert("commentsTotal"@.len() == 13);
    assert("depth"@[0] == 'd');
    assert("isDir"@[0] == 'i');
    assert("name"@[0] == 'n');
    assert("path"@[0] == 'p');
    assert("collapsed"@[0] == 'c');
    assert("fileIndex"@[0] == 'f');
}

/// The names of the kinds of a cell tell them apart.
pub proof fn cell_kinds_have_their_names(kind: CellKind)
    ensures
        kind == CellKind::Context <==> cell_kind_name(kind) == "context"@,
        kind == CellKind::Add <==> cell_kind_name(kind) == "add"@,
        kind == CellKind::Remove <==> cell_kind_name(kind) == "remove"@,
        kind == CellKind::Empty <==> cell_kind_name(kind) == "empty"@,
{
    reveal_strlit("context");
    reveal_strlit("add");
    reveal_strlit("remove");
    reveal_strlit("empty");
    assert("context"@.len() == 7);
    assert("add"@.len() == 3);
    assert("remove"@.len() == 6);
    assert("empty"@.len() == 5);
}

/// The names of the statuses of a file tell them apart.
pub proof fn file_statuses_have_their_names(status: FileStatus)
    ensures
        status == FileStatus::Added <==> status_name(status) == "added"@,
        status == FileStatus::Modified <==> status_name(status) == "modified"@,
        status == FileStatus::Deleted <==> status_name(status) == "deleted"@,
        status == FileStatus::Renamed <==> status_name(status) == "renamed"@,
        status == FileStatus::Copied <==> status_name(status) == "copied"@,
        status == FileStatus::Untracked <==> status_name(status) == "untracked"@,
        status == FileStatus::Other <==> status_name(status) == "other"@,
{
    reveal_strlit("added");
    reveal_strlit("modified");
    reveal_strlit("deleted");
    reveal_strlit("renamed");
    reveal_strlit("copied");
    reveal_strlit("untracked");
    reveal_strlit("other");
    assert("added"@.len() == 5);
    assert("modified"@.len() == 8);
    assert("deleted"@.len() == 7);
    assert("renamed"@.len() == 7);
    assert("copied"@.len() == 6);
    assert("untracked"@.len() == 9);
    assert("other"@.len() == 5);
    assert("added"@[0] == 'a');
    assert("other"@[0] == 'o');
    assert("deleted"@[0] == 'd');
    assert("renamed"@[0] == 'r');
}

/// A field that was put last is found, and the others are as they were.
proof fn lemma_puts()
    ensures
        distinct_keys(Seq::empty()),
        forall|key: Seq<char>| lookup(Seq::empty(), key) is None,
        forall|m: Seq<MemberModel>, key: Seq<char>, value: JsonModel|
            #![trigger with_member(m, key, value)]
            distinct_keys(m) ==> distinct_keys(with_member(m, key, value)),
        forall|m: Seq<MemberModel>, key: Seq<char>, value: JsonModel, other: Seq<char>|
            #![trigger lookup(with_member(m, key, value), other)]
            distinct_keys(m) ==> lookup(with_member(m, key, value), other) == if other == key {
                Some(value)
            } else {
                lookup(m, other)
            },
{
    assert forall|key: Seq<char>| lookup(Seq::empty(), key) is None by {
        lemma_key_index(Seq::empty(), key);
    }
    assert forall|m: Seq<MemberModel>, key: Seq<char>, value: JsonModel|
        #![trigger with_member(m, key, value)]
        distinct_keys(m) implies distinct_keys(with_member(m, key, value)) by {
        lemma_with_member(m, key, value);
    }
    assert forall|m: Seq<MemberModel>, key: Seq<char>, value: JsonModel, other: Seq<char>|
        #![trigger lookup(with_member(m, key, value), other)]
        distinct_keys(m) implies lookup(with_member(m, key, value), other) == if other == key {
        Some(value)
    } else {
        lookup(m, other)
    } by {
        lemma_with_member(m, key, value);
        if other != key {
            lemma_with_other_member(m, key, value, other);
        }
    }
}

} // verus!
