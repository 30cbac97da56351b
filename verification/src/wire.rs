//! The wire form of what frontends paint: every transport sends these
//! documents, each key in it once.

use vstd::prelude::*;

use crate::anchor::{AnchoredComment, RowAnchor};
use crate::commands::CommandSpec;
use crate::goto::{LineSide, LineTarget};
use crate::highlight::HlSpan;
use crate::json::{
    distinct_keys, lemma_mapping, lemma_put_new, lemma_with_member, lemma_with_other_member, lookup,
    with_member, Integer, Json, JsonMap, JsonModel, JsonNumber, MemberModel, NumberModel,
};
use crate::model::{FileDiffKind, FileDiffKindModel, FileEntry, FileStatus};
use crate::painter::ReviewSummary;
use crate::projection::{
    FileCounts, FileFilter, OverviewComment, OverviewCommentOwned, PathCounts, ProjectionSnapshot,
    TargetCounts,
};
use crate::protocol::mode_name;
use crate::review::{Side, StatusCounts};
use crate::review_json::{
    comment_doc, comment_json, nullable_text, number_doc, put_number, put_opt_text, put_text,
    read_target, side_name, target_doc, target_from, target_json, targets_read_back, text_doc,
    with_some,
};
use crate::rows::{Cell, CellKind, GapInfo, Row, ViewMode};
use crate::search::{MatchCell, SearchMatch};
use crate::source::{Comparison, ComparisonModel, Endpoint, EndpointModel};
use crate::stack::{Stack, Target, TargetId, TargetIdModel, TargetModel};
use crate::text::{copy_of, same_text};
use crate::tree::TreeRow;
use crate::view::FileView;
use crate::view_state::{ExpansionResult, FileProjection};
use crate::worddiff::Range;

verus! {

/// What has a wire form.
pub trait Wire {
    /// The document.
    spec fn doc(&self) -> JsonModel;

    /// The document.
    fn to_json(&self) -> (r: Json)
        ensures
            r.model() == self.doc(),
    ;
}

/// The documents of a list.
pub open spec fn docs<T: Wire>(items: Seq<T>) -> Seq<JsonModel> {
    Seq::new(items.len(), |i: int| items[i].doc())
}

/// A list as an array.
pub fn list_json<T: Wire>(items: &[T]) -> (r: Json)
    ensures
        r.model() == JsonModel::Array(docs(items@)),
{
    let ghost goal = docs(items@);
    let mut out: Vec<Json> = Vec::new();
    let mut i: usize = 0;
    while i < items.len()
        invariant
            i <= items.len(),
            goal == docs(items@),
            out@.len() == i,
            forall|k: int| 0 <= k < i ==> (#[trigger] out@[k]).model() == goal[k],
        decreases items.len() - i,
    {
        out.push(items[i].to_json());
        i += 1;
    }
    let r = Json::Array(out);
    assert(r.model()->Array_0 =~= goal);
    r
}

fn put_bool(map: &mut JsonMap, key: &str, value: bool)
    ensures
        final(map).model() == with_member(old(map).model(), key@, JsonModel::Bool(value)),
{
    map.insert(copy_of(key), Json::Bool(value));
}

/// A flag that is left out where it is not set.
pub open spec fn set_flag(flag: bool) -> Option<JsonModel> {
    if flag {
        Some(JsonModel::Bool(true))
    } else {
        None
    }
}

fn put_set_flag(map: &mut JsonMap, key: &str, value: bool)
    ensures
        final(map).model() == with_some(old(map).model(), key@, set_flag(value)),
{
    if value {
        put_bool(map, key, true);
    }
}

/// A number that is left out where there is none.
pub open spec fn some_number(n: Option<u64>) -> Option<JsonModel> {
    match n {
        Some(v) => Some(number_doc(v)),
        None => None,
    }
}

fn put_some_number(map: &mut JsonMap, key: &str, value: Option<u64>)
    ensures
        final(map).model() == with_some(old(map).model(), key@, some_number(value)),
{
    if let Some(n) = value {
        put_number(map, key, n);
    }
}

/// A number, or `null`.
pub open spec fn nullable_number(n: Option<u64>) -> JsonModel {
    match n {
        Some(v) => number_doc(v),
        None => JsonModel::Null,
    }
}

fn put_nullable_number(map: &mut JsonMap, key: &str, value: Option<u64>)
    ensures
        final(map).model() == with_member(old(map).model(), key@, nullable_number(value)),
{
    match value {
        Some(n) => put_number(map, key, n),
        None => map.insert(copy_of(key), Json::Null),
    }
}

pub open spec fn wide(n: Option<u32>) -> Option<u64> {
    match n {
        Some(v) => Some(v as u64),
        None => None,
    }
}

fn widened(n: Option<u32>) -> (r: Option<u64>)
    ensures
        r == wide(n),
{
    match n {
        Some(v) => Some(v as u64),
        None => None,
    }
}

pub open spec fn wide_index(n: Option<usize>) -> Option<u64> {
    match n {
        Some(v) => Some(v as u64),
        None => None,
    }
}

fn widened_index(n: Option<usize>) -> (r: Option<u64>)
    ensures
        r == wide_index(n),
{
    match n {
        Some(v) => Some(v as u64),
        None => None,
    }
}

fn put_nullable_text(map: &mut JsonMap, key: &str, value: Option<&str>)
    ensures
        final(map).model() == with_member(
            old(map).model(),
            key@,
            nullable_text(value.deep_view()),
        ),
{
    match value {
        Some(text) => put_text(map, key, text),
        None => map.insert(copy_of(key), Json::Null),
    }
}

// ------------------------------------------------------------------------- rows

impl Wire for Range {
    open spec fn doc(&self) -> JsonModel {
        let m1 = with_member(Seq::empty(), "start"@, number_doc(self.start as u64));
        JsonModel::Object(with_member(m1, "end"@, number_doc(self.end as u64)))
    }

    fn to_json(&self) -> Json {
        let mut map: JsonMap = JsonMap::new();
        put_number(&mut map, "start", self.start as u64);
        put_number(&mut map, "end", self.end as u64);
        Json::Object(map)
    }
}

impl Wire for HlSpan {
    open spec fn doc(&self) -> JsonModel {
        let m1 = with_member(Seq::empty(), "start"@, number_doc(self.start as u64));
        let m2 = with_member(m1, "end"@, number_doc(self.end as u64));
        let m3 = with_some(
            m2,
            "fg"@,
            match self.fg {
                Some(color) => Some(JsonModel::Text(color.text())),
                None => None,
            },
        );
        let m4 = with_some(m3, "bold"@, set_flag(self.bold));
        JsonModel::Object(with_some(m4, "italic"@, set_flag(self.italic)))
    }

    fn to_json(&self) -> Json {
        let mut map: JsonMap = JsonMap::new();
        put_number(&mut map, "start", self.start as u64);
        put_number(&mut map, "end", self.end as u64);
        if let Some(color) = self.fg {
            put_text(&mut map, "fg", color.to_hex().as_str());
        }
        put_set_flag(&mut map, "bold", self.bold);
        put_set_flag(&mut map, "italic", self.italic);
        Json::Object(map)
    }
}

pub open spec fn cell_kind_name(kind: CellKind) -> Seq<char> {
    match kind {
        CellKind::Context => "context"@,
        CellKind::Add => "add"@,
        CellKind::Remove => "remove"@,
        CellKind::Empty => "empty"@,
    }
}

/// A list that is left out where it is empty.
pub open spec fn some_list<T: Wire>(items: Seq<T>) -> Option<JsonModel> {
    if items.len() == 0 {
        None
    } else {
        Some(JsonModel::Array(docs(items)))
    }
}

impl Wire for Cell {
    open spec fn doc(&self) -> JsonModel {
        let m1 = with_member(
            Seq::empty(),
            "kind"@,
            JsonModel::Text(cell_kind_name(self.kind)),
        );
        let m2 = with_some(m1, "line"@, some_number(wide(self.line)));
        let m3 = with_member(m2, "text"@, JsonModel::Text(self.text@));
        let m4 = with_some(m3, "wordRanges"@, some_list(self.word_ranges@));
        JsonModel::Object(with_some(m4, "hl"@, some_list(self.hl@)))
    }

    fn to_json(&self) -> Json {
        let kind: &str = match self.kind {
            CellKind::Context => "context",
            CellKind::Add => "add",
            CellKind::Remove => "remove",
            CellKind::Empty => "empty",
        };
        let mut map: JsonMap = JsonMap::new();
        put_text(&mut map, "kind", kind);
        put_some_number(&mut map, "line", widened(self.line));
        put_text(&mut map, "text", self.text.as_str());
        if self.word_ranges.len() > 0 {
            map.insert(copy_of("wordRanges"), list_json(self.word_ranges.as_slice()));
        }
        if self.hl.len() > 0 {
            map.insert(copy_of("hl"), list_json(self.hl.as_slice()));
        }
        Json::Object(map)
    }
}

/// A range as an array of its two ends.
pub open spec fn pair_doc(pair: (u32, u32)) -> JsonModel {
    JsonModel::Array(seq![number_doc(pair.0 as u64), number_doc(pair.1 as u64)])
}

fn pair_json(pair: (u32, u32)) -> (r: Json)
    ensures
        r.model() == pair_doc(pair),
{
    let from = Json::Number(JsonNumber::Unsigned(pair.0 as u64));
    let to = Json::Number(JsonNumber::Unsigned(pair.1 as u64));
    assert(from.model() == number_doc(pair.0 as u64));
    assert(to.model() == number_doc(pair.1 as u64));
    let mut ends: Vec<Json> = Vec::new();
    ends.push(from);
    ends.push(to);
    let r = Json::Array(ends);
    assert(r.model()->Array_0 =~= pair_doc(pair)->Array_0);
    r
}

impl Wire for GapInfo {
    open spec fn doc(&self) -> JsonModel {
        let m1 = with_member(Seq::empty(), "id"@, JsonModel::Text(self.id@));
        let m2 = with_member(m1, "count"@, number_doc(self.count as u64));
        let m3 = with_member(m2, "oldRange"@, pair_doc(self.old_range));
        JsonModel::Object(with_member(m3, "newRange"@, pair_doc(self.new_range)))
    }

    fn to_json(&self) -> Json {
        let mut map: JsonMap = JsonMap::new();
        put_text(&mut map, "id", self.id.as_str());
        put_number(&mut map, "count", self.count as u64);
        map.insert(copy_of("oldRange"), pair_json(self.old_range));
        map.insert(copy_of("newRange"), pair_json(self.new_range));
        Json::Object(map)
    }
}

impl Wire for Row {
    open spec fn doc(&self) -> JsonModel {
        match *self {
            Row::HunkHeader { key, hunk, text } => {
                let m1 = with_member(Seq::empty(), "type"@, JsonModel::Text("hunkHeader"@));
                let m2 = with_member(m1, "key"@, JsonModel::Text(key@));
                let m3 = with_member(m2, "hunk"@, number_doc(hunk as u64));
                JsonModel::Object(with_member(m3, "text"@, JsonModel::Text(text@)))
            },
            Row::Gap { key, gap } => {
                let m1 = with_member(Seq::empty(), "type"@, JsonModel::Text("gap"@));
                let m2 = with_member(m1, "key"@, JsonModel::Text(key@));
                JsonModel::Object(with_member(m2, "gap"@, gap.doc()))
            },
            Row::Unified { key, hunk, old_num, new_num, cell, is_expansion } => {
                let m1 = with_member(Seq::empty(), "type"@, JsonModel::Text("unified"@));
                let m2 = with_member(m1, "key"@, JsonModel::Text(key@));
                let m3 = with_member(m2, "hunk"@, number_doc(hunk as u64));
                let m4 = with_member(m3, "oldNum"@, nullable_number(wide(old_num)));
                let m5 = with_member(m4, "newNum"@, nullable_number(wide(new_num)));
                let m6 = with_member(m5, "cell"@, cell.doc());
                JsonModel::Object(with_some(m6, "isExpansion"@, set_flag(is_expansion)))
            },
            Row::Split { key, hunk, left, right, is_expansion } => {
                let m1 = with_member(Seq::empty(), "type"@, JsonModel::Text("split"@));
                let m2 = with_member(m1, "key"@, JsonModel::Text(key@));
                let m3 = with_member(m2, "hunk"@, number_doc(hunk as u64));
                let m4 = with_member(m3, "left"@, left.doc());
                let m5 = with_member(m4, "right"@, right.doc());
                JsonModel::Object(with_some(m5, "isExpansion"@, set_flag(is_expansion)))
            },
        }
    }

    fn to_json(&self) -> Json {
        let mut map: JsonMap = JsonMap::new();
        match self {
            Row::HunkHeader { key, hunk, text } => {
                put_text(&mut map, "type", "hunkHeader");
                put_text(&mut map, "key", key.as_str());
                put_number(&mut map, "hunk", *hunk as u64);
                put_text(&mut map, "text", text.as_str());
            },
            Row::Gap { key, gap } => {
                put_text(&mut map, "type", "gap");
                put_text(&mut map, "key", key.as_str());
                map.insert(copy_of("gap"), gap.to_json());
            },
            Row::Unified { key, hunk, old_num, new_num, cell, is_expansion } => {
                put_text(&mut map, "type", "unified");
                put_text(&mut map, "key", key.as_str());
                put_number(&mut map, "hunk", *hunk as u64);
                put_nullable_number(&mut map, "oldNum", widened(*old_num));
                put_nullable_number(&mut map, "newNum", widened(*new_num));
                map.insert(copy_of("cell"), cell.to_json());
                put_set_flag(&mut map, "isExpansion", *is_expansion);
            },
            Row::Split { key, hunk, left, right, is_expansion } => {
                put_text(&mut map, "type", "split");
                put_text(&mut map, "key", key.as_str());
                put_number(&mut map, "hunk", *hunk as u64);
                map.insert(copy_of("left"), left.to_json());
                map.insert(copy_of("right"), right.to_json());
                put_set_flag(&mut map, "isExpansion", *is_expansion);
            },
        }
        Json::Object(map)
    }
}

// ------------------------------------------------------------------------ files

pub open spec fn status_name(status: FileStatus) -> Seq<char> {
    match status {
        FileStatus::Added => "added"@,
        FileStatus::Modified => "modified"@,
        FileStatus::Deleted => "deleted"@,
        FileStatus::Renamed => "renamed"@,
        FileStatus::Copied => "copied"@,
        FileStatus::Untracked => "untracked"@,
        FileStatus::Other => "other"@,
    }
}

fn status_word(status: FileStatus) -> (r: &'static str)
    ensures
        r@ == status_name(status),
{
    match status {
        FileStatus::Added => "added",
        FileStatus::Modified => "modified",
        FileStatus::Deleted => "deleted",
        FileStatus::Renamed => "renamed",
        FileStatus::Copied => "copied",
        FileStatus::Untracked => "untracked",
        FileStatus::Other => "other",
    }
}

impl Wire for FileEntry {
    open spec fn doc(&self) -> JsonModel {
        let m1 = with_member(Seq::empty(), "path"@, JsonModel::Text(self.path@));
        let m2 = with_some(m1, "oldPath"@, text_doc(self.old_path.deep_view()));
        let m3 = with_member(m2, "status"@, JsonModel::Text(status_name(self.status)));
        let m4 = with_some(m3, "adds"@, some_number(self.adds));
        JsonModel::Object(with_some(m4, "dels"@, some_number(self.dels)))
    }

    fn to_json(&self) -> Json {
        let mut map: JsonMap = JsonMap::new();
        put_text(&mut map, "path", self.path.as_str());
        put_opt_text(&mut map, "oldPath", &self.old_path);
        put_text(&mut map, "status", status_word(self.status));
        put_some_number(&mut map, "adds", self.adds);
        put_some_number(&mut map, "dels", self.dels);
        Json::Object(map)
    }
}

/// The kind of a diff goes out as its tag, with the description of a binary
/// file. The counts of a diff that is too large are the view's own.
pub open spec fn with_kind(members: Seq<MemberModel>, kind: FileDiffKindModel) -> Seq<MemberModel> {
    match kind {
        FileDiffKindModel::Text => with_member(members, "kind"@, JsonModel::Text("text"@)),
        FileDiffKindModel::Binary { desc } => with_member(
            with_member(members, "kind"@, JsonModel::Text("binary"@)),
            "desc"@,
            JsonModel::Text(desc),
        ),
        FileDiffKindModel::TooLarge { .. } => with_member(
            members,
            "kind"@,
            JsonModel::Text("toolarge"@),
        ),
    }
}

fn put_kind(map: &mut JsonMap, kind: &FileDiffKind)
    ensures
        final(map).model() == with_kind(old(map).model(), kind.deep_view()),
{
    match kind {
        FileDiffKind::Text => put_text(map, "kind", "text"),
        FileDiffKind::Binary { desc } => {
            put_text(map, "kind", "binary");
            put_text(map, "desc", desc.as_str());
        },
        FileDiffKind::TooLarge { .. } => put_text(map, "kind", "toolarge"),
    }
}

impl Wire for FileView {
    open spec fn doc(&self) -> JsonModel {
        let m1 = with_member(Seq::empty(), "path"@, JsonModel::Text(self.path@));
        let m2 = with_some(m1, "oldPath"@, text_doc(self.old_path.deep_view()));
        let m3 = with_member(m2, "status"@, JsonModel::Text(status_name(self.status)));
        let m4 = with_kind(m3, self.kind.deep_view());
        let m5 = with_member(m4, "mode"@, JsonModel::Text(mode_name(self.mode)));
        let m6 = with_member(m5, "adds"@, number_doc(self.adds));
        let m7 = with_member(m6, "dels"@, number_doc(self.dels));
        let m8 = with_member(m7, "oldMissingNewline"@, JsonModel::Bool(self.old_missing_newline));
        let m9 = with_member(m8, "newMissingNewline"@, JsonModel::Bool(self.new_missing_newline));
        JsonModel::Object(with_member(m9, "rows"@, JsonModel::Array(docs(self.rows@))))
    }

    fn to_json(&self) -> Json {
        let mode: &str = match self.mode {
            ViewMode::Unified => "unified",
            ViewMode::Split => "split",
        };
        let mut map: JsonMap = JsonMap::new();
        put_text(&mut map, "path", self.path.as_str());
        put_opt_text(&mut map, "oldPath", &self.old_path);
        put_text(&mut map, "status", status_word(self.status));
        put_kind(&mut map, &self.kind);
        put_text(&mut map, "mode", mode);
        put_number(&mut map, "adds", self.adds);
        put_number(&mut map, "dels", self.dels);
        put_bool(&mut map, "oldMissingNewline", self.old_missing_newline);
        put_bool(&mut map, "newMissingNewline", self.new_missing_newline);
        map.insert(copy_of("rows"), list_json(self.rows.as_slice()));
        Json::Object(map)
    }
}

// --------------------------------------------------------------------- comments

impl Wire for RowAnchor {
    open spec fn doc(&self) -> JsonModel {
        let m1 = with_member(Seq::empty(), "commentId"@, JsonModel::Text(self.comment_id@));
        let m2 = with_member(m1, "row"@, nullable_number(wide_index(self.row)));
        let m3 = with_member(m2, "outdated"@, JsonModel::Bool(self.outdated));
        JsonModel::Object(with_member(m3, "clamped"@, JsonModel::Bool(self.clamped)))
    }

    fn to_json(&self) -> Json {
        let mut map: JsonMap = JsonMap::new();
        put_text(&mut map, "commentId", self.comment_id.as_str());
        put_nullable_number(&mut map, "row", widened_index(self.row));
        put_bool(&mut map, "outdated", self.outdated);
        put_bool(&mut map, "clamped", self.clamped);
        Json::Object(map)
    }
}

impl<'a> Wire for AnchoredComment<'a> {
    open spec fn doc(&self) -> JsonModel {
        let m1 = with_member(Seq::empty(), "comment"@, comment_doc(self.comment.deep_view()));
        let m2 = with_member(m1, "anchor"@, self.anchor.doc());
        JsonModel::Object(with_member(m2, "wasPath"@, nullable_text(self.was_path.deep_view())))
    }

    fn to_json(&self) -> Json {
        let mut map: JsonMap = JsonMap::new();
        map.insert(copy_of("comment"), comment_json(self.comment));
        map.insert(copy_of("anchor"), self.anchor.to_json());
        put_nullable_text(&mut map, "wasPath", self.was_path);
        Json::Object(map)
    }
}

impl<'a> Wire for OverviewComment<'a> {
    open spec fn doc(&self) -> JsonModel {
        let m1 = with_member(Seq::empty(), "comment"@, comment_doc(self.comment.deep_view()));
        let m2 = with_member(m1, "unattached"@, JsonModel::Bool(self.unattached));
        JsonModel::Object(with_member(m2, "wasOn"@, nullable_text(self.was_on.deep_view())))
    }

    fn to_json(&self) -> Json {
        let mut map: JsonMap = JsonMap::new();
        map.insert(copy_of("comment"), comment_json(self.comment));
        put_bool(&mut map, "unattached", self.unattached);
        put_nullable_text(&mut map, "wasOn", self.was_on);
        Json::Object(map)
    }
}

impl Wire for OverviewCommentOwned {
    open spec fn doc(&self) -> JsonModel {
        let m1 = with_member(Seq::empty(), "comment"@, comment_doc(self.comment.deep_view()));
        let m2 = with_member(m1, "unattached"@, JsonModel::Bool(self.unattached));
        JsonModel::Object(with_member(m2, "wasOn"@, nullable_text(self.was_on.deep_view())))
    }

    fn to_json(&self) -> Json {
        let mut map: JsonMap = JsonMap::new();
        map.insert(copy_of("comment"), comment_json(&self.comment));
        put_bool(&mut map, "unattached", self.unattached);
        match &self.was_on {
            Some(label) => put_text(&mut map, "wasOn", label.as_str()),
            None => map.insert(copy_of("wasOn"), Json::Null),
        }
        Json::Object(map)
    }
}

// ------------------------------------------------------------------- navigation

pub open spec fn match_cell_name(cell: MatchCell) -> Seq<char> {
    match cell {
        MatchCell::Unified => "unified"@,
        MatchCell::Left => "left"@,
        MatchCell::Right => "right"@,
    }
}

impl Wire for SearchMatch {
    open spec fn doc(&self) -> JsonModel {
        let m1 = with_member(Seq::empty(), "row"@, number_doc(self.row as u64));
        let m2 = with_member(m1, "cell"@, JsonModel::Text(match_cell_name(self.cell)));
        let m3 = with_member(m2, "start"@, number_doc(self.start as u64));
        JsonModel::Object(with_member(m3, "end"@, number_doc(self.end as u64)))
    }

    fn to_json(&self) -> Json {
        let cell: &str = match self.cell {
            MatchCell::Unified => "unified",
            MatchCell::Left => "left",
            MatchCell::Right => "right",
        };
        let mut map: JsonMap = JsonMap::new();
        put_number(&mut map, "row", self.row as u64);
        put_text(&mut map, "cell", cell);
        put_number(&mut map, "start", self.start as u64);
        put_number(&mut map, "end", self.end as u64);
        Json::Object(map)
    }
}

pub open spec fn line_side_name(side: LineSide) -> Seq<char> {
    match side {
        LineSide::New => "new"@,
        LineSide::Old => "old"@,
    }
}

impl Wire for LineTarget {
    open spec fn doc(&self) -> JsonModel {
        match *self {
            LineTarget::Exact { row, side } => {
                let m1 = with_member(Seq::empty(), "kind"@, JsonModel::Text("exact"@));
                let m2 = with_member(m1, "row"@, number_doc(row as u64));
                JsonModel::Object(
                    with_member(m2, "side"@, JsonModel::Text(line_side_name(side))),
                )
            },
            LineTarget::InGap { row, gap_id } => {
                let m1 = with_member(Seq::empty(), "kind"@, JsonModel::Text("inGap"@));
                let m2 = with_member(m1, "row"@, number_doc(row as u64));
                JsonModel::Object(with_member(m2, "gap_id"@, JsonModel::Text(gap_id@)))
            },
            LineTarget::Nearest { row } => {
                let m1 = with_member(Seq::empty(), "kind"@, JsonModel::Text("nearest"@));
                JsonModel::Object(with_member(m1, "row"@, nullable_number(wide_index(row))))
            },
        }
    }

    fn to_json(&self) -> Json {
        let mut map: JsonMap = JsonMap::new();
        match self {
            LineTarget::Exact { row, side } => {
                put_text(&mut map, "kind", "exact");
                put_number(&mut map, "row", *row as u64);
                match side {
                    LineSide::New => put_text(&mut map, "side", "new"),
                    LineSide::Old => put_text(&mut map, "side", "old"),
                }
            },
            LineTarget::InGap { row, gap_id } => {
                put_text(&mut map, "kind", "inGap");
                put_number(&mut map, "row", *row as u64);
                put_text(&mut map, "gap_id", gap_id.as_str());
            },
            LineTarget::Nearest { row } => {
                put_text(&mut map, "kind", "nearest");
                put_nullable_number(&mut map, "row", widened_index(*row));
            },
        }
        Json::Object(map)
    }
}

/// Where a new comment anchors; `null` where it cannot.
pub open spec fn anchor_target_doc(target: Option<(Side, u32)>) -> JsonModel {
    match target {
        Some((side, line)) => {
            let m1 = with_member(Seq::empty(), "side"@, JsonModel::Text(side_name(side)));
            JsonModel::Object(with_member(m1, "line"@, number_doc(line as u64)))
        },
        None => JsonModel::Null,
    }
}

/// Where a new comment anchors, on the wire.
pub fn anchor_target_json(target: Option<(Side, u32)>) -> (r: Json)
    ensures
        r.model() == anchor_target_doc(target),
{
    match target {
        Some((side, line)) => {
            let mut map: JsonMap = JsonMap::new();
            match side {
                Side::Old => put_text(&mut map, "side", "old"),
                Side::New => put_text(&mut map, "side", "new"),
            }
            put_number(&mut map, "line", line as u64);
            Json::Object(map)
        },
        None => Json::Null,
    }
}

// ------------------------------------------------------------------- projection

/// The fields of a tree row.
pub open spec fn tree_row_members(row: TreeRow) -> Seq<MemberModel> {
    let m1 = with_member(Seq::empty(), "depth"@, number_doc(row.depth as u64));
    let m2 = with_member(m1, "name"@, JsonModel::Text(row.name@));
    let m3 = with_member(m2, "path"@, JsonModel::Text(row.path@));
    let m4 = with_member(m3, "isDir"@, JsonModel::Bool(row.is_dir));
    let m5 = with_member(m4, "collapsed"@, JsonModel::Bool(row.collapsed));
    let m6 = with_some(m5, "fileIndex"@, some_number(wide_index(row.file_index)));
    let m7 = with_member(m6, "commentsTodo"@, number_doc(row.comments_todo as u64));
    with_member(m7, "commentsTotal"@, number_doc(row.comments_total as u64))
}

fn tree_row_map(row: &TreeRow) -> (r: JsonMap)
    ensures
        r.model() == tree_row_members(*row),
{
    let mut map: JsonMap = JsonMap::new();
    put_number(&mut map, "depth", row.depth as u64);
    put_text(&mut map, "name", row.name.as_str());
    put_text(&mut map, "path", row.path.as_str());
    put_bool(&mut map, "isDir", row.is_dir);
    put_bool(&mut map, "collapsed", row.collapsed);
    put_some_number(&mut map, "fileIndex", widened_index(row.file_index));
    put_number(&mut map, "commentsTodo", row.comments_todo as u64);
    put_number(&mut map, "commentsTotal", row.comments_total as u64);
    map
}

impl Wire for TreeRow {
    open spec fn doc(&self) -> JsonModel {
        JsonModel::Object(tree_row_members(*self))
    }

    fn to_json(&self) -> Json {
        Json::Object(tree_row_map(self))
    }
}

/// A tree row with the entry of its file, where it is a file's.
pub open spec fn tree_row_doc(row: TreeRow, files: Seq<FileEntry>) -> JsonModel {
    JsonModel::Object(
        match row.file_index {
            Some(i) if i < files.len() => with_member(
                tree_row_members(row),
                "entry"@,
                files[i as int].doc(),
            ),
            _ => tree_row_members(row),
        },
    )
}

/// The rows of a tree, each with the entry of its file.
pub fn tree_json(rows: &[TreeRow], files: &[FileEntry]) -> (r: Json)
    ensures
        r.model() == JsonModel::Array(
            Seq::new(rows@.len(), |i: int| tree_row_doc(rows@[i], files@)),
        ),
{
    let ghost goal = Seq::new(rows@.len(), |i: int| tree_row_doc(rows@[i], files@));
    let mut out: Vec<Json> = Vec::new();
    let mut i: usize = 0;
    while i < rows.len()
        invariant
            i <= rows.len(),
            goal == Seq::new(rows@.len(), |i: int| tree_row_doc(rows@[i], files@)),
            out@.len() == i,
            forall|k: int| 0 <= k < i ==> (#[trigger] out@[k]).model() == goal[k],
        decreases rows.len() - i,
    {
        let mut map: JsonMap = tree_row_map(&rows[i]);
        if let Some(at) = rows[i].file_index {
            if at < files.len() {
                map.insert(copy_of("entry"), files[at].to_json());
            }
        }
        let row = Json::Object(map);
        assert(row.model() == goal[i as int]);
        out.push(row);
        i += 1;
    }
    let r = Json::Array(out);
    assert(r.model()->Array_0 =~= goal);
    r
}

impl Wire for FileCounts {
    open spec fn doc(&self) -> JsonModel {
        let m1 = with_member(Seq::empty(), "todo"@, number_doc(self.todo as u64));
        JsonModel::Object(with_member(m1, "total"@, number_doc(self.total as u64)))
    }

    fn to_json(&self) -> Json {
        let mut map: JsonMap = JsonMap::new();
        put_number(&mut map, "todo", self.todo as u64);
        put_number(&mut map, "total", self.total as u64);
        Json::Object(map)
    }
}

impl Wire for TargetId {
    open spec fn doc(&self) -> JsonModel {
        target_doc(self.deep_view())
    }

    fn to_json(&self) -> Json {
        target_json(self)
    }
}

impl Wire for TargetCounts {
    open spec fn doc(&self) -> JsonModel {
        let m1 = with_member(Seq::empty(), "id"@, self.id.doc());
        JsonModel::Object(with_member(m1, "counts"@, self.counts.doc()))
    }

    fn to_json(&self) -> Json {
        let mut map: JsonMap = JsonMap::new();
        map.insert(copy_of("id"), self.id.to_json());
        map.insert(copy_of("counts"), self.counts.to_json());
        Json::Object(map)
    }
}

/// The counts as an object keyed by path.
pub open spec fn counts_members(counts: Seq<PathCounts>) -> Seq<MemberModel>
    decreases counts.len(),
{
    if counts.len() == 0 {
        Seq::empty()
    } else {
        with_member(
            counts_members(counts.drop_last()),
            counts.last().path@,
            counts.last().counts.doc(),
        )
    }
}

fn counts_map(counts: &Vec<PathCounts>) -> (r: JsonMap)
    ensures
        r.model() == counts_members(counts@),
{
    let mut map: JsonMap = JsonMap::new();
    let mut i: usize = 0;
    assert(counts@.take(0) =~= Seq::empty());
    while i < counts.len()
        invariant
            i <= counts.len(),
            map.model() == counts_members(counts@.take(i as int)),
        decreases counts.len() - i,
    {
        proof {
            assert(counts@.take(i + 1).drop_last() =~= counts@.take(i as int));
            assert(counts@.take(i + 1).last() == counts@[i as int]);
        }
        map.insert(copy_of(counts[i].path.as_str()), counts[i].counts.to_json());
        i += 1;
    }
    assert(counts@.take(i as int) =~= counts@);
    map
}

pub open spec fn filter_name(filter: FileFilter) -> Seq<char> {
    match filter {
        FileFilter::All => "all"@,
        FileFilter::Annotated => "annotated"@,
        FileFilter::Unreviewed => "unreviewed"@,
    }
}

impl Wire for ProjectionSnapshot {
    open spec fn doc(&self) -> JsonModel {
        let m1 = with_member(Seq::empty(), "filter"@, JsonModel::Text(filter_name(self.filter)));
        let m2 = with_member(m1, "files"@, JsonModel::Array(docs(self.files@)));
        let m3 = with_member(m2, "tree"@, JsonModel::Array(docs(self.tree@)));
        let m4 = with_member(m3, "counts"@, JsonModel::Object(counts_members(self.counts@)));
        let m5 = with_member(
            m4,
            "reviewLevelComments"@,
            number_doc(self.review_level_comments as u64),
        );
        let m6 = with_member(
            m5,
            "unattachedComments"@,
            number_doc(self.unattached_comments as u64),
        );
        let m7 = with_member(m6, "overview"@, JsonModel::Array(docs(self.overview@)));
        let m8 = with_member(
            m7,
            "selected"@,
            match self.selected {
                Some(id) => id.doc(),
                None => JsonModel::Null,
            },
        );
        let m9 = with_member(m8, "targetCounts"@, JsonModel::Array(docs(self.target_counts@)));
        let m10 = with_member(
            m9,
            "untargetedComments"@,
            number_doc(self.untargeted_comments as u64),
        );
        JsonModel::Object(
            with_member(m10, "wasOnComments"@, number_doc(self.was_on_comments as u64)),
        )
    }

    fn to_json(&self) -> Json {
        let filter: &str = match self.filter {
            FileFilter::All => "all",
            FileFilter::Annotated => "annotated",
            FileFilter::Unreviewed => "unreviewed",
        };
        let mut map: JsonMap = JsonMap::new();
        put_text(&mut map, "filter", filter);
        map.insert(copy_of("files"), list_json(self.files.as_slice()));
        map.insert(copy_of("tree"), list_json(self.tree.as_slice()));
        map.insert(copy_of("counts"), Json::Object(counts_map(&self.counts)));
        put_number(&mut map, "reviewLevelComments", self.review_level_comments as u64);
        put_number(&mut map, "unattachedComments", self.unattached_comments as u64);
        map.insert(copy_of("overview"), list_json(self.overview.as_slice()));
        match &self.selected {
            Some(id) => map.insert(copy_of("selected"), id.to_json()),
            None => map.insert(copy_of("selected"), Json::Null),
        }
        map.insert(copy_of("targetCounts"), list_json(self.target_counts.as_slice()));
        put_number(&mut map, "untargetedComments", self.untargeted_comments as u64);
        put_number(&mut map, "wasOnComments", self.was_on_comments as u64);
        Json::Object(map)
    }
}

impl Wire for StatusCounts {
    open spec fn doc(&self) -> JsonModel {
        let m1 = with_member(Seq::empty(), "open"@, number_doc(self.open as u64));
        let m2 = with_member(m1, "addressed"@, number_doc(self.addressed as u64));
        let m3 = with_member(m2, "resolved"@, number_doc(self.resolved as u64));
        JsonModel::Object(with_member(m3, "reopened"@, number_doc(self.reopened as u64)))
    }

    fn to_json(&self) -> Json {
        let mut map: JsonMap = JsonMap::new();
        put_number(&mut map, "open", self.open as u64);
        put_number(&mut map, "addressed", self.addressed as u64);
        put_number(&mut map, "resolved", self.resolved as u64);
        put_number(&mut map, "reopened", self.reopened as u64);
        Json::Object(map)
    }
}

impl Wire for ReviewSummary {
    open spec fn doc(&self) -> JsonModel {
        let m1 = with_member(Seq::empty(), "name"@, JsonModel::Text(self.name@));
        let m2 = with_member(m1, "revision"@, number_doc(self.revision as u64));
        let m3 = with_member(m2, "counts"@, self.counts.doc());
        let m4 = with_member(m3, "readOnly"@, JsonModel::Bool(self.read_only));
        JsonModel::Object(with_member(m4, "warnings"@, names_doc(self.warnings.deep_view())))
    }

    fn to_json(&self) -> Json {
        let mut map: JsonMap = JsonMap::new();
        put_text(&mut map, "name", self.name.as_str());
        put_number(&mut map, "revision", self.revision as u64);
        map.insert(copy_of("counts"), self.counts.to_json());
        put_bool(&mut map, "readOnly", self.read_only);
        map.insert(copy_of("warnings"), names_json(&self.warnings));
        Json::Object(map)
    }
}

impl Wire for ExpansionResult {
    open spec fn doc(&self) -> JsonModel {
        let m1 = with_member(Seq::empty(), "gap"@, self.gap.doc());
        let m2 = with_member(m1, "at"@, number_doc(self.at as u64));
        JsonModel::Object(with_member(m2, "rows"@, JsonModel::Array(docs(self.rows@))))
    }

    fn to_json(&self) -> Json {
        let mut map: JsonMap = JsonMap::new();
        map.insert(copy_of("gap"), self.gap.to_json());
        put_number(&mut map, "at", self.at as u64);
        map.insert(copy_of("rows"), list_json(self.rows.as_slice()));
        Json::Object(map)
    }
}

impl<'a> Wire for FileProjection<'a> {
    open spec fn doc(&self) -> JsonModel {
        let m1 = with_member(Seq::empty(), "view"@, self.view.doc());
        JsonModel::Object(
            with_member(m1, "comments"@, JsonModel::Array(docs(self.comments@))),
        )
    }

    fn to_json(&self) -> Json {
        let mut map: JsonMap = JsonMap::new();
        map.insert(copy_of("view"), self.view.to_json());
        map.insert(copy_of("comments"), list_json(self.comments.as_slice()));
        Json::Object(map)
    }
}

// --------------------------------------------------------------------- commands

/// Chords as an array of texts.
pub open spec fn chords_doc(chords: Seq<&str>) -> JsonModel {
    JsonModel::Array(Seq::new(chords.len(), |i: int| JsonModel::Text(chords[i]@)))
}

fn chords_json(chords: &Vec<&'static str>) -> (r: Json)
    ensures
        r.model() == chords_doc(chords@),
{
    let ghost goal = chords_doc(chords@)->Array_0;
    let mut out: Vec<Json> = Vec::new();
    let mut i: usize = 0;
    while i < chords.len()
        invariant
            i <= chords.len(),
            goal == chords_doc(chords@)->Array_0,
            out@.len() == i,
            forall|k: int| 0 <= k < i ==> (#[trigger] out@[k]).model() == goal[k],
        decreases chords.len() - i,
    {
        out.push(Json::Text(copy_of(chords[i])));
        i += 1;
    }
    let r = Json::Array(out);
    assert(r.model()->Array_0 =~= goal);
    r
}

impl Wire for CommandSpec {
    open spec fn doc(&self) -> JsonModel {
        let m1 = with_member(Seq::empty(), "id"@, JsonModel::Text(self.id@));
        let m2 = with_member(m1, "name"@, JsonModel::Text(self.name@));
        let m3 = with_member(m2, "desc"@, JsonModel::Text(self.desc@));
        let m4 = with_member(m3, "tui"@, chords_doc(self.tui@));
        let m5 = with_member(m4, "nvim"@, chords_doc(self.nvim@));
        JsonModel::Object(with_member(m5, "web"@, chords_doc(self.web@)))
    }

    fn to_json(&self) -> Json {
        let mut map: JsonMap = JsonMap::new();
        put_text(&mut map, "id", self.id);
        put_text(&mut map, "name", self.name);
        put_text(&mut map, "desc", self.desc);
        map.insert(copy_of("tui"), chords_json(&self.tui));
        map.insert(copy_of("nvim"), chords_json(&self.nvim));
        map.insert(copy_of("web"), chords_json(&self.web));
        Json::Object(map)
    }
}

// ----------------------------------------------------------------------- stacks

impl Wire for Endpoint {
    open spec fn doc(&self) -> JsonModel {
        match *self {
            Endpoint::Commit { oid } => JsonModel::Object(
                with_member(
                    with_member(Seq::empty(), "kind"@, JsonModel::Text("commit"@)),
                    "oid"@,
                    JsonModel::Text(oid@),
                ),
            ),
            Endpoint::EmptyTree { oid } => JsonModel::Object(
                with_member(
                    with_member(Seq::empty(), "kind"@, JsonModel::Text("emptyTree"@)),
                    "oid"@,
                    JsonModel::Text(oid@),
                ),
            ),
            Endpoint::Index => JsonModel::Object(
                with_member(Seq::empty(), "kind"@, JsonModel::Text("index"@)),
            ),
            Endpoint::Worktree => JsonModel::Object(
                with_member(Seq::empty(), "kind"@, JsonModel::Text("worktree"@)),
            ),
        }
    }

    fn to_json(&self) -> Json {
        let mut map: JsonMap = JsonMap::new();
        match self {
            Endpoint::Commit { oid } => {
                put_text(&mut map, "kind", "commit");
                put_text(&mut map, "oid", oid.as_str());
            },
            Endpoint::EmptyTree { oid } => {
                put_text(&mut map, "kind", "emptyTree");
                put_text(&mut map, "oid", oid.as_str());
            },
            Endpoint::Index => put_text(&mut map, "kind", "index"),
            Endpoint::Worktree => put_text(&mut map, "kind", "worktree"),
        }
        Json::Object(map)
    }
}

impl Wire for Comparison {
    open spec fn doc(&self) -> JsonModel {
        let m1 = with_member(Seq::empty(), "old"@, self.old.doc());
        JsonModel::Object(with_member(m1, "new"@, self.new.doc()))
    }

    fn to_json(&self) -> Json {
        let mut map: JsonMap = JsonMap::new();
        map.insert(copy_of("old"), self.old.to_json());
        map.insert(copy_of("new"), self.new.to_json());
        Json::Object(map)
    }
}

/// Names as an array of texts.
pub open spec fn names_doc(names: Seq<Seq<char>>) -> JsonModel {
    JsonModel::Array(Seq::new(names.len(), |i: int| JsonModel::Text(names[i])))
}

/// Names as an array of texts.
pub fn names_json(names: &Vec<String>) -> (r: Json)
    ensures
        r.model() == names_doc(names.deep_view()),
{
    let ghost model = names.deep_view();
    let ghost goal = names_doc(model)->Array_0;
    let mut out: Vec<Json> = Vec::new();
    let mut i: usize = 0;
    while i < names.len()
        invariant
            i <= names.len(),
            model == names.deep_view(),
            model.len() == names.len(),
            goal == names_doc(model)->Array_0,
            out@.len() == i,
            forall|k: int| 0 <= k < i ==> (#[trigger] out@[k]).model() == goal[k],
        decreases names.len() - i,
    {
        assert(model[i as int] == names[i as int]@);
        out.push(Json::Text(copy_of(names[i].as_str())));
        i += 1;
    }
    let r = Json::Array(out);
    assert(r.model()->Array_0 =~= goal);
    r
}

impl Wire for Target {
    open spec fn doc(&self) -> JsonModel {
        let m1 = with_member(Seq::empty(), "id"@, self.id.doc());
        let m2 = with_member(m1, "label"@, JsonModel::Text(self.label@));
        let m3 = with_member(m2, "position"@, nullable_number(wide(self.position)));
        let m4 = with_member(m3, "tip"@, nullable_text(self.tip.deep_view()));
        let m5 = with_member(m4, "commitCount"@, number_doc(self.commit_count as u64));
        let m6 = with_member(m5, "subject"@, nullable_text(self.subject.deep_view()));
        let m7 = with_member(m6, "aliases"@, names_doc(self.aliases.deep_view()));
        JsonModel::Object(with_member(m7, "comparison"@, self.comparison.doc()))
    }

    fn to_json(&self) -> Json {
        let tip: Option<&str> = match &self.tip {
            Some(tip) => Some(tip.as_str()),
            None => None,
        };
        let subject: Option<&str> = match &self.subject {
            Some(subject) => Some(subject.as_str()),
            None => None,
        };
        let mut map: JsonMap = JsonMap::new();
        map.insert(copy_of("id"), self.id.to_json());
        put_text(&mut map, "label", self.label.as_str());
        put_nullable_number(&mut map, "position", widened(self.position));
        put_nullable_text(&mut map, "tip", tip);
        put_number(&mut map, "commitCount", self.commit_count as u64);
        put_nullable_text(&mut map, "subject", subject);
        map.insert(copy_of("aliases"), names_json(&self.aliases));
        map.insert(copy_of("comparison"), self.comparison.to_json());
        Json::Object(map)
    }
}

impl Wire for Stack {
    open spec fn doc(&self) -> JsonModel {
        let m1 = with_member(Seq::empty(), "trunk"@, JsonModel::Text(self.trunk@));
        let m2 = with_member(m1, "base"@, JsonModel::Text(self.base@));
        let m3 = with_member(m2, "head"@, JsonModel::Text(self.head@));
        JsonModel::Object(with_member(m3, "targets"@, JsonModel::Array(docs(self.targets@))))
    }

    fn to_json(&self) -> Json {
        let mut map: JsonMap = JsonMap::new();
        put_text(&mut map, "trunk", self.trunk.as_str());
        put_text(&mut map, "base", self.base.as_str());
        put_text(&mut map, "head", self.head.as_str());
        map.insert(copy_of("targets"), list_json(self.targets.as_slice()));
        Json::Object(map)
    }
}

/// A part of a record: a member of an object, or what stands in its place in an
/// array that lists the parts in order.
pub open spec fn part_at(doc: JsonModel, key: Seq<char>, at: int) -> Option<JsonModel> {
    match doc {
        JsonModel::Object(members) => lookup(members, key),
        JsonModel::Array(items) => if 0 <= at < items.len() {
            Some(items[at])
        } else {
            None
        },
        _ => None,
    }
}

/// Whether a record that comes as an array has as many parts as it should.
pub open spec fn sized(doc: JsonModel, parts: int) -> bool {
    doc matches JsonModel::Array(items) ==> items.len() == parts
}

/// A part that is a text.
pub open spec fn text_at(doc: JsonModel, key: Seq<char>, at: int) -> Option<Seq<char>> {
    match part_at(doc, key, at) {
        Some(JsonModel::Text(s)) => Some(s),
        _ => None,
    }
}

/// A text part that may be `null`, and absent from an object; the outer `None`
/// is a part of another kind.
pub open spec fn opt_text_at(doc: JsonModel, key: Seq<char>, at: int) -> Option<
    Option<Seq<char>>,
> {
    match part_at(doc, key, at) {
        None => if doc is Object {
            Some(None)
        } else {
            None
        },
        Some(JsonModel::Null) => Some(None),
        Some(JsonModel::Text(s)) => Some(Some(s)),
        _ => None,
    }
}

/// A 32-bit number that may be `null`, and absent from an object.
pub open spec fn opt_u32_at(doc: JsonModel, key: Seq<char>, at: int) -> Option<Option<u32>> {
    match part_at(doc, key, at) {
        None => if doc is Object {
            Some(None)
        } else {
            None
        },
        Some(JsonModel::Null) => Some(None),
        Some(JsonModel::Number(NumberModel::Unsigned(n))) if n <= u32::MAX => Some(Some(n as u32)),
        _ => None,
    }
}

/// The texts of an array, where it holds nothing else.
pub open spec fn texts_in(items: Seq<JsonModel>) -> Option<Seq<Seq<char>>>
    decreases items.len(),
{
    if items.len() == 0 {
        Some(Seq::empty())
    } else {
        match (texts_in(items.drop_last()), items.last()) {
            (Some(before), JsonModel::Text(s)) => Some(before.push(s)),
            _ => None,
        }
    }
}

/// The endpoint that a record names: an object tagged by its `kind`, or an array
/// of the kind and what it needs.
pub open spec fn read_endpoint(doc: JsonModel) -> Option<EndpointModel> {
    match text_at(doc, "kind"@, 0) {
        None => None,
        Some(kind) => if kind == "index"@ {
            if sized(doc, 1) {
                Some(EndpointModel::Index)
            } else {
                None
            }
        } else if kind == "worktree"@ {
            if sized(doc, 1) {
                Some(EndpointModel::Worktree)
            } else {
                None
            }
        } else {
            match text_at(doc, "oid"@, 1) {
                Some(oid) if sized(doc, 2) => if kind == "commit"@ {
                    Some(EndpointModel::Commit { oid })
                } else if kind == "emptyTree"@ {
                    Some(EndpointModel::EmptyTree { oid })
                } else {
                    None
                },
                _ => None,
            }
        },
    }
}

/// A member of an object.
pub open spec fn member_at(doc: JsonModel, key: Seq<char>) -> Option<JsonModel> {
    match doc {
        JsonModel::Object(members) => lookup(members, key),
        _ => None,
    }
}

pub open spec fn endpoint_at(doc: JsonModel, key: Seq<char>, at: int) -> Option<EndpointModel> {
    match part_at(doc, key, at) {
        Some(value) => read_endpoint(value),
        None => None,
    }
}

/// The comparison that a record describes: an object, or an array of its ends.
pub open spec fn read_comparison(doc: JsonModel) -> Option<ComparisonModel> {
    match (endpoint_at(doc, "old"@, 0), endpoint_at(doc, "new"@, 1)) {
        (Some(old_end), Some(new_end)) if sized(doc, 2) => Some(
            ComparisonModel { old: old_end, new: new_end },
        ),
        _ => None,
    }
}

pub open spec fn target_at(doc: JsonModel, key: Seq<char>, at: int) -> Option<TargetIdModel> {
    match part_at(doc, key, at) {
        Some(value) => match read_target(value) {
            Ok(id) => Some(id),
            Err(_) => None,
        },
        None => None,
    }
}

pub open spec fn names_at(doc: JsonModel, key: Seq<char>, at: int) -> Option<Seq<Seq<char>>> {
    match part_at(doc, key, at) {
        Some(JsonModel::Array(items)) => texts_in(items),
        _ => None,
    }
}

pub open spec fn comparison_at(doc: JsonModel, key: Seq<char>, at: int) -> Option<
    ComparisonModel,
> {
    match part_at(doc, key, at) {
        Some(value) => read_comparison(value),
        None => None,
    }
}

/// The target that a record describes: an object, of which members that are not
/// known are passed over, or an array of the parts in order.
pub open spec fn read_target_record(doc: JsonModel) -> Option<TargetModel> {
    match (
        target_at(doc, "id"@, 0),
        text_at(doc, "label"@, 1),
        opt_u32_at(doc, "position"@, 2),
    ) {
        (Some(id), Some(label), Some(position)) => match (
            opt_text_at(doc, "tip"@, 3),
            opt_u32_at(doc, "commitCount"@, 4),
            opt_text_at(doc, "subject"@, 5),
        ) {
            (Some(tip), Some(Some(commit_count)), Some(subject)) => match (
                names_at(doc, "aliases"@, 6),
                comparison_at(doc, "comparison"@, 7),
            ) {
                (Some(aliases), Some(comparison)) if sized(doc, 8) => Some(
                    TargetModel {
                        id,
                        label,
                        position,
                        tip,
                        commit_count,
                        subject,
                        aliases,
                        comparison,
                    },
                ),
                _ => None,
            },
            _ => None,
        },
        _ => None,
    }
}

/// A part of a record.
fn part<'a>(doc: &'a Json, key: &str, at: usize) -> (r: Option<&'a Json>)
    ensures
        match part_at(doc.model(), key@, at as int) {
            Some(value) => r matches Some(v) && v.model() == value,
            None => r is None,
        },
{
    match doc {
        Json::Object(map) => map.get(key),
        Json::Array(items) => if at < items.len() {
            assert(doc.model()->Array_0[at as int] == items@[at as int].model());
            Some(&items[at])
        } else {
            None
        },
        _ => None,
    }
}

/// Whether a record that comes as an array has as many parts as it should.
fn is_sized(doc: &Json, parts: usize) -> (r: bool)
    ensures
        r == sized(doc.model(), parts as int),
{
    match doc {
        Json::Array(items) => items.len() == parts,
        _ => true,
    }
}

fn is_object(doc: &Json) -> (r: bool)
    ensures
        r == (doc.model() is Object),
{
    match doc {
        Json::Object(_) => true,
        _ => false,
    }
}

fn part_text(doc: &Json, key: &str, at: usize) -> (r: Option<String>)
    ensures
        r.deep_view() == text_at(doc.model(), key@, at as int),
{
    match part(doc, key, at) {
        Some(Json::Text(s)) => Some(copy_of(s.as_str())),
        _ => None,
    }
}

fn part_opt_text(doc: &Json, key: &str, at: usize) -> (r: Option<Option<String>>)
    ensures
        r.deep_view() == opt_text_at(doc.model(), key@, at as int),
{
    match part(doc, key, at) {
        None => if is_object(doc) {
            Some(None)
        } else {
            None
        },
        Some(Json::Null) => Some(None),
        Some(Json::Text(s)) => Some(Some(copy_of(s.as_str()))),
        _ => None,
    }
}

fn part_opt_u32(doc: &Json, key: &str, at: usize) -> (r: Option<Option<u32>>)
    ensures
        r == opt_u32_at(doc.model(), key@, at as int),
{
    match part(doc, key, at) {
        None => if is_object(doc) {
            Some(None)
        } else {
            None
        },
        Some(Json::Null) => Some(None),
        Some(Json::Number(n)) => match n.integer() {
            Integer::Unsigned(v) if v <= u32::MAX as u64 => Some(Some(v as u32)),
            _ => None,
        },
        _ => None,
    }
}

/// The texts of an array, where it holds nothing else.
pub(crate) fn texts_from(items: &Vec<Json>) -> (r: Option<Vec<String>>)
    ensures
        r.deep_view() == texts_in(Json::Array(*items).model()->Array_0),
{
    let ghost model = Json::Array(*items).model()->Array_0;
    let mut out: Vec<String> = Vec::new();
    let mut i: usize = 0;
    assert(out.deep_view() =~= Seq::empty());
    assert(model.take(0) =~= Seq::empty());
    while i < items.len()
        invariant
            i <= items.len(),
            model == Json::Array(*items).model()->Array_0,
            model.len() == items.len(),
            texts_in(model.take(i as int)) == Some(out.deep_view()),
        decreases items.len() - i,
    {
        proof {
            assert(model[i as int] == items@[i as int].model());
            assert(model.take(i + 1).drop_last() =~= model.take(i as int));
            assert(model.take(i + 1).last() == model[i as int]);
        }
        match &items[i] {
            Json::Text(s) => {
                let ghost before = out.deep_view();
                let copy: String = copy_of(s.as_str());
                out.push(copy);
                assert(out.deep_view() =~= before.push(copy@));
            },
            _ => {
                proof {
                    lemma_no_texts(model, i + 1);
                }
                return None;
            },
        }
        i += 1;
    }
    assert(model.take(i as int) =~= model);
    Some(out)
}

fn part_names(doc: &Json, key: &str, at: usize) -> (r: Option<Vec<String>>)
    ensures
        r.deep_view() == names_at(doc.model(), key@, at as int),
{
    match part(doc, key, at) {
        Some(Json::Array(items)) => texts_from(items),
        _ => None,
    }
}

proof fn lemma_no_texts(items: Seq<JsonModel>, n: int)
    requires
        0 <= n <= items.len(),
        texts_in(items.take(n)) is None,
    ensures
        texts_in(items) is None,
    decreases items.len(),
{
    if n < items.len() {
        assert(items.drop_last().take(n) =~= items.take(n));
        lemma_no_texts(items.drop_last(), n);
    } else {
        assert(items.take(n) =~= items);
    }
}

/// Reads an endpoint.
pub fn endpoint_from(doc: &Json) -> (r: Option<Endpoint>)
    ensures
        r.deep_view() == read_endpoint(doc.model()),
{
    let kind: String = part_text(doc, "kind", 0)?;
    let bare: Option<Endpoint> = if same_text(kind.as_str(), "index") {
        Some(Endpoint::Index)
    } else if same_text(kind.as_str(), "worktree") {
        Some(Endpoint::Worktree)
    } else {
        None
    };
    if bare.is_some() {
        return if is_sized(doc, 1) {
            bare
        } else {
            None
        };
    }
    let oid: String = part_text(doc, "oid", 1)?;
    if !is_sized(doc, 2) {
        None
    } else if same_text(kind.as_str(), "commit") {
        Some(Endpoint::Commit { oid })
    } else if same_text(kind.as_str(), "emptyTree") {
        Some(Endpoint::EmptyTree { oid })
    } else {
        None
    }
}

fn part_endpoint(doc: &Json, key: &str, at: usize) -> (r: Option<Endpoint>)
    ensures
        r.deep_view() == endpoint_at(doc.model(), key@, at as int),
{
    match part(doc, key, at) {
        Some(value) => endpoint_from(value),
        None => None,
    }
}

/// Reads a comparison.
pub fn comparison_from(doc: &Json) -> (r: Option<Comparison>)
    ensures
        r.deep_view() == read_comparison(doc.model()),
{
    match (part_endpoint(doc, "old", 0), part_endpoint(doc, "new", 1)) {
        (Some(old_end), Some(new_end)) => if is_sized(doc, 2) {
            Some(Comparison { old: old_end, new: new_end })
        } else {
            None
        },
        _ => None,
    }
}

fn part_target(doc: &Json, key: &str, at: usize) -> (r: Option<TargetId>)
    ensures
        r.deep_view() == target_at(doc.model(), key@, at as int),
{
    match part(doc, key, at) {
        Some(value) => match target_from(value) {
            Ok(id) => Some(id),
            Err(_) => None,
        },
        None => None,
    }
}

fn part_comparison(doc: &Json, key: &str, at: usize) -> (r: Option<Comparison>)
    ensures
        r.deep_view() == comparison_at(doc.model(), key@, at as int),
{
    match part(doc, key, at) {
        Some(value) => comparison_from(value),
        None => None,
    }
}

/// Reads the description of a stack target.
pub fn target_record_from(doc: &Json) -> (r: Option<Target>)
    ensures
        r.deep_view() == read_target_record(doc.model()),
{
    let id: TargetId = part_target(doc, "id", 0)?;
    let label: String = part_text(doc, "label", 1)?;
    let position: Option<u32> = part_opt_u32(doc, "position", 2)?;
    let tip: Option<String> = part_opt_text(doc, "tip", 3)?;
    let commit_count: u32 = part_opt_u32(doc, "commitCount", 4)??;
    let subject: Option<String> = part_opt_text(doc, "subject", 5)?;
    let aliases: Vec<String> = part_names(doc, "aliases", 6)?;
    let comparison: Comparison = part_comparison(doc, "comparison", 7)?;
    if is_sized(doc, 8) {
        Some(Target { id, label, position, tip, commit_count, subject, aliases, comparison })
    } else {
        None
    }
}

// ------------------------------------------------------------------------- laws

/// A view goes out with each key once, and its counts are the view's own: a
/// diff that is too large sends no second pair of them.
pub proof fn views_send_their_counts_once(view: FileView)
    ensures
        view.doc() matches JsonModel::Object(members) && {
            &&& distinct_keys(members)
            &&& lookup(members, "adds"@) == Some(number_doc(view.adds))
            &&& lookup(members, "dels"@) == Some(number_doc(view.dels))
        },
{
    let adds = number_doc(view.adds);
    let dels = number_doc(view.dels);
    let old_ending = JsonModel::Bool(view.old_missing_newline);
    let new_ending = JsonModel::Bool(view.new_missing_newline);
    let rows = JsonModel::Array(docs(view.rows@));
    let status = JsonModel::Text(status_name(view.status));
    let mode = JsonModel::Text(mode_name(view.mode));
    let m0 = Seq::<MemberModel>::empty();
    let m1 = with_member(m0, "path"@, JsonModel::Text(view.path@));
    let m2 = with_some(m1, "oldPath"@, text_doc(view.old_path.deep_view()));
    let m3 = with_member(m2, "status"@, status);
    let m4 = with_kind(m3, view.kind.deep_view());
    let m5 = with_member(m4, "mode"@, mode);
    let m6 = with_member(m5, "adds"@, adds);
    let m7 = with_member(m6, "dels"@, dels);
    let m8 = with_member(m7, "oldMissingNewline"@, old_ending);
    let m9 = with_member(m8, "newMissingNewline"@, new_ending);
    lemma_with_member(m0, "path"@, JsonModel::Text(view.path@));
    if let Some(origin) = view.old_path.deep_view() {
        lemma_with_member(m1, "oldPath"@, JsonModel::Text(origin));
    }
    lemma_with_member(m2, "status"@, status);
    match view.kind.deep_view() {
        FileDiffKindModel::Text => {
            lemma_with_member(m3, "kind"@, JsonModel::Text("text"@));
        },
        FileDiffKindModel::Binary { desc } => {
            let tagged = with_member(m3, "kind"@, JsonModel::Text("binary"@));
            lemma_with_member(m3, "kind"@, JsonModel::Text("binary"@));
            lemma_with_member(tagged, "desc"@, JsonModel::Text(desc));
        },
        FileDiffKindModel::TooLarge { .. } => {
            lemma_with_member(m3, "kind"@, JsonModel::Text("toolarge"@));
        },
    }
    lemma_with_member(m4, "mode"@, mode);
    lemma_with_member(m5, "adds"@, adds);
    lemma_with_member(m6, "dels"@, dels);
    lemma_with_member(m7, "oldMissingNewline"@, old_ending);
    lemma_with_member(m8, "newMissingNewline"@, new_ending);
    lemma_with_member(m9, "rows"@, rows);
    reveal_strlit("adds");
    reveal_strlit("dels");
    reveal_strlit("oldMissingNewline");
    reveal_strlit("newMissingNewline");
    reveal_strlit("rows");
    assert("adds"@[0] == 'a' && "dels"@[0] == 'd' && "rows"@[0] == 'r');
    assert("adds"@.len() == 4 && "dels"@.len() == 4);
    assert("oldMissingNewline"@.len() == 17 && "newMissingNewline"@.len() == 17);
    lemma_with_other_member(m6, "dels"@, dels, "adds"@);
    lemma_with_other_member(m7, "oldMissingNewline"@, old_ending, "adds"@);
    lemma_with_other_member(m8, "newMissingNewline"@, new_ending, "adds"@);
    lemma_with_other_member(m9, "rows"@, rows, "adds"@);
    lemma_with_other_member(m7, "oldMissingNewline"@, old_ending, "dels"@);
    lemma_with_other_member(m8, "newMissingNewline"@, new_ending, "dels"@);
    lemma_with_other_member(m9, "rows"@, rows, "dels"@);
}

proof fn lemma_texts_read_back(names: Seq<Seq<char>>)
    ensures
        texts_in(names_doc(names)->Array_0) == Some(names),
    decreases names.len(),
{
    let items = names_doc(names)->Array_0;
    if names.len() > 0 {
        let init = names.drop_last();
        lemma_texts_read_back(init);
        assert(items.drop_last() =~= names_doc(init)->Array_0);
        assert(items.last() == JsonModel::Text(names.last()));
        assert(init.push(names.last()) =~= names);
    } else {
        assert(names =~= Seq::empty());
    }
}

proof fn lemma_endpoint_reads_back(end: Endpoint)
    ensures
        read_endpoint(end.doc()) == Some(end.deep_view()),
{
    let m0 = Seq::<MemberModel>::empty();
    reveal_strlit("kind");
    reveal_strlit("oid");
    reveal_strlit("index");
    reveal_strlit("worktree");
    reveal_strlit("commit");
    reveal_strlit("emptyTree");
    assert("kind"@.len() == 4 && "oid"@.len() == 3);
    assert("index"@.len() == 5 && "worktree"@.len() == 8);
    assert("commit"@.len() == 6 && "emptyTree"@.len() == 9);
    match end {
        Endpoint::Commit { oid } => {
            let tag = JsonModel::Text("commit"@);
            let m1 = with_member(m0, "kind"@, tag);
            lemma_with_member(m0, "kind"@, tag);
            lemma_with_member(m1, "oid"@, JsonModel::Text(oid@));
            lemma_with_other_member(m1, "oid"@, JsonModel::Text(oid@), "kind"@);
        },
        Endpoint::EmptyTree { oid } => {
            let tag = JsonModel::Text("emptyTree"@);
            let m1 = with_member(m0, "kind"@, tag);
            lemma_with_member(m0, "kind"@, tag);
            lemma_with_member(m1, "oid"@, JsonModel::Text(oid@));
            lemma_with_other_member(m1, "oid"@, JsonModel::Text(oid@), "kind"@);
        },
        Endpoint::Index => {
            lemma_with_member(m0, "kind"@, JsonModel::Text("index"@));
        },
        Endpoint::Worktree => {
            lemma_with_member(m0, "kind"@, JsonModel::Text("worktree"@));
        },
    }
}

proof fn lemma_comparison_reads_back(comparison: Comparison)
    ensures
        read_comparison(comparison.doc()) == Some(comparison.deep_view()),
{
    let m0 = Seq::<MemberModel>::empty();
    let m1 = with_member(m0, "old"@, comparison.old.doc());
    reveal_strlit("old");
    reveal_strlit("new");
    assert("old"@[0] == 'o' && "new"@[0] == 'n');
    lemma_with_member(m0, "old"@, comparison.old.doc());
    lemma_with_member(m1, "new"@, comparison.new.doc());
    lemma_with_other_member(m1, "new"@, comparison.new.doc(), "old"@);
    lemma_endpoint_reads_back(comparison.old);
    lemma_endpoint_reads_back(comparison.new);
}

/// A stack target that went over the wire is read back as it was.
pub proof fn stack_targets_read_back(target: Target)
    ensures
        read_target_record(target.doc()) == Some(target.deep_view()),
{
    let id = target.id.doc();
    let label = JsonModel::Text(target.label@);
    let position = nullable_number(wide(target.position));
    let tip = nullable_text(target.tip.deep_view());
    let count = number_doc(target.commit_count as u64);
    let subject = nullable_text(target.subject.deep_view());
    let aliases = names_doc(target.aliases.deep_view());
    let comparison = target.comparison.doc();
    let m0 = Seq::<MemberModel>::empty();
    let m1 = with_member(m0, "id"@, id);
    let m2 = with_member(m1, "label"@, label);
    let m3 = with_member(m2, "position"@, position);
    let m4 = with_member(m3, "tip"@, tip);
    let m5 = with_member(m4, "commitCount"@, count);
    let m6 = with_member(m5, "subject"@, subject);
    let m7 = with_member(m6, "aliases"@, aliases);
    let m8 = with_member(m7, "comparison"@, comparison);
    reveal_strlit("id");
    reveal_strlit("label");
    reveal_strlit("position");
    reveal_strlit("tip");
    reveal_strlit("commitCount");
    reveal_strlit("subject");
    reveal_strlit("aliases");
    reveal_strlit("comparison");
    assert("id"@.len() == 2 && "label"@.len() == 5 && "position"@.len() == 8 && "tip"@.len() == 3);
    assert("commitCount"@.len() == 11 && "subject"@.len() == 7 && "aliases"@.len() == 7
        && "comparison"@.len() == 10);
    assert("subject"@[0] == 's' && "aliases"@[0] == 'a');
    lemma_put_new(m0, "id"@, id);
    lemma_put_new(m1, "label"@, label);
    lemma_put_new(m2, "position"@, position);
    lemma_put_new(m3, "tip"@, tip);
    lemma_put_new(m4, "commitCount"@, count);
    lemma_put_new(m5, "subject"@, subject);
    lemma_put_new(m6, "aliases"@, aliases);
    lemma_put_new(m7, "comparison"@, comparison);
    lemma_mapping(m8, "id"@);
    lemma_mapping(m8, "label"@);
    lemma_mapping(m8, "position"@);
    lemma_mapping(m8, "tip"@);
    lemma_mapping(m8, "commitCount"@);
    lemma_mapping(m8, "subject"@);
    lemma_mapping(m8, "aliases"@);
    lemma_mapping(m8, "comparison"@);
    targets_read_back(target.id.deep_view());
    lemma_texts_read_back(target.aliases.deep_view());
    lemma_comparison_reads_back(target.comparison);
}

} // verus!
