//! The JSON form of the review file: salvage-mode reading and canonical
//! writing.
//!
//! Reads must never brick: bad comment records are quarantined (preserved,
//! never silently dropped), salvageable top-level fields are filled with
//! warnings, and a file that a newer schema major wrote, or that holds a
//! top-level value this build cannot represent, is read-only.

use vstd::prelude::*;

use crate::json::{
    distinct_keys, has_key, items_depth, json_compact, json_complaint, json_depth, json_kind_name,
    json_pretty, json_read, lemma_key_index, lemma_mapping, lemma_members_except_concat,
    lemma_members_except_keys, lemma_members_except_none, lemma_put_all_new, lemma_put_new, lookup,
    mapping, members_depth, members_except, put_all, with_member, Integer, Json, JsonMap,
    JsonModel, JsonNumber, MemberModel, NumberModel,
};
use crate::lifecycle::{status_names_differ, Action, Actor, Status};
use crate::review::{
    comment_index, distinct_ids, first_comment_fault, git_source, lemma_comment_index,
    operations_keep_ids_distinct, valid_id, well_formed_id, Comment, CommentModel,
    NewCommentModel, ReviewError, ReviewErrorModel, ReviewFile, ReviewModel, Side, Source,
    SourceModel, SCHEMA_MAJOR,
};
use crate::stack::{TargetId, TargetIdModel};
use crate::text::{
    copy_of, debug_text, decimal, decimal_text, push_text, quoted, same_text, strs, text_of_three,
    text_of_two,
};

verus! {

// ------------------------------------------------------------ record readers

/// A negative integer in decimal.
pub open spec fn negative_text(n: i64) -> Seq<char> {
    "-"@ + decimal_text((-(n as int)) as nat)
}

/// How an error message names the value it found.
pub open spec fn unexpected(doc: JsonModel) -> Seq<char> {
    match doc {
        JsonModel::Null => "null"@,
        JsonModel::Bool(b) => if b {
            "boolean `true`"@
        } else {
            "boolean `false`"@
        },
        JsonModel::Number(NumberModel::Unsigned(n)) => "integer `"@ + decimal_text(n as nat)
            + "`"@,
        JsonModel::Number(NumberModel::Negative(n)) => "integer `"@ + negative_text(n) + "`"@,
        JsonModel::Number(NumberModel::Other(_)) => "floating point `"@ + json_compact(doc)
            + "`"@,
        JsonModel::Text(s) => "string "@ + debug_text(s),
        JsonModel::Array(_) => "sequence"@,
        JsonModel::Object(_) => "map"@,
    }
}

pub open spec fn wrong_type(doc: JsonModel, expected: Seq<char>) -> Seq<char> {
    "invalid type: "@ + unexpected(doc) + ", expected "@ + expected
}

pub open spec fn wrong_value(doc: JsonModel, expected: Seq<char>) -> Seq<char> {
    "invalid value: "@ + unexpected(doc) + ", expected "@ + expected
}

/// The document as a string.
pub open spec fn read_text(doc: JsonModel) -> Result<Seq<char>, Seq<char>> {
    match doc {
        JsonModel::Text(s) => Ok(s),
        _ => Err(wrong_type(doc, "a string"@)),
    }
}

/// The document as a 32-bit number.
pub open spec fn read_u32(doc: JsonModel) -> Result<u32, Seq<char>> {
    match doc {
        JsonModel::Number(NumberModel::Unsigned(n)) => if n <= u32::MAX {
            Ok(n as u32)
        } else {
            Err(wrong_value(doc, "u32"@))
        },
        JsonModel::Number(NumberModel::Negative(_)) => Err(wrong_value(doc, "u32"@)),
        _ => Err(wrong_type(doc, "u32"@)),
    }
}

/// The document as the name of a variant: a string, or an object of one
/// member whose key is the name.
pub open spec fn read_variant(doc: JsonModel) -> Result<(Seq<char>, JsonModel), Seq<char>> {
    match doc {
        JsonModel::Text(s) => Ok((s, JsonModel::Null)),
        JsonModel::Object(members) => if members.len() == 1 {
            Ok((members[0].key, members[0].value))
        } else {
            Err("invalid value: map, expected map with a single key"@)
        },
        _ => Err(wrong_type(doc, "string or map"@)),
    }
}

pub open spec fn status_named(name: Seq<char>) -> Option<Status> {
    if name == "open"@ {
        Some(Status::Open)
    } else if name == "addressed"@ {
        Some(Status::Addressed)
    } else if name == "resolved"@ {
        Some(Status::Resolved)
    } else if name == "reopened"@ {
        Some(Status::Reopened)
    } else {
        None
    }
}

pub open spec fn side_named(name: Seq<char>) -> Option<Side> {
    if name == "old"@ {
        Some(Side::Old)
    } else if name == "new"@ {
        Some(Side::New)
    } else {
        None
    }
}

/// The document as a status.
pub open spec fn read_status(doc: JsonModel) -> Result<Status, Seq<char>> {
    match read_variant(doc) {
        Err(e) => Err(e),
        Ok((name, payload)) => match status_named(name) {
            None => Err(
                "unknown variant `"@ + name
                    + "`, expected one of `open`, `addressed`, `resolved`, `reopened`"@,
            ),
            Some(status) => if payload == JsonModel::Null {
                Ok(status)
            } else {
                Err(wrong_type(payload, "unit"@))
            },
        },
    }
}

/// The document as a side.
pub open spec fn read_side(doc: JsonModel) -> Result<Side, Seq<char>> {
    match read_variant(doc) {
        Err(e) => Err(e),
        Ok((name, payload)) => match side_named(name) {
            None => Err("unknown variant `"@ + name + "`, expected `old` or `new`"@),
            Some(side) => if payload == JsonModel::Null {
                Ok(side)
            } else {
                Err(wrong_type(payload, "unit"@))
            },
        },
    }
}

/// The complaint about a kind of target that there is none of.
pub open spec fn unknown_target(kind: Seq<char>) -> Seq<char> {
    "unknown variant `"@ + kind + "`, expected one of `branch`, `head`, `stack`, `worktree`"@
}

/// The target of a kind that needs nothing else.
pub open spec fn bare_target(kind: Seq<char>) -> Option<TargetIdModel> {
    if kind == "head"@ {
        Some(TargetIdModel::Head)
    } else if kind == "stack"@ {
        Some(TargetIdModel::Stack)
    } else if kind == "worktree"@ {
        Some(TargetIdModel::Worktree)
    } else {
        None
    }
}

/// The stack target of a kind with what follows it in an array.
pub open spec fn read_listed_target(kind: Seq<char>, rest: Seq<JsonModel>) -> Result<
    TargetIdModel,
    Seq<char>,
> {
    if kind == "branch"@ {
        if rest.len() == 0 {
            Err("invalid length 0, expected struct variant TargetId::Branch with 1 element"@)
        } else {
            match read_text(rest[0]) {
                Err(e) => Err(e),
                Ok(name) => if rest.len() > 1 {
                    Err(
                        "invalid length "@ + decimal_text(rest.len())
                            + ", expected 1 element in sequence"@,
                    )
                } else {
                    Ok(TargetIdModel::Branch { name })
                },
            }
        }
    } else {
        match bare_target(kind) {
            None => Err(unknown_target(kind)),
            Some(target) => if rest.len() > 0 {
                Err(
                    "invalid length "@ + decimal_text(rest.len())
                        + ", expected 0 elements in sequence"@,
                )
            } else {
                Ok(target)
            },
        }
    }
}

/// The document as a stack target: an object tagged by its `kind`, or an array
/// of the kind and what it needs.
pub open spec fn read_target(doc: JsonModel) -> Result<TargetIdModel, Seq<char>> {
    match doc {
        JsonModel::Object(members) => match lookup(members, "kind"@) {
            None => Err("missing field `kind`"@),
            Some(JsonModel::Text(kind)) => if kind == "branch"@ {
                match lookup(members, "name"@) {
                    None => Err("missing field `name`"@),
                    Some(name) => match read_text(name) {
                        Ok(name) => Ok(TargetIdModel::Branch { name }),
                        Err(e) => Err(e),
                    },
                }
            } else {
                match bare_target(kind) {
                    Some(target) => Ok(target),
                    None => Err(unknown_target(kind)),
                }
            },
            Some(other) => Err(wrong_type(other, "variant identifier"@)),
        },
        JsonModel::Array(items) => if items.len() == 0 {
            Err("missing field `kind`"@)
        } else {
            match items[0] {
                JsonModel::Text(kind) => read_listed_target(kind, items.skip(1)),
                other => Err(wrong_type(other, "variant identifier"@)),
            }
        },
        _ => Err(wrong_type(doc, "internally tagged enum TargetId"@)),
    }
}

fn negative_decimal(n: i64) -> (r: String)
    requires
        n < 0,
    ensures
        r@ == negative_text(n),
{
    let magnitude: u64 = (-(n + 1)) as u64 + 1;
    text_of_two("-", decimal(magnitude).as_str())
}

fn unexpected_text(doc: &Json) -> (r: String)
    ensures
        r@ == unexpected(doc.model()),
{
    match doc {
        Json::Null => copy_of("null"),
        Json::Bool(b) => if *b {
            copy_of("boolean `true`")
        } else {
            copy_of("boolean `false`")
        },
        Json::Number(n) => unexpected_number(doc, n),
        Json::Text(s) => text_of_two("string ", quoted(s.as_str()).as_str()),
        Json::Array(_) => copy_of("sequence"),
        Json::Object(_) => copy_of("map"),
    }
}

fn unexpected_number(doc: &Json, n: &JsonNumber) -> (r: String)
    requires
        *doc == Json::Number(*n),
    ensures
        r@ == unexpected(doc.model()),
{
    match n.integer() {
        Integer::Unsigned(u) => text_of_three("integer `", decimal(u).as_str(), "`"),
        Integer::Negative(i) => text_of_three("integer `", negative_decimal(i).as_str(), "`"),
        Integer::NoInteger => text_of_three("floating point `", doc.to_compact().as_str(), "`"),
    }
}

fn wrong_type_text(doc: &Json, expected: &str) -> (r: String)
    ensures
        r@ == wrong_type(doc.model(), expected@),
{
    let mut out: String = copy_of("invalid type: ");
    push_text(&mut out, unexpected_text(doc).as_str());
    push_text(&mut out, ", expected ");
    push_text(&mut out, expected);
    out
}

fn wrong_value_text(doc: &Json, expected: &str) -> (r: String)
    ensures
        r@ == wrong_value(doc.model(), expected@),
{
    let mut out: String = copy_of("invalid value: ");
    push_text(&mut out, unexpected_text(doc).as_str());
    push_text(&mut out, ", expected ");
    push_text(&mut out, expected);
    out
}

fn text_from(doc: &Json) -> (r: Result<String, String>)
    ensures
        match read_text(doc.model()) {
            Ok(s) => r matches Ok(t) && t@ == s,
            Err(msg) => r matches Err(e) && e@ == msg,
        },
{
    match doc {
        Json::Text(s) => Ok(copy_of(s.as_str())),
        _ => Err(wrong_type_text(doc, "a string")),
    }
}

fn u32_from(doc: &Json) -> (r: Result<u32, String>)
    ensures
        match read_u32(doc.model()) {
            Ok(n) => r matches Ok(m) && m == n,
            Err(msg) => r matches Err(e) && e@ == msg,
        },
{
    match doc {
        Json::Number(n) => match n.integer() {
            Integer::Unsigned(u) => if u <= u32::MAX as u64 {
                Ok(u as u32)
            } else {
                Err(wrong_value_text(doc, "u32"))
            },
            Integer::Negative(_) => Err(wrong_value_text(doc, "u32")),
            Integer::NoInteger => Err(wrong_type_text(doc, "u32")),
        },
        _ => Err(wrong_type_text(doc, "u32")),
    }
}

/// The name of a variant and its payload, None standing for null.
pub(crate) fn variant_from<'a>(doc: &'a Json) -> (r: Result<(&'a str, Option<&'a Json>), String>)
    ensures
        match read_variant(doc.model()) {
            Ok((name, payload)) => r matches Ok(v) && v.0@ == name && payload == match v.1 {
                Some(p) => p.model(),
                None => JsonModel::Null,
            },
            Err(msg) => r matches Err(e) && e@ == msg,
        },
{
    match doc {
        Json::Text(s) => Ok((s.as_str(), None)),
        Json::Object(map) => if map.len() == 1 {
            Ok((map.key_at(0), Some(map.value_at(0))))
        } else {
            Err(copy_of("invalid value: map, expected map with a single key"))
        },
        _ => Err(wrong_type_text(doc, "string or map")),
    }
}

/// The complaint about a payload that is not null.
fn unit_fault(payload: Option<&Json>) -> (r: Option<String>)
    ensures
        ({
            let doc = match payload {
                Some(p) => p.model(),
                None => JsonModel::Null,
            };
            if doc == JsonModel::Null {
                r is None
            } else {
                r matches Some(e) && e@ == wrong_type(doc, "unit"@)
            }
        }),
{
    match payload {
        None => None,
        Some(p) => match p {
            Json::Null => None,
            _ => Some(wrong_type_text(p, "unit")),
        },
    }
}

/// Reads a status in its wire spelling.
pub fn status_from(doc: &Json) -> (r: Result<Status, String>)
    ensures
        match read_status(doc.model()) {
            Ok(s) => r matches Ok(t) && t == s,
            Err(msg) => r matches Err(e) && e@ == msg,
        },
{
    let (name, payload): (&str, Option<&Json>) = match variant_from(doc) {
        Ok(v) => v,
        Err(e) => {
            return Err(e);
        },
    };
    let status: Status = if same_text(name, "open") {
        Status::Open
    } else if same_text(name, "addressed") {
        Status::Addressed
    } else if same_text(name, "resolved") {
        Status::Resolved
    } else if same_text(name, "reopened") {
        Status::Reopened
    } else {
        return Err(
            text_of_three(
                "unknown variant `",
                name,
                "`, expected one of `open`, `addressed`, `resolved`, `reopened`",
            ),
        );
    };
    match unit_fault(payload) {
        None => Ok(status),
        Some(e) => Err(e),
    }
}

/// Reads a side in its wire spelling.
pub fn side_from(doc: &Json) -> (r: Result<Side, String>)
    ensures
        match read_side(doc.model()) {
            Ok(s) => r matches Ok(t) && t == s,
            Err(msg) => r matches Err(e) && e@ == msg,
        },
{
    let (name, payload): (&str, Option<&Json>) = match variant_from(doc) {
        Ok(v) => v,
        Err(e) => {
            return Err(e);
        },
    };
    let side: Side = if same_text(name, "old") {
        Side::Old
    } else if same_text(name, "new") {
        Side::New
    } else {
        return Err(
            text_of_three("unknown variant `", name, "`, expected `old` or `new`"),
        );
    };
    match unit_fault(payload) {
        None => Ok(side),
        Some(e) => Err(e),
    }
}

fn bare_target_of(kind: &str) -> (r: Option<TargetId>)
    ensures
        r.deep_view() == bare_target(kind@),
{
    if same_text(kind, "head") {
        Some(TargetId::Head)
    } else if same_text(kind, "stack") {
        Some(TargetId::Stack)
    } else if same_text(kind, "worktree") {
        Some(TargetId::Worktree)
    } else {
        None
    }
}

fn unknown_target_text(kind: &str) -> (r: String)
    ensures
        r@ == unknown_target(kind@),
{
    text_of_three(
        "unknown variant `",
        kind,
        "`, expected one of `branch`, `head`, `stack`, `worktree`",
    )
}

fn tag_text<'a>(tag: &'a Json) -> (r: Result<&'a str, String>)
    ensures
        match tag.model() {
            JsonModel::Text(kind) => r matches Ok(s) && s@ == kind,
            other => r matches Err(e) && e@ == wrong_type(other, "variant identifier"@),
        },
{
    match tag {
        Json::Text(kind) => Ok(kind.as_str()),
        _ => Err(wrong_type_text(tag, "variant identifier")),
    }
}

fn target_from_map(map: &JsonMap) -> (r: Result<TargetId, String>)
    ensures
        match read_target(JsonModel::Object(map.model())) {
            Ok(t) => r matches Ok(id) && id.deep_view() == t,
            Err(msg) => r matches Err(e) && e@ == msg,
        },
{
    let tag: &Json = match map.get("kind") {
        Some(tag) => tag,
        None => {
            return Err(copy_of("missing field `kind`"));
        },
    };
    let kind: &str = tag_text(tag)?;
    if same_text(kind, "branch") {
        return match map.get("name") {
            None => Err(copy_of("missing field `name`")),
            Some(name) => match text_from(name) {
                Ok(name) => Ok(TargetId::Branch { name }),
                Err(e) => Err(e),
            },
        };
    }
    match bare_target_of(kind) {
        Some(target) => Ok(target),
        None => Err(unknown_target_text(kind)),
    }
}

fn target_from_items(items: &Vec<Json>) -> (r: Result<TargetId, String>)
    ensures
        match read_target(Json::Array(*items).model()) {
            Ok(t) => r matches Ok(id) && id.deep_view() == t,
            Err(msg) => r matches Err(e) && e@ == msg,
        },
{
    let ghost model = Json::Array(*items).model()->Array_0;
    assert(model.len() == items.len());
    if items.len() == 0 {
        return Err(copy_of("missing field `kind`"));
    }
    assert(model[0] == items@[0].model());
    let kind: &str = tag_text(&items[0])?;
    let rest: usize = items.len() - 1;
    if same_text(kind, "branch") {
        if rest == 0 {
            return Err(
                copy_of(
                    "invalid length 0, expected struct variant TargetId::Branch with 1 element",
                ),
            );
        }
        assert(model.skip(1)[0] == items@[1].model());
        let name: String = text_from(&items[1])?;
        return if rest > 1 {
            Err(
                text_of_three(
                    "invalid length ",
                    decimal(rest as u64).as_str(),
                    ", expected 1 element in sequence",
                ),
            )
        } else {
            Ok(TargetId::Branch { name })
        };
    }
    match bare_target_of(kind) {
        None => Err(unknown_target_text(kind)),
        Some(target) => if rest > 0 {
            Err(
                text_of_three(
                    "invalid length ",
                    decimal(rest as u64).as_str(),
                    ", expected 0 elements in sequence",
                ),
            )
        } else {
            Ok(target)
        },
    }
}

/// Reads a stack target: an object tagged by its `kind`, or an array of the kind
/// and what it needs.
pub fn target_from(doc: &Json) -> (r: Result<TargetId, String>)
    ensures
        match read_target(doc.model()) {
            Ok(t) => r matches Ok(id) && id.deep_view() == t,
            Err(msg) => r matches Err(e) && e@ == msg,
        },
{
    match doc {
        Json::Object(map) => target_from_map(map),
        Json::Array(items) => target_from_items(items),
        _ => Err(wrong_type_text(doc, "internally tagged enum TargetId")),
    }
}

// ----------------------------------------------------------------- fields

/// The string of a member, empty where there is none.
pub open spec fn text_at(members: Seq<MemberModel>, key: Seq<char>) -> Seq<char> {
    match lookup(members, key) {
        Some(JsonModel::Text(s)) => s,
        _ => Seq::empty(),
    }
}

/// The string of a member that may be null or missing.
pub open spec fn opt_text_at(members: Seq<MemberModel>, key: Seq<char>) -> Option<Seq<char>> {
    match lookup(members, key) {
        Some(JsonModel::Text(s)) => Some(s),
        _ => None,
    }
}

/// The number of a member that may be null or missing.
pub open spec fn opt_u32_at(members: Seq<MemberModel>, key: Seq<char>) -> Option<u32> {
    match lookup(members, key) {
        Some(doc) => match read_u32(doc) {
            Ok(n) => Some(n),
            Err(_) => None,
        },
        None => None,
    }
}

fn member_text(map: &JsonMap, key: &str) -> (r: String)
    ensures
        r@ == text_at(map.model(), key@),
{
    match map.get(key) {
        Some(Json::Text(s)) => copy_of(s.as_str()),
        _ => {
            let empty: String = String::new();
            assert(empty@ =~= Seq::<char>::empty());
            empty
        },
    }
}

fn member_opt_text(map: &JsonMap, key: &str) -> (r: Option<String>)
    ensures
        r.deep_view() == opt_text_at(map.model(), key@),
{
    match map.get(key) {
        Some(Json::Text(s)) => Some(copy_of(s.as_str())),
        _ => None,
    }
}

fn member_opt_u32(map: &JsonMap, key: &str) -> (r: Option<u32>)
    ensures
        r == opt_u32_at(map.model(), key@),
{
    match map.get(key) {
        Some(doc) => match u32_from(doc) {
            Ok(n) => Some(n),
            Err(_) => None,
        },
        None => None,
    }
}

/// The complaint about a value that must be null or readable.
pub open spec fn optional_fault<T>(doc: JsonModel, read: Result<T, Seq<char>>) -> Option<
    Seq<char>,
> {
    if doc == JsonModel::Null {
        None
    } else {
        match read {
            Ok(_) => None,
            Err(e) => Some(e),
        }
    }
}

pub open spec fn required_fault<T>(read: Result<T, Seq<char>>) -> Option<Seq<char>> {
    match read {
        Ok(_) => None,
        Err(e) => Some(e),
    }
}

/// What is wrong with one member of a comment record.
pub open spec fn member_fault(key: Seq<char>, value: JsonModel) -> Option<Seq<char>> {
    if key == "id"@ || key == "body"@ || key == "author"@ || key == "createdAt"@ || key
        == "updatedAt"@ {
        required_fault(read_text(value))
    } else if key == "rev"@ {
        required_fault(read_u32(value))
    } else if key == "status"@ {
        required_fault(read_status(value))
    } else if key == "path"@ || key == "snippet"@ || key == "response"@ {
        optional_fault(value, read_text(value))
    } else if key == "line"@ || key == "endLine"@ {
        optional_fault(value, read_u32(value))
    } else if key == "side"@ {
        optional_fault(value, read_side(value))
    } else if key == "target"@ {
        optional_fault(value, read_target(value))
    } else {
        None
    }
}

/// The first thing wrong with the first `n` members of a comment record.
pub open spec fn first_member_fault(members: Seq<MemberModel>, n: int) -> Option<Seq<char>>
    decreases n,
{
    if n <= 0 {
        None
    } else {
        match first_member_fault(members, n - 1) {
            Some(e) => Some(e),
            None => member_fault(members[n - 1].key, members[n - 1].value),
        }
    }
}

/// The fields that a comment record must have, in the order of complaints.
pub open spec fn required_fields() -> Seq<Seq<char>> {
    seq!["id"@, "rev"@, "status"@, "body"@, "author"@, "createdAt"@, "updatedAt"@]
}

/// The first of the first `n` fields that the members lack.
pub open spec fn first_missing(
    members: Seq<MemberModel>,
    fields: Seq<Seq<char>>,
    n: int,
) -> Option<Seq<char>>
    decreases n,
{
    if n <= 0 {
        None
    } else {
        match first_missing(members, fields, n - 1) {
            Some(f) => Some(f),
            None => if has_key(members, fields[n - 1]) {
                None
            } else {
                Some(fields[n - 1])
            },
        }
    }
}

/// The fields of a comment that have a place of their own.
pub open spec fn comment_fields() -> Seq<Seq<char>> {
    seq![
        "id"@,
        "rev"@,
        "status"@,
        "path"@,
        "side"@,
        "line"@,
        "endLine"@,
        "snippet"@,
        "body"@,
        "response"@,
        "author"@,
        "createdAt"@,
        "updatedAt"@,
        "target"@,
    ]
}

/// The comment that the members of a faultless record make.
pub open spec fn comment_of(members: Seq<MemberModel>) -> CommentModel {
    CommentModel {
        id: text_at(members, "id"@),
        rev: match opt_u32_at(members, "rev"@) {
            Some(n) => n,
            None => 0,
        },
        status: match lookup(members, "status"@) {
            Some(doc) => match read_status(doc) {
                Ok(s) => s,
                Err(_) => Status::Open,
            },
            None => Status::Open,
        },
        path: opt_text_at(members, "path"@),
        side: match lookup(members, "side"@) {
            Some(doc) => match read_side(doc) {
                Ok(s) => Some(s),
                Err(_) => None,
            },
            None => None,
        },
        line: opt_u32_at(members, "line"@),
        end_line: opt_u32_at(members, "endLine"@),
        snippet: opt_text_at(members, "snippet"@),
        body: text_at(members, "body"@),
        response: opt_text_at(members, "response"@),
        author: text_at(members, "author"@),
        created_at: text_at(members, "createdAt"@),
        updated_at: text_at(members, "updatedAt"@),
        target: match lookup(members, "target"@) {
            Some(doc) => match read_target(doc) {
                Ok(t) => Some(t),
                Err(_) => None,
            },
            None => None,
        },
        extra: members_except(members, comment_fields()),
    }
}

/// A comment record, or what is wrong with it.
pub open spec fn read_comment(doc: JsonModel) -> Result<CommentModel, Seq<char>> {
    match doc {
        JsonModel::Object(members) => match first_member_fault(members, members.len() as int) {
            Some(e) => Err(e),
            None => match first_missing(
                members,
                required_fields(),
                required_fields().len() as int,
            ) {
                Some(f) => Err("missing field `"@ + f + "`"@),
                None => Ok(comment_of(members)),
            },
        },
        _ => Err(wrong_type(doc, "struct Comment"@)),
    }
}

/// The source record of a review, or what is wrong with it.
pub open spec fn read_source(members: Seq<MemberModel>) -> Result<SourceModel, Seq<char>> {
    match first_source_fault(members, members.len() as int) {
        Some(e) => Err(e),
        None => if !has_key(members, "kind"@) {
            Err("missing field `kind`"@)
        } else {
            Ok(
                SourceModel {
                    kind: text_at(members, "kind"@),
                    base: opt_text_at(members, "base"@),
                    extra: members_except(members, seq!["kind"@, "base"@]),
                },
            )
        },
    }
}

/// The first thing wrong with the first `n` members of a source record.
pub open spec fn first_source_fault(members: Seq<MemberModel>, n: int) -> Option<Seq<char>>
    decreases n,
{
    if n <= 0 {
        None
    } else {
        match first_source_fault(members, n - 1) {
            Some(e) => Some(e),
            None => {
                let value = members[n - 1].value;
                if members[n - 1].key == "kind"@ {
                    required_fault(read_text(value))
                } else if members[n - 1].key == "base"@ {
                    optional_fault(value, read_text(value))
                } else {
                    None
                }
            },
        }
    }
}

fn required<T>(read: Result<T, String>) -> (r: Option<String>)
    ensures
        match read {
            Ok(_) => r is None,
            Err(e) => r == Some(e),
        },
{
    match read {
        Ok(_) => None,
        Err(e) => Some(e),
    }
}

fn member_complaint(key: &str, value: &Json) -> (r: Option<String>)
    ensures
        r.deep_view() == member_fault(key@, value.model()),
{
    if same_text(key, "id") || same_text(key, "body") || same_text(key, "author") || same_text(
        key,
        "createdAt",
    ) || same_text(key, "updatedAt") {
        return required(text_from(value));
    }
    if same_text(key, "rev") {
        return required(u32_from(value));
    }
    if same_text(key, "status") {
        return required(status_from(value));
    }
    let optional: bool = same_text(key, "path") || same_text(key, "snippet") || same_text(
        key,
        "response",
    ) || same_text(key, "line") || same_text(key, "endLine") || same_text(key, "side")
        || same_text(key, "target");
    if !optional {
        return None;
    }
    if let Json::Null = value {
        return None;
    }
    if same_text(key, "path") || same_text(key, "snippet") || same_text(key, "response") {
        return required(text_from(value));
    }
    if same_text(key, "line") || same_text(key, "endLine") {
        return required(u32_from(value));
    }
    if same_text(key, "side") {
        return required(side_from(value));
    }
    required(target_from(value))
}

fn first_missing_field(map: &JsonMap, fields: &[&str]) -> (r: Option<String>)
    ensures
        r.deep_view() == first_missing(map.model(), strs(fields@), fields.len() as int),
{
    let ghost model = strs(fields@);
    let mut i: usize = 0;
    while i < fields.len()
        invariant
            i <= fields.len(),
            model == strs(fields@),
            first_missing(map.model(), model, i as int) is None,
        decreases fields.len() - i,
    {
        if !map.contains_key(fields[i]) {
            proof {
                assert(first_missing(map.model(), model, i + 1) == Some(model[i as int]));
                lemma_first_missing_stays(map.model(), model, i + 1, model.len() as int);
            }
            return Some(copy_of(fields[i]));
        }
        i += 1;
    }
    None
}

proof fn lemma_first_missing_stays(
    members: Seq<MemberModel>,
    fields: Seq<Seq<char>>,
    m: int,
    n: int,
)
    requires
        0 < m <= n,
        first_missing(members, fields, m) is Some,
    ensures
        first_missing(members, fields, n) == first_missing(members, fields, m),
    decreases n - m,
{
    if m < n {
        lemma_first_missing_stays(members, fields, m, n - 1);
    }
}

proof fn lemma_member_fault_stays(members: Seq<MemberModel>, m: int, n: int)
    requires
        0 < m <= n,
        first_member_fault(members, m) is Some,
    ensures
        first_member_fault(members, n) == first_member_fault(members, m),
    decreases n - m,
{
    if m < n {
        lemma_member_fault_stays(members, m, n - 1);
    }
}

proof fn lemma_source_fault_stays(members: Seq<MemberModel>, m: int, n: int)
    requires
        0 < m <= n,
        first_source_fault(members, m) is Some,
    ensures
        first_source_fault(members, n) == first_source_fault(members, m),
    decreases n - m,
{
    if m < n {
        lemma_source_fault_stays(members, m, n - 1);
    }
}

fn record_complaint(map: &JsonMap) -> (r: Option<String>)
    ensures
        r.deep_view() == first_member_fault(map.model(), map.model().len() as int),
{
    let ghost members = map.model();
    let n: usize = map.len();
    let mut i: usize = 0;
    while i < n
        invariant
            i <= n,
            n == members.len(),
            members == map.model(),
            first_member_fault(members, i as int) is None,
        decreases n - i,
    {
        if let Some(e) = member_complaint(map.key_at(i), map.value_at(i)) {
            proof {
                assert(first_member_fault(members, i + 1) == Some(e@));
                lemma_member_fault_stays(members, i + 1, n as int);
            }
            return Some(e);
        }
        i += 1;
    }
    None
}

/// Reads a comment record.
pub fn comment_from(doc: &Json) -> (r: Result<Comment, String>)
    ensures
        match read_comment(doc.model()) {
            Ok(c) => r matches Ok(x) && x.deep_view() == c,
            Err(msg) => r matches Err(e) && e@ == msg,
        },
{
    let map: &JsonMap = match doc {
        Json::Object(map) => map,
        _ => {
            return Err(wrong_type_text(doc, "struct Comment"));
        },
    };
    if let Some(e) = record_complaint(map) {
        return Err(e);
    }
    let needed: [&str; 7] = ["id", "rev", "status", "body", "author", "createdAt", "updatedAt"];
    assert(strs(needed@) =~= required_fields());
    if let Some(f) = first_missing_field(map, needed.as_slice()) {
        return Err(text_of_three("missing field `", f.as_str(), "`"));
    }
    let known: [&str; 14] = [
        "id",
        "rev",
        "status",
        "path",
        "side",
        "line",
        "endLine",
        "snippet",
        "body",
        "response",
        "author",
        "createdAt",
        "updatedAt",
        "target",
    ];
    assert(strs(known@) =~= comment_fields());
    Ok(
        Comment {
            id: member_text(map, "id"),
            rev: match member_opt_u32(map, "rev") {
                Some(n) => n,
                None => 0,
            },
            status: match map.get("status") {
                Some(doc) => match status_from(doc) {
                    Ok(s) => s,
                    Err(_) => Status::Open,
                },
                None => Status::Open,
            },
            path: member_opt_text(map, "path"),
            side: match map.get("side") {
                Some(doc) => match side_from(doc) {
                    Ok(s) => Some(s),
                    Err(_) => None,
                },
                None => None,
            },
            line: member_opt_u32(map, "line"),
            end_line: member_opt_u32(map, "endLine"),
            snippet: member_opt_text(map, "snippet"),
            body: member_text(map, "body"),
            response: member_opt_text(map, "response"),
            author: member_text(map, "author"),
            created_at: member_text(map, "createdAt"),
            updated_at: member_text(map, "updatedAt"),
            target: match map.get("target") {
                Some(doc) => match target_from(doc) {
                    Ok(t) => Some(t),
                    Err(_) => None,
                },
                None => None,
            },
            extra: map.except(known.as_slice()),
        },
    )
}

fn source_from(map: &JsonMap) -> (r: Result<Source, String>)
    ensures
        match read_source(map.model()) {
            Ok(s) => r matches Ok(x) && x.deep_view() == s,
            Err(msg) => r matches Err(e) && e@ == msg,
        },
{
    let ghost members = map.model();
    let n: usize = map.len();
    let mut i: usize = 0;
    while i < n
        invariant
            i <= n,
            n == members.len(),
            members == map.model(),
            first_source_fault(members, i as int) is None,
        decreases n - i,
    {
        let key: &str = map.key_at(i);
        let value: &Json = map.value_at(i);
        let fault: Option<String> = if same_text(key, "kind") {
            required(text_from(value))
        } else if same_text(key, "base") {
            match value {
                Json::Null => None,
                _ => required(text_from(value)),
            }
        } else {
            None
        };
        if let Some(e) = fault {
            proof {
                assert(first_source_fault(members, i + 1) == Some(e@));
                lemma_source_fault_stays(members, i + 1, n as int);
            }
            return Err(e);
        }
        i += 1;
    }
    if !map.contains_key("kind") {
        return Err(copy_of("missing field `kind`"));
    }
    let known: [&str; 2] = ["kind", "base"];
    assert(strs(known@) =~= seq!["kind"@, "base"@]);
    Ok(
        Source {
            kind: member_text(map, "kind"),
            base: member_opt_text(map, "base"),
            extra: map.except(known.as_slice()),
        },
    )
}

// ------------------------------------------------------------ record checks

/// A record after its checks: why it is refused, if it is, and the oddities
/// that were put right.
#[verifier::ext_equal]
pub struct CheckedModel {
    pub refusal: Option<Seq<char>>,
    pub comment: CommentModel,
    pub warnings: Seq<Seq<char>>,
}

/// A line about a comment.
pub open spec fn about(id: Seq<char>, what: Seq<char>) -> Seq<char> {
    "comment "@ + id + what
}

/// The comment with a pass number, where the record has none.
pub open spec fn with_pass(c: CommentModel) -> CommentModel {
    if c.rev == 0 {
        CommentModel { rev: 1, ..c }
    } else {
        c
    }
}

/// Why a record is refused by the anchor rules.
pub open spec fn anchor_refusal(c: CommentModel) -> Option<Seq<char>> {
    if c.path is None && (c.line is Some || c.end_line is Some) {
        Some(about(c.id, ": line without path"@))
    } else if c.line is None && c.end_line is Some {
        Some(about(c.id, ": endLine without line"@))
    } else if c.line is Some && c.end_line is Some && c.end_line->0 < c.line->0 {
        Some(about(c.id, ": endLine < line"@))
    } else {
        None
    }
}

/// Semantic validation of a structurally sound record. Salvageable oddities
/// are put right with a warning: pass 0 becomes 1, and a line comment without
/// a side is on the new side.
pub open spec fn checked(c: CommentModel) -> CheckedModel {
    let pass_warnings = if c.rev == 0 {
        seq![about(c.id, ": rev 0 coerced to 1"@)]
    } else {
        Seq::empty()
    };
    let passed = with_pass(c);
    if !well_formed_id(c.id) {
        CheckedModel {
            refusal: Some("invalid id "@ + debug_text(c.id)),
            comment: c,
            warnings: Seq::empty(),
        }
    } else if anchor_refusal(c) is Some {
        CheckedModel { refusal: anchor_refusal(c), comment: passed, warnings: pass_warnings }
    } else {
        let side_missing = c.line is Some && c.side is None;
        let side_warnings = if side_missing {
            seq![about(c.id, ": missing side defaulted to new"@)]
        } else {
            Seq::empty()
        };
        let body_warnings = if c.body.len() == 0 {
            seq![about(c.id, ": empty body"@)]
        } else {
            Seq::empty()
        };
        CheckedModel {
            refusal: None,
            comment: if side_missing {
                CommentModel { side: Some(Side::New), ..passed }
            } else {
                passed
            },
            warnings: pass_warnings + side_warnings + body_warnings,
        }
    }
}

fn about_text(id: &str, what: &str) -> (r: String)
    ensures
        r@ == about(id@, what@),
{
    text_of_three("comment ", id, what)
}

/// Appends a line to a list of lines.
fn push_line(lines: &mut Vec<String>, line: String)
    ensures
        final(lines).deep_view() == old(lines).deep_view().push(line@),
{
    let ghost before = lines.deep_view();
    lines.push(line);
    assert(lines.deep_view() =~= before.push(line@));
}

/// Semantic validation for a structurally parsed comment record. Returns a
/// rejection reason, or None when the record is acceptable. `warnings`
/// collects salvageable oddities that do not quarantine.
fn check_comment(comment: &mut Comment, warnings: &mut Vec<String>) -> (r: Option<String>)
    ensures
        r.deep_view() == checked(old(comment).deep_view()).refusal,
        final(comment).deep_view() == checked(old(comment).deep_view()).comment,
        final(warnings).deep_view() == old(warnings).deep_view() + checked(
            old(comment).deep_view(),
        ).warnings,
{
    let ghost c = comment.deep_view();
    let ghost start = warnings.deep_view();
    assert(start + Seq::<Seq<char>>::empty() =~= start);
    if !valid_id(comment.id.as_str()) {
        return Some(text_of_two("invalid id ", quoted(comment.id.as_str()).as_str()));
    }
    if comment.rev == 0 {
        push_line(warnings, about_text(comment.id.as_str(), ": rev 0 coerced to 1"));
        comment.rev = 1;
    }
    let ghost pass_warnings = if c.rev == 0 {
        seq![about(c.id, ": rev 0 coerced to 1"@)]
    } else {
        Seq::empty()
    };
    assert(warnings.deep_view() =~= start + pass_warnings);
    assert(comment.deep_view() == with_pass(c));
    if comment.path.is_none() && (comment.line.is_some() || comment.end_line.is_some()) {
        return Some(about_text(comment.id.as_str(), ": line without path"));
    }
    if comment.line.is_none() && comment.end_line.is_some() {
        return Some(about_text(comment.id.as_str(), ": endLine without line"));
    }
    if let (Some(line), Some(end)) = (comment.line, comment.end_line) {
        if end < line {
            return Some(about_text(comment.id.as_str(), ": endLine < line"));
        }
    }
    if comment.line.is_some() && comment.side.is_none() {
        push_line(warnings, about_text(comment.id.as_str(), ": missing side defaulted to new"));
        comment.side = Some(Side::New);
    }
    if comment.body.as_str().is_empty() {
        push_line(warnings, about_text(comment.id.as_str(), ": empty body"));
    }
    assert(warnings.deep_view() =~= start + checked(c).warnings);
    None
}

// -------------------------------------------------------------------- intake

/// What the records read so far came to.
#[verifier::ext_equal]
pub struct IntakeModel {
    pub comments: Seq<CommentModel>,
    pub quarantined: Seq<JsonModel>,
    pub warnings: Seq<Seq<char>>,
}

/// The warning about a quarantined record.
pub open spec fn quarantine_text(i: nat, why: Seq<char>) -> Seq<char> {
    "comment["@ + decimal_text(i) + "] quarantined: "@ + why
}

/// One more record: it joins the comments, or the quarantine with a warning.
pub open spec fn take_record(st: IntakeModel, i: nat, item: JsonModel) -> IntakeModel {
    match read_comment(item) {
        Err(e) => IntakeModel {
            quarantined: st.quarantined.push(item),
            warnings: st.warnings.push(quarantine_text(i, e)),
            ..st
        },
        Ok(c) => {
            let done = checked(c);
            let warnings = st.warnings + done.warnings;
            match done.refusal {
                Some(why) => IntakeModel {
                    quarantined: st.quarantined.push(item),
                    warnings: warnings.push(quarantine_text(i, why)),
                    ..st
                },
                None => if comment_index(st.comments, done.comment.id) < st.comments.len() {
                    IntakeModel {
                        quarantined: st.quarantined.push(item),
                        warnings: warnings.push(
                            quarantine_text(i, "duplicate id "@ + done.comment.id),
                        ),
                        ..st
                    }
                } else {
                    IntakeModel { comments: st.comments.push(done.comment), warnings, ..st }
                },
            }
        },
    }
}

/// The first `n` records of a list.
pub open spec fn take_records(
    warnings: Seq<Seq<char>>,
    items: Seq<JsonModel>,
    n: int,
) -> IntakeModel
    decreases n,
{
    if n <= 0 {
        IntakeModel { comments: Seq::empty(), quarantined: Seq::empty(), warnings }
    } else {
        take_record(take_records(warnings, items, n - 1), (n - 1) as nat, items[n - 1])
    }
}

/// No record is lost: each is among the comments or in quarantine.
pub proof fn no_record_is_lost(warnings: Seq<Seq<char>>, items: Seq<JsonModel>, n: int)
    requires
        0 <= n <= items.len(),
    ensures
        ({
            let st = take_records(warnings, items, n);
            &&& st.comments.len() + st.quarantined.len() == n
            &&& distinct_ids(st.comments)
            &&& warnings.is_prefix_of(st.warnings)
            &&& st.warnings.len() >= warnings.len() + st.quarantined.len()
        }),
    decreases n,
{
    if n > 0 {
        no_record_is_lost(warnings, items, n - 1);
        let before = take_records(warnings, items, n - 1);
        let after = take_records(warnings, items, n);
        if let Ok(c) = read_comment(items[n - 1]) {
            lemma_comment_index(before.comments, checked(c).comment.id);
            assert(warnings.is_prefix_of(before.warnings + checked(c).warnings));
        }
        assert(warnings.is_prefix_of(after.warnings));
    }
}

fn quarantine_line(i: usize, why: &str) -> (r: String)
    ensures
        r@ == quarantine_text(i as nat, why@),
{
    let mut out: String = copy_of("comment[");
    push_text(&mut out, decimal(i as u64).as_str());
    push_text(&mut out, "] quarantined: ");
    push_text(&mut out, why);
    out
}

/// Whether a comment of the list has the id.
fn id_taken(comments: &Vec<Comment>, id: &str) -> (r: bool)
    ensures
        r == (comment_index(comments.deep_view(), id@) < comments.len()),
{
    let ghost model = comments.deep_view();
    proof {
        lemma_comment_index(model, id@);
    }
    let mut i: usize = 0;
    while i < comments.len()
        invariant
            i <= comments.len(),
            model == comments.deep_view(),
            forall|k: int| 0 <= k < i ==> (#[trigger] model[k]).id != id@,
            0 <= comment_index(model, id@) <= model.len(),
            comment_index(model, id@) < model.len() ==> model[comment_index(model, id@)].id == id@,
            forall|k: int|
                0 <= k < comment_index(model, id@) ==> (#[trigger] model[k]).id != id@,
        decreases comments.len() - i,
    {
        assert(model[i as int] == comments[i as int].deep_view());
        if same_text(comments[i].id.as_str(), id) {
            return true;
        }
        i += 1;
    }
    false
}

/// Appends a document.
fn push_document(docs: &mut Vec<Json>, doc: Json)
    ensures
        final(docs).deep_view() == old(docs).deep_view().push(doc.model()),
{
    let ghost before = docs.deep_view();
    docs.push(doc);
    assert(docs.deep_view() =~= before.push(doc.model()));
}

fn intake(
    items: &Vec<Json>,
    comments: &mut Vec<Comment>,
    quarantined: &mut Vec<Json>,
    warnings: &mut Vec<String>,
)
    requires
        old(comments)@.len() == 0,
        old(quarantined)@.len() == 0,
    ensures
        ({
            let st = take_records(
                old(warnings).deep_view(),
                items.deep_view(),
                items.len() as int,
            );
            &&& final(comments).deep_view() == st.comments
            &&& final(quarantined).deep_view() == st.quarantined
            &&& final(warnings).deep_view() == st.warnings
        }),
{
    let ghost docs = items.deep_view();
    let ghost start = warnings.deep_view();
    let mut i: usize = 0;
    assert(comments.deep_view() =~= Seq::empty());
    assert(quarantined.deep_view() =~= Seq::empty());
    while i < items.len()
        invariant
            i <= items.len(),
            docs == items.deep_view(),
            comments.deep_view() == take_records(start, docs, i as int).comments,
            quarantined.deep_view() == take_records(start, docs, i as int).quarantined,
            warnings.deep_view() == take_records(start, docs, i as int).warnings,
        decreases items.len() - i,
    {
        assert(docs[i as int] == items[i as int].model());
        match comment_from(&items[i]) {
            Err(e) => {
                push_line(warnings, quarantine_line(i, e.as_str()));
                push_document(quarantined, items[i].clone());
            },
            Ok(mut comment) => {
                let refusal: Option<String> = check_comment(&mut comment, warnings);
                match refusal {
                    Some(why) => {
                        push_line(warnings, quarantine_line(i, why.as_str()));
                        push_document(quarantined, items[i].clone());
                    },
                    None => {
                        if id_taken(comments, comment.id.as_str()) {
                            let why: String = text_of_two("duplicate id ", comment.id.as_str());
                            push_line(warnings, quarantine_line(i, why.as_str()));
                            push_document(quarantined, items[i].clone());
                        } else {
                            let ghost before = comments.deep_view();
                            let ghost model = comment.deep_view();
                            comments.push(comment);
                            assert(comments.deep_view() =~= before.push(model));
                        }
                    },
                }
            },
        }
        i += 1;
    }
}

// ------------------------------------------------------------------- salvage

/// Warnings, read-only status, and retained originals gathered over the
/// top-level fields.
#[verifier::ext_equal]
pub struct SalvageModel {
    pub warnings: Seq<Seq<char>>,
    pub read_only: bool,
    pub reason: Option<Seq<char>>,
    pub retained: Seq<MemberModel>,
}

impl SalvageModel {
    pub open spec fn start() -> SalvageModel {
        SalvageModel {
            warnings: Seq::empty(),
            read_only: false,
            reason: None,
            retained: Seq::empty(),
        }
    }

    pub open spec fn warn(self, msg: Seq<char>) -> SalvageModel {
        SalvageModel { warnings: self.warnings.push(msg), ..self }
    }

    /// The file must not be written; the first reason is kept.
    pub open spec fn mark_read_only(self, reason: Seq<char>) -> SalvageModel {
        SalvageModel {
            warnings: self.warnings.push(reason),
            read_only: true,
            reason: match self.reason {
                Some(first) => Some(first),
                None => Some(reason),
            },
            ..self
        }
    }

    /// A top-level value that cannot be represented: kept verbatim under its
    /// field name, and the file must not be written.
    pub open spec fn retain(
        self,
        field: Seq<char>,
        value: JsonModel,
        reason: Seq<char>,
    ) -> SalvageModel {
        SalvageModel {
            retained: with_member(self.retained, field, value),
            ..self.mark_read_only(reason)
        }
    }
}

/// The schema major.
pub open spec fn schema_field(members: Seq<MemberModel>, s: SalvageModel) -> (u64, SalvageModel) {
    match lookup(members, "ambidiff"@) {
        Some(JsonModel::Number(NumberModel::Unsigned(n))) => (n, s),
        Some(other) => (
            SCHEMA_MAJOR,
            s.retain(
                "ambidiff"@,
                other,
                "ambidiff field "@ + json_compact(other) + " is not a non-negative integer"@,
            ),
        ),
        None => (SCHEMA_MAJOR, s.warn("missing ambidiff schema field; assuming 1"@)),
    }
}

/// A newer schema major makes the file read-only.
pub open spec fn schema_gate(ambidiff: u64, s: SalvageModel) -> SalvageModel {
    if ambidiff > SCHEMA_MAJOR {
        s.mark_read_only(
            "file written by newer ambidiff (schema "@ + decimal_text(ambidiff as nat)
                + "); opening read-only"@,
        )
    } else {
        s
    }
}

/// A string field.
pub open spec fn text_field(
    members: Seq<MemberModel>,
    s: SalvageModel,
    key: Seq<char>,
    label: Seq<char>,
    missing: Seq<char>,
) -> (Seq<char>, SalvageModel) {
    match lookup(members, key) {
        Some(JsonModel::Text(t)) => (t, s),
        Some(other) => (
            Seq::empty(),
            s.retain(key, other, label + " "@ + json_compact(other) + " is not a string"@),
        ),
        None => (Seq::empty(), s.warn(missing)),
    }
}

/// The revision.
pub open spec fn revision_field(members: Seq<MemberModel>, s: SalvageModel) -> (
    u32,
    SalvageModel,
) {
    match lookup(members, "revision"@) {
        Some(JsonModel::Number(n)) => {
            let doc = JsonModel::Number(n);
            match n {
                NumberModel::Unsigned(v) if 1 <= v && v <= u32::MAX => (v as u32, s),
                _ => (
                    1,
                    s.retain(
                        "revision"@,
                        doc,
                        "revision "@ + json_compact(doc)
                            + " is out of range (must be 1..=u32::MAX)"@,
                    ),
                ),
            }
        },
        Some(other) => (
            1,
            s.retain(
                "revision"@,
                other,
                "revision "@ + json_compact(other) + " is not a number"@,
            ),
        ),
        None => (1, s.warn("missing revision; using 1"@)),
    }
}

/// The diff source.
pub open spec fn source_field(members: Seq<MemberModel>, s: SalvageModel) -> (
    SourceModel,
    SalvageModel,
) {
    match lookup(members, "source"@) {
        Some(JsonModel::Object(fields)) => match read_source(fields) {
            Ok(source) => (source, s),
            Err(e) => (
                git_source(None),
                s.retain("source"@, JsonModel::Object(fields), "unreadable source: "@ + e),
            ),
        },
        Some(other) => (
            git_source(None),
            s.retain(
                "source"@,
                other,
                "source "@ + json_compact(other) + " is not an object"@,
            ),
        ),
        None => (git_source(None), s.warn("missing source; assuming git"@)),
    }
}

/// The comment records.
pub open spec fn comments_field(members: Seq<MemberModel>, s: SalvageModel) -> (
    Seq<CommentModel>,
    Seq<JsonModel>,
    SalvageModel,
) {
    match lookup(members, "comments"@) {
        Some(JsonModel::Array(items)) => {
            let st = take_records(s.warnings, items, items.len() as int);
            (st.comments, st.quarantined, SalvageModel { warnings: st.warnings, ..s })
        },
        Some(other) => (
            Seq::empty(),
            Seq::empty(),
            s.retain(
                "comments"@,
                other,
                "comments is not an array ("@ + json_kind_name(other) + ")"@,
            ),
        ),
        None => (Seq::empty(), Seq::empty(), s.warn("missing comments array"@)),
    }
}

/// The quarantine that the file brought along, behind the new one.
pub open spec fn quarantine_field(
    members: Seq<MemberModel>,
    quarantined: Seq<JsonModel>,
    s: SalvageModel,
) -> (Seq<JsonModel>, SalvageModel) {
    match lookup(members, "quarantined"@) {
        Some(JsonModel::Array(items)) => (quarantined + items, s),
        Some(other) => (
            quarantined,
            s.retain(
                "quarantined"@,
                other,
                "quarantined is not an array ("@ + json_kind_name(other) + ")"@,
            ),
        ),
        None => (quarantined, s),
    }
}

/// The fields of a review that have a place of their own.
pub open spec fn review_fields() -> Seq<Seq<char>> {
    seq![
        "ambidiff"@,
        "review"@,
        "revision"@,
        "source"@,
        "createdAt"@,
        "updatedAt"@,
        "comments"@,
        "quarantined"@,
    ]
}

/// The result of a salvage-mode read.
#[verifier::ext_equal]
pub struct LoadModel {
    pub review: ReviewModel,
    pub salvage: SalvageModel,
}

/// What the members of a review document come to.
pub open spec fn salvaged(members: Seq<MemberModel>) -> LoadModel {
    let (ambidiff, s1) = schema_field(members, SalvageModel::start());
    let s2 = schema_gate(ambidiff, s1);
    let (review, s3) = text_field(members, s2, "review"@, "review name"@, "missing review name"@);
    let (revision, s4) = revision_field(members, s3);
    let (source, s5) = source_field(members, s4);
    let (created_at, s6) = text_field(
        members,
        s5,
        "createdAt"@,
        "createdAt"@,
        "missing createdAt; using empty"@,
    );
    let (updated_at, s7) = text_field(
        members,
        s6,
        "updatedAt"@,
        "updatedAt"@,
        "missing updatedAt; using empty"@,
    );
    let (comments, fresh, s8) = comments_field(members, s7);
    let (quarantined, s9) = quarantine_field(members, fresh, s8);
    LoadModel {
        review: ReviewModel {
            ambidiff,
            review,
            revision,
            source,
            created_at,
            updated_at,
            comments,
            quarantined,
            extra: members_except(members, review_fields()),
        },
        salvage: s9,
    }
}

/// What a review text comes to.
pub open spec fn loaded(content: Seq<char>) -> Result<LoadModel, ReviewErrorModel> {
    match json_read(content) {
        None => Err(ReviewErrorModel::Json { msg: json_complaint(content) }),
        Some(JsonModel::Object(members)) => Ok(salvaged(members)),
        Some(_) => Err(ReviewErrorModel::NotAnObject),
    }
}

/// Result of a salvage-mode parse.
#[derive(Debug)]
pub struct LoadOutcome {
    pub review: ReviewFile,
    /// Human-readable warnings for anything salvaged or quarantined.
    pub warnings: Vec<String>,
    /// True when the file must not be modified: a newer schema major, or a
    /// present top-level value that cannot be represented without dropping
    /// or changing its content.
    pub read_only: bool,
    /// The first warning that caused `read_only`, if any, so a human can see
    /// why writes are refused.
    pub read_only_reason: Option<String>,
    /// Present-but-unrepresentable top-level values, verbatim, keyed by
    /// their JSON field name. Never written back (the file is read-only
    /// whenever this is non-empty); kept only for diagnostics and transport.
    pub retained: JsonMap,
}

impl DeepView for LoadOutcome {
    type V = LoadModel;

    open spec fn deep_view(&self) -> LoadModel {
        LoadModel {
            review: self.review.deep_view(),
            salvage: SalvageModel {
                warnings: self.warnings.deep_view(),
                read_only: self.read_only,
                reason: self.read_only_reason.deep_view(),
                retained: self.retained.deep_view(),
            },
        }
    }
}

struct Salvage {
    warnings: Vec<String>,
    read_only: bool,
    read_only_reason: Option<String>,
    retained: JsonMap,
}

impl Salvage {
    spec fn model(self) -> SalvageModel {
        SalvageModel {
            warnings: self.warnings.deep_view(),
            read_only: self.read_only,
            reason: self.read_only_reason.deep_view(),
            retained: self.retained.deep_view(),
        }
    }

    fn new() -> (r: Salvage)
        ensures
            r.model() == SalvageModel::start(),
    {
        let r = Salvage {
            warnings: Vec::new(),
            read_only: false,
            read_only_reason: None,
            retained: JsonMap::new(),
        };
        assert(r.model() =~= SalvageModel::start());
        r
    }

    fn warn(&mut self, msg: &str)
        ensures
            final(self).model() == old(self).model().warn(msg@),
    {
        push_line(&mut self.warnings, copy_of(msg));
    }

    fn mark_read_only(&mut self, reason: String)
        ensures
            final(self).model() == old(self).model().mark_read_only(reason@),
    {
        push_line(&mut self.warnings, copy_of(reason.as_str()));
        self.read_only = true;
        if self.read_only_reason.is_none() {
            self.read_only_reason = Some(reason);
        }
    }

    /// Retain a present-but-unrepresentable top-level value verbatim under
    /// `field`, warn, and mark the document read-only.
    fn retain(&mut self, field: &str, value: &Json, reason: String)
        ensures
            final(self).model() == old(self).model().retain(field@, value.model(), reason@),
    {
        self.mark_read_only(reason);
        self.retained.insert(copy_of(field), value.clone());
    }

    fn schema(&mut self, root: &JsonMap) -> (r: u64)
        ensures
            (r, final(self).model()) == schema_field(root.model(), old(self).model()),
    {
        match root.get("ambidiff") {
            Some(doc) => {
                if let Json::Number(n) = doc {
                    if let Integer::Unsigned(v) = n.integer() {
                        return v;
                    }
                }
                let reason: String = text_of_three(
                    "ambidiff field ",
                    doc.to_compact().as_str(),
                    " is not a non-negative integer",
                );
                self.retain("ambidiff", doc, reason);
                SCHEMA_MAJOR
            },
            None => {
                self.warn("missing ambidiff schema field; assuming 1");
                SCHEMA_MAJOR
            },
        }
    }

    fn gate(&mut self, ambidiff: u64)
        ensures
            final(self).model() == schema_gate(ambidiff, old(self).model()),
    {
        if ambidiff > SCHEMA_MAJOR {
            self.mark_read_only(
                text_of_three(
                    "file written by newer ambidiff (schema ",
                    decimal(ambidiff).as_str(),
                    "); opening read-only",
                ),
            );
        }
    }

    fn text(&mut self, root: &JsonMap, key: &str, label: &str, missing: &str) -> (r: String)
        ensures
            (r@, final(self).model()) == text_field(
                root.model(),
                old(self).model(),
                key@,
                label@,
                missing@,
            ),
    {
        let empty: String = String::new();
        assert(empty@ =~= Seq::<char>::empty());
        match root.get(key) {
            Some(doc) => {
                if let Json::Text(s) = doc {
                    return copy_of(s.as_str());
                }
                let mut reason: String = text_of_three(label, " ", doc.to_compact().as_str());
                push_text(&mut reason, " is not a string");
                self.retain(key, doc, reason);
                empty
            },
            None => {
                self.warn(missing);
                empty
            },
        }
    }

    fn revision(&mut self, root: &JsonMap) -> (r: u32)
        ensures
            (r, final(self).model()) == revision_field(root.model(), old(self).model()),
    {
        match root.get("revision") {
            Some(doc) => {
                if let Json::Number(n) = doc {
                    if let Integer::Unsigned(v) = n.integer() {
                        if 1 <= v && v <= u32::MAX as u64 {
                            return v as u32;
                        }
                    }
                    let reason: String = text_of_three(
                        "revision ",
                        doc.to_compact().as_str(),
                        " is out of range (must be 1..=u32::MAX)",
                    );
                    self.retain("revision", doc, reason);
                    return 1;
                }
                let reason: String = text_of_three(
                    "revision ",
                    doc.to_compact().as_str(),
                    " is not a number",
                );
                self.retain("revision", doc, reason);
                1
            },
            None => {
                self.warn("missing revision; using 1");
                1
            },
        }
    }

    fn source(&mut self, root: &JsonMap) -> (r: Source)
        ensures
            (r.deep_view(), final(self).model()) == source_field(
                root.model(),
                old(self).model(),
            ),
    {
        match root.get("source") {
            Some(doc) => {
                if let Json::Object(map) = doc {
                    return match source_from(map) {
                        Ok(source) => source,
                        Err(e) => {
                            self.retain(
                                "source",
                                doc,
                                text_of_two("unreadable source: ", e.as_str()),
                            );
                            Source::git(None)
                        },
                    };
                }
                let reason: String = text_of_three(
                    "source ",
                    doc.to_compact().as_str(),
                    " is not an object",
                );
                self.retain("source", doc, reason);
                Source::git(None)
            },
            None => {
                self.warn("missing source; assuming git");
                Source::git(None)
            },
        }
    }

    fn comments(
        &mut self,
        root: &JsonMap,
        comments: &mut Vec<Comment>,
        quarantined: &mut Vec<Json>,
    )
        requires
            old(comments)@.len() == 0,
            old(quarantined)@.len() == 0,
        ensures
            (final(comments).deep_view(), final(quarantined).deep_view(), final(self).model())
                == comments_field(root.model(), old(self).model()),
    {
        assert(comments.deep_view() =~= Seq::empty());
        assert(quarantined.deep_view() =~= Seq::empty());
        match root.get("comments") {
            Some(doc) => {
                if let Json::Array(items) = doc {
                    assert(items.deep_view() =~= doc.model()->Array_0);
                    intake(items, comments, quarantined, &mut self.warnings);
                    return ;
                }
                let reason: String = text_of_three(
                    "comments is not an array (",
                    doc.kind_name(),
                    ")",
                );
                self.retain("comments", doc, reason);
            },
            None => {
                self.warn("missing comments array");
            },
        }
    }

    fn quarantine(&mut self, root: &JsonMap, quarantined: &mut Vec<Json>)
        ensures
            (final(quarantined).deep_view(), final(self).model()) == quarantine_field(
                root.model(),
                old(quarantined).deep_view(),
                old(self).model(),
            ),
    {
        match root.get("quarantined") {
            Some(doc) => {
                if let Json::Array(items) = doc {
                    let ghost start = quarantined.deep_view();
                    let ghost docs = doc.model()->Array_0;
                    let mut i: usize = 0;
                    assert(start + docs.take(0) =~= start);
                    while i < items.len()
                        invariant
                            i <= items.len(),
                            *doc == Json::Array(*items),
                            docs == doc.model()->Array_0,
                            quarantined.deep_view() == start + docs.take(i as int),
                        decreases items.len() - i,
                    {
                        assert(docs[i as int] == items[i as int].model());
                        push_document(quarantined, items[i].clone());
                        assert(start + docs.take(i + 1) =~= (start + docs.take(i as int)).push(
                            docs[i as int],
                        ));
                        i += 1;
                    }
                    assert(docs.take(docs.len() as int) =~= docs);
                    return ;
                }
                let reason: String = text_of_three(
                    "quarantined is not an array (",
                    doc.kind_name(),
                    ")",
                );
                self.retain("quarantined", doc, reason);
            },
            None => {},
        }
    }
}

/// Salvages a review document.
pub fn salvage_review(root: &JsonMap) -> (r: LoadOutcome)
    ensures
        r.deep_view() == salvaged(root.model()),
{
    let mut salvage: Salvage = Salvage::new();
    let ambidiff: u64 = salvage.schema(root);
    salvage.gate(ambidiff);
    let review: String = salvage.text(root, "review", "review name", "missing review name");
    let revision: u32 = salvage.revision(root);
    let source: Source = salvage.source(root);
    let created_at: String = salvage.text(
        root,
        "createdAt",
        "createdAt",
        "missing createdAt; using empty",
    );
    let updated_at: String = salvage.text(
        root,
        "updatedAt",
        "updatedAt",
        "missing updatedAt; using empty",
    );
    let mut comments: Vec<Comment> = Vec::new();
    let mut quarantined: Vec<Json> = Vec::new();
    salvage.comments(root, &mut comments, &mut quarantined);
    salvage.quarantine(root, &mut quarantined);
    let known: [&str; 8] = [
        "ambidiff",
        "review",
        "revision",
        "source",
        "createdAt",
        "updatedAt",
        "comments",
        "quarantined",
    ];
    assert(strs(known@) =~= review_fields());
    LoadOutcome {
        review: ReviewFile {
            ambidiff,
            review,
            revision,
            source,
            created_at,
            updated_at,
            comments,
            quarantined,
            extra: root.except(known.as_slice()),
        },
        warnings: salvage.warnings,
        read_only: salvage.read_only,
        read_only_reason: salvage.read_only_reason,
        retained: salvage.retained,
    }
}

/// Parse review file content in salvage mode.
///
/// Hard errors only for content that cannot be represented at all (invalid
/// JSON, non-object root). Everything else degrades: bad comment records are
/// quarantined with warnings, missing top-level fields are filled with
/// defaults and warned about, and a newer schema major marks the outcome
/// read-only.
pub fn parse_review(content: &str) -> (r: Result<LoadOutcome, ReviewError>)
    ensures
        match loaded(content@) {
            Ok(outcome) => r matches Ok(o) && o.deep_view() == outcome,
            Err(error) => r matches Err(e) && e.deep_view() == error,
        },
{
    match Json::parse(content) {
        Err(msg) => Err(ReviewError::Json { msg }),
        Ok(doc) => match &doc {
            Json::Object(root) => Ok(salvage_review(root)),
            _ => Err(ReviewError::NotAnObject),
        },
    }
}

// ------------------------------------------------------------------- writing

pub open spec fn number_doc(n: u64) -> JsonModel {
    JsonModel::Number(NumberModel::Unsigned(n))
}

pub open spec fn nullable_text(s: Option<Seq<char>>) -> JsonModel {
    match s {
        Some(t) => JsonModel::Text(t),
        None => JsonModel::Null,
    }
}

pub open spec fn side_name(side: Side) -> Seq<char> {
    match side {
        Side::Old => "old"@,
        Side::New => "new"@,
    }
}

/// The members with a key set, where there is a value.
pub open spec fn with_some(
    members: Seq<MemberModel>,
    key: Seq<char>,
    value: Option<JsonModel>,
) -> Seq<MemberModel> {
    match value {
        Some(v) => with_member(members, key, v),
        None => members,
    }
}

pub open spec fn text_doc(s: Option<Seq<char>>) -> Option<JsonModel> {
    match s {
        Some(t) => Some(JsonModel::Text(t)),
        None => None,
    }
}

/// A stack target as an object tagged by its `kind`.
pub open spec fn target_doc(target: TargetIdModel) -> JsonModel {
    let none = Seq::<MemberModel>::empty();
    match target {
        TargetIdModel::Branch { name } => JsonModel::Object(
            with_member(
                with_member(none, "kind"@, JsonModel::Text("branch"@)),
                "name"@,
                JsonModel::Text(name),
            ),
        ),
        other => JsonModel::Object(
            with_member(none, "kind"@, JsonModel::Text(other.label())),
        ),
    }
}

/// The fields of a comment, in their order; what is absent and may be left
/// out is left out.
pub open spec fn comment_members(c: CommentModel) -> Seq<MemberModel> {
    let m0 = Seq::<MemberModel>::empty();
    let m1 = with_member(m0, "id"@, JsonModel::Text(c.id));
    let m2 = with_member(m1, "rev"@, number_doc(c.rev as u64));
    let m3 = with_member(m2, "status"@, JsonModel::Text(c.status.name()));
    let m4 = with_member(m3, "path"@, nullable_text(c.path));
    let m5 = with_some(
        m4,
        "side"@,
        match c.side {
            Some(side) => Some(JsonModel::Text(side_name(side))),
            None => None,
        },
    );
    let m6 = with_member(
        m5,
        "line"@,
        match c.line {
            Some(n) => number_doc(n as u64),
            None => JsonModel::Null,
        },
    );
    let m7 = with_some(
        m6,
        "endLine"@,
        match c.end_line {
            Some(n) => Some(number_doc(n as u64)),
            None => None,
        },
    );
    let m8 = with_some(
        m7,
        "target"@,
        match c.target {
            Some(t) => Some(target_doc(t)),
            None => None,
        },
    );
    let m9 = with_some(m8, "snippet"@, text_doc(c.snippet));
    let m10 = with_member(m9, "body"@, JsonModel::Text(c.body));
    let m11 = with_some(m10, "response"@, text_doc(c.response));
    let m12 = with_member(m11, "author"@, JsonModel::Text(c.author));
    let m13 = with_member(m12, "createdAt"@, JsonModel::Text(c.created_at));
    with_member(m13, "updatedAt"@, JsonModel::Text(c.updated_at))
}

/// A comment record. A member of `extra` that is named like a field takes the
/// field's place.
pub open spec fn comment_doc(c: CommentModel) -> JsonModel {
    JsonModel::Object(put_all(comment_members(c), c.extra))
}

pub open spec fn source_members(s: SourceModel) -> Seq<MemberModel> {
    with_some(
        with_member(Seq::<MemberModel>::empty(), "kind"@, JsonModel::Text(s.kind)),
        "base"@,
        text_doc(s.base),
    )
}

pub open spec fn source_doc(s: SourceModel) -> JsonModel {
    JsonModel::Object(put_all(source_members(s), s.extra))
}

pub open spec fn comment_docs(comments: Seq<CommentModel>) -> Seq<JsonModel> {
    Seq::new(comments.len(), |i: int| comment_doc(comments[i]))
}

/// The fields of a review, in their order.
pub open spec fn review_members(r: ReviewModel) -> Seq<MemberModel> {
    let m0 = Seq::<MemberModel>::empty();
    let m1 = with_member(m0, "ambidiff"@, number_doc(r.ambidiff));
    let m2 = with_member(m1, "review"@, JsonModel::Text(r.review));
    let m3 = with_member(m2, "revision"@, number_doc(r.revision as u64));
    let m4 = with_member(m3, "source"@, source_doc(r.source));
    let m5 = with_member(m4, "createdAt"@, JsonModel::Text(r.created_at));
    let m6 = with_member(m5, "updatedAt"@, JsonModel::Text(r.updated_at));
    let m7 = with_member(m6, "comments"@, JsonModel::Array(comment_docs(r.comments)));
    with_some(
        m7,
        "quarantined"@,
        if r.quarantined.len() == 0 {
            None
        } else {
            Some(JsonModel::Array(r.quarantined))
        },
    )
}

/// The document of a review.
pub open spec fn review_doc(r: ReviewModel) -> JsonModel {
    JsonModel::Object(put_all(review_members(r), r.extra))
}

pub(crate) fn put_text(map: &mut JsonMap, key: &str, value: &str)
    ensures
        final(map).model() == with_member(old(map).model(), key@, JsonModel::Text(value@)),
{
    map.insert(copy_of(key), Json::Text(copy_of(value)));
}

pub(crate) fn put_number(map: &mut JsonMap, key: &str, value: u64)
    ensures
        final(map).model() == with_member(old(map).model(), key@, number_doc(value)),
{
    map.insert(copy_of(key), Json::Number(JsonNumber::Unsigned(value)));
}

pub(crate) fn put_opt_text(map: &mut JsonMap, key: &str, value: &Option<String>)
    ensures
        final(map).model() == with_some(old(map).model(), key@, text_doc(value.deep_view())),
{
    if let Some(text) = value {
        put_text(map, key, text.as_str());
    }
}

pub(crate) fn target_json(target: &TargetId) -> (r: Json)
    ensures
        r.model() == target_doc(target.deep_view()),
{
    let mut map: JsonMap = JsonMap::new();
    match target {
        TargetId::Branch { name } => {
            put_text(&mut map, "kind", "branch");
            put_text(&mut map, "name", name.as_str());
        },
        other => {
            put_text(&mut map, "kind", other.label());
        },
    }
    Json::Object(map)
}

/// The JSON record of a comment.
pub fn comment_json(c: &Comment) -> (r: Json)
    ensures
        r.model() == comment_doc(c.deep_view()),
{
    let mut map: JsonMap = JsonMap::new();
    put_text(&mut map, "id", c.id.as_str());
    put_number(&mut map, "rev", c.rev as u64);
    put_text(&mut map, "status", c.status.as_str());
    match &c.path {
        Some(path) => put_text(&mut map, "path", path.as_str()),
        None => map.insert(copy_of("path"), Json::Null),
    }
    match c.side {
        Some(Side::Old) => put_text(&mut map, "side", "old"),
        Some(Side::New) => put_text(&mut map, "side", "new"),
        None => {},
    }
    match c.line {
        Some(n) => put_number(&mut map, "line", n as u64),
        None => map.insert(copy_of("line"), Json::Null),
    }
    if let Some(n) = c.end_line {
        put_number(&mut map, "endLine", n as u64);
    }
    if let Some(target) = &c.target {
        map.insert(copy_of("target"), target_json(target));
    }
    put_opt_text(&mut map, "snippet", &c.snippet);
    put_text(&mut map, "body", c.body.as_str());
    put_opt_text(&mut map, "response", &c.response);
    put_text(&mut map, "author", c.author.as_str());
    put_text(&mut map, "createdAt", c.created_at.as_str());
    put_text(&mut map, "updatedAt", c.updated_at.as_str());
    assert(map.model() == comment_members(c.deep_view()));
    map.put_all(&c.extra);
    Json::Object(map)
}

fn source_json(s: &Source) -> (r: Json)
    ensures
        r.model() == source_doc(s.deep_view()),
{
    let mut map: JsonMap = JsonMap::new();
    put_text(&mut map, "kind", s.kind.as_str());
    put_opt_text(&mut map, "base", &s.base);
    map.put_all(&s.extra);
    Json::Object(map)
}

fn comments_json(comments: &Vec<Comment>) -> (r: Json)
    ensures
        r.model() == JsonModel::Array(comment_docs(comments.deep_view())),
{
    let mut out: Vec<Json> = Vec::new();
    let mut i: usize = 0;
    while i < comments.len()
        invariant
            i <= comments.len(),
            out.len() == i,
            forall|k: int|
                0 <= k < i ==> (#[trigger] out@[k]).model() == comment_doc(
                    comments@[k].deep_view(),
                ),
        decreases comments.len() - i,
    {
        out.push(comment_json(&comments[i]));
        i += 1;
    }
    let r = Json::Array(out);
    assert(r.model()->Array_0 =~= comment_docs(comments.deep_view()));
    r
}

/// The JSON document of a review.
pub fn review_json(review: &ReviewFile) -> (r: Json)
    ensures
        r.model() == review_doc(review.deep_view()),
{
    let mut map: JsonMap = JsonMap::new();
    put_number(&mut map, "ambidiff", review.ambidiff);
    put_text(&mut map, "review", review.review.as_str());
    put_number(&mut map, "revision", review.revision as u64);
    map.insert(copy_of("source"), source_json(&review.source));
    put_text(&mut map, "createdAt", review.created_at.as_str());
    put_text(&mut map, "updatedAt", review.updated_at.as_str());
    map.insert(copy_of("comments"), comments_json(&review.comments));
    if review.quarantined.len() > 0 {
        let docs = Json::Array(crate::review::copy_documents(&review.quarantined));
        assert(docs.model()->Array_0 =~= review.deep_view().quarantined);
        map.insert(copy_of("quarantined"), docs);
    }
    map.put_all(&review.extra);
    Json::Object(map)
}

/// Serialize a review file to its canonical on-disk form: pretty-printed,
/// two-space indent, trailing newline (agent- and diff-friendly). Reading it
/// gives the document back, down to the depth that a reader follows.
pub fn to_json(review: &ReviewFile) -> (r: Result<String, ReviewError>)
    ensures
        r matches Ok(text) && text@ == json_pretty(review_doc(review.deep_view())).push('\n') && (
        json_depth(review_doc(review.deep_view())) <= 127 ==> json_read(text@) == Some(
            review_doc(review.deep_view()),
        )),
        storable_review(review.deep_view()) && json_depth(review_doc(review.deep_view())) <= 127
            ==> (r matches Ok(text) && loads_as(text@, review.deep_view())),
{
    proof {
        if storable_review(review.deep_view()) {
            reviews_read_back(review.deep_view());
        }
    }
    match review_json(review).to_pretty() {
        Ok(text) => {
            let mut out: String = text;
            out.push('\n');
            Ok(out)
        },
        Err(msg) => Err(ReviewError::Serialize { msg }),
    }
}

/// Whether loading a text gives a review back, writable and with nothing lost;
/// warnings come for empty bodies only.
pub open spec fn loads_as(text: Seq<char>, r: ReviewModel) -> bool {
    loaded(text) matches Ok(outcome) && {
        &&& outcome.review == r
        &&& !outcome.salvage.read_only
        &&& outcome.salvage.retained == Seq::<MemberModel>::empty()
        &&& bodies_filled(r.comments) ==> outcome.salvage.warnings == Seq::<Seq<char>>::empty()
    }
}

// -------------------------------------------------------------- round trips

/// Length and first letter tell the field names of a comment apart.
proof fn lemma_comment_keys()
    ensures
        "id"@.len() == 2,
        "rev"@.len() == 3,
        "status"@.len() == 6 && "status"@[0] == 's',
        "path"@.len() == 4 && "path"@[0] == 'p',
        "side"@.len() == 4 && "side"@[0] == 's',
        "line"@.len() == 4 && "line"@[0] == 'l',
        "endLine"@.len() == 7 && "endLine"@[0] == 'e',
        "snippet"@.len() == 7 && "snippet"@[0] == 's',
        "body"@.len() == 4 && "body"@[0] == 'b',
        "response"@.len() == 8,
        "author"@.len() == 6 && "author"@[0] == 'a',
        "createdAt"@.len() == 9 && "createdAt"@[0] == 'c',
        "updatedAt"@.len() == 9 && "updatedAt"@[0] == 'u',
        "target"@.len() == 6 && "target"@[0] == 't',
{
    reveal_strlit("id");
    reveal_strlit("rev");
    reveal_strlit("status");
    reveal_strlit("path");
    reveal_strlit("side");
    reveal_strlit("line");
    reveal_strlit("endLine");
    reveal_strlit("snippet");
    reveal_strlit("body");
    reveal_strlit("response");
    reveal_strlit("author");
    reveal_strlit("createdAt");
    reveal_strlit("updatedAt");
    reveal_strlit("target");
}

/// Length and first letter tell the field names of a review apart.
proof fn lemma_review_keys()
    ensures
        "ambidiff"@.len() == 8 && "ambidiff"@[0] == 'a',
        "review"@.len() == 6 && "review"@[0] == 'r',
        "revision"@.len() == 8 && "revision"@[0] == 'r',
        "source"@.len() == 6 && "source"@[0] == 's',
        "createdAt"@.len() == 9 && "createdAt"@[0] == 'c',
        "updatedAt"@.len() == 9 && "updatedAt"@[0] == 'u',
        "comments"@.len() == 8 && "comments"@[0] == 'c',
        "quarantined"@.len() == 11,
        "kind"@.len() == 4 && "kind"@[0] == 'k',
        "base"@.len() == 4 && "base"@[0] == 'b',
        "name"@.len() == 4 && "name"@[0] == 'n',
{
    reveal_strlit("ambidiff");
    reveal_strlit("review");
    reveal_strlit("revision");
    reveal_strlit("source");
    reveal_strlit("createdAt");
    reveal_strlit("updatedAt");
    reveal_strlit("comments");
    reveal_strlit("quarantined");
    reveal_strlit("kind");
    reveal_strlit("base");
    reveal_strlit("name");
}

/// A written status reads back.
proof fn lemma_status_reads(status: Status)
    ensures
        read_status(JsonModel::Text(status.name())) == Ok::<Status, Seq<char>>(status),
{
    status_names_differ(status, Status::Open);
    status_names_differ(status, Status::Addressed);
    status_names_differ(status, Status::Resolved);
    status_names_differ(status, Status::Reopened);
}

/// A written side reads back.
proof fn lemma_side_reads(side: Side)
    ensures
        read_side(JsonModel::Text(side_name(side))) == Ok::<Side, Seq<char>>(side),
{
    reveal_strlit("old");
    reveal_strlit("new");
    assert("old"@[0] == 'o' && "new"@[0] == 'n');
}

/// A written target reads back.
pub proof fn targets_read_back(target: TargetIdModel)
    ensures
        read_target(target_doc(target)) == Ok::<TargetIdModel, Seq<char>>(target),
{
    lemma_review_keys();
    reveal_strlit("branch");
    reveal_strlit("head");
    reveal_strlit("stack");
    reveal_strlit("worktree");
    assert("branch"@.len() == 6 && "head"@.len() == 4 && "stack"@.len() == 5
        && "worktree"@.len() == 8);
    let none = Seq::<MemberModel>::empty();
    match target {
        TargetIdModel::Branch { name } => {
            let kind = JsonModel::Text("branch"@);
            lemma_put_new(none, "kind"@, kind);
            let m1 = with_member(none, "kind"@, kind);
            lemma_put_new(m1, "name"@, JsonModel::Text(name));
            let m2 = with_member(m1, "name"@, JsonModel::Text(name));
            lemma_mapping(m2, "kind"@);
            lemma_mapping(m2, "name"@);
        },
        other => {
            let kind = JsonModel::Text(other.label());
            lemma_put_new(none, "kind"@, kind);
            lemma_mapping(with_member(none, "kind"@, kind), "kind"@);
        },
    }
}

/// Members of a comment that are written by the library: fields, each
/// readable.
spec fn sound_fields(members: Seq<MemberModel>) -> bool {
    forall|i: int|
        0 <= i < members.len() ==> comment_fields().contains((#[trigger] members[i]).key)
            && member_fault(members[i].key, members[i].value) is None
}

proof fn lemma_comment_fields(k: Seq<char>)
    ensures
        comment_fields().contains(k) <==> k == "id"@ || k == "rev"@ || k == "status"@ || k
            == "path"@ || k == "side"@ || k == "line"@ || k == "endLine"@ || k == "snippet"@ || k
            == "body"@ || k == "response"@ || k == "author"@ || k == "createdAt"@ || k
            == "updatedAt"@ || k == "target"@,
{
    let f = comment_fields();
    assert(f[0] == "id"@ && f[1] == "rev"@ && f[2] == "status"@ && f[3] == "path"@ && f[4]
        == "side"@ && f[5] == "line"@ && f[6] == "endLine"@ && f[7] == "snippet"@ && f[8]
        == "body"@ && f[9] == "response"@ && f[10] == "author"@ && f[11] == "createdAt"@ && f[12]
        == "updatedAt"@ && f[13] == "target"@);
    if f.contains(k) {
        let i = choose|i: int| 0 <= i < f.len() && f[i] == k;
        assert(0 <= i < 14);
    }
}

proof fn lemma_review_fields(k: Seq<char>)
    ensures
        review_fields().contains(k) <==> k == "ambidiff"@ || k == "review"@ || k == "revision"@
            || k == "source"@ || k == "createdAt"@ || k == "updatedAt"@ || k == "comments"@ || k
            == "quarantined"@,
{
    let f = review_fields();
    assert(f[0] == "ambidiff"@ && f[1] == "review"@ && f[2] == "revision"@ && f[3] == "source"@
        && f[4] == "createdAt"@ && f[5] == "updatedAt"@ && f[6] == "comments"@ && f[7]
        == "quarantined"@);
    if f.contains(k) {
        let i = choose|i: int| 0 <= i < f.len() && f[i] == k;
        assert(0 <= i < 8);
    }
}

proof fn lemma_field_step(members: Seq<MemberModel>, key: Seq<char>, value: JsonModel)
    requires
        sound_fields(members),
        !mapping(members).contains_key(key),
        comment_fields().contains(key),
        member_fault(key, value) is None,
    ensures
        sound_fields(with_member(members, key, value)),
        mapping(with_member(members, key, value)) == mapping(members).insert(key, value),
{
    lemma_put_new(members, key, value);
    let after = with_member(members, key, value);
    assert forall|i: int| 0 <= i < after.len() implies comment_fields().contains(
        (#[trigger] after[i]).key,
    ) && member_fault(after[i].key, after[i].value) is None by {
        if i < members.len() {
            assert(after[i] == members[i]);
        }
    }
}

proof fn lemma_field_step_opt(
    members: Seq<MemberModel>,
    key: Seq<char>,
    value: Option<JsonModel>,
)
    requires
        sound_fields(members),
        !mapping(members).contains_key(key),
        comment_fields().contains(key),
        value matches Some(v) ==> member_fault(key, v) is None,
    ensures
        sound_fields(with_some(members, key, value)),
        mapping(with_some(members, key, value)) == match value {
            Some(v) => mapping(members).insert(key, v),
            None => mapping(members),
        },
{
    if let Some(v) = value {
        lemma_field_step(members, key, v);
    }
}

proof fn lemma_no_member_fault(members: Seq<MemberModel>, n: int)
    requires
        0 <= n <= members.len(),
        forall|i: int|
            0 <= i < members.len() ==> member_fault(
                (#[trigger] members[i]).key,
                members[i].value,
            ) is None,
    ensures
        first_member_fault(members, n) is None,
    decreases n,
{
    if n > 0 {
        lemma_no_member_fault(members, n - 1);
        assert(member_fault(members[n - 1].key, members[n - 1].value) is None);
    }
}

proof fn lemma_members_all_taken(members: Seq<MemberModel>, keys: Seq<Seq<char>>)
    requires
        forall|i: int| 0 <= i < members.len() ==> keys.contains((#[trigger] members[i]).key),
    ensures
        members_except(members, keys) == Seq::<MemberModel>::empty(),
    decreases members.len(),
{
    if members.len() > 0 {
        let init = members.drop_last();
        assert forall|i: int| 0 <= i < init.len() implies keys.contains(
            (#[trigger] init[i]).key,
        ) by {
            assert(members[i].key == init[i].key);
        }
        lemma_members_all_taken(init, keys);
        assert(keys.contains(members[members.len() - 1].key));
    }
}

/// Whether extra members stay clear of the fields, and of each other.
pub open spec fn clear_of(extra: Seq<MemberModel>, fields: Seq<Seq<char>>) -> bool {
    distinct_keys(extra) && forall|i: int|
        0 <= i < extra.len() ==> !fields.contains((#[trigger] extra[i]).key)
}

/// A comment that passed the checks of a load.
pub open spec fn sound_comment(c: CommentModel) -> bool {
    &&& well_formed_id(c.id)
    &&& c.rev > 0
    &&& anchor_refusal(c) is None
    &&& c.line is Some ==> c.side is Some
}

/// Whether a comment can be stored: it is sound, and what it carries along
/// takes no field's place.
pub open spec fn storable_comment(c: CommentModel) -> bool {
    sound_comment(c) && clear_of(c.extra, comment_fields())
}

/// The mapping of the fields of a comment.
spec fn comment_mapping(c: CommentModel) -> Map<Seq<char>, JsonModel> {
    mapping(comment_members(c))
}

proof fn lemma_comment_members(c: CommentModel)
    ensures
        sound_fields(comment_members(c)),
        forall|k: Seq<char>| #[trigger]
            comment_mapping(c).contains_key(k) ==> comment_fields().contains(k),
        ({
            let map = comment_mapping(c);
            &&& map.contains_key("id"@) && map["id"@] == JsonModel::Text(c.id)
            &&& map.contains_key("rev"@) && map["rev"@] == number_doc(c.rev as u64)
            &&& map.contains_key("status"@) && map["status"@] == JsonModel::Text(c.status.name())
            &&& map.contains_key("path"@) && map["path"@] == nullable_text(c.path)
            &&& match c.side {
                Some(side) => map.contains_key("side"@) && map["side"@] == JsonModel::Text(
                    side_name(side),
                ),
                None => !map.contains_key("side"@),
            }
            &&& map.contains_key("line"@) && map["line"@] == match c.line {
                Some(n) => number_doc(n as u64),
                None => JsonModel::Null,
            }
            &&& match c.end_line {
                Some(n) => map.contains_key("endLine"@) && map["endLine"@] == number_doc(
                    n as u64,
                ),
                None => !map.contains_key("endLine"@),
            }
            &&& match c.snippet {
                Some(t) => map.contains_key("snippet"@) && map["snippet"@] == JsonModel::Text(t),
                None => !map.contains_key("snippet"@),
            }
            &&& map.contains_key("body"@) && map["body"@] == JsonModel::Text(c.body)
            &&& match c.response {
                Some(t) => map.contains_key("response"@) && map["response"@] == JsonModel::Text(t),
                None => !map.contains_key("response"@),
            }
            &&& map.contains_key("author"@) && map["author"@] == JsonModel::Text(c.author)
            &&& map.contains_key("createdAt"@) && map["createdAt"@] == JsonModel::Text(
                c.created_at,
            )
            &&& map.contains_key("updatedAt"@) && map["updatedAt"@] == JsonModel::Text(
                c.updated_at,
            )
            &&& match c.target {
                Some(t) => map.contains_key("target"@) && map["target"@] == target_doc(t),
                None => !map.contains_key("target"@),
            }
        }),
{
    lemma_comment_keys();
    assert forall|k: Seq<char>|
        k == "id"@ || k == "rev"@ || k == "status"@ || k == "path"@ || k == "side"@ || k
            == "line"@ || k == "endLine"@ || k == "snippet"@ || k == "body"@ || k == "response"@
            || k == "author"@ || k == "createdAt"@ || k == "updatedAt"@ || k
            == "target"@ implies #[trigger] comment_fields().contains(k) by {
        lemma_comment_fields(k);
    }
    lemma_status_reads(c.status);
    if let Some(side) = c.side {
        lemma_side_reads(side);
    }
    if let Some(t) = c.target {
        targets_read_back(t);
    }
    let m0 = Seq::<MemberModel>::empty();
    lemma_field_step(m0, "id"@, JsonModel::Text(c.id));
    let m1 = with_member(m0, "id"@, JsonModel::Text(c.id));
    lemma_field_step(m1, "rev"@, number_doc(c.rev as u64));
    let m2 = with_member(m1, "rev"@, number_doc(c.rev as u64));
    lemma_field_step(m2, "status"@, JsonModel::Text(c.status.name()));
    let m3 = with_member(m2, "status"@, JsonModel::Text(c.status.name()));
    lemma_field_step(m3, "path"@, nullable_text(c.path));
    let m4 = with_member(m3, "path"@, nullable_text(c.path));
    let side = match c.side {
        Some(side) => Some(JsonModel::Text(side_name(side))),
        None => None,
    };
    lemma_field_step_opt(m4, "side"@, side);
    let m5 = with_some(m4, "side"@, side);
    let line = match c.line {
        Some(n) => number_doc(n as u64),
        None => JsonModel::Null,
    };
    lemma_field_step(m5, "line"@, line);
    let m6 = with_member(m5, "line"@, line);
    let end_line = match c.end_line {
        Some(n) => Some(number_doc(n as u64)),
        None => None,
    };
    lemma_field_step_opt(m6, "endLine"@, end_line);
    let m7 = with_some(m6, "endLine"@, end_line);
    let target = match c.target {
        Some(t) => Some(target_doc(t)),
        None => None,
    };
    lemma_field_step_opt(m7, "target"@, target);
    let m8 = with_some(m7, "target"@, target);
    lemma_field_step_opt(m8, "snippet"@, text_doc(c.snippet));
    let m9 = with_some(m8, "snippet"@, text_doc(c.snippet));
    lemma_field_step(m9, "body"@, JsonModel::Text(c.body));
    let m10 = with_member(m9, "body"@, JsonModel::Text(c.body));
    lemma_field_step_opt(m10, "response"@, text_doc(c.response));
    let m11 = with_some(m10, "response"@, text_doc(c.response));
    lemma_field_step(m11, "author"@, JsonModel::Text(c.author));
    let m12 = with_member(m11, "author"@, JsonModel::Text(c.author));
    lemma_field_step(m12, "createdAt"@, JsonModel::Text(c.created_at));
    let m13 = with_member(m12, "createdAt"@, JsonModel::Text(c.created_at));
    lemma_field_step(m13, "updatedAt"@, JsonModel::Text(c.updated_at));
    assert(comment_members(c) == with_member(m13, "updatedAt"@, JsonModel::Text(c.updated_at)));
}

/// A stored comment reads back as it was, and passes the checks unchanged. Only
/// an empty body is remarked on.
pub proof fn comments_read_back(c: CommentModel)
    requires
        storable_comment(c),
    ensures
        read_comment(comment_doc(c)) == Ok::<CommentModel, Seq<char>>(c),
        checked(c).refusal is None,
        checked(c).comment == c,
        c.body.len() > 0 ==> checked(c).warnings == Seq::<Seq<char>>::empty(),
{
    lemma_comment_members(c);
    lemma_comment_keys();
    let base = comment_members(c);
    assert forall|i: int| 0 <= i < c.extra.len() implies !mapping(base).contains_key(
        (#[trigger] c.extra[i]).key,
    ) by {
        let k = c.extra[i].key;
        if comment_mapping(c).contains_key(k) {
            assert(comment_fields().contains(k));
        }
    }
    lemma_put_all_new(base, c.extra);
    let all = put_all(base, c.extra);
    assert forall|i: int| 0 <= i < all.len() implies member_fault(
        (#[trigger] all[i]).key,
        all[i].value,
    ) is None by {
        if i < base.len() {
            assert(all[i] == base[i]);
        } else {
            let x = c.extra[i - base.len()];
            assert(all[i] == x);
            lemma_comment_fields(x.key);
        }
    }
    lemma_no_member_fault(all, all.len() as int);
    lemma_field_lookups(c, all);
    lemma_nothing_missing(c, all);
    lemma_members_except_concat(base, c.extra, comment_fields());
    lemma_members_all_taken(base, comment_fields());
    lemma_members_except_none(c.extra, comment_fields());
    assert(members_except(all, comment_fields()) =~= c.extra);
    lemma_fields_read(c, all);
    lemma_storable_is_checked(c);
}

/// A storable comment passes the checks as it is.
proof fn lemma_storable_is_checked(c: CommentModel)
    requires
        storable_comment(c),
    ensures
        checked(c).refusal is None,
        checked(c).comment == c,
        c.body.len() > 0 ==> checked(c).warnings == Seq::<Seq<char>>::empty(),
{
    if c.body.len() > 0 {
        assert(checked(c).warnings =~= Seq::<Seq<char>>::empty());
    }
}

/// Whether each field of a comment's record can be looked up among `all`.
spec fn looks_up(c: CommentModel, all: Seq<MemberModel>) -> bool {
    forall|k: Seq<char>| #[trigger]
        comment_fields().contains(k) ==> lookup(all, k) == (if comment_mapping(c).contains_key(k) {
            Some(comment_mapping(c)[k])
        } else {
            None
        }) && (has_key(all, k) <==> comment_mapping(c).contains_key(k))
}

/// A written comment has every field that a reader asks for.
proof fn lemma_nothing_missing(c: CommentModel, all: Seq<MemberModel>)
    requires
        looks_up(c, all),
    ensures
        first_missing(all, required_fields(), required_fields().len() as int) is None,
{
    lemma_fields_are_known();
    lemma_comment_members(c);
    assert(required_fields() =~= seq![
        "id"@,
        "rev"@,
        "status"@,
        "body"@,
        "author"@,
        "createdAt"@,
        "updatedAt"@,
    ]);
    reveal_with_fuel(first_missing, 8);
}

/// The fields of a written comment read back, and what else is there is kept.
proof fn lemma_fields_read(c: CommentModel, all: Seq<MemberModel>)
    requires
        storable_comment(c),
        looks_up(c, all),
        members_except(all, comment_fields()) == c.extra,
    ensures
        comment_of(all) == c,
{
    lemma_fields_are_known();
    lemma_comment_members(c);
    lemma_status_reads(c.status);
    if let Some(side) = c.side {
        lemma_side_reads(side);
    }
    if let Some(t) = c.target {
        targets_read_back(t);
    }
}

/// The names of a comment's fields.
proof fn lemma_fields_are_known()
    ensures
        comment_fields().contains("id"@),
        comment_fields().contains("rev"@),
        comment_fields().contains("status"@),
        comment_fields().contains("path"@),
        comment_fields().contains("side"@),
        comment_fields().contains("line"@),
        comment_fields().contains("endLine"@),
        comment_fields().contains("snippet"@),
        comment_fields().contains("body"@),
        comment_fields().contains("response"@),
        comment_fields().contains("author"@),
        comment_fields().contains("createdAt"@),
        comment_fields().contains("updatedAt"@),
        comment_fields().contains("target"@),
{
    lemma_comment_fields("id"@);
    lemma_comment_fields("rev"@);
    lemma_comment_fields("status"@);
    lemma_comment_fields("path"@);
    lemma_comment_fields("side"@);
    lemma_comment_fields("line"@);
    lemma_comment_fields("endLine"@);
    lemma_comment_fields("snippet"@);
    lemma_comment_fields("body"@);
    lemma_comment_fields("response"@);
    lemma_comment_fields("author"@);
    lemma_comment_fields("createdAt"@);
    lemma_comment_fields("updatedAt"@);
    lemma_comment_fields("target"@);
}

/// The members of a comment's record are found by their names, whatever else
/// stands behind them.
proof fn lemma_field_lookups(c: CommentModel, all: Seq<MemberModel>)
    requires
        storable_comment(c),
        all == put_all(comment_members(c), c.extra),
        forall|k: Seq<char>| #[trigger]
            mapping(all).contains_key(k) <==> comment_mapping(c).contains_key(k) || has_key(
                c.extra,
                k,
            ),
        forall|k: Seq<char>|
            comment_mapping(c).contains_key(k) ==> #[trigger] mapping(all)[k]
                == comment_mapping(c)[k],
    ensures
        looks_up(c, all),
{
    assert forall|k: Seq<char>| #[trigger] comment_fields().contains(k) implies lookup(all, k) == (
    if comment_mapping(c).contains_key(k) {
        Some(comment_mapping(c)[k])
    } else {
        None
    }) && (has_key(all, k) <==> comment_mapping(c).contains_key(k)) by {
        lemma_mapping(all, k);
        if has_key(c.extra, k) {
            let i = choose|i: int| 0 <= i < c.extra.len() && (#[trigger] c.extra[i]).key == k;
            assert(!comment_fields().contains(c.extra[i].key));
        }
    }
}

/// Whether a review can be stored and read back as it is.
pub open spec fn storable_review(r: ReviewModel) -> bool {
    &&& r.ambidiff <= SCHEMA_MAJOR
    &&& r.revision > 0
    &&& clear_of(r.source.extra, seq!["kind"@, "base"@])
    &&& clear_of(r.extra, review_fields())
    &&& distinct_ids(r.comments)
    &&& forall|i: int| 0 <= i < r.comments.len() ==> storable_comment(#[trigger] r.comments[i])
}

/// Whether every comment of a review says something.
pub open spec fn bodies_filled(comments: Seq<CommentModel>) -> bool {
    forall|i: int| 0 <= i < comments.len() ==> (#[trigger] comments[i]).body.len() > 0
}

/// A written source reads back.
pub proof fn sources_read_back(s: SourceModel)
    requires
        clear_of(s.extra, seq!["kind"@, "base"@]),
    ensures
        read_source(put_all(source_members(s), s.extra)) == Ok::<SourceModel, Seq<char>>(s),
{
    lemma_review_keys();
    let keys = seq!["kind"@, "base"@];
    assert(keys[0] == "kind"@ && keys[1] == "base"@);
    let none = Seq::<MemberModel>::empty();
    let kind = JsonModel::Text(s.kind);
    lemma_put_new(none, "kind"@, kind);
    let m1 = with_member(none, "kind"@, kind);
    if let Some(t) = s.base {
        lemma_put_new(m1, "base"@, JsonModel::Text(t));
    }
    let base = source_members(s);
    assert forall|i: int| 0 <= i < s.extra.len() implies !mapping(base).contains_key(
        (#[trigger] s.extra[i]).key,
    ) by {
        assert(!keys.contains(s.extra[i].key));
    }
    lemma_put_all_new(base, s.extra);
    let all = put_all(base, s.extra);
    lemma_mapping(all, "kind"@);
    lemma_mapping(all, "base"@);
    if has_key(s.extra, "base"@) {
        let i = choose|i: int| 0 <= i < s.extra.len() && (#[trigger] s.extra[i]).key == "base"@;
        assert(!keys.contains(s.extra[i].key));
    }
    assert(first_source_fault(all, all.len() as int) is None) by {
        assert forall|i: int| 0 <= i < all.len() implies (#[trigger] all[i]).key == "kind"@
            && all[i].value == kind || all[i].key == "base"@ && s.base is Some && all[i].value
            == JsonModel::Text(s.base->0) || !keys.contains(all[i].key) by {
            if i >= base.len() {
                assert(all[i] == s.extra[i - base.len()]);
            } else {
                assert(all[i] == base[i]);
            }
        }
        lemma_no_source_fault(all, all.len() as int);
    }
    lemma_members_except_concat(base, s.extra, keys);
    lemma_members_all_taken(base, keys);
    lemma_members_except_none(s.extra, keys);
    assert(members_except(all, keys) =~= s.extra);
}

proof fn lemma_no_source_fault(members: Seq<MemberModel>, n: int)
    requires
        0 <= n <= members.len(),
        forall|i: int|
            0 <= i < members.len() ==> ((#[trigger] members[i]).value is Text || !seq![
                "kind"@,
                "base"@,
            ].contains(members[i].key)),
    ensures
        first_source_fault(members, n) is None,
    decreases n,
{
    if n > 0 {
        lemma_no_source_fault(members, n - 1);
        let keys = seq!["kind"@, "base"@];
        assert(keys[0] == "kind"@ && keys[1] == "base"@);
        assert(members[n - 1].value is Text || !keys.contains(members[n - 1].key));
    }
}

proof fn lemma_records_read_back(comments: Seq<CommentModel>, n: int)
    requires
        0 <= n <= comments.len(),
        distinct_ids(comments),
        forall|i: int| 0 <= i < comments.len() ==> storable_comment(#[trigger] comments[i]),
    ensures
        ({
            let st = take_records(Seq::empty(), comment_docs(comments), n);
            &&& st.comments == comments.take(n)
            &&& st.quarantined == Seq::<JsonModel>::empty()
            &&& bodies_filled(comments) ==> st.warnings == Seq::<Seq<char>>::empty()
        }),
    decreases n,
{
    if n > 0 {
        lemma_records_read_back(comments, n - 1);
        let before = comments.take(n - 1);
        let c = comments[n - 1];
        comments_read_back(c);
        lemma_comment_index(before, c.id);
        let i = comment_index(before, c.id);
        if i < before.len() {
            assert(comments[i].id != comments[n - 1].id);
        }
        assert(before.push(c) =~= comments.take(n));
        assert(Seq::<Seq<char>>::empty() + Seq::<Seq<char>>::empty() =~= Seq::<
            Seq<char>,
        >::empty());
    } else {
        assert(comments.take(0) =~= Seq::empty());
    }
}

proof fn lemma_review_members(r: ReviewModel)
    ensures
        forall|i: int|
            0 <= i < review_members(r).len() ==> review_fields().contains(
                (#[trigger] review_members(r)[i]).key,
            ),
        ({
            let map = mapping(review_members(r));
            &&& forall|k: Seq<char>| #[trigger]
                map.contains_key(k) ==> review_fields().contains(k)
            &&& map.contains_key("ambidiff"@) && map["ambidiff"@] == number_doc(r.ambidiff)
            &&& map.contains_key("review"@) && map["review"@] == JsonModel::Text(r.review)
            &&& map.contains_key("revision"@) && map["revision"@] == number_doc(r.revision as u64)
            &&& map.contains_key("source"@) && map["source"@] == source_doc(r.source)
            &&& map.contains_key("createdAt"@) && map["createdAt"@] == JsonModel::Text(
                r.created_at,
            )
            &&& map.contains_key("updatedAt"@) && map["updatedAt"@] == JsonModel::Text(
                r.updated_at,
            )
            &&& map.contains_key("comments"@) && map["comments"@] == JsonModel::Array(
                comment_docs(r.comments),
            )
            &&& if r.quarantined.len() == 0 {
                !map.contains_key("quarantined"@)
            } else {
                map.contains_key("quarantined"@) && map["quarantined"@] == JsonModel::Array(
                    r.quarantined,
                )
            }
        }),
{
    lemma_review_keys();
    assert forall|k: Seq<char>|
        k == "ambidiff"@ || k == "review"@ || k == "revision"@ || k == "source"@ || k
            == "createdAt"@ || k == "updatedAt"@ || k == "comments"@ || k
            == "quarantined"@ implies #[trigger] review_fields().contains(k) by {
        lemma_review_fields(k);
    }
    let m0 = Seq::<MemberModel>::empty();
    lemma_put_new(m0, "ambidiff"@, number_doc(r.ambidiff));
    let m1 = with_member(m0, "ambidiff"@, number_doc(r.ambidiff));
    lemma_put_new(m1, "review"@, JsonModel::Text(r.review));
    let m2 = with_member(m1, "review"@, JsonModel::Text(r.review));
    lemma_put_new(m2, "revision"@, number_doc(r.revision as u64));
    let m3 = with_member(m2, "revision"@, number_doc(r.revision as u64));
    lemma_put_new(m3, "source"@, source_doc(r.source));
    let m4 = with_member(m3, "source"@, source_doc(r.source));
    lemma_put_new(m4, "createdAt"@, JsonModel::Text(r.created_at));
    let m5 = with_member(m4, "createdAt"@, JsonModel::Text(r.created_at));
    lemma_put_new(m5, "updatedAt"@, JsonModel::Text(r.updated_at));
    let m6 = with_member(m5, "updatedAt"@, JsonModel::Text(r.updated_at));
    let docs = JsonModel::Array(comment_docs(r.comments));
    lemma_put_new(m6, "comments"@, docs);
    let m7 = with_member(m6, "comments"@, docs);
    if r.quarantined.len() > 0 {
        lemma_put_new(m7, "quarantined"@, JsonModel::Array(r.quarantined));
    }
}

/// A stored review reads back as it was: nothing is quarantined or retained,
/// and the file stays writable. Nothing is warned about either, but for empty
/// bodies.
pub proof fn reviews_read_back(r: ReviewModel)
    requires
        storable_review(r),
    ensures
        review_doc(r) matches JsonModel::Object(members) && {
            let outcome = salvaged(members);
            &&& outcome.review == r
            &&& !outcome.salvage.read_only
            &&& outcome.salvage.reason is None
            &&& outcome.salvage.retained == Seq::<MemberModel>::empty()
            &&& bodies_filled(r.comments) ==> outcome.salvage == SalvageModel::start()
        },
{
    lemma_review_members(r);
    lemma_review_keys();
    let base = review_members(r);
    assert forall|i: int| 0 <= i < r.extra.len() implies !mapping(base).contains_key(
        (#[trigger] r.extra[i]).key,
    ) by {
        let k = r.extra[i].key;
        if mapping(base).contains_key(k) {
            assert(review_fields().contains(k));
        }
    }
    lemma_put_all_new(base, r.extra);
    let all = put_all(base, r.extra);
    assert forall|k: Seq<char>| #[trigger] review_fields().contains(k) implies lookup(all, k)
        == if mapping(base).contains_key(k) {
        Some(mapping(base)[k])
    } else {
        None
    } by {
        lemma_mapping(all, k);
        if has_key(r.extra, k) {
            let i = choose|i: int| 0 <= i < r.extra.len() && (#[trigger] r.extra[i]).key == k;
            assert(!review_fields().contains(r.extra[i].key));
        }
    }
    lemma_review_fields("ambidiff"@);
    lemma_review_fields("review"@);
    lemma_review_fields("revision"@);
    lemma_review_fields("source"@);
    lemma_review_fields("createdAt"@);
    lemma_review_fields("updatedAt"@);
    lemma_review_fields("comments"@);
    lemma_review_fields("quarantined"@);
    sources_read_back(r.source);
    let docs = comment_docs(r.comments);
    lemma_records_read_back(r.comments, docs.len() as int);
    assert(r.comments.take(docs.len() as int) =~= r.comments);
    lemma_members_except_concat(base, r.extra, review_fields());
    lemma_members_all_taken(base, review_fields());
    lemma_members_except_none(r.extra, review_fields());
    assert(members_except(all, review_fields()) =~= r.extra);
    assert(Seq::<JsonModel>::empty() + r.quarantined =~= r.quarantined);
    if r.quarantined.len() == 0 {
        assert(r.quarantined =~= Seq::empty());
    }
    if bodies_filled(r.comments) {
        assert(salvaged(all).salvage =~= SalvageModel::start());
    }
    assert(salvaged(all).review =~= r);
}

/// Whatever a load gives, its comments have distinct, well-formed ids and
/// sound anchors.
pub proof fn loaded_comments_are_sound(members: Seq<MemberModel>)
    ensures
        distinct_ids(salvaged(members).review.comments),
        forall|i: int|
            0 <= i < salvaged(members).review.comments.len() ==> sound_comment(
                #[trigger] salvaged(members).review.comments[i],
            ),
{
    let (ambidiff, s1) = schema_field(members, SalvageModel::start());
    let s2 = schema_gate(ambidiff, s1);
    let (_review, s3) = text_field(
        members,
        s2,
        "review"@,
        "review name"@,
        "missing review name"@,
    );
    let (_revision, s4) = revision_field(members, s3);
    let (_source, s5) = source_field(members, s4);
    let (_created, s6) = text_field(
        members,
        s5,
        "createdAt"@,
        "createdAt"@,
        "missing createdAt; using empty"@,
    );
    let (_updated, s7) = text_field(
        members,
        s6,
        "updatedAt"@,
        "updatedAt"@,
        "missing updatedAt; using empty"@,
    );
    if let Some(JsonModel::Array(items)) = lookup(members, "comments"@) {
        no_record_is_lost(s7.warnings, items, items.len() as int);
        lemma_taken_are_sound(s7.warnings, items, items.len() as int);
    }
}

proof fn lemma_taken_are_sound(warnings: Seq<Seq<char>>, items: Seq<JsonModel>, n: int)
    requires
        0 <= n <= items.len(),
    ensures
        forall|i: int|
            0 <= i < take_records(warnings, items, n).comments.len() ==> sound_comment(
                #[trigger] take_records(warnings, items, n).comments[i],
            ),
    decreases n,
{
    if n > 0 {
        lemma_taken_are_sound(warnings, items, n - 1);
        let before = take_records(warnings, items, n - 1);
        let after = take_records(warnings, items, n);
        assert forall|i: int| 0 <= i < after.comments.len() implies sound_comment(
            #[trigger] after.comments[i],
        ) by {
            if i < before.comments.len() {
                assert(sound_comment(before.comments[i]));
            }
        }
    }
}

/// What is left once the fields are taken out stays clear of them.
proof fn lemma_left_over(members: Seq<MemberModel>, fields: Seq<Seq<char>>)
    requires
        distinct_keys(members),
    ensures
        clear_of(members_except(members, fields), fields),
    decreases members.len(),
{
    lemma_members_except_keys(members, fields);
    if members.len() > 0 {
        let init = members.drop_last();
        let before = members_except(init, fields);
        let after = members_except(members, fields);
        assert forall|i: int, j: int| 0 <= i < j < init.len() implies (#[trigger] init[i]).key != (
        #[trigger] init[j]).key by {
            assert(init[i] == members[i] && init[j] == members[j]);
        }
        lemma_left_over(init, fields);
        assert forall|i: int| 0 <= i < after.len() implies !fields.contains(
            (#[trigger] after[i]).key,
        ) by {
            if i < before.len() {
                assert(after[i] == before[i]);
            }
        }
    }
}

/// Whether the objects that a load looks into hold each key once, as every
/// object of a document does.
pub open spec fn keys_stand_once(members: Seq<MemberModel>) -> bool {
    &&& distinct_keys(members)
    &&& lookup(members, "source"@) matches Some(JsonModel::Object(fields)) ==> distinct_keys(fields)
    &&& lookup(members, "comments"@) matches Some(JsonModel::Array(items)) ==> forall|i: int|
        0 <= i < items.len() ==> ((#[trigger] items[i]) matches JsonModel::Object(fields)
            ==> distinct_keys(fields))
}

proof fn lemma_taken_are_storable(warnings: Seq<Seq<char>>, items: Seq<JsonModel>, n: int)
    requires
        0 <= n <= items.len(),
        forall|i: int|
            0 <= i < items.len() ==> ((#[trigger] items[i]) matches JsonModel::Object(fields)
                ==> distinct_keys(fields)),
    ensures
        forall|i: int|
            0 <= i < take_records(warnings, items, n).comments.len() ==> storable_comment(
                #[trigger] take_records(warnings, items, n).comments[i],
            ),
    decreases n,
{
    if n > 0 {
        lemma_taken_are_storable(warnings, items, n - 1);
        let before = take_records(warnings, items, n - 1);
        let after = take_records(warnings, items, n);
        if let JsonModel::Object(fields) = items[n - 1] {
            lemma_left_over(fields, comment_fields());
        }
        assert forall|i: int| 0 <= i < after.comments.len() implies storable_comment(
            #[trigger] after.comments[i],
        ) by {
            if i < before.comments.len() {
                assert(storable_comment(before.comments[i]));
            }
        }
    }
}

/// What was loaded from a file that may be written can be stored again, and
/// then reads back as it was loaded: salvaging loses nothing the second time.
pub proof fn loads_can_be_stored(members: Seq<MemberModel>)
    requires
        keys_stand_once(members),
        !salvaged(members).salvage.read_only,
    ensures
        storable_review(salvaged(members).review),
        review_doc(salvaged(members).review) matches JsonModel::Object(again) && salvaged(
            again,
        ).review == salvaged(members).review,
{
    let r = salvaged(members).review;
    loaded_comments_are_sound(members);
    lemma_left_over(members, review_fields());
    let none = Seq::<MemberModel>::empty();
    if let Some(JsonModel::Object(fields)) = lookup(members, "source"@) {
        lemma_left_over(fields, seq!["kind"@, "base"@]);
    }
    let (ambidiff, s1) = schema_field(members, SalvageModel::start());
    let s2 = schema_gate(ambidiff, s1);
    let (_review, s3) = text_field(
        members,
        s2,
        "review"@,
        "review name"@,
        "missing review name"@,
    );
    let (_revision, s4) = revision_field(members, s3);
    let (source, s5) = source_field(members, s4);
    let (_created, s6) = text_field(
        members,
        s5,
        "createdAt"@,
        "createdAt"@,
        "missing createdAt; using empty"@,
    );
    let (_updated, s7) = text_field(
        members,
        s6,
        "updatedAt"@,
        "updatedAt"@,
        "missing updatedAt; using empty"@,
    );
    if let Some(JsonModel::Array(items)) = lookup(members, "comments"@) {
        lemma_taken_are_storable(s7.warnings, items, items.len() as int);
    }
    let (_comments, fresh, s8) = comments_field(members, s7);
    let (_quarantined, s9) = quarantine_field(members, fresh, s8);
    assert(s8.read_only ==> s9.read_only);
    assert(s7.read_only ==> s8.read_only);
    assert(s6.read_only ==> s7.read_only);
    assert(s5.read_only ==> s6.read_only);
    assert(s4.read_only ==> s5.read_only);
    assert(s3.read_only ==> s4.read_only);
    assert(s2.read_only ==> s3.read_only);
    assert(clear_of(source.extra, seq!["kind"@, "base"@]));
    reviews_read_back(r);
}

/// Every operation keeps a review storable. A line comment is given a side, as
/// requests over the wire are.
pub proof fn operations_keep_reviews_storable(
    review: ReviewModel,
    new: NewCommentModel,
    id: Seq<char>,
    body: Seq<char>,
    action: Action,
    actor: Actor,
    response: Option<Seq<char>>,
    now: Seq<char>,
)
    requires
        storable_review(review),
        well_formed_id(id),
        new.line is Some ==> new.side is Some,
    ensures
        review.with_comment(new, id, now) matches Ok(r) ==> storable_review(r),
        review.with_body(id, body, now) matches Ok(r) ==> storable_review(r),
        review.without_comment(id, now) matches Ok(r) ==> storable_review(r),
        review.after_action(id, action, actor, response, now) matches Ok(r) ==> storable_review(r),
{
    operations_keep_ids_distinct(review, new, id, body, action, actor, response, now);
    lemma_comment_index(review.comments, id);
    let at = comment_index(review.comments, id);
    if let Ok(r) = review.with_comment(new, id, now) {
        assert forall|i: int| 0 <= i < r.comments.len() implies storable_comment(
            #[trigger] r.comments[i],
        ) by {
            if i < review.comments.len() {
                assert(storable_comment(review.comments[i]));
            }
        }
    }
    if let Ok(r) = review.with_body(id, body, now) {
        assert forall|i: int| 0 <= i < r.comments.len() implies storable_comment(
            #[trigger] r.comments[i],
        ) by {
            assert(storable_comment(review.comments[i]));
        }
    }
    if let Ok(r) = review.without_comment(id, now) {
        assert forall|i: int| 0 <= i < r.comments.len() implies storable_comment(
            #[trigger] r.comments[i],
        ) by {
            if i < at {
                assert(storable_comment(review.comments[i]));
            } else {
                assert(storable_comment(review.comments[i + 1]));
            }
        }
    }
    if let Ok(r) = review.after_action(id, action, actor, response, now) {
        assert forall|i: int| 0 <= i < r.comments.len() implies storable_comment(
            #[trigger] r.comments[i],
        ) by {
            assert(storable_comment(review.comments[i]));
        }
    }
}

proof fn lemma_no_comment_fault(comments: Seq<CommentModel>, n: int)
    requires
        0 <= n <= comments.len(),
        distinct_ids(comments),
        forall|i: int| 0 <= i < comments.len() ==> storable_comment(#[trigger] comments[i]),
    ensures
        first_comment_fault(comments, n) is None,
    decreases n,
{
    if n > 0 {
        lemma_no_comment_fault(comments, n - 1);
        let c = comments[n - 1];
        assert(storable_comment(c));
        lemma_comment_index(comments, c.id);
        let at = comment_index(comments, c.id);
        if at < n - 1 {
            assert(comments[at].id != comments[n - 1].id);
        }
    }
}

/// A review that can be stored is never refused when it is written.
pub proof fn storable_reviews_are_valid(r: ReviewModel)
    requires
        storable_review(r),
    ensures
        r.fault() is None,
{
    lemma_no_comment_fault(r.comments, r.comments.len() as int);
}

/// The review that `ReviewFile::new` makes of a git source.
pub open spec fn fresh_review(
    name: Seq<char>,
    base: Option<Seq<char>>,
    now: Seq<char>,
) -> ReviewModel {
    ReviewModel {
        ambidiff: SCHEMA_MAJOR,
        review: name,
        revision: 1,
        source: git_source(base),
        created_at: now,
        updated_at: now,
        comments: Seq::empty(),
        quarantined: Seq::empty(),
        extra: Seq::empty(),
    }
}

/// A fresh review can be stored, and read back.
pub proof fn fresh_reviews_are_storable(
    name: Seq<char>,
    base: Option<Seq<char>>,
    now: Seq<char>,
)
    ensures
        storable_review(fresh_review(name, base, now)),
        shallow_review(fresh_review(name, base, now)),
{
}

// What a reader follows: the fields of this schema nest four levels at most, so
// only what others have put into a review can take it deeper.

/// Whether no value among the members goes deeper than `bound`.
spec fn members_within(members: Seq<MemberModel>, bound: nat) -> bool {
    forall|i: int| 0 <= i < members.len() ==> json_depth((#[trigger] members[i]).value) <= bound
}

proof fn lemma_members_depth(members: Seq<MemberModel>, bound: nat)
    ensures
        members_depth(members) <= bound <==> members_within(members, bound),
    decreases members.len(),
{
    if members.len() > 0 {
        let rest = members.drop_last();
        lemma_members_depth(rest, bound);
        if members_within(members, bound) {
            assert forall|i: int| 0 <= i < rest.len() implies json_depth(
                (#[trigger] rest[i]).value,
            ) <= bound by {
                assert(rest[i] == members[i]);
            }
            assert(json_depth(members[members.len() - 1].value) <= bound);
        }
        if members_depth(members) <= bound {
            assert forall|i: int| 0 <= i < members.len() implies json_depth(
                (#[trigger] members[i]).value,
            ) <= bound by {
                if i < rest.len() {
                    assert(rest[i] == members[i]);
                }
            }
        }
    }
}

proof fn lemma_items_depth(items: Seq<JsonModel>, bound: nat)
    requires
        forall|i: int| 0 <= i < items.len() ==> json_depth(#[trigger] items[i]) <= bound,
    ensures
        items_depth(items) <= bound,
    decreases items.len(),
{
    if items.len() > 0 {
        let rest = items.drop_last();
        assert forall|i: int| 0 <= i < rest.len() implies json_depth(#[trigger] rest[i])
            <= bound by {
            assert(rest[i] == items[i]);
        }
        lemma_items_depth(rest, bound);
        assert(json_depth(items[items.len() - 1]) <= bound);
    }
}

proof fn lemma_within_put(members: Seq<MemberModel>, key: Seq<char>, value: JsonModel, bound: nat)
    requires
        members_within(members, bound),
        json_depth(value) <= bound,
    ensures
        members_within(with_member(members, key, value), bound),
{
    lemma_key_index(members, key);
    let after = with_member(members, key, value);
    assert forall|i: int| 0 <= i < after.len() implies json_depth((#[trigger] after[i]).value)
        <= bound by {
        if i < members.len() && after[i] != members[i] {
            assert(after[i].value == value);
        } else if i < members.len() {
            assert(json_depth(members[i].value) <= bound);
        }
    }
}

proof fn lemma_within_put_all(members: Seq<MemberModel>, more: Seq<MemberModel>, bound: nat)
    requires
        members_within(members, bound),
        members_within(more, bound),
    ensures
        members_within(put_all(members, more), bound),
    decreases more.len(),
{
    if more.len() > 0 {
        let rest = more.drop_last();
        assert forall|i: int| 0 <= i < rest.len() implies json_depth((#[trigger] rest[i]).value)
            <= bound by {
            assert(rest[i] == more[i]);
        }
        lemma_within_put_all(members, rest, bound);
        assert(json_depth(more[more.len() - 1].value) <= bound);
        lemma_within_put(put_all(members, rest), more.last().key, more.last().value, bound);
    }
}

proof fn lemma_target_depth(target: TargetIdModel)
    ensures
        json_depth(target_doc(target)) <= 1,
{
    let none = Seq::<MemberModel>::empty();
    match target {
        TargetIdModel::Branch { name } => {
            lemma_within_put(none, "kind"@, JsonModel::Text("branch"@), 0);
            let one = with_member(none, "kind"@, JsonModel::Text("branch"@));
            lemma_within_put(one, "name"@, JsonModel::Text(name), 0);
            lemma_members_depth(with_member(one, "name"@, JsonModel::Text(name)), 0);
        },
        other => {
            lemma_within_put(none, "kind"@, JsonModel::Text(other.label()), 0);
            lemma_members_depth(with_member(none, "kind"@, JsonModel::Text(other.label())), 0);
        },
    }
}

proof fn lemma_comment_depth(c: CommentModel, bound: nat)
    requires
        bound >= 1,
        members_depth(c.extra) <= bound,
    ensures
        json_depth(comment_doc(c)) <= bound + 1,
{
    let m0 = Seq::<MemberModel>::empty();
    lemma_within_put(m0, "id"@, JsonModel::Text(c.id), bound);
    let m1 = with_member(m0, "id"@, JsonModel::Text(c.id));
    lemma_within_put(m1, "rev"@, number_doc(c.rev as u64), bound);
    let m2 = with_member(m1, "rev"@, number_doc(c.rev as u64));
    lemma_within_put(m2, "status"@, JsonModel::Text(c.status.name()), bound);
    let m3 = with_member(m2, "status"@, JsonModel::Text(c.status.name()));
    lemma_within_put(m3, "path"@, nullable_text(c.path), bound);
    let m4 = with_member(m3, "path"@, nullable_text(c.path));
    let side = match c.side {
        Some(side) => Some(JsonModel::Text(side_name(side))),
        None => None,
    };
    if let Some(v) = side {
        lemma_within_put(m4, "side"@, v, bound);
    }
    let m5 = with_some(m4, "side"@, side);
    let line = match c.line {
        Some(n) => number_doc(n as u64),
        None => JsonModel::Null,
    };
    lemma_within_put(m5, "line"@, line, bound);
    let m6 = with_member(m5, "line"@, line);
    let end = match c.end_line {
        Some(n) => Some(number_doc(n as u64)),
        None => None,
    };
    if let Some(v) = end {
        lemma_within_put(m6, "endLine"@, v, bound);
    }
    let m7 = with_some(m6, "endLine"@, end);
    let target = match c.target {
        Some(t) => Some(target_doc(t)),
        None => None,
    };
    if let Some(t) = c.target {
        lemma_target_depth(t);
        lemma_within_put(m7, "target"@, target_doc(t), bound);
    }
    let m8 = with_some(m7, "target"@, target);
    if let Some(t) = c.snippet {
        lemma_within_put(m8, "snippet"@, JsonModel::Text(t), bound);
    }
    let m9 = with_some(m8, "snippet"@, text_doc(c.snippet));
    lemma_within_put(m9, "body"@, JsonModel::Text(c.body), bound);
    let m10 = with_member(m9, "body"@, JsonModel::Text(c.body));
    if let Some(t) = c.response {
        lemma_within_put(m10, "response"@, JsonModel::Text(t), bound);
    }
    let m11 = with_some(m10, "response"@, text_doc(c.response));
    lemma_within_put(m11, "author"@, JsonModel::Text(c.author), bound);
    let m12 = with_member(m11, "author"@, JsonModel::Text(c.author));
    lemma_within_put(m12, "createdAt"@, JsonModel::Text(c.created_at), bound);
    let m13 = with_member(m12, "createdAt"@, JsonModel::Text(c.created_at));
    lemma_within_put(m13, "updatedAt"@, JsonModel::Text(c.updated_at), bound);
    assert(comment_members(c) == with_member(m13, "updatedAt"@, JsonModel::Text(c.updated_at)));
    lemma_members_depth(c.extra, bound);
    lemma_within_put_all(comment_members(c), c.extra, bound);
    lemma_members_depth(put_all(comment_members(c), c.extra), bound);
}

proof fn lemma_source_depth(s: SourceModel, bound: nat)
    requires
        members_depth(s.extra) <= bound,
    ensures
        json_depth(source_doc(s)) <= bound + 1,
{
    let none = Seq::<MemberModel>::empty();
    lemma_within_put(none, "kind"@, JsonModel::Text(s.kind), bound);
    let one = with_member(none, "kind"@, JsonModel::Text(s.kind));
    if let Some(t) = s.base {
        lemma_within_put(one, "base"@, JsonModel::Text(t), bound);
    }
    lemma_members_depth(s.extra, bound);
    lemma_within_put_all(source_members(s), s.extra, bound);
    lemma_members_depth(put_all(source_members(s), s.extra), bound);
}

/// Whether a reader can follow what others have put into a review.
pub open spec fn shallow_review(r: ReviewModel) -> bool {
    &&& members_depth(r.extra) <= 126
    &&& members_depth(r.source.extra) <= 125
    &&& items_depth(r.quarantined) <= 125
    &&& forall|i: int|
        0 <= i < r.comments.len() ==> members_depth((#[trigger] r.comments[i]).extra) <= 124
}

/// The fields of a review itself never take its document too deep to be read
/// back: only what others have put there can. So a review without foreign
/// fields always reads back.
pub proof fn known_fields_are_shallow(r: ReviewModel)
    requires
        shallow_review(r),
    ensures
        json_depth(review_doc(r)) <= 127,
{
    let bound: nat = 126;
    let m0 = Seq::<MemberModel>::empty();
    lemma_within_put(m0, "ambidiff"@, number_doc(r.ambidiff), bound);
    let m1 = with_member(m0, "ambidiff"@, number_doc(r.ambidiff));
    lemma_within_put(m1, "review"@, JsonModel::Text(r.review), bound);
    let m2 = with_member(m1, "review"@, JsonModel::Text(r.review));
    lemma_within_put(m2, "revision"@, number_doc(r.revision as u64), bound);
    let m3 = with_member(m2, "revision"@, number_doc(r.revision as u64));
    lemma_source_depth(r.source, 125);
    lemma_within_put(m3, "source"@, source_doc(r.source), bound);
    let m4 = with_member(m3, "source"@, source_doc(r.source));
    lemma_within_put(m4, "createdAt"@, JsonModel::Text(r.created_at), bound);
    let m5 = with_member(m4, "createdAt"@, JsonModel::Text(r.created_at));
    lemma_within_put(m5, "updatedAt"@, JsonModel::Text(r.updated_at), bound);
    let m6 = with_member(m5, "updatedAt"@, JsonModel::Text(r.updated_at));
    let docs = comment_docs(r.comments);
    assert forall|i: int| 0 <= i < docs.len() implies json_depth(#[trigger] docs[i]) <= 125 by {
        assert(members_depth(r.comments[i].extra) <= 124);
        lemma_comment_depth(r.comments[i], 124);
    }
    lemma_items_depth(docs, 125);
    lemma_within_put(m6, "comments"@, JsonModel::Array(docs), bound);
    let m7 = with_member(m6, "comments"@, JsonModel::Array(docs));
    if r.quarantined.len() > 0 {
        lemma_within_put(m7, "quarantined"@, JsonModel::Array(r.quarantined), bound);
    }
    lemma_members_depth(r.extra, bound);
    lemma_within_put_all(review_members(r), r.extra, bound);
    lemma_members_depth(put_all(review_members(r), r.extra), bound);
}

/// No operation takes a review deeper.
pub proof fn operations_keep_reviews_shallow(
    review: ReviewModel,
    new: NewCommentModel,
    id: Seq<char>,
    body: Seq<char>,
    action: Action,
    actor: Actor,
    response: Option<Seq<char>>,
    now: Seq<char>,
)
    requires
        shallow_review(review),
    ensures
        review.with_comment(new, id, now) matches Ok(r) ==> shallow_review(r),
        review.with_body(id, body, now) matches Ok(r) ==> shallow_review(r),
        review.without_comment(id, now) matches Ok(r) ==> shallow_review(r),
        review.after_action(id, action, actor, response, now) matches Ok(r) ==> shallow_review(r),
{
    lemma_comment_index(review.comments, id);
    let at = comment_index(review.comments, id);
    if let Ok(r) = review.with_comment(new, id, now) {
        assert forall|i: int| 0 <= i < r.comments.len() implies members_depth(
            (#[trigger] r.comments[i]).extra,
        ) <= 124 by {
            if i < review.comments.len() {
                assert(members_depth(review.comments[i].extra) <= 124);
            }
        }
    }
    if let Ok(r) = review.with_body(id, body, now) {
        assert forall|i: int| 0 <= i < r.comments.len() implies members_depth(
            (#[trigger] r.comments[i]).extra,
        ) <= 124 by {
            assert(members_depth(review.comments[i].extra) <= 124);
        }
    }
    if let Ok(r) = review.without_comment(id, now) {
        assert forall|i: int| 0 <= i < r.comments.len() implies members_depth(
            (#[trigger] r.comments[i]).extra,
        ) <= 124 by {
            if i < at {
                assert(members_depth(review.comments[i].extra) <= 124);
            } else {
                assert(members_depth(review.comments[i + 1].extra) <= 124);
            }
        }
    }
    if let Ok(r) = review.after_action(id, action, actor, response, now) {
        assert forall|i: int| 0 <= i < r.comments.len() implies members_depth(
            (#[trigger] r.comments[i]).extra,
        ) <= 124 by {
            assert(members_depth(review.comments[i].extra) <= 124);
        }
    }
}

} // verus!
