//! What a request says, told field by field.

use vstd::prelude::*;

use crate::json::{lookup, JsonModel, NumberModel};
use crate::protocol::{
    comment_add_of, comment_delete_of, comment_edit_of, expand_request_of, lifecycle_of,
    view_options_of, view_request_of, DecodeErrorModel, ThemeWire, ViewOptionsWire,
};
use crate::review::Side;
use crate::rows::ViewMode;
use crate::text::white_space;

verus! {

/// The value that a document gives for a field; null gives none.
pub open spec fn given(doc: JsonModel, name: Seq<char>) -> Option<JsonModel> {
    match doc {
        JsonModel::Object(members) => match lookup(members, name) {
            Some(value) => if value == JsonModel::Null {
                None
            } else {
                Some(value)
            },
            None => None,
        },
        _ => None,
    }
}

/// Whether a field is left out or says exactly this text.
pub open spec fn says_text(doc: JsonModel, name: Seq<char>, said: Option<Seq<char>>) -> bool {
    match said {
        Some(text) => given(doc, name) == Some(JsonModel::Text(text)),
        None => given(doc, name) is None,
    }
}

/// Whether a field is left out or says exactly this line number.
pub open spec fn says_line(doc: JsonModel, name: Seq<char>, said: Option<u32>) -> bool {
    match said {
        Some(n) => n >= 1 && given(doc, name) == Some(
            JsonModel::Number(NumberModel::Unsigned(n as u64)),
        ),
        None => given(doc, name) is None,
    }
}

/// Whether a field is left out or is a text.
pub open spec fn may_be_text(doc: JsonModel, name: Seq<char>) -> bool {
    given(doc, name) matches Some(v) ==> v is Text
}

/// Whether a field is left out or is a line number.
pub open spec fn may_be_line(doc: JsonModel, name: Seq<char>) -> bool {
    given(doc, name) matches Some(v) ==> v matches JsonModel::Number(
        NumberModel::Unsigned(n),
    ) && 1 <= n && n <= 0xffff_ffff
}

/// Whether a field is there and is a text.
pub open spec fn is_text(doc: JsonModel, name: Seq<char>) -> bool {
    given(doc, name) matches Some(v) && v is Text
}

/// A new comment is asked for where the body is there, texts are texts, line
/// numbers are line numbers and the side is one of the two. What is asked
/// for is what the fields say; a line without a side is on the new side.
pub proof fn additions_say_their_fields(doc: JsonModel)
    ensures
        comment_add_of(doc) is Ok <==> {
            &&& is_text(doc, "body"@)
            &&& may_be_text(doc, "path"@)
            &&& may_be_line(doc, "line"@)
            &&& may_be_line(doc, "endLine"@)
            &&& may_be_text(doc, "author"@)
            &&& {
                ||| given(doc, "side"@) is None
                ||| given(doc, "side"@) == Some(JsonModel::Text("old"@))
                ||| given(doc, "side"@) == Some(JsonModel::Text("new"@))
            }
        },
        comment_add_of(doc) matches Ok(r) ==> {
            &&& says_text(doc, "body"@, Some(r.body))
            &&& says_text(doc, "path"@, r.path)
            &&& says_text(doc, "author"@, r.author)
            &&& says_line(doc, "line"@, r.line)
            &&& says_line(doc, "endLine"@, r.end_line)
            &&& given(doc, "side"@) == Some(JsonModel::Text("old"@)) ==> r.side == Some(Side::Old)
            &&& given(doc, "side"@) == Some(JsonModel::Text("new"@)) ==> r.side == Some(Side::New)
            &&& given(doc, "side"@) is None ==> r.side == if r.line is Some {
                Some(Side::New)
            } else {
                None
            }
        },
{
    reveal_strlit("old");
    reveal_strlit("new");
    assert("old"@[0] == 'o' && "new"@[0] == 'n');
    match given(doc, "side"@) {
        Some(JsonModel::Text(s)) => {
            assert(s == "old"@ || s == "new"@ || (s != "old"@ && s != "new"@));
        },
        _ => {},
    }
}

/// An edit and a deletion need their texts, and say them.
pub proof fn edits_say_their_fields(doc: JsonModel, id_field: Seq<char>)
    ensures
        comment_edit_of(doc, id_field) is Ok <==> is_text(doc, id_field) && is_text(doc, "body"@),
        comment_edit_of(doc, id_field) matches Ok(r) ==> says_text(doc, id_field, Some(r.id))
            && says_text(doc, "body"@, Some(r.body)),
        comment_delete_of(doc, id_field) is Ok <==> is_text(doc, id_field),
        comment_delete_of(doc, id_field) matches Ok(r) ==> says_text(doc, id_field, Some(r.id)),
{
}

/// A lifecycle request needs an id. It carries the response that it gives,
/// but for one that says nothing, which counts as none.
pub proof fn actions_say_their_response(doc: JsonModel, id_field: Seq<char>)
    ensures
        lifecycle_of(doc, id_field) is Ok <==> is_text(doc, id_field) && may_be_text(
            doc,
            "response"@,
        ),
        lifecycle_of(doc, id_field) matches Ok(r) ==> {
            &&& says_text(doc, id_field, Some(r.id))
            &&& given(doc, "response"@) is None ==> r.response is None
            &&& given(doc, "response"@) matches Some(JsonModel::Text(s)) ==> if exists|k: int|
                0 <= k < s.len() && !white_space(#[trigger] s[k]) {
                r.response == Some(s)
            } else {
                r.response is None
            }
        },
{
}

/// Whether options are what a document says: the unified layout, word diff
/// and the dark theme where it says nothing.
pub open spec fn says_options(doc: JsonModel, options: ViewOptionsWire) -> bool {
    &&& match options.mode {
        ViewMode::Unified => given(doc, "mode"@) is None || given(doc, "mode"@) == Some(
            JsonModel::Text("unified"@),
        ),
        ViewMode::Split => given(doc, "mode"@) == Some(JsonModel::Text("split"@)),
    }
    &&& match given(doc, "wordDiff"@) {
        Some(v) => v == JsonModel::Bool(options.word_diff),
        None => options.word_diff,
    }
    &&& match options.theme {
        ThemeWire::Dark => given(doc, "theme"@) is None || given(doc, "theme"@) == Some(
            JsonModel::Text("dark"@),
        ),
        ThemeWire::Light => given(doc, "theme"@) == Some(JsonModel::Text("light"@)),
        ThemeWire::Off => given(doc, "theme"@) == Some(JsonModel::Text("none"@)),
    }
}

/// Options are read where a document says some, and then they are those.
pub proof fn options_say_their_fields(doc: JsonModel, options: ViewOptionsWire)
    ensures
        doc is Object && says_options(doc, options) ==> view_options_of(doc) == Ok::<
            ViewOptionsWire,
            DecodeErrorModel,
        >(options),
        view_options_of(doc) matches Ok(read) ==> says_options(doc, read),
        doc !is Object ==> view_options_of(doc) is Err,
{
    reveal_strlit("unified");
    reveal_strlit("split");
    reveal_strlit("dark");
    reveal_strlit("light");
    reveal_strlit("none");
    assert("unified"@.len() == 7 && "split"@.len() == 5);
    assert("dark"@[0] == 'd' && "light"@[0] == 'l' && "none"@[0] == 'n');
}

/// A request for a view says a path and options, one to open a gap the gap's
/// id as well.
pub proof fn views_say_their_fields(doc: JsonModel)
    ensures
        view_request_of(doc) is Ok <==> is_text(doc, "path"@) && view_options_of(doc) is Ok,
        view_request_of(doc) matches Ok(r) ==> says_text(doc, "path"@, Some(r.path))
            && says_options(doc, r.options),
        expand_request_of(doc) is Ok <==> is_text(doc, "path"@) && is_text(doc, "gapId"@)
            && view_options_of(doc) is Ok,
        expand_request_of(doc) matches Ok(r) ==> says_text(doc, "path"@, Some(r.path))
            && says_text(doc, "gapId"@, Some(r.gap_id)) && says_options(doc, r.options),
{
    if let Ok(options) = view_options_of(doc) {
        options_say_their_fields(doc, options);
    }
}

} // verus!
