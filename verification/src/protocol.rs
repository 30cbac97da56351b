//! Typed request payloads shared by every transport.
//!
//! The stdio engine keeps its `{id, method, params}` envelope and the browser
//! its `{type, id, ...}` envelope; both hand the payload object to the
//! decoders here after envelope parsing, so one set of rules decides what a
//! valid comment, lifecycle, view, or expand request is:
//!
//! - an absent field and an explicit `null` both mean "omitted";
//! - any other value of the wrong JSON type is [`DecodeError::WrongType`];
//! - `line` / `endLine` must be integral and within `1..=u32::MAX`, never
//!   truncated ([`DecodeError::OutOfRange`] otherwise);
//! - `side` must be exactly `old` or `new`; a present unknown side fails with
//!   [`DecodeError::Unknown`], while an omitted side on a line comment
//!   defaults to `new` (the documented rule for added and context lines);
//! - view options default to the unified layout, word diff on, dark theme.

use vstd::prelude::*;

use crate::highlight::ThemeChoice;
use crate::json::{
    distinct_keys, key_index, lemma_key_index, lemma_key_index_is, lemma_mapping, lemma_put_new,
    lemma_without_key, lookup, with_member, without_key, Integer, Json, JsonMap, JsonModel,
    MemberModel, NumberModel,
};
use crate::review::{NewComment, NewCommentModel, Side};
use crate::rows::ViewMode;
use crate::text::{blank, copy_of, debug_text, is_blank, push_text, quoted, same_text};
use crate::view::ViewOptions;

verus! {

/// Why a request payload was rejected. `field` names the offending key in its
/// wire spelling (`endLine`, `gapId`, `commentId`).
#[derive(Debug, Clone, PartialEq, Eq)]
pub enum DecodeError {
    Missing { field: String },
    WrongType { field: String, expected: &'static str },
    OutOfRange { field: String },
    Unknown { field: String, value: String },
}

#[verifier::ext_equal]
pub enum DecodeErrorModel {
    Missing { field: Seq<char> },
    WrongType { field: Seq<char>, expected: Seq<char> },
    OutOfRange { field: Seq<char> },
    Unknown { field: Seq<char>, value: Seq<char> },
}

impl DeepView for DecodeError {
    type V = DecodeErrorModel;

    open spec fn deep_view(&self) -> DecodeErrorModel {
        match *self {
            DecodeError::Missing { field } => DecodeErrorModel::Missing { field: field@ },
            DecodeError::WrongType { field, expected } => DecodeErrorModel::WrongType {
                field: field@,
                expected: expected@,
            },
            DecodeError::OutOfRange { field } => DecodeErrorModel::OutOfRange { field: field@ },
            DecodeError::Unknown { field, value } => DecodeErrorModel::Unknown {
                field: field@,
                value: value@,
            },
        }
    }
}

impl DecodeErrorModel {
    pub open spec fn field_name(self) -> Seq<char> {
        match self {
            DecodeErrorModel::Missing { field } => field,
            DecodeErrorModel::WrongType { field, .. } => field,
            DecodeErrorModel::OutOfRange { field } => field,
            DecodeErrorModel::Unknown { field, .. } => field,
        }
    }

    pub open spec fn kind_name(self) -> Seq<char> {
        match self {
            DecodeErrorModel::Missing { .. } => "missing"@,
            DecodeErrorModel::WrongType { .. } => "wrongType"@,
            DecodeErrorModel::OutOfRange { .. } => "outOfRange"@,
            DecodeErrorModel::Unknown { .. } => "unknown"@,
        }
    }

    /// The error in words.
    pub open spec fn text(self) -> Seq<char> {
        match self {
            DecodeErrorModel::Missing { field } => "missing required field "@ + debug_text(field),
            DecodeErrorModel::WrongType { field, expected } => "field "@ + debug_text(field)
                + " must be "@ + expected,
            DecodeErrorModel::OutOfRange { field } => "field "@ + debug_text(field)
                + " is out of range (expected an integer in 1..=4294967295)"@,
            DecodeErrorModel::Unknown { field, value } => "field "@ + debug_text(field)
                + " has unknown value "@ + debug_text(value),
        }
    }
}

impl DecodeError {
    /// The offending field in wire spelling.
    pub fn field(&self) -> (r: &str)
        ensures
            r@ == self.deep_view().field_name(),
    {
        match self {
            DecodeError::Missing { field } => field.as_str(),
            DecodeError::WrongType { field, .. } => field.as_str(),
            DecodeError::OutOfRange { field } => field.as_str(),
            DecodeError::Unknown { field, .. } => field.as_str(),
        }
    }

    /// Stable lowerCamel kind for wire error payloads.
    pub fn kind(&self) -> (r: &'static str)
        ensures
            r@ == self.deep_view().kind_name(),
    {
        match self {
            DecodeError::Missing { .. } => "missing",
            DecodeError::WrongType { .. } => "wrongType",
            DecodeError::OutOfRange { .. } => "outOfRange",
            DecodeError::Unknown { .. } => "unknown",
        }
    }

    pub fn message(&self) -> (r: String)
        ensures
            r@ == self.deep_view().text(),
    {
        match self {
            DecodeError::Missing { field } => {
                let mut out: String = copy_of("missing required field ");
                push_text(&mut out, quoted(field.as_str()).as_str());
                out
            },
            DecodeError::WrongType { field, expected } => {
                let mut out: String = copy_of("field ");
                push_text(&mut out, quoted(field.as_str()).as_str());
                push_text(&mut out, " must be ");
                push_text(&mut out, expected);
                out
            },
            DecodeError::OutOfRange { field } => {
                let mut out: String = copy_of("field ");
                push_text(&mut out, quoted(field.as_str()).as_str());
                push_text(&mut out, " is out of range (expected an integer in 1..=4294967295)");
                out
            },
            DecodeError::Unknown { field, value } => {
                let mut out: String = copy_of("field ");
                push_text(&mut out, quoted(field.as_str()).as_str());
                push_text(&mut out, " has unknown value ");
                push_text(&mut out, quoted(value.as_str()).as_str());
                out
            },
        }
    }
}

/// A new comment as requested over the wire; the author is optional here
/// because transports resolve it.
#[derive(Debug, Clone, PartialEq, Eq)]
pub struct CommentAddRequest {
    pub path: Option<String>,
    pub side: Option<Side>,
    pub line: Option<u32>,
    pub end_line: Option<u32>,
    pub body: String,
    pub author: Option<String>,
}

#[verifier::ext_equal]
pub struct CommentAddModel {
    pub path: Option<Seq<char>>,
    pub side: Option<Side>,
    pub line: Option<u32>,
    pub end_line: Option<u32>,
    pub body: Seq<char>,
    pub author: Option<Seq<char>>,
}

impl DeepView for CommentAddRequest {
    type V = CommentAddModel;

    open spec fn deep_view(&self) -> CommentAddModel {
        CommentAddModel {
            path: self.path.deep_view(),
            side: self.side,
            line: self.line,
            end_line: self.end_line,
            body: self.body@,
            author: self.author.deep_view(),
        }
    }
}

impl CommentAddRequest {
    /// Turn the request into the domain input once the author is resolved.
    /// Snippet capture happens later, inside the store lock.
    pub fn into_new_comment(self, author: String) -> (r: NewComment)
        ensures
            r.deep_view() == (NewCommentModel {
                path: self.path.deep_view(),
                side: self.side,
                line: self.line,
                end_line: self.end_line,
                snippet: None,
                body: self.body@,
                author: author@,
            }),
    {
        NewComment {
            path: self.path,
            side: self.side,
            line: self.line,
            end_line: self.end_line,
            snippet: None,
            body: self.body,
            author,
        }
    }
}

#[derive(Debug, Clone, PartialEq, Eq)]
pub struct CommentEditRequest {
    pub id: String,
    pub body: String,
}

#[verifier::ext_equal]
pub struct CommentEditModel {
    pub id: Seq<char>,
    pub body: Seq<char>,
}

impl DeepView for CommentEditRequest {
    type V = CommentEditModel;

    open spec fn deep_view(&self) -> CommentEditModel {
        CommentEditModel { id: self.id@, body: self.body@ }
    }
}

#[derive(Debug, Clone, PartialEq, Eq)]
pub struct CommentDeleteRequest {
    pub id: String,
}

#[verifier::ext_equal]
pub struct CommentDeleteModel {
    pub id: Seq<char>,
}

impl DeepView for CommentDeleteRequest {
    type V = CommentDeleteModel;

    open spec fn deep_view(&self) -> CommentDeleteModel {
        CommentDeleteModel { id: self.id@ }
    }
}

/// Address / resolve / reopen; the action itself comes from the method or
/// message type, not from the payload.
#[derive(Debug, Clone, PartialEq, Eq)]
pub struct LifecycleRequest {
    pub id: String,
    pub response: Option<String>,
}

#[verifier::ext_equal]
pub struct LifecycleModel {
    pub id: Seq<char>,
    pub response: Option<Seq<char>>,
}

impl DeepView for LifecycleRequest {
    type V = LifecycleModel;

    open spec fn deep_view(&self) -> LifecycleModel {
        LifecycleModel { id: self.id@, response: self.response.deep_view() }
    }
}

/// Highlight theme on the wire; `none` disables highlighting.
#[derive(Debug, Clone, Copy, PartialEq, Eq, Structural)]
pub enum ThemeWire {
    Dark,
    Light,
    Off,
}

impl ThemeWire {
    pub open spec fn choice(self) -> Option<ThemeChoice> {
        match self {
            ThemeWire::Dark => Some(ThemeChoice::Dark),
            ThemeWire::Light => Some(ThemeChoice::Light),
            ThemeWire::Off => None,
        }
    }

    pub open spec fn of_choice(choice: Option<ThemeChoice>) -> ThemeWire {
        match choice {
            Some(ThemeChoice::Dark) => ThemeWire::Dark,
            Some(ThemeChoice::Light) => ThemeWire::Light,
            None => ThemeWire::Off,
        }
    }

    pub open spec fn name(self) -> Seq<char> {
        match self {
            ThemeWire::Dark => "dark"@,
            ThemeWire::Light => "light"@,
            ThemeWire::Off => "none"@,
        }
    }

    pub fn highlight(self) -> (r: Option<ThemeChoice>)
        ensures
            r == self.choice(),
    {
        match self {
            ThemeWire::Dark => Some(ThemeChoice::Dark),
            ThemeWire::Light => Some(ThemeChoice::Light),
            ThemeWire::Off => None,
        }
    }

    /// The theme in wire spelling.
    pub fn as_str(self) -> (r: &'static str)
        ensures
            r@ == self.name(),
    {
        match self {
            ThemeWire::Dark => "dark",
            ThemeWire::Light => "light",
            ThemeWire::Off => "none",
        }
    }
}

/// View options as every transport spells them: `{mode, wordDiff, theme}`.
#[derive(Debug, Clone, Copy, PartialEq, Eq, Structural)]
pub struct ViewOptionsWire {
    pub mode: ViewMode,
    pub word_diff: bool,
    pub theme: ThemeWire,
}

pub open spec fn default_options() -> ViewOptionsWire {
    ViewOptionsWire { mode: ViewMode::Unified, word_diff: true, theme: ThemeWire::Dark }
}

impl Default for ViewOptionsWire {
    fn default() -> (r: Self)
        ensures
            r == default_options(),
    {
        ViewOptionsWire { mode: ViewMode::Unified, word_diff: true, theme: ThemeWire::Dark }
    }
}

impl From<ViewOptionsWire> for ViewOptions {
    fn from(wire: ViewOptionsWire) -> (r: Self) {
        ViewOptions {
            mode: wire.mode,
            word_diff: wire.word_diff,
            highlight: wire.theme.highlight(),
        }
    }
}

impl vstd::std_specs::convert::FromSpecImpl<ViewOptionsWire> for ViewOptions {
    open spec fn obeys_from_spec() -> bool {
        true
    }

    open spec fn from_spec(wire: ViewOptionsWire) -> ViewOptions {
        ViewOptions { mode: wire.mode, word_diff: wire.word_diff, highlight: wire.theme.choice() }
    }
}

impl From<ViewOptions> for ViewOptionsWire {
    fn from(opts: ViewOptions) -> (r: Self) {
        ViewOptionsWire {
            mode: opts.mode,
            word_diff: opts.word_diff,
            theme: match opts.highlight {
                Some(ThemeChoice::Dark) => ThemeWire::Dark,
                Some(ThemeChoice::Light) => ThemeWire::Light,
                None => ThemeWire::Off,
            },
        }
    }
}

impl vstd::std_specs::convert::FromSpecImpl<ViewOptions> for ViewOptionsWire {
    open spec fn obeys_from_spec() -> bool {
        true
    }

    open spec fn from_spec(opts: ViewOptions) -> ViewOptionsWire {
        ViewOptionsWire {
            mode: opts.mode,
            word_diff: opts.word_diff,
            theme: ThemeWire::of_choice(opts.highlight),
        }
    }
}

#[derive(Debug, Clone, PartialEq, Eq)]
pub struct ViewRequest {
    pub path: String,
    pub options: ViewOptionsWire,
}

#[verifier::ext_equal]
pub struct ViewRequestModel {
    pub path: Seq<char>,
    pub options: ViewOptionsWire,
}

impl DeepView for ViewRequest {
    type V = ViewRequestModel;

    open spec fn deep_view(&self) -> ViewRequestModel {
        ViewRequestModel { path: self.path@, options: self.options }
    }
}

/// Expand one collapsed gap. Carries the full view options so the transport
/// can return the resulting view alongside the spliced rows.
#[derive(Debug, Clone, PartialEq, Eq)]
pub struct ExpandRequest {
    pub path: String,
    pub gap_id: String,
    pub options: ViewOptionsWire,
}

#[verifier::ext_equal]
pub struct ExpandRequestModel {
    pub path: Seq<char>,
    pub gap_id: Seq<char>,
    pub options: ViewOptionsWire,
}

impl DeepView for ExpandRequest {
    type V = ExpandRequestModel;

    open spec fn deep_view(&self) -> ExpandRequestModel {
        ExpandRequestModel { path: self.path@, gap_id: self.gap_id@, options: self.options }
    }
}

// ------------------------------------------------------------------- fields

/// A present, non-null field of an object.
pub open spec fn field_of(doc: JsonModel, name: Seq<char>) -> Option<JsonModel> {
    match doc {
        JsonModel::Object(members) => match lookup(members, name) {
            Some(JsonModel::Null) => None,
            other => other,
        },
        _ => None,
    }
}

pub open spec fn text_field(doc: JsonModel, name: Seq<char>) -> Result<
    Option<Seq<char>>,
    DecodeErrorModel,
> {
    match field_of(doc, name) {
        None => Ok(None),
        Some(JsonModel::Text(s)) => Ok(Some(s)),
        Some(_) => Err(DecodeErrorModel::WrongType { field: name, expected: "a string"@ }),
    }
}

pub open spec fn needed_text(doc: JsonModel, name: Seq<char>) -> Result<
    Seq<char>,
    DecodeErrorModel,
> {
    match text_field(doc, name) {
        Ok(Some(s)) => Ok(s),
        Ok(None) => Err(DecodeErrorModel::Missing { field: name }),
        Err(e) => Err(e),
    }
}

/// A line coordinate: integral, 1-based, and within 32 bits.
pub open spec fn line_field(doc: JsonModel, name: Seq<char>) -> Result<
    Option<u32>,
    DecodeErrorModel,
> {
    match field_of(doc, name) {
        None => Ok(None),
        Some(JsonModel::Number(NumberModel::Unsigned(n))) if 1 <= n <= u32::MAX => Ok(
            Some(n as u32),
        ),
        Some(JsonModel::Number(_)) => Err(DecodeErrorModel::OutOfRange { field: name }),
        Some(_) => Err(DecodeErrorModel::WrongType { field: name, expected: "an integer"@ }),
    }
}

pub open spec fn bool_field(doc: JsonModel, name: Seq<char>) -> Result<
    Option<bool>,
    DecodeErrorModel,
> {
    match field_of(doc, name) {
        None => Ok(None),
        Some(JsonModel::Bool(b)) => Ok(Some(b)),
        Some(_) => Err(DecodeErrorModel::WrongType { field: name, expected: "a boolean"@ }),
    }
}

pub open spec fn side_field(doc: JsonModel, name: Seq<char>) -> Result<
    Option<Side>,
    DecodeErrorModel,
> {
    match text_field(doc, name) {
        Err(e) => Err(e),
        Ok(None) => Ok(None),
        Ok(Some(s)) => if s == "old"@ {
            Ok(Some(Side::Old))
        } else if s == "new"@ {
            Ok(Some(Side::New))
        } else {
            Err(DecodeErrorModel::Unknown { field: name, value: s })
        },
    }
}

fn check_object(v: &Json) -> (r: Result<(), DecodeError>)
    ensures
        r is Ok <==> v.model() is Object,
        r matches Err(e) ==> e.deep_view() == not_an_object(),
{
    match v {
        Json::Object(_) => Ok(()),
        _ => {
            let e = DecodeError::WrongType { field: String::new(), expected: "an object" };
            assert(e.deep_view() =~= not_an_object());
            Err(e)
        },
    }
}

/// What a payload that is no object is refused with.
pub open spec fn not_an_object() -> DecodeErrorModel {
    DecodeErrorModel::WrongType { field: Seq::empty(), expected: "an object"@ }
}

fn present<'a>(v: &'a Json, field: &str) -> (r: Option<&'a Json>)
    ensures
        match field_of(v.model(), field@) {
            Some(value) => r matches Some(x) && x.model() == value,
            None => r is None,
        },
{
    match v.get(field) {
        None => None,
        Some(Json::Null) => None,
        Some(other) => Some(other),
    }
}

fn opt_str(v: &Json, field: &str) -> (r: Result<Option<String>, DecodeError>)
    ensures
        match text_field(v.model(), field@) {
            Ok(s) => r matches Ok(x) && x.deep_view() == s,
            Err(e) => r matches Err(x) && x.deep_view() == e,
        },
{
    match present(v, field) {
        None => Ok(None),
        Some(Json::Text(s)) => Ok(Some(copy_of(s.as_str()))),
        Some(_) => Err(DecodeError::WrongType { field: copy_of(field), expected: "a string" }),
    }
}

fn req_str(v: &Json, field: &str) -> (r: Result<String, DecodeError>)
    ensures
        match needed_text(v.model(), field@) {
            Ok(s) => r matches Ok(x) && x@ == s,
            Err(e) => r matches Err(x) && x.deep_view() == e,
        },
{
    match opt_str(v, field) {
        Ok(Some(s)) => Ok(s),
        Ok(None) => Err(DecodeError::Missing { field: copy_of(field) }),
        Err(e) => Err(e),
    }
}

fn opt_line(v: &Json, field: &str) -> (r: Result<Option<u32>, DecodeError>)
    ensures
        match line_field(v.model(), field@) {
            Ok(n) => r matches Ok(x) && x == n,
            Err(e) => r matches Err(x) && x.deep_view() == e,
        },
{
    let raw: &Json = match present(v, field) {
        None => {
            return Ok(None);
        },
        Some(raw) => raw,
    };
    match raw {
        Json::Number(n) => match n.integer() {
            Integer::Unsigned(value) if 1 <= value && value <= u32::MAX as u64 => Ok(
                Some(value as u32),
            ),
            _ => Err(DecodeError::OutOfRange { field: copy_of(field) }),
        },
        _ => Err(DecodeError::WrongType { field: copy_of(field), expected: "an integer" }),
    }
}

fn opt_bool(v: &Json, field: &str) -> (r: Result<Option<bool>, DecodeError>)
    ensures
        match bool_field(v.model(), field@) {
            Ok(b) => r matches Ok(x) && x == b,
            Err(e) => r matches Err(x) && x.deep_view() == e,
        },
{
    match present(v, field) {
        None => Ok(None),
        Some(Json::Bool(b)) => Ok(Some(*b)),
        Some(_) => Err(DecodeError::WrongType { field: copy_of(field), expected: "a boolean" }),
    }
}

fn opt_side(v: &Json, field: &str) -> (r: Result<Option<Side>, DecodeError>)
    ensures
        match side_field(v.model(), field@) {
            Ok(side) => r matches Ok(x) && x == side,
            Err(e) => r matches Err(x) && x.deep_view() == e,
        },
{
    match opt_str(v, field) {
        Err(e) => Err(e),
        Ok(None) => Ok(None),
        Ok(Some(s)) => if same_text(s.as_str(), "old") {
            Ok(Some(Side::Old))
        } else if same_text(s.as_str(), "new") {
            Ok(Some(Side::New))
        } else {
            Err(DecodeError::Unknown { field: copy_of(field), value: s })
        },
    }
}

// ----------------------------------------------------------------- decoders

/// What a `comment.add` payload asks for. A line comment without a side lands
/// on the new side; without a line there is nothing to default.
pub open spec fn comment_add_of(doc: JsonModel) -> Result<CommentAddModel, DecodeErrorModel> {
    if !(doc is Object) {
        Err(not_an_object())
    } else {
        match (text_field(doc, "path"@), line_field(doc, "line"@), line_field(doc, "endLine"@)) {
            (Err(e), _, _) => Err(e),
            (_, Err(e), _) => Err(e),
            (_, _, Err(e)) => Err(e),
            (Ok(path), Ok(line), Ok(end_line)) => match (
                side_field(doc, "side"@),
                needed_text(doc, "body"@),
                text_field(doc, "author"@),
            ) {
                (Err(e), _, _) => Err(e),
                (_, Err(e), _) => Err(e),
                (_, _, Err(e)) => Err(e),
                (Ok(side), Ok(body), Ok(author)) => Ok(
                    CommentAddModel {
                        path,
                        side: if side is None && line is Some {
                            Some(Side::New)
                        } else {
                            side
                        },
                        line,
                        end_line,
                        body,
                        author,
                    },
                ),
            },
        }
    }
}

/// Decode a `comment.add` payload. Field spelling is identical on stdio and in
/// the browser (`path`, `side`, `line`, `endLine`, `body`, `author`).
pub fn decode_comment_add(v: &Json) -> (r: Result<CommentAddRequest, DecodeError>)
    ensures
        match comment_add_of(v.model()) {
            Ok(m) => r matches Ok(x) && x.deep_view() == m,
            Err(e) => r matches Err(x) && x.deep_view() == e,
        },
{
    check_object(v)?;
    let path: Option<String> = opt_str(v, "path")?;
    let line: Option<u32> = opt_line(v, "line")?;
    let end_line: Option<u32> = opt_line(v, "endLine")?;
    let explicit_side: Option<Side> = opt_side(v, "side")?;
    let side: Option<Side> = if explicit_side.is_none() && line.is_some() {
        Some(Side::New)
    } else {
        explicit_side
    };
    let body: String = req_str(v, "body")?;
    let author: Option<String> = opt_str(v, "author")?;
    Ok(CommentAddRequest { path, side, line, end_line, body, author })
}

/// What a `comment.edit` payload asks for.
pub open spec fn comment_edit_of(doc: JsonModel, id_field: Seq<char>) -> Result<
    CommentEditModel,
    DecodeErrorModel,
> {
    if !(doc is Object) {
        Err(not_an_object())
    } else {
        match (needed_text(doc, id_field), needed_text(doc, "body"@)) {
            (Err(e), _) => Err(e),
            (_, Err(e)) => Err(e),
            (Ok(id), Ok(body)) => Ok(CommentEditModel { id, body }),
        }
    }
}

/// Decode a `comment.edit` payload; `id_field` is `id` (stdio) or `commentId`
/// (browser).
pub fn decode_comment_edit(v: &Json, id_field: &str) -> (r: Result<CommentEditRequest, DecodeError>)
    ensures
        match comment_edit_of(v.model(), id_field@) {
            Ok(m) => r matches Ok(x) && x.deep_view() == m,
            Err(e) => r matches Err(x) && x.deep_view() == e,
        },
{
    check_object(v)?;
    let id: String = req_str(v, id_field)?;
    let body: String = req_str(v, "body")?;
    Ok(CommentEditRequest { id, body })
}

/// What a `comment.delete` payload asks for.
pub open spec fn comment_delete_of(doc: JsonModel, id_field: Seq<char>) -> Result<
    CommentDeleteModel,
    DecodeErrorModel,
> {
    if !(doc is Object) {
        Err(not_an_object())
    } else {
        match needed_text(doc, id_field) {
            Err(e) => Err(e),
            Ok(id) => Ok(CommentDeleteModel { id }),
        }
    }
}

/// Decode a `comment.delete` payload; `id_field` as for edit.
pub fn decode_comment_delete(v: &Json, id_field: &str) -> (r: Result<
    CommentDeleteRequest,
    DecodeError,
>)
    ensures
        match comment_delete_of(v.model(), id_field@) {
            Ok(m) => r matches Ok(x) && x.deep_view() == m,
            Err(e) => r matches Err(x) && x.deep_view() == e,
        },
{
    check_object(v)?;
    let id: String = req_str(v, id_field)?;
    Ok(CommentDeleteRequest { id })
}

/// What an address / resolve / reopen payload asks for. A blank response
/// counts as omitted.
pub open spec fn lifecycle_of(doc: JsonModel, id_field: Seq<char>) -> Result<
    LifecycleModel,
    DecodeErrorModel,
> {
    if !(doc is Object) {
        Err(not_an_object())
    } else {
        match (text_field(doc, "response"@), needed_text(doc, id_field)) {
            (Err(e), _) => Err(e),
            (_, Err(e)) => Err(e),
            (Ok(response), Ok(id)) => Ok(
                LifecycleModel {
                    id,
                    response: match response {
                        Some(s) if !blank(s) => Some(s),
                        _ => None,
                    },
                },
            ),
        }
    }
}

/// Decode an address / resolve / reopen payload; `id_field` as for edit. A
/// present but blank response is treated as omitted (nothing is stored).
pub fn decode_lifecycle(v: &Json, id_field: &str) -> (r: Result<LifecycleRequest, DecodeError>)
    ensures
        match lifecycle_of(v.model(), id_field@) {
            Ok(m) => r matches Ok(x) && x.deep_view() == m,
            Err(e) => r matches Err(x) && x.deep_view() == e,
        },
{
    check_object(v)?;
    let given: Option<String> = opt_str(v, "response")?;
    let id: String = req_str(v, id_field)?;
    let response: Option<String> = match given {
        Some(s) => if is_blank(s.as_str()) {
            None
        } else {
            Some(s)
        },
        None => None,
    };
    Ok(LifecycleRequest { id, response })
}

pub open spec fn mode_field(doc: JsonModel) -> Result<ViewMode, DecodeErrorModel> {
    match text_field(doc, "mode"@) {
        Err(e) => Err(e),
        Ok(None) => Ok(ViewMode::Unified),
        Ok(Some(s)) => if s == "unified"@ {
            Ok(ViewMode::Unified)
        } else if s == "split"@ {
            Ok(ViewMode::Split)
        } else {
            Err(DecodeErrorModel::Unknown { field: "mode"@, value: s })
        },
    }
}

pub open spec fn theme_field(doc: JsonModel) -> Result<ThemeWire, DecodeErrorModel> {
    match text_field(doc, "theme"@) {
        Err(e) => Err(e),
        Ok(None) => Ok(ThemeWire::Dark),
        Ok(Some(s)) => if s == "dark"@ {
            Ok(ThemeWire::Dark)
        } else if s == "light"@ {
            Ok(ThemeWire::Light)
        } else if s == "none"@ {
            Ok(ThemeWire::Off)
        } else {
            Err(DecodeErrorModel::Unknown { field: "theme"@, value: s })
        },
    }
}

/// The view options of a payload, with the documented defaults.
pub open spec fn view_options_of(doc: JsonModel) -> Result<ViewOptionsWire, DecodeErrorModel> {
    if !(doc is Object) {
        Err(not_an_object())
    } else {
        match (mode_field(doc), bool_field(doc, "wordDiff"@), theme_field(doc)) {
            (Err(e), _, _) => Err(e),
            (_, Err(e), _) => Err(e),
            (_, _, Err(e)) => Err(e),
            (Ok(mode), Ok(word_diff), Ok(theme)) => Ok(
                ViewOptionsWire {
                    mode,
                    word_diff: match word_diff {
                        Some(b) => b,
                        None => true,
                    },
                    theme,
                },
            ),
        }
    }
}

fn opt_mode(v: &Json) -> (r: Result<ViewMode, DecodeError>)
    ensures
        match mode_field(v.model()) {
            Ok(m) => r matches Ok(x) && x == m,
            Err(e) => r matches Err(x) && x.deep_view() == e,
        },
{
    match opt_str(v, "mode") {
        Err(e) => Err(e),
        Ok(None) => Ok(ViewMode::Unified),
        Ok(Some(s)) => if same_text(s.as_str(), "unified") {
            Ok(ViewMode::Unified)
        } else if same_text(s.as_str(), "split") {
            Ok(ViewMode::Split)
        } else {
            Err(DecodeError::Unknown { field: copy_of("mode"), value: s })
        },
    }
}

fn opt_theme(v: &Json) -> (r: Result<ThemeWire, DecodeError>)
    ensures
        match theme_field(v.model()) {
            Ok(t) => r matches Ok(x) && x == t,
            Err(e) => r matches Err(x) && x.deep_view() == e,
        },
{
    match opt_str(v, "theme") {
        Err(e) => Err(e),
        Ok(None) => Ok(ThemeWire::Dark),
        Ok(Some(s)) => if same_text(s.as_str(), "dark") {
            Ok(ThemeWire::Dark)
        } else if same_text(s.as_str(), "light") {
            Ok(ThemeWire::Light)
        } else if same_text(s.as_str(), "none") {
            Ok(ThemeWire::Off)
        } else {
            Err(DecodeError::Unknown { field: copy_of("theme"), value: s })
        },
    }
}

/// Decode `{mode?, wordDiff?, theme?}` with the documented defaults.
pub fn decode_view_options(v: &Json) -> (r: Result<ViewOptionsWire, DecodeError>)
    ensures
        match view_options_of(v.model()) {
            Ok(m) => r matches Ok(x) && x == m,
            Err(e) => r matches Err(x) && x.deep_view() == e,
        },
{
    check_object(v)?;
    let mode: ViewMode = opt_mode(v)?;
    let given: Option<bool> = opt_bool(v, "wordDiff")?;
    let word_diff: bool = match given {
        Some(b) => b,
        None => true,
    };
    let theme: ThemeWire = opt_theme(v)?;
    Ok(ViewOptionsWire { mode, word_diff, theme })
}

/// What a `view` payload asks for.
pub open spec fn view_request_of(doc: JsonModel) -> Result<ViewRequestModel, DecodeErrorModel> {
    if !(doc is Object) {
        Err(not_an_object())
    } else {
        match (needed_text(doc, "path"@), view_options_of(doc)) {
            (Err(e), _) => Err(e),
            (_, Err(e)) => Err(e),
            (Ok(path), Ok(options)) => Ok(ViewRequestModel { path, options }),
        }
    }
}

/// Decode a `view` payload: `{path, mode?, wordDiff?, theme?}`.
pub fn decode_view(v: &Json) -> (r: Result<ViewRequest, DecodeError>)
    ensures
        match view_request_of(v.model()) {
            Ok(m) => r matches Ok(x) && x.deep_view() == m,
            Err(e) => r matches Err(x) && x.deep_view() == e,
        },
{
    check_object(v)?;
    let path: String = req_str(v, "path")?;
    let options: ViewOptionsWire = decode_view_options(v)?;
    Ok(ViewRequest { path, options })
}

/// What an `expand` payload asks for.
pub open spec fn expand_request_of(doc: JsonModel) -> Result<ExpandRequestModel, DecodeErrorModel> {
    if !(doc is Object) {
        Err(not_an_object())
    } else {
        match (needed_text(doc, "path"@), needed_text(doc, "gapId"@), view_options_of(doc)) {
            (Err(e), _, _) => Err(e),
            (_, Err(e), _) => Err(e),
            (_, _, Err(e)) => Err(e),
            (Ok(path), Ok(gap_id), Ok(options)) => Ok(
                ExpandRequestModel { path, gap_id, options },
            ),
        }
    }
}

/// Decode an `expand` payload: `{path, gapId, mode?, wordDiff?, theme?}`.
pub fn decode_expand(v: &Json) -> (r: Result<ExpandRequest, DecodeError>)
    ensures
        match expand_request_of(v.model()) {
            Ok(m) => r matches Ok(x) && x.deep_view() == m,
            Err(e) => r matches Err(x) && x.deep_view() == e,
        },
{
    check_object(v)?;
    let path: String = req_str(v, "path")?;
    let gap_id: String = req_str(v, "gapId")?;
    let options: ViewOptionsWire = decode_view_options(v)?;
    Ok(ExpandRequest { path, gap_id, options })
}

// ---------------------------------------------------------------- to the wire

/// A layout in wire spelling.
pub open spec fn mode_name(mode: ViewMode) -> Seq<char> {
    match mode {
        ViewMode::Unified => "unified"@,
        ViewMode::Split => "split"@,
    }
}

/// View options in wire spelling.
pub open spec fn options_members(options: ViewOptionsWire) -> Seq<MemberModel> {
    let with_mode = with_member(
        Seq::empty(),
        "mode"@,
        JsonModel::Text(mode_name(options.mode)),
    );
    let with_words = with_member(with_mode, "wordDiff"@, JsonModel::Bool(options.word_diff));
    with_member(with_words, "theme"@, JsonModel::Text(options.theme.name()))
}

impl ViewOptionsWire {
    /// The options as a transport spells them.
    pub fn to_json(&self) -> (r: Json)
        ensures
            r.model() == JsonModel::Object(options_members(*self)),
    {
        let mode: &str = match self.mode {
            ViewMode::Unified => "unified",
            ViewMode::Split => "split",
        };
        let mut map: JsonMap = JsonMap::new();
        map.insert(copy_of("mode"), Json::Text(copy_of(mode)));
        map.insert(copy_of("wordDiff"), Json::Bool(self.word_diff));
        map.insert(copy_of("theme"), Json::Text(copy_of(self.theme.as_str())));
        Json::Object(map)
    }
}

// --------------------------------------------------------------------- laws

/// View options that went over the wire are read back as they were.
pub proof fn options_read_back(options: ViewOptionsWire)
    ensures
        view_options_of(JsonModel::Object(options_members(options))) == Ok::<
            ViewOptionsWire,
            DecodeErrorModel,
        >(options),
{
    let m0 = Seq::<MemberModel>::empty();
    let mode = JsonModel::Text(mode_name(options.mode));
    let words = JsonModel::Bool(options.word_diff);
    let theme = JsonModel::Text(options.theme.name());
    let m1 = with_member(m0, "mode"@, mode);
    let m2 = with_member(m1, "wordDiff"@, words);
    let m3 = with_member(m2, "theme"@, theme);
    reveal_strlit("mode");
    reveal_strlit("wordDiff");
    reveal_strlit("theme");
    assert("mode"@.len() == 4 && "wordDiff"@.len() == 8 && "theme"@.len() == 5);
    lemma_put_new(m0, "mode"@, mode);
    lemma_put_new(m1, "wordDiff"@, words);
    lemma_put_new(m2, "theme"@, theme);
    lemma_mapping(m3, "mode"@);
    lemma_mapping(m3, "wordDiff"@);
    lemma_mapping(m3, "theme"@);
    reveal_strlit("unified");
    reveal_strlit("split");
    assert("unified"@.len() == 7 && "split"@.len() == 5);
    reveal_strlit("dark");
    reveal_strlit("light");
    reveal_strlit("none");
    assert("dark"@.len() == 4 && "light"@.len() == 5 && "none"@.len() == 4);
    assert("dark"@[0] == 'd' && "none"@[0] == 'n');
}

/// Going from the wire's options to the view's and back, or the other way
/// round, changes nothing.
pub proof fn options_convert_back(wire: ViewOptionsWire, opts: ViewOptions)
    ensures
        <ViewOptionsWire as vstd::std_specs::convert::FromSpec<ViewOptions>>::from_spec(
            <ViewOptions as vstd::std_specs::convert::FromSpec<ViewOptionsWire>>::from_spec(wire),
        ) == wire,
        <ViewOptions as vstd::std_specs::convert::FromSpec<ViewOptionsWire>>::from_spec(
            <ViewOptionsWire as vstd::std_specs::convert::FromSpec<ViewOptions>>::from_spec(opts),
        ) == opts,
{
}

proof fn lemma_null_field(members: Seq<MemberModel>, name: Seq<char>, other: Seq<char>)
    requires
        distinct_keys(members),
        lookup(members, name) == Some(JsonModel::Null),
    ensures
        field_of(JsonModel::Object(without_key(members, name)), other) == field_of(
            JsonModel::Object(members),
            other,
        ),
{
    let at = key_index(members, name);
    let after = without_key(members, name);
    lemma_key_index(members, name);
    lemma_key_index(members, other);
    lemma_without_key(members, name);
    lemma_key_index(after, name);
    lemma_key_index(after, other);
    if other != name {
        let i = key_index(members, other);
        if i < members.len() {
            let j = if i < at {
                i
            } else {
                i - 1
            };
            assert(after[j] == members[i]);
            assert forall|k: int| 0 <= k < j implies (#[trigger] after[k]).key != other by {
                if k < at {
                    assert(after[k] == members[k]);
                } else {
                    assert(after[k] == members[k + 1]);
                }
                assert(members[i].key == other);
            }
            lemma_key_index_is(after, other, j);
        } else {
            assert forall|k: int| 0 <= k < after.len() implies (#[trigger] after[k]).key
                != other by {
                if k < at {
                    assert(after[k] == members[k]);
                } else {
                    assert(after[k] == members[k + 1]);
                }
            }
        }
    }
}

/// A field that is `null` might as well not be there, for every decoder.
pub proof fn null_means_omitted(members: Seq<MemberModel>, name: Seq<char>, id_field: Seq<char>)
    requires
        distinct_keys(members),
        lookup(members, name) == Some(JsonModel::Null),
    ensures
        ({
            let with_null = JsonModel::Object(members);
            let without = JsonModel::Object(without_key(members, name));
            &&& comment_add_of(with_null) == comment_add_of(without)
            &&& comment_edit_of(with_null, id_field) == comment_edit_of(without, id_field)
            &&& comment_delete_of(with_null, id_field) == comment_delete_of(without, id_field)
            &&& lifecycle_of(with_null, id_field) == lifecycle_of(without, id_field)
            &&& view_options_of(with_null) == view_options_of(without)
            &&& view_request_of(with_null) == view_request_of(without)
            &&& expand_request_of(with_null) == expand_request_of(without)
        }),
{
    let with_null = JsonModel::Object(members);
    let without = JsonModel::Object(without_key(members, name));
    assert forall|other: Seq<char>| #[trigger]
        field_of(without, other) == field_of(with_null, other) by {
        lemma_null_field(members, name, other);
    }
}

/// A line number that comes out is the number that was sent: nothing is
/// truncated, and it is at least 1.
pub proof fn lines_are_never_truncated(doc: JsonModel)
    ensures
        comment_add_of(doc) matches Ok(request) ==> {
            &&& (request.line matches Some(n) ==> n >= 1 && field_of(doc, "line"@) == Some(
                JsonModel::Number(NumberModel::Unsigned(n as u64)),
            ))
            &&& (request.end_line matches Some(n) ==> n >= 1 && field_of(doc, "endLine"@) == Some(
                JsonModel::Number(NumberModel::Unsigned(n as u64)),
            ))
            &&& (request.line is Some ==> request.side is Some)
        },
{
}

/// Decode errors of different kinds have different names.
pub proof fn kinds_are_told_apart(a: DecodeErrorModel, b: DecodeErrorModel)
    requires
        a.kind_name() == b.kind_name(),
    ensures
        a is Missing <==> b is Missing,
        a is WrongType <==> b is WrongType,
        a is OutOfRange <==> b is OutOfRange,
        a is Unknown <==> b is Unknown,
{
    reveal_strlit("missing");
    reveal_strlit("wrongType");
    reveal_strlit("outOfRange");
    reveal_strlit("unknown");
    assert("missing"@[0] == 'm' && "wrongType"@[0] == 'w');
    assert("outOfRange"@[0] == 'o' && "unknown"@[0] == 'u');
}

} // verus!
