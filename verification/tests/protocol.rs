//! Request payloads.

use ambidiff_core::json::Json;
use ambidiff_core::protocol::{
    decode_comment_add, decode_comment_delete, decode_comment_edit, decode_expand,
    decode_lifecycle, decode_view, decode_view_options, DecodeError, ThemeWire, ViewOptionsWire,
};
use ambidiff_core::review::Side;
use ambidiff_core::rows::ViewMode;
use ambidiff_core::view::ViewOptions;

/// A document from its text.
fn json(text: &str) -> Json {
    Json::parse(text).expect("json")
}

#[test]
fn omitted_side_on_a_line_comment_defaults_to_new() {
    let req = decode_comment_add(&json(r#"{"path": "a.rs", "line": 3, "body": "b"}"#)).expect("ok");
    assert_eq!(req.side, Some(Side::New));
    assert_eq!(req.line, Some(3));
    assert_eq!(req.end_line, None);
}

#[test]
fn null_is_omitted_and_no_line_means_no_side() {
    let req =
        decode_comment_add(&json(r#"{"path": null, "line": null, "side": null, "body": "b"}"#))
            .expect("ok");
    assert_eq!(req.path, None);
    assert_eq!(req.side, None);
    assert_eq!(req.line, None);
}

#[test]
fn explicit_old_side_is_kept_and_unknown_side_fails() {
    let req = decode_comment_add(&json(r#"{"path": "a", "line": 1, "side": "old", "body": "b"}"#))
        .expect("ok");
    assert_eq!(req.side, Some(Side::Old));
    let err = decode_comment_add(&json(r#"{"path": "a", "line": 1, "side": "left", "body": "b"}"#))
        .expect_err("unknown side");
    assert_eq!(
        err,
        DecodeError::Unknown {
            field: "side".into(),
            value: "left".into()
        }
    );
}

#[test]
fn line_coordinates_are_never_truncated() {
    for (value, kind) in [
        (r#"4294967297"#, "outOfRange"),
        (r#"4294967296"#, "outOfRange"),
        (r#"0"#, "outOfRange"),
        (r#"-1"#, "outOfRange"),
        (r#"2.5"#, "outOfRange"),
        (r#""2""#, "wrongType"),
        (r#"true"#, "wrongType"),
    ] {
        let err = decode_comment_add(&json(&format!(r#"{{"path": "a", "line": {value}, "body": "b"}}"#)))
            .expect_err("rejected");
        assert_eq!(err.kind(), kind, "{value}");
        assert_eq!(err.field(), "line");
    }
    let req = decode_comment_add(&json(r#"{"path": "a", "line": 4294967295, "body": "b"}"#))
        .expect("u32::MAX is representable");
    assert_eq!(req.line, Some(u32::MAX));
}

#[test]
fn end_line_uses_its_wire_spelling_in_errors() {
    let err = decode_comment_add(&json(r#"{"path": "a", "line": 1, "endLine": "x", "body": "b"}"#))
        .expect_err("rejected");
    assert_eq!(err.field(), "endLine");
}

#[test]
fn body_is_required_and_must_be_a_string() {
    assert_eq!(
        decode_comment_add(&json(r#"{"path": "a"}"#)),
        Err(DecodeError::Missing {
            field: "body".into()
        })
    );
    assert_eq!(
        decode_comment_add(&json(r#"{"body": 5}"#)),
        Err(DecodeError::WrongType {
            field: "body".into(),
            expected: "a string"
        })
    );
    assert!(
        decode_comment_add(&json(r#"[1]"#)).is_err(),
        "non-object payload"
    );
}

#[test]
fn lifecycle_id_field_differs_per_transport_and_blank_response_is_omitted() {
    let stdio = decode_lifecycle(&json(r#"{"id": "c-1", "response": "done"}"#), "id").expect("ok");
    assert_eq!(stdio.id, "c-1");
    assert_eq!(stdio.response.as_deref(), Some("done"));
    let web = decode_lifecycle(&json(r#"{"commentId": "c-2", "response": "  "}"#), "commentId")
        .expect("ok");
    assert_eq!(web.id, "c-2");
    assert_eq!(web.response, None);
    assert_eq!(
        decode_lifecycle(&json(r#"{"id": "c-1"}"#), "commentId"),
        Err(DecodeError::Missing {
            field: "commentId".into()
        })
    );
}

#[test]
fn edit_and_delete_decode_their_ids() {
    let edit = decode_comment_edit(&json(r#"{"id": "c-1", "body": "new"}"#), "id").expect("ok");
    assert_eq!((edit.id.as_str(), edit.body.as_str()), ("c-1", "new"));
    let del = decode_comment_delete(&json(r#"{"commentId": "c-9"}"#), "commentId").expect("ok");
    assert_eq!(del.id, "c-9");
    assert!(decode_comment_delete(&json(r#"{"commentId": 9}"#), "commentId").is_err());
}

#[test]
fn view_options_default_and_reject_unknown_values() {
    let opts = decode_view_options(&json(r#"{}"#)).expect("defaults");
    assert_eq!(opts, ViewOptionsWire::default());
    let opts =
        decode_view_options(&json(r#"{"mode": "split", "wordDiff": false, "theme": "none"}"#))
            .expect("ok");
    assert_eq!(opts.mode, ViewMode::Split);
    assert!(!opts.word_diff);
    assert_eq!(opts.theme, ThemeWire::Off);
    assert_eq!(
        decode_view_options(&json(r#"{"mode": "sideways"}"#)),
        Err(DecodeError::Unknown {
            field: "mode".into(),
            value: "sideways".into()
        })
    );
    assert_eq!(
        decode_view_options(&json(r#"{"wordDiff": "yes"}"#)),
        Err(DecodeError::WrongType {
            field: "wordDiff".into(),
            expected: "a boolean"
        })
    );
    assert_eq!(
        decode_view_options(&json(r#"{"theme": "sepia"}"#)),
        Err(DecodeError::Unknown {
            field: "theme".into(),
            value: "sepia".into()
        })
    );
}

#[test]
fn view_and_expand_require_their_paths_and_gap_ids() {
    let view = decode_view(&json(r#"{"path": "a.rs", "theme": "light"}"#)).expect("ok");
    assert_eq!(view.path, "a.rs");
    assert_eq!(view.options.theme, ThemeWire::Light);
    assert_eq!(
        decode_view(&json(r#"{"mode": "split"}"#)),
        Err(DecodeError::Missing {
            field: "path".into()
        })
    );
    let expand = decode_expand(&json(r#"{"path": "a.rs", "gapId": "before:0"}"#)).expect("ok");
    assert_eq!(expand.gap_id, "before:0");
    assert_eq!(expand.options.mode, ViewMode::Unified);
    assert_eq!(
        decode_expand(&json(r#"{"path": "a.rs"}"#)),
        Err(DecodeError::Missing {
            field: "gapId".into()
        })
    );
}

#[test]
fn view_options_round_trip_through_the_core_type() {
    for wire in [
        ViewOptionsWire::default(),
        ViewOptionsWire {
            mode: ViewMode::Split,
            word_diff: false,
            theme: ThemeWire::Off,
        },
        ViewOptionsWire {
            mode: ViewMode::Unified,
            word_diff: true,
            theme: ThemeWire::Light,
        },
    ] {
        let core: ViewOptions = wire.into();
        assert_eq!(ViewOptionsWire::from(core), wire);
    }
    let doc = ViewOptionsWire::default().to_json();
    assert_eq!(
        doc,
        json(r#"{"mode": "unified", "wordDiff": true, "theme": "dark"}"#)
    );
}
