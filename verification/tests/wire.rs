//! Wire forms.

use ambidiff_core::goto::{LineSide, LineTarget};
use ambidiff_core::highlight::{HlSpan, Rgb};
use ambidiff_core::json::Json;
use ambidiff_core::model::{FileDiffKind, FileEntry, FileStatus};
use ambidiff_core::rows::{Cell, CellKind, GapInfo, Row, ViewMode};
use ambidiff_core::source::{Comparison, Endpoint};
use ambidiff_core::stack::{assemble_stack, ChainCommit, StackInput, TargetId};
use ambidiff_core::view::FileView;
use ambidiff_core::wire::{comparison_from, endpoint_from, target_record_from, Wire};
use ambidiff_core::worddiff::Range;

fn cell() -> Cell {
    Cell {
        kind: CellKind::Remove,
        line: Some(4),
        text: "x \"y\"".into(),
        word_ranges: vec![Range { start: 1, end: 2 }],
        hl: vec![HlSpan {
            start: 0,
            end: 1,
            fg: Some(Rgb(1, 2, 255)),
            bold: true,
            italic: false,
        }],
    }
}

fn padding() -> Cell {
    Cell {
        kind: CellKind::Empty,
        line: None,
        text: String::new(),
        word_ranges: vec![],
        hl: vec![],
    }
}

const CELL: &str = r##"{"kind":"remove","line":4,"text":"x \"y\"","wordRanges":[{"start":1,"end":2}],"hl":[{"start":0,"end":1,"fg":"#0102ff","bold":true}]}"##;

#[test]
fn rows_are_tagged_and_leave_out_what_is_empty() {
    assert_eq!(cell().to_json().to_compact(), CELL);
    assert_eq!(
        padding().to_json().to_compact(),
        r#"{"kind":"empty","text":""}"#
    );
    let header = Row::HunkHeader {
        key: "h:0".into(),
        hunk: 0,
        text: "@@".into(),
    };
    assert_eq!(
        header.to_json().to_compact(),
        r#"{"type":"hunkHeader","key":"h:0","hunk":0,"text":"@@"}"#
    );
    let gap = Row::Gap {
        key: "g:trailing".into(),
        gap: GapInfo {
            id: "trailing".into(),
            count: 2,
            old_range: (3, 4),
            new_range: (5, 6),
        },
    };
    assert_eq!(
        gap.to_json().to_compact(),
        r#"{"type":"gap","key":"g:trailing","gap":{"id":"trailing","count":2,"oldRange":[3,4],"newRange":[5,6]}}"#
    );
    let unified = Row::Unified {
        key: "k".into(),
        hunk: 1,
        old_num: Some(4),
        new_num: None,
        cell: cell(),
        is_expansion: false,
    };
    assert_eq!(
        unified.to_json().to_compact(),
        format!(
            r#"{{"type":"unified","key":"k","hunk":1,"oldNum":4,"newNum":null,"cell":{CELL}}}"#
        )
    );
    let split = Row::Split {
        key: "k".into(),
        hunk: 1,
        left: cell(),
        right: padding(),
        is_expansion: true,
    };
    assert_eq!(
        split.to_json().to_compact(),
        format!(
            r#"{{"type":"split","key":"k","hunk":1,"left":{CELL},"right":{{"kind":"empty","text":""}},"isExpansion":true}}"#
        )
    );
}

#[test]
fn entries_and_views_spell_their_fields() {
    let entry = FileEntry {
        path: "b".into(),
        old_path: Some("a".into()),
        status: FileStatus::Renamed,
        adds: Some(1),
        dels: None,
    };
    assert_eq!(
        entry.to_json().to_compact(),
        r#"{"path":"b","oldPath":"a","status":"renamed","adds":1}"#
    );
    let view = FileView {
        path: "x.png".into(),
        old_path: None,
        status: FileStatus::Added,
        kind: FileDiffKind::Binary {
            desc: "(new binary file)".into(),
        },
        mode: ViewMode::Split,
        adds: 0,
        dels: 0,
        old_missing_newline: false,
        new_missing_newline: true,
        rows: vec![],
    };
    assert_eq!(
        view.to_json().to_compact(),
        r#"{"path":"x.png","status":"added","kind":"binary","desc":"(new binary file)","mode":"split","adds":0,"dels":0,"oldMissingNewline":false,"newMissingNewline":true,"rows":[]}"#
    );
}

#[test]
fn line_targets_are_tagged() {
    let exact = LineTarget::Exact {
        row: 3,
        side: LineSide::Old,
    };
    assert_eq!(
        exact.to_json().to_compact(),
        r#"{"kind":"exact","row":3,"side":"old"}"#
    );
    let in_gap = LineTarget::InGap {
        row: 1,
        gap_id: "before:0".into(),
    };
    assert_eq!(
        in_gap.to_json().to_compact(),
        r#"{"kind":"inGap","row":1,"gap_id":"before:0"}"#
    );
    assert_eq!(
        LineTarget::Nearest { row: None }.to_json().to_compact(),
        r#"{"kind":"nearest","row":null}"#
    );
}

#[test]
fn stacks_read_back_target_by_target() {
    let stack = assemble_stack(StackInput {
        trunk: "main".into(),
        base: "b".into(),
        head: "h".into(),
        chain: vec![
            ChainCommit {
                oid: "x".into(),
                subject: "one".into(),
            },
            ChainCommit {
                oid: "h".into(),
                subject: "two".into(),
            },
        ],
        branches: vec![("x".into(), "pr-1".into()), ("x".into(), "also".into())],
        current_branch: None,
        dirty: true,
    });
    let Json::Object(doc) = stack.to_json() else {
        panic!("an object");
    };
    let Some(Json::Array(targets)) = doc.get("targets") else {
        panic!("targets");
    };
    assert_eq!(targets.len(), stack.targets.len());
    for (doc, target) in targets.iter().zip(&stack.targets) {
        assert_eq!(target_record_from(doc).as_ref(), Some(target));
    }
    assert_eq!(target_record_from(&Json::Null), None);
}

#[test]
fn comparisons_read_back_and_refuse_others() {
    for old in [
        Endpoint::Index,
        Endpoint::Worktree,
        Endpoint::Commit { oid: "a".into() },
        Endpoint::EmptyTree { oid: "e".into() },
    ] {
        assert_eq!(endpoint_from(&old.to_json()), Some(old.clone()));
        let comparison = Comparison {
            old,
            new: Endpoint::Index,
        };
        assert_eq!(comparison_from(&comparison.to_json()), Some(comparison));
    }
    for text in [
        "null",
        r#"{"kind":"commit"}"#,
        r#"{"kind":"tag","oid":"x"}"#,
        r#"{"oid":"x"}"#,
    ] {
        let doc = Json::parse(text).expect("json");
        assert_eq!(endpoint_from(&doc), None, "{text}");
    }
}

#[test]
fn records_are_read_from_arrays_too() {
    let json = |text: &str| Json::parse(text).expect("json");
    let commit = |oid: &str| Endpoint::Commit { oid: oid.into() };
    assert_eq!(endpoint_from(&json(r#"["index"]"#)), Some(Endpoint::Index));
    assert_eq!(endpoint_from(&json(r#"["commit","1"]"#)), Some(commit("1")));
    for text in [
        "[]",
        "[1]",
        r#"["index",1]"#,
        r#"["commit"]"#,
        r#"["commit",1]"#,
        r#"["commit","1","2"]"#,
        r#"["tag","1"]"#,
    ] {
        assert_eq!(endpoint_from(&json(text)), None, "{text}");
    }
    let comparison = Comparison {
        old: commit("1"),
        new: Endpoint::Worktree,
    };
    let pair = r#"[["commit","1"],{"kind":"worktree"}]"#;
    assert_eq!(comparison_from(&json(pair)), Some(comparison.clone()));
    assert_eq!(comparison_from(&json(r#"[["index"]]"#)), None);
    assert_eq!(comparison_from(&json(r#"[["index"],["index"],1]"#)), None);

    let listed = format!(r#"[["head"],"head",null,"1",2,null,["a"],{pair}]"#);
    let target = target_record_from(&json(&listed)).expect("all parts");
    assert_eq!(target.id, TargetId::Head);
    assert_eq!(target.position, None);
    assert_eq!(target.tip, Some("1".into()));
    assert_eq!(target.commit_count, 2);
    assert_eq!(target.aliases, ["a"]);
    assert_eq!(target.comparison, comparison);
    let short = r#"[["head"],"head",null,"1",2,null,["a"]]"#;
    assert_eq!(target_record_from(&json(short)), None);
    let long = format!(r#"[["head"],"head",null,"1",2,null,["a"],{pair},0]"#);
    assert_eq!(target_record_from(&json(&long)), None);
}
