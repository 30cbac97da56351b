//! The painter's state, end to end.

use ambidiff_core::anchor::ActiveCell;
use ambidiff_core::commands::commands;
use ambidiff_core::json::Json;
use ambidiff_core::model::{FileDiffKind, FileEntry, FileStatus};
use ambidiff_core::painter::{
    decode_collapsed, decode_load_options, decode_projection_options, empty_review, error_json,
    Painter,
};
use ambidiff_core::projection::FileFilter;
use ambidiff_core::review::Side;
use ambidiff_core::rows::ViewMode;
use ambidiff_core::stack::TargetId;
use ambidiff_core::view::ViewOptions;
use ambidiff_core::wire::{anchor_target_json, list_json, tree_json, Wire};
use serde_json::Value;

const REVIEW: &str = r#"{"ambidiff":1,"review":"w","revision":1,"source":{"kind":"git"},
    "createdAt":"t","updatedAt":"t","comments":[
      {"id":"c-1","rev":1,"status":"open","path":"src/a.rs","side":"new","line":2,
       "snippet":"B","body":"why??","author":"h","createdAt":"t","updatedAt":"t"},
      {"id":"c-2","rev":1,"status":"open","path":"big.js","side":"new","line":9,
       "body":"huge","author":"h","createdAt":"t","updatedAt":"t"}]}"#;

const STACK_REVIEW: &str = r#"{"ambidiff":1,"review":"w","revision":1,
    "source":{"kind":"git","stack":{}},"createdAt":"t","updatedAt":"t","comments":[
      {"id":"c-1","rev":1,"status":"open","path":"src/a.rs","side":"new","line":2,
       "target":{"kind":"branch","name":"auth-2"},"body":"mine","author":"h",
       "createdAt":"t","updatedAt":"t"},
      {"id":"c-2","rev":1,"status":"open","path":"src/a.rs","side":"new","line":2,
       "target":{"kind":"branch","name":"auth-1"},"body":"other pr","author":"h",
       "createdAt":"t","updatedAt":"t"},
      {"id":"c-3","rev":1,"status":"open","path":"src/a.rs","side":"new","line":2,
       "target":{"kind":"branch","name":"auth-0"},"body":"merged away","author":"h",
       "createdAt":"t","updatedAt":"t"},
      {"id":"c-4","rev":1,"status":"open","path":"src/a.rs","side":"new","line":2,
       "body":"legacy","author":"h","createdAt":"t","updatedAt":"t"}]}"#;

const RAW: &str = "@@ -1,2 +1,3 @@\n a\n+B\n c\n";
const OPTS: &str = r#"{"mode":"unified","wordDiff":true,"theme":"none"}"#;

fn value(doc: &Json) -> Value {
    serde_json::from_str(&doc.to_compact()).expect("json")
}

fn entry(path: &str, adds: u64, dels: u64) -> FileEntry {
    FileEntry {
        path: path.into(),
        old_path: None,
        status: FileStatus::Modified,
        adds: Some(adds),
        dels: Some(dels),
    }
}

fn files() -> Vec<FileEntry> {
    vec![
        entry("big.js", 12_000, 20),
        entry("src/a.rs", 1, 0),
        entry("src/quiet.rs", 1, 1),
    ]
}

fn seed() -> Painter {
    let mut painter = Painter::new();
    painter.set_review(REVIEW).expect("review");
    painter.set_files(files());
    painter
}

fn branch(name: &str) -> TargetId {
    TargetId::Branch { name: name.into() }
}

fn comment_ids(painter: &Painter, path: &str) -> Vec<String> {
    let placeholder = empty_review();
    let projection = painter.projection(&placeholder, FileFilter::All);
    let state = painter.state(path).expect("loaded");
    state
        .file_projection(&projection)
        .comments
        .iter()
        .map(|c| c.comment.id.clone())
        .collect()
}

#[test]
fn set_targets_scopes_file_comments_overview_and_counts() {
    let mut painter = Painter::new();
    painter.set_review(STACK_REVIEW).expect("review");
    painter.set_files(files());
    let live = || vec![branch("auth-1"), branch("auth-2"), TargetId::Stack];
    painter.set_targets(live(), Some(branch("auth-2")));
    painter.load_file("src/a.rs", RAW, OPTS).expect("load");
    assert_eq!(
        comment_ids(&painter, "src/a.rs"),
        vec!["c-1", "c-4"],
        "own target and legacy only"
    );
    {
        let placeholder = empty_review();
        let projection = painter.projection(&placeholder, FileFilter::All);
        let overview = value(&list_json(&projection.overview()));
        assert_eq!(overview.as_array().expect("overview").len(), 1);
        assert_eq!(overview[0]["comment"]["id"], "c-3");
        assert_eq!(overview[0]["unattached"], true);
        assert_eq!(overview[0]["wasOn"], "auth-0");
        let snapshot = value(&projection.snapshot(&[]).to_json());
        assert_eq!(snapshot["counts"]["src/a.rs"]["total"], 2);
        assert_eq!(snapshot["selected"]["name"], "auth-2");
        assert_eq!(snapshot["targetCounts"][0]["counts"]["total"], 1);
        assert_eq!(snapshot["targetCounts"][1]["counts"]["total"], 1);
        assert_eq!(snapshot["wasOnComments"], 1);
        assert_eq!(snapshot["untargetedComments"], 1);
    }
    // Selecting the other branch flips which comment is visible.
    painter.set_targets(live(), Some(branch("auth-1")));
    assert_eq!(comment_ids(&painter, "src/a.rs"), vec!["c-2", "c-4"]);
}

#[test]
fn set_files_bumps_the_generation() {
    let mut painter = seed();
    let before = painter.generation();
    assert_eq!(painter.set_files(files()), before + 1);
    assert_eq!(painter.generation(), before + 1);
}

#[test]
fn expand_paints_from_the_cached_view_and_survives_a_same_generation_reload() {
    let mut painter = seed();
    let opts = r#"{"mode":"unified","wordDiff":true,"theme":"none","oldTotalLines":5}"#;
    painter.load_file("src/a.rs", RAW, opts).expect("load");
    let view = value(&painter.state("src/a.rs").expect("loaded").view().to_json());
    let before = view["rows"].as_array().expect("rows").len();
    assert_eq!(view["rows"][before - 1]["type"], "gap");

    let done = painter
        .expand("src/a.rs", "trailing", "a\nB\nc\nd\ne\nf\n")
        .expect("expand");
    let doc = value(&done.to_json());
    assert_eq!(doc["rows"].as_array().expect("rows").len(), 3);
    assert_eq!(doc["at"], before - 1);
    assert_eq!(doc["rows"][0]["isExpansion"], true);
    let rows = |p: &Painter| p.state("src/a.rs").expect("loaded").view().rows.len();
    assert_eq!(rows(&painter), before - 1 + 3);
    assert_eq!(comment_ids(&painter, "src/a.rs"), vec!["c-1"]);

    // Reloading the same raw diff at the same generation keeps the expansion.
    painter.load_file("src/a.rs", RAW, opts).expect("load");
    assert_eq!(rows(&painter), before - 1 + 3);
    assert!(painter
        .pending_expansions("src/a.rs")
        .expect("loaded")
        .is_empty());

    // A new generation drops the content but remembers the wish.
    painter.set_files(files());
    painter.load_file("src/a.rs", RAW, opts).expect("load");
    assert_eq!(rows(&painter), before);
    let pending = painter.pending_expansions("src/a.rs").expect("loaded");
    assert_eq!(pending[0].id, "trailing");
}

#[test]
fn placeholder_views_keep_their_comments_and_serialise_counts_once() {
    let mut painter = seed();
    painter
        .load_placeholder(
            "big.js",
            FileDiffKind::TooLarge {
                adds: 12_000,
                dels: 20,
            },
            OPTS,
        )
        .expect("load");
    let text = painter
        .state("big.js")
        .expect("loaded")
        .view()
        .to_json()
        .to_compact();
    let view: Value = serde_json::from_str(&text).expect("json");
    assert_eq!(view["kind"], "toolarge");
    assert_eq!(view["adds"], 12000);
    assert_eq!(view["dels"], 20);
    assert!(view["rows"].as_array().expect("rows").is_empty());
    assert_eq!(text.matches("\"adds\"").count(), 1, "{text}");

    let placeholder = empty_review();
    let projection = painter.projection(&placeholder, FileFilter::All);
    let state = painter.state("big.js").expect("loaded");
    let doc = value(&state.file_projection(&projection).to_json());
    assert_eq!(doc["comments"][0]["comment"]["id"], "c-2");
    assert_eq!(doc["comments"][0]["anchor"]["row"], Value::Null);
    assert_eq!(doc["comments"][0]["anchor"]["clamped"], true);
}

#[test]
fn projection_filters_the_tree_and_counts_per_path() {
    let painter = seed();
    let names = |filter: FileFilter| -> Vec<String> {
        let placeholder = empty_review();
        painter
            .projection(&placeholder, filter)
            .snapshot(&[])
            .tree
            .iter()
            .filter(|r| !r.is_dir)
            .map(|r| r.name.clone())
            .collect()
    };
    assert_eq!(names(FileFilter::All).len(), 3);
    // Directories sort before files: `src/a.rs` precedes `big.js`.
    assert_eq!(names(FileFilter::Annotated), vec!["a.rs", "big.js"]);
    assert_eq!(names(FileFilter::Unreviewed), vec!["quiet.rs"]);
    let placeholder = empty_review();
    let snapshot = painter
        .projection(&placeholder, FileFilter::All)
        .snapshot(&[]);
    let tree = value(&tree_json(&snapshot.tree, painter.files()));
    assert_eq!(tree[0]["isDir"], true);
    assert_eq!(tree[0].get("entry"), None);
    assert_eq!(tree[1]["entry"]["path"], "src/a.rs");
    assert_eq!(tree[1]["commentsTodo"], 1);
}

#[test]
fn anchor_target_search_and_view_options_follow_the_cached_view() {
    let mut painter = seed();
    painter.load_file("src/a.rs", RAW, OPTS).expect("load");
    // Row 2 is the added line "B" on the new side.
    let target = painter
        .anchor_target("src/a.rs", 2, ActiveCell::Auto)
        .expect("loaded");
    assert_eq!(target, Some((Side::New, 2)));
    assert_eq!(
        anchor_target_json(target).to_compact(),
        r#"{"side":"new","line":2}"#
    );
    let header = painter
        .anchor_target("src/a.rs", 0, ActiveCell::Auto)
        .expect("loaded");
    assert_eq!(header, None, "the hunk header carries no line");
    assert_eq!(anchor_target_json(header).to_compact(), "null");
    let hits = painter.search("src/a.rs", "b").expect("loaded");
    assert_eq!(
        list_json(&hits).to_compact(),
        r#"[{"row":2,"cell":"unified","start":0,"end":1}]"#
    );
    painter.set_view_options(ViewOptions {
        mode: ViewMode::Split,
        word_diff: false,
        highlight: None,
    });
    let view = value(&painter.state("src/a.rs").expect("loaded").view().to_json());
    assert_eq!(view["mode"], "split");
    assert_eq!(view["rows"][1]["type"], "split");
}

#[test]
fn goto_line_resolves_against_the_cached_view() {
    let mut painter = seed();
    painter.load_file("src/a.rs", RAW, OPTS).expect("load");
    let target = painter.goto_line("src/a.rs", 2).expect("loaded");
    assert_eq!(
        target.to_json().to_compact(),
        r#"{"kind":"exact","row":2,"side":"new"}"#
    );
    assert_eq!(
        painter.goto_line("nope.rs", 1),
        Err("\"nope.rs\" not loaded".to_string())
    );
}

#[test]
fn nothing_is_answered_for_a_path_that_is_not_loaded() {
    let mut painter = seed();
    let refusal = "\"x\\\"y\" not loaded".to_string();
    assert_eq!(painter.search("x\"y", "q"), Err(refusal.clone()));
    assert_eq!(painter.pending_expansions("x\"y"), Err(refusal.clone()));
    assert_eq!(
        painter.anchor_target("x\"y", 0, ActiveCell::Left),
        Err(refusal.clone())
    );
    assert!(matches!(painter.state("x\"y"), Err(m) if m == refusal));
    assert!(matches!(painter.expand("x\"y", "trailing", ""), Err(m) if m == refusal));
    assert_eq!(
        error_json(&refusal).to_compact(),
        r#"{"error":"\"x\\\"y\" not loaded"}"#
    );
}

#[test]
fn refused_requests_leave_the_painter_as_it_was() {
    let mut painter = seed();
    painter.load_file("src/a.rs", RAW, OPTS).expect("load");
    let before = painter.state("src/a.rs").expect("loaded").view().clone();
    assert_eq!(
        painter.load_file("src/a.rs", RAW, r#"{"mode":"sideways"}"#),
        Err("field \"mode\" has unknown value \"sideways\"".to_string())
    );
    assert_eq!(
        painter.load_file("src/a.rs", RAW, "not json"),
        Err("field \"\" must be an object".to_string())
    );
    assert!(painter
        .load_file("src/a.rs", "@@ -99999999999 +1 @@\n", OPTS)
        .is_err());
    assert!(painter
        .load_placeholder("src/a.rs", FileDiffKind::Text, "[]")
        .is_err());
    assert_eq!(painter.state("src/a.rs").expect("loaded").view(), &before);
    assert!(painter.set_review("{").is_err());
    assert_eq!(painter.review().expect("kept").review, "w");
    let refused = painter.expand("src/a.rs", "before:9", "x");
    assert!(matches!(refused, Err(m) if m == "no gap \"before:9\" in the current view"));
    assert_eq!(
        painter.state("src/a.rs").expect("loaded").wanted(),
        &vec!["before:9".to_string()],
        "the wish is remembered"
    );
}

#[test]
fn summaries_count_and_warn() {
    let mut painter = Painter::new();
    let summary = painter.set_review(REVIEW).expect("review");
    assert_eq!(
        summary.to_json().to_compact(),
        r#"{"name":"w","revision":1,"counts":{"open":2,"addressed":0,"resolved":0,"reopened":0},"readOnly":false,"warnings":[]}"#
    );
    let summary = painter.set_review(r#"{"ambidiff":9}"#).expect("review");
    assert!(summary.read_only);
    assert!(!summary.warnings.is_empty());
}

#[test]
fn a_line_total_beyond_the_range_counts_as_unknown() {
    let mut painter = seed();
    let opts = r#"{"oldTotalLines":4294967296}"#;
    painter.load_file("src/a.rs", RAW, opts).expect("load");
    let last = |p: &Painter| {
        let view = value(&p.state("src/a.rs").expect("loaded").view().to_json());
        let rows = view["rows"].as_array().expect("rows").clone();
        rows[rows.len() - 1]["type"].clone()
    };
    assert_eq!(last(&painter), "unified");
    painter
        .load_file("src/a.rs", RAW, r#"{"oldTotalLines":3}"#)
        .expect("load");
    assert_eq!(last(&painter), "gap");
}

#[test]
fn the_command_table_goes_over_the_wire() {
    let table = value(&list_json(&commands()));
    let rows = table.as_array().expect("table");
    assert_eq!(rows.len(), 35);
    assert_eq!(rows[0]["id"], "ambidiff.nav.cursorDown");
    assert_eq!(rows[0]["tui"][1], "Down");
    assert!(rows[34]["nvim"].as_array().expect("chords").is_empty());
}

#[test]
fn projection_requests_take_their_defaults() {
    let none: Vec<String> = Vec::new();
    assert_eq!(
        decode_projection_options(r#"{"filter":"annotated","collapsed":["src","doc"]}"#),
        (
            FileFilter::Annotated,
            vec!["src".to_string(), "doc".to_string()]
        )
    );
    assert_eq!(
        decode_projection_options(r#"{"filter":{"unreviewed":null}}"#),
        (FileFilter::Unreviewed, none.clone())
    );
    for text in [
        "",
        "[]",
        "{}",
        r#"{"filter":"some","collapsed":[1]}"#,
        r#"{"filter":{"all":1},"collapsed":"src"}"#,
    ] {
        assert_eq!(
            decode_projection_options(text),
            (FileFilter::All, none.clone()),
            "{text}"
        );
    }
    assert_eq!(decode_collapsed(r#"["src"]"#), vec!["src".to_string()]);
    assert_eq!(decode_collapsed("{}"), none);
    assert_eq!(decode_collapsed(r#"["src", 1]"#), none);
}

#[test]
fn load_options_read_the_line_total() {
    let (options, total) =
        decode_load_options(r#"{"mode":"split","oldTotalLines":7}"#).expect("options");
    assert_eq!(options.mode, ViewMode::Split);
    assert_eq!(total, Some(7));
    let (_, total) = decode_load_options(r#"{"oldTotalLines":-7}"#).expect("options");
    assert_eq!(total, None);
}
