//! What holds across calls, on a few values each.

use std::collections::HashSet;

use ambidiff_core::commands::{commands, find};
use ambidiff_core::goto::{find_line, LineTarget};
use ambidiff_core::json::Json;
use ambidiff_core::lifecycle::{transition, Action, Actor, Status};
use ambidiff_core::model::{FileDiff, FileDiffKind, FileEntry, FileStatus, LineKind};
use ambidiff_core::parser::parse_file_diff;
use ambidiff_core::projection::{FileCounts, FileFilter, ReviewProjection};
use ambidiff_core::protocol::{
    decode_comment_add, decode_view_options, ThemeWire, ViewOptionsWire,
};
use ambidiff_core::review::{parse_review, to_json, NewComment, ReviewFile, Side, Source};
use ambidiff_core::rows::{build_rows, BuildOptions, CellKind, Row, ViewMode};
use ambidiff_core::sanitize::sanitize_line;
use ambidiff_core::search::search_rows;
use ambidiff_core::stack::{assemble_stack, ChainCommit, StackInput};
use ambidiff_core::text::{decimal, is_blank, split_str, str_lines};
use ambidiff_core::tree::{build_file_tree, build_filtered_file_tree, flatten_tree};
use ambidiff_core::util::{fnv1a64, fnv1a64_from, format_rfc3339_utc};
use ambidiff_core::view::ViewOptions;
use ambidiff_core::view_state::ViewState;
use ambidiff_core::worddiff::{pair_lines, LinePair};

const TWO_HUNKS: &str =
    "@@ -3,2 +3,3 @@ fn a\n x\n-y\n+Y\n+Z\n@@ -20,2 +21,2 @@\n p\n-q\n+Q\n";

fn diff() -> FileDiff {
    let mut diff = parse_file_diff(TWO_HUNKS).expect("parse");
    diff.old_total_lines = Some(30);
    diff
}

fn entry(path: &str) -> FileEntry {
    FileEntry {
        path: path.into(),
        old_path: None,
        status: FileStatus::Modified,
        adds: None,
        dels: None,
    }
}

fn review() -> ReviewFile {
    ReviewFile::new("r".into(), Source::git(None), "t0")
}

fn on_line(path: &str, line: u32) -> NewComment {
    NewComment {
        path: Some(path.into()),
        side: Some(Side::New),
        line: Some(line),
        end_line: None,
        snippet: None,
        body: "b".into(),
        author: "a".into(),
    }
}

#[test]
fn splitting_and_joining_gives_the_text_back() {
    for text in ["", ",", "a,b", ",a,,b,", "\u{4f60},\u{1F600}"] {
        assert_eq!(split_str(text, ',').join(","), text);
    }
    assert_eq!(str_lines("a\nb\n"), vec!["a", "b"]);
    assert_eq!(str_lines("a\n\nb"), vec!["a", "", "b"]);
}

#[test]
fn numbers_are_written_as_they_are_read() {
    for n in [0, 9, 10, 4_294_967_295, u64::MAX] {
        assert_eq!(decimal(n).parse(), Ok(n));
    }
}

#[test]
fn hashing_in_pieces_is_hashing_the_whole() {
    let whole = b"some bytes";
    for cut in 0..=whole.len() {
        assert_eq!(
            fnv1a64_from(fnv1a64(&whole[..cut]), &whole[cut..]),
            fnv1a64(whole)
        );
    }
}

#[test]
fn every_second_is_written_in_one_way() {
    let mut seen = HashSet::new();
    for day in -800..800 {
        for second in [0, 86_399] {
            assert!(seen.insert(format_rfc3339_utc(day * 86_400 + second)));
        }
    }
    assert_eq!(format_rfc3339_utc(-1), "1969-12-31T23:59:59Z");
    assert_eq!(format_rfc3339_utc(951_782_400), "2000-02-29T00:00:00Z");
    assert_eq!(format_rfc3339_utc(4_107_542_400), "2100-03-01T00:00:00Z");
}

#[test]
fn parsed_lines_carry_the_numbers_of_their_sides() {
    for hunk in &diff().hunks {
        let (mut old_num, mut new_num) = (hunk.old_start, hunk.new_start);
        for line in &hunk.lines {
            let (old_here, new_here) = match line.kind {
                LineKind::Context => (old_num, new_num),
                LineKind::Add => (0, new_num),
                LineKind::Remove => (old_num, 0),
            };
            assert_eq!((line.old_num, line.new_num), (old_here, new_here));
            old_num += u32::from(line.kind != LineKind::Add);
            new_num += u32::from(line.kind != LineKind::Remove);
        }
    }
}

#[test]
fn pairs_use_a_line_once() {
    let texts = ["a b", "c d", "a B", "c D", "e"];
    let lines: Vec<LinePair> = texts
        .iter()
        .enumerate()
        .map(|(i, content)| LinePair {
            content,
            is_remove: i < 2,
        })
        .collect();
    let pairs = pair_lines(&lines);
    let removes: HashSet<usize> = pairs.iter().map(|p| p.remove_idx).collect();
    let adds: HashSet<usize> = pairs.iter().map(|p| p.add_idx).collect();
    assert_eq!((removes.len(), adds.len()), (pairs.len(), pairs.len()));
}

#[test]
fn gaps_have_ids_of_their_own_and_are_consistent() {
    for mode in [ViewMode::Unified, ViewMode::Split] {
        let rows = build_rows(
            &diff(),
            BuildOptions {
                mode,
                word_diff: true,
            },
        );
        let mut ids = Vec::new();
        for row in &rows {
            if let Row::Gap { gap, .. } = row {
                assert!(gap.is_consistent());
                ids.push(gap.id.as_str());
            }
        }
        assert_eq!(ids, vec!["before:0", "before:1", "trailing"]);
    }
}

#[test]
fn shown_lines_are_found_where_they_are_shown() {
    let rows = build_rows(&diff(), BuildOptions::default());
    for (at, row) in rows.iter().enumerate() {
        if let Row::Unified {
            new_num: Some(n), ..
        } = row
        {
            assert!(matches!(find_line(&rows, *n), LineTarget::Exact { row, .. } if row == at));
        }
    }
}

#[test]
fn hits_stand_where_they_say() {
    let rows = build_rows(&diff(), BuildOptions::default());
    for hit in search_rows(&rows, "y") {
        let Row::Unified { cell, .. } = &rows[hit.row] else {
            panic!("a line");
        };
        let found = &cell.text[hit.start as usize..hit.end as usize];
        assert_eq!(found.to_lowercase(), "y");
    }
    assert_eq!(search_rows(&rows, "y").len(), 2);
}

#[test]
fn transitions_always_move() {
    let all = [
        Status::Open,
        Status::Addressed,
        Status::Resolved,
        Status::Reopened,
    ];
    for status in all {
        for action in [Action::Address, Action::Resolve, Action::Reopen] {
            if let Ok(next) = transition(status, action, Actor::Human) {
                assert_ne!(next, status);
            }
        }
    }
    let names: HashSet<&str> = all.iter().map(|s| s.as_str()).collect();
    assert_eq!(names.len(), 4);
}

#[test]
fn deleting_undoes_adding() {
    let mut r = review();
    r.try_add_comment(on_line("a", 1), "c-1".into(), "t1")
        .expect("add");
    let before = r.clone();
    r.try_add_comment(on_line("a", 2), "c-2".into(), "t2")
        .expect("add");
    let removed = r.delete_comment("c-2", "t3").expect("delete");
    assert_eq!(removed.line, Some(2));
    assert_eq!(r.comments, before.comments);
    assert_eq!(r.revision, before.revision);
}

#[test]
fn no_record_of_a_review_is_lost() {
    let text = r#"{"ambidiff":1,"review":"r","revision":1,"source":{"kind":"git"},
        "createdAt":"t","updatedAt":"t","quarantined":[{"old":1}],
        "comments":[
          {"id":"c-1","rev":1,"status":"open","path":null,"line":null,"body":"b","author":"a",
           "createdAt":"t","updatedAt":"t"},
          {"id":"c-1","rev":1,"status":"open","path":null,"line":null,"body":"again","author":"a",
           "createdAt":"t","updatedAt":"t"},
          5, null, {"id":"c-2"}]}"#;
    let outcome = parse_review(text).expect("parse");
    assert_eq!(outcome.review.comments.len(), 1);
    assert_eq!(outcome.review.quarantined.len(), 5);
    let again = parse_review(&to_json(&outcome.review).expect("text")).expect("parse");
    assert_eq!(again.review, outcome.review);
}

#[test]
fn safe_lines_come_out_as_they_are() {
    let line = "a\tb \u{e9}\u{4f60}";
    assert_eq!(sanitize_line(line), line);
    let once = sanitize_line("x\x1b[1my\x07\u{9b}z").into_owned();
    assert_eq!(sanitize_line(&once), once);
}

#[test]
fn stacks_tile_from_base_to_head() {
    let commit = |oid: &str| ChainCommit {
        oid: oid.into(),
        subject: "s".into(),
    };
    let stack = assemble_stack(StackInput {
        trunk: "main".into(),
        base: "0".into(),
        head: "4".into(),
        chain: vec![commit("1"), commit("2"), commit("3"), commit("4")],
        branches: vec![("1".into(), "a".into()), ("3".into(), "b".into())],
        current_branch: None,
        dirty: false,
    });
    let spans: Vec<(String, u32)> = stack
        .targets
        .iter()
        .map(|t| (t.comparison.label(), t.commit_count))
        .collect();
    assert_eq!(
        spans,
        vec![
            ("0..1".to_string(), 1),
            ("1..3".to_string(), 2),
            ("3..4".to_string(), 1),
            ("0..4".to_string(), 4),
        ]
    );
    let keys: HashSet<String> = stack.ids().iter().map(|id| id.key()).collect();
    assert_eq!(keys.len(), stack.targets.len());
}

#[test]
fn leaves_point_at_their_files() {
    let files = vec![entry("b/x.rs"), entry("a.rs"), entry("b/c/y.rs")];
    let rows = flatten_tree(&build_file_tree(&files), &[]);
    let leaves: Vec<(usize, &str)> = rows
        .iter()
        .filter_map(|r| r.file_index.map(|i| (i, r.path.as_str())))
        .collect();
    assert_eq!(leaves.len(), files.len());
    for (i, path) in leaves {
        assert_eq!(files[i].path, path);
    }
}

#[test]
fn every_comment_counts_once() {
    let files = vec![entry("a"), entry("b")];
    let mut r = review();
    for (i, path) in ["a", "a", "b", "gone"].iter().enumerate() {
        r.try_add_comment(on_line(path, 1), format!("c-{i}"), "t")
            .expect("add");
    }
    let projection = ReviewProjection::new(&r, &files, FileFilter::All);
    let total = |c: FileCounts| c.total;
    assert_eq!(
        total(projection.counts_for("a"))
            + total(projection.counts_for("b"))
            + total(projection.review_only())
            + total(projection.unattached()),
        r.comments.len()
    );
    assert_eq!(projection.overview().len(), projection.review_level().total);
}

#[test]
fn gaps_open_in_any_order_and_stay_open() {
    let content: String = (1..=31).map(|n| format!("line {n}\n")).collect();
    let open = |ids: &[&str]| {
        let mut state = ViewState::new(entry("f"), diff(), ViewOptions::default(), 1);
        for id in ids {
            let before = state.view().rows.len();
            let done = state.expand(id, &content, 1).expect("closed gaps open");
            assert_eq!(state.view().rows.len(), before - 1 + done.rows.len());
            assert!(state.gap(id).is_none());
        }
        state
    };
    let mut a = open(&["before:0", "trailing", "before:1"]);
    let b = open(&["trailing", "before:1", "before:0"]);
    assert_eq!(a.view(), b.view());
    let opened = a.view().clone();
    a.set_options(ViewOptions {
        mode: ViewMode::Split,
        ..ViewOptions::default()
    });
    for id in ["before:0", "before:1", "trailing"] {
        assert!(a.gap(id).is_none());
    }
    a.set_options(ViewOptions::default());
    assert_eq!(a.view(), &opened);
}

#[test]
fn options_survive_the_wire() {
    for mode in [ViewMode::Unified, ViewMode::Split] {
        for theme in [ThemeWire::Dark, ThemeWire::Light, ThemeWire::Off] {
            let options = ViewOptionsWire {
                mode,
                word_diff: theme == ThemeWire::Dark,
                theme,
            };
            assert_eq!(decode_view_options(&options.to_json()), Ok(options));
        }
    }
}

#[test]
fn null_fields_count_as_omitted() {
    let json = |text: &str| Json::parse(text).expect("json");
    assert_eq!(
        decode_comment_add(&json(r#"{"body":"b","line":null,"author":null,"side":null}"#)),
        decode_comment_add(&json(r#"{"body":"b"}"#))
    );
    assert_eq!(
        decode_comment_add(&json(r#"{"body":null}"#)),
        decode_comment_add(&json("{}"))
    );
}

#[test]
fn listed_commands_are_found_by_id() {
    for command in commands() {
        assert_eq!(find(command.id).expect("listed").name, command.name);
    }
}

#[test]
fn lines_keep_their_sides() {
    for mode in [ViewMode::Unified, ViewMode::Split] {
        let options = BuildOptions {
            mode,
            word_diff: true,
        };
        for row in build_rows(&diff(), options) {
            match row {
                Row::Unified {
                    old_num,
                    new_num,
                    cell,
                    ..
                } => {
                    assert_eq!(old_num.is_none(), cell.kind == CellKind::Add);
                    assert_eq!(new_num.is_none(), cell.kind == CellKind::Remove);
                }
                Row::Split { left, right, .. } => {
                    assert_ne!(left.kind, CellKind::Add);
                    assert_ne!(right.kind, CellKind::Remove);
                    assert_eq!(left.line.is_none(), left.kind == CellKind::Empty);
                    assert_eq!(right.line.is_none(), right.kind == CellKind::Empty);
                }
                _ => {}
            }
        }
    }
}

#[test]
fn filtered_trees_hold_the_files_asked_for_and_no_empty_directory() {
    let files = vec![entry("a/b/x"), entry("a/c/y"), entry("d/z"), entry("w")];
    let rows = flatten_tree(&build_filtered_file_tree(&files, &[1, 3]), &[]);
    let shown: Vec<(&str, bool)> = rows.iter().map(|r| (r.path.as_str(), r.is_dir)).collect();
    assert_eq!(shown, vec![("a/c", true), ("a/c/y", false), ("w", false)]);
}

#[test]
fn lists_and_tallies_agree() {
    let files = vec![entry("a"), entry("b")];
    let mut r = review();
    for (i, path) in ["a", "a", "gone"].iter().enumerate() {
        r.try_add_comment(on_line(path, 1), format!("c-{i}"), "t")
            .expect("add");
    }
    let annotated = ReviewProjection::new(&r, &files, FileFilter::Annotated);
    let unreviewed = ReviewProjection::new(&r, &files, FileFilter::Unreviewed);
    for (i, file) in files.iter().enumerate() {
        assert_eq!(
            annotated.file_comments(&file.path).len(),
            annotated.counts_for(&file.path).total
        );
        assert_ne!(annotated.passes_filter(i), unreviewed.passes_filter(i));
    }
}

#[test]
fn reviews_read_back_down_to_the_depth_that_a_reader_follows() {
    let with_nesting = |depth: usize| {
        format!(
            r#"{{"ambidiff":1,"review":"r","revision":1,"source":{{"kind":"git"}},
            "createdAt":"t","updatedAt":"t","comments":[
              {{"id":"c-1","rev":1,"status":"open","path":null,"line":null,"body":"b",
                "author":"a","createdAt":"t","updatedAt":"t","deep":{}{}}}]}}"#,
            "[".repeat(depth),
            "]".repeat(depth)
        )
    };
    let outcome = parse_review(&with_nesting(124)).expect("parse");
    let again = parse_review(&to_json(&outcome.review).expect("text")).expect("parse");
    assert_eq!(again.review, outcome.review);
    assert!(again.warnings.is_empty());
    assert!(parse_review(&with_nesting(125)).is_err());
}

#[test]
fn shape_keys_collide_only_on_names_with_marks() {
    let stack = |aliases: &[&str]| {
        let mut branches = vec![("1".to_string(), "a".to_string())];
        branches.extend(aliases.iter().map(|n| ("1".to_string(), n.to_string())));
        assemble_stack(StackInput {
            trunk: "main".into(),
            base: "0".into(),
            head: "1".into(),
            chain: vec![ChainCommit {
                oid: "1".into(),
                subject: "s".into(),
            }],
            branches,
            current_branch: None,
            dirty: false,
        })
    };
    assert_ne!(stack(&["b"]).shape_key(), stack(&["b", "c"]).shape_key());
    assert_eq!(stack(&["b,c"]).shape_key(), stack(&["b", "c"]).shape_key());
}

#[test]
fn whitespace_is_what_the_unicode_property_lists() {
    let mut spaces: Vec<u32> = vec![0x20, 0x85, 0xa0, 0x1680, 0x2028, 0x2029, 0x202f, 0x205f, 0x3000];
    spaces.extend(0x09..=0x0d);
    spaces.extend(0x2000..=0x200a);
    for c in '\0'..=char::MAX {
        let mut buf = [0; 4];
        assert_eq!(is_blank(c.encode_utf8(&mut buf)), spaces.contains(&(c as u32)));
    }
}

#[test]
fn counts_of_hunks_put_together_add_up() {
    let a = diff();
    let b = parse_file_diff("@@ -1,1 +1,3 @@\n a\n+b\n+c\n").expect("parse");
    let mut both = a.clone();
    both.hunks.extend(b.hunks.clone());
    both.kind = FileDiffKind::TooLarge { adds: 0, dels: 0 };
    let (x, y) = (a.count_changes(), b.count_changes());
    assert_eq!((x, y), ((3, 2), (2, 0)));
    assert_eq!(both.count_changes(), (x.0 + y.0, x.1 + y.1));
}
