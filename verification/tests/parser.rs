//! The unified diff parser.

use ambidiff_core::model::{DiffLine, FileDiff, FileDiffKind, LineKind};
use ambidiff_core::parser::{parse_file_diff, MAX_LINE_BYTES, ParseError, TRUNCATION_MARKER};

fn kinds(diff: &FileDiff) -> Vec<LineKind> {
    diff.hunks
        .iter()
        .flat_map(|h| h.lines.iter().map(|l| l.kind))
        .collect()
}

#[test]
fn parses_plain_modification() {
    let raw = "diff --git a/f.txt b/f.txt\n\
               index 000..111 100644\n\
               --- a/f.txt\n\
               +++ b/f.txt\n\
               @@ -1,3 +1,3 @@\n \
               one\n\
               -two\n\
               +TWO\n \
               three\n";
    let diff = parse_file_diff(raw).expect("parse");
    assert_eq!(diff.kind, FileDiffKind::Text);
    assert_eq!(diff.hunks.len(), 1);
    let h = &diff.hunks[0];
    assert_eq!(
        (h.old_start, h.old_len, h.new_start, h.new_len),
        (1, 3, 1, 3)
    );
    assert_eq!(
        kinds(&diff),
        vec![
            LineKind::Context,
            LineKind::Remove,
            LineKind::Add,
            LineKind::Context
        ]
    );
    assert_eq!(
        h.lines[1],
        DiffLine {
            old_num: 2,
            new_num: 0,
            kind: LineKind::Remove,
            content: "two".into()
        }
    );
    assert_eq!(
        h.lines[2],
        DiffLine {
            old_num: 0,
            new_num: 2,
            kind: LineKind::Add,
            content: "TWO".into()
        }
    );
    assert_eq!(
        h.lines[3],
        DiffLine {
            old_num: 3,
            new_num: 3,
            kind: LineKind::Context,
            content: "three".into()
        }
    );
}

#[test]
fn parses_hunk_header_function_context() {
    let raw = "@@ -10,2 +10,2 @@ fn main() {\n x\n-y\n+z\n";
    let diff = parse_file_diff(raw).expect("parse");
    assert_eq!(diff.hunks[0].context, "fn main() {");
}

#[test]
fn omitted_hunk_lengths_default_to_one() {
    let raw = "@@ -5 +7 @@\n-a\n+b\n";
    let diff = parse_file_diff(raw).expect("parse");
    let h = &diff.hunks[0];
    assert_eq!(
        (h.old_start, h.old_len, h.new_start, h.new_len),
        (5, 1, 7, 1)
    );
    assert_eq!(h.lines[0].old_num, 5);
    assert_eq!(h.lines[1].new_num, 7);
}

#[test]
fn insertion_only_hunk_at_start() {
    let raw = "@@ -0,0 +1,2 @@\n+a\n+b\n";
    let diff = parse_file_diff(raw).expect("parse");
    let h = &diff.hunks[0];
    assert_eq!((h.old_start, h.old_len), (0, 0));
    assert_eq!(h.lines[0].new_num, 1);
    assert_eq!(h.lines[1].new_num, 2);
}

#[test]
fn new_binary_file_placeholder() {
    let raw = "diff --git a/x.png b/x.png\n\
               new file mode 100644\n\
               index 000..111\n\
               Binary files /dev/null and b/x.png differ\n";
    let diff = parse_file_diff(raw).expect("parse");
    assert_eq!(
        diff.kind,
        FileDiffKind::Binary {
            desc: "(new binary file)".into()
        }
    );
}

#[test]
fn deleted_binary_file_placeholder() {
    let raw = "diff --git a/x.png b/x.png\n\
               deleted file mode 100644\n\
               Binary files a/x.png and /dev/null differ\n";
    let diff = parse_file_diff(raw).expect("parse");
    assert_eq!(
        diff.kind,
        FileDiffKind::Binary {
            desc: "(deleted binary file)".into()
        }
    );
}

#[test]
fn git_binary_patch_is_binary() {
    let raw = "diff --git a/x.bin b/x.bin\nindex 000..111\nGIT binary patch\nliteral 5\n";
    let diff = parse_file_diff(raw).expect("parse");
    assert!(matches!(diff.kind, FileDiffKind::Binary { .. }));
}

#[test]
fn no_newline_markers_set_side_flags() {
    // Removed line then marker: old side lacks newline.
    let raw = "@@ -1 +1 @@\n-old\n\\ No newline at end of file\n+new\n";
    let diff = parse_file_diff(raw).expect("parse");
    assert!(diff.old_missing_newline);
    assert!(!diff.new_missing_newline);

    let raw = "@@ -1 +1 @@\n-old\n+new\n\\ No newline at end of file\n";
    let diff = parse_file_diff(raw).expect("parse");
    assert!(!diff.old_missing_newline);
    assert!(diff.new_missing_newline);

    let raw = "@@ -1,2 +1,2 @@\n-a\n+b\n last\n\\ No newline at end of file\n";
    let diff = parse_file_diff(raw).expect("parse");
    assert!(diff.old_missing_newline);
    assert!(diff.new_missing_newline);
}

#[test]
fn empty_unprefixed_line_is_empty_context() {
    let raw = "@@ -1,3 +1,3 @@\n a\n\n b\n";
    let diff = parse_file_diff(raw).expect("parse");
    let h = &diff.hunks[0];
    assert_eq!(h.lines[1].kind, LineKind::Context);
    assert_eq!(h.lines[1].content, "");
    assert_eq!(h.lines[1].old_num, 2);
    assert_eq!(h.lines[2].old_num, 3);
}

#[test]
fn crlf_content_keeps_carriage_return() {
    let raw = "@@ -1 +1 @@\n-a\r\n+b\r\n";
    let diff = parse_file_diff(raw).expect("parse");
    assert_eq!(diff.hunks[0].lines[0].content, "a\r");
    assert_eq!(diff.hunks[0].lines[1].content, "b\r");
}

#[test]
fn unknown_prefix_is_tolerated_as_context() {
    let raw = "@@ -1,2 +1,2 @@\n a\n?weird\n";
    let diff = parse_file_diff(raw).expect("parse");
    assert_eq!(diff.hunks[0].lines[1].kind, LineKind::Context);
    assert_eq!(diff.hunks[0].lines[1].content, "?weird");
}

#[test]
fn second_file_section_stops_the_parse() {
    let raw = "diff --git a/a b/a\n--- a/a\n+++ b/a\n@@ -1 +1 @@\n-x\n+y\n\
               diff --git a/b b/b\n--- a/b\n+++ b/b\n@@ -1 +1 @@\n-p\n+q\n";
    let diff = parse_file_diff(raw).expect("parse");
    assert_eq!(diff.hunks.len(), 1);
    assert_eq!(diff.hunks[0].lines.len(), 2);
}

#[test]
fn multiple_hunks_track_numbers_independently() {
    let raw = "@@ -1,2 +1,2 @@\n a\n-b\n+B\n@@ -10,2 +10,2 @@\n j\n-k\n+K\n";
    let diff = parse_file_diff(raw).expect("parse");
    assert_eq!(diff.hunks.len(), 2);
    assert_eq!(diff.hunks[1].lines[0].old_num, 10);
    assert_eq!(diff.hunks[1].lines[1].old_num, 11);
    assert_eq!(diff.hunks[1].lines[2].new_num, 11);
}

#[test]
fn overlong_line_is_truncated_with_marker() {
    let big = "x".repeat(MAX_LINE_BYTES + 100);
    let raw = format!("@@ -1 +1 @@\n-{big}\n+short\n");
    let diff = parse_file_diff(&raw).expect("parse");
    let content = &diff.hunks[0].lines[0].content;
    assert!(content.ends_with(TRUNCATION_MARKER));
    assert_eq!(content.len(), MAX_LINE_BYTES + TRUNCATION_MARKER.len());
}

#[test]
fn truncation_respects_char_boundaries() {
    // A multi-byte char straddling the cap must not split.
    let mut big = "y".repeat(MAX_LINE_BYTES - 1);
    big.push('\u{1F600}'); // 4 bytes, crosses the boundary
    let raw = format!("@@ -1 +1 @@\n-{big}\n");
    let diff = parse_file_diff(&raw).expect("parse");
    assert!(diff.hunks[0].lines[0].content.ends_with(TRUNCATION_MARKER));
}

#[test]
fn overflowing_hunk_number_is_typed_error() {
    let raw = "@@ -99999999999999999999,1 +1,1 @@\n x\n";
    let err = parse_file_diff(raw).expect_err("overflow must error");
    assert!(matches!(err, ParseError::HunkHeader { .. }));
}

#[test]
fn header_at_the_extent_limit_is_accepted() {
    // start + len == 2^32 exactly: at the boundary, not over it.
    let raw = "@@ -4294967295,0 +1,1 @@\n+a\n";
    let diff = parse_file_diff(raw).expect("boundary extent accepted");
    assert_eq!(diff.hunks[0].old_start, u32::MAX);
}

#[test]
fn header_extent_beyond_u32_range_is_a_typed_error() {
    let raw = "@@ -4294967295,2 +1,1 @@\n x\n";
    let err = parse_file_diff(raw).expect_err("extent overflow must error");
    assert!(matches!(err, ParseError::Extent { .. }));
}

#[test]
fn non_numeric_hunk_shape_is_not_a_header() {
    // Shaped like a header but with junk numbers: skipped as header noise,
    // not an error (never reached body phase).
    let raw = "@@ -a,b +c,d @@\n";
    let diff = parse_file_diff(raw).expect("parse");
    assert!(diff.hunks.is_empty());
}

#[test]
fn empty_input_yields_empty_diff() {
    let diff = parse_file_diff("").expect("parse");
    assert!(diff.hunks.is_empty());
    assert_eq!(diff.kind, FileDiffKind::Text);
}

#[test]
fn header_only_diff_yields_no_hunks() {
    // Mode-change-only diffs have headers but no hunks.
    let raw = "diff --git a/x b/x\nold mode 100644\nnew mode 100755\n";
    let diff = parse_file_diff(raw).expect("parse");
    assert!(diff.hunks.is_empty());
}

#[test]
fn unicode_and_cjk_content_round_trips() {
    let raw = "@@ -1,2 +1,2 @@\n \u{4f60}\u{597d}\n-caf\u{e9} \u{1F600}\n+caf\u{e9}!\n";
    let diff = parse_file_diff(raw).expect("parse");
    assert_eq!(diff.hunks[0].lines[0].content, "\u{4f60}\u{597d}");
    assert_eq!(diff.hunks[0].lines[1].content, "caf\u{e9} \u{1F600}");
}
