//! What git prints, and what it is asked.

use ambidiff_core::exclude::trim_bytes;
use ambidiff_core::git_output::{
    escape_display, parse_name_status_bytes, parse_numstat_bytes, LineCounter, LineCounts,
};
use ambidiff_core::git_source::endpoint_args;
use ambidiff_core::model::FileStatus;
use ambidiff_core::source::{Comparison, Endpoint, SkipReason};

#[test]
fn parse_name_status_plain_rename_and_non_utf8() {
    let mut out = b"M\0src/a.rs\0R100\0old.rs\0new.rs\0A\0added.txt\0".to_vec();
    out.extend_from_slice(b"A\0bad_");
    out.push(0xFF);
    out.push(b'\0');
    let (entries, skipped) = parse_name_status_bytes(&out);
    assert_eq!(entries.len(), 3);
    assert_eq!(entries[0].status, FileStatus::Modified);
    assert_eq!(entries[0].path, "src/a.rs");
    assert_eq!(entries[1].status, FileStatus::Renamed);
    assert_eq!(entries[1].path, "new.rs");
    assert_eq!(entries[1].old_path.as_deref(), Some("old.rs"));
    assert_eq!(entries[2].status, FileStatus::Added);
    assert_eq!(skipped.len(), 1);
    assert_eq!(skipped[0].reason, SkipReason::NonUtf8);
    assert!(skipped[0].display.contains("bad_"));
    assert!(skipped[0].display.contains("\\xFF"));
}

#[test]
fn parse_numstat_plain_binary_and_rename() {
    let out = b"10\t2\tsrc/a.rs\0-\t-\timg.png\x005\t1\t\0old.rs\0new.rs\0";
    let map = parse_numstat_bytes(out);
    assert_eq!(
        map.get("src/a.rs"),
        Some(LineCounts { adds: Some(10), dels: Some(2) })
    );
    assert_eq!(map.get("img.png"), Some(LineCounts { adds: None, dels: None }));
    assert_eq!(
        map.get("new.rs"),
        Some(LineCounts { adds: Some(5), dels: Some(1) })
    );
}

#[test]
fn line_counter_handles_missing_trailing_newline() {
    let mut c = LineCounter::default();
    assert_eq!(c.total(), 0);
    c.feed(b"a\n");
    assert_eq!(c.total(), 1);
    let mut c2 = LineCounter::default();
    c2.feed(b"a\nb");
    assert_eq!(c2.total(), 2);
}

#[test]
fn escape_display_passes_through_ascii_and_escapes_bad_bytes() {
    assert_eq!(escape_display(b"plain.txt"), "plain.txt");
    let mut bytes = b"caf\xC3\xA9".to_vec(); // valid UTF-8 "café"
    assert_eq!(escape_display(&bytes), "caf\u{e9}");
    bytes = vec![b'a', 0xFF, b'b'];
    assert_eq!(escape_display(&bytes), "a\\xFFb");
}

#[test]
fn endpoint_args_per_comparison_shape() {
    assert!(
        endpoint_args(&Comparison {
            old: Endpoint::Index,
            new: Endpoint::Worktree
        })
        .is_empty()
    );
    assert_eq!(
        endpoint_args(&Comparison {
            old: Endpoint::Commit { oid: "abc".into() },
            new: Endpoint::Worktree
        }),
        vec!["abc".to_string()]
    );
    assert_eq!(
        endpoint_args(&Comparison {
            old: Endpoint::Commit { oid: "abc".into() },
            new: Endpoint::Index
        }),
        vec!["--cached".to_string(), "abc".to_string()]
    );
    assert_eq!(
        endpoint_args(&Comparison {
            old: Endpoint::Commit { oid: "a".into() },
            new: Endpoint::Commit { oid: "b".into() }
        }),
        vec!["a".to_string(), "b".to_string()]
    );
}

#[test]
fn trim_bytes_strips_ascii_whitespace_both_ends() {
    assert_eq!(trim_bytes(b"  a.txt \t"), b"a.txt");
    assert_eq!(trim_bytes(b""), b"");
    assert_eq!(trim_bytes(b"   "), b"");
}
