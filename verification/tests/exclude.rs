//! The exclude file.

use ambidiff_core::exclude::{excluded_content, trim_bytes};

const ALL: &[u8] =
    b".ambidiff.json\n.ambidiff.json.lock\n.ambidiff.json.guard\n.ambidiff.json.tmp.*\n";

#[test]
fn an_empty_file_gets_every_line() {
    assert_eq!(excluded_content(b""), Some(ALL.to_vec()));
}

#[test]
fn completing_twice_changes_nothing() {
    for start in [
        &b""[..],
        b"# mine\n*.log",
        b"\xff\xfe\n",
        b"  .ambidiff.json.lock \r\n",
        b".ambidiff.json",
    ] {
        let once = excluded_content(start).expect("something is missing");
        assert!(once.starts_with(start), "{start:?}");
        assert_eq!(excluded_content(&once), None, "{start:?}");
    }
}

#[test]
fn an_open_last_line_is_closed_first() {
    let out = excluded_content(b"*.log").expect("missing");
    assert_eq!(out, [&b"*.log\n"[..], ALL].concat());
}

#[test]
fn only_missing_lines_are_added_in_order() {
    let out = excluded_content(b".ambidiff.json.guard\n.ambidiff.json\n").expect("missing");
    assert_eq!(
        out,
        b".ambidiff.json.guard\n.ambidiff.json\n.ambidiff.json.lock\n.ambidiff.json.tmp.*\n"
    );
}

#[test]
fn whitespace_inside_a_line_is_kept() {
    assert_eq!(trim_bytes(b"\x0c a b\r"), b"a b");
    assert_eq!(trim_bytes(b"\x0ba"), b"\x0ba");
}
