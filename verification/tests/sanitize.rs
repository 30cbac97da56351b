//! Terminal sanitising.

use ambidiff_core::sanitize::sanitize_line;

#[test]
fn plain_text_is_borrowed_unchanged() {
    let s = "normal text with tab\tand CJK \u{4f60}\u{597d} and emoji \u{1F600}";
    match sanitize_line(s) {
        std::borrow::Cow::Borrowed(b) => assert_eq!(b, s),
        std::borrow::Cow::Owned(_) => panic!("expected borrowed fast path"),
    }
}

#[test]
fn ansi_csi_sequences_are_stripped() {
    assert_eq!(sanitize_line("a\x1b[31mred\x1b[0mb"), "aredb");
    assert_eq!(sanitize_line("x\x1b[2Jy"), "xy"); // clear screen
    assert_eq!(sanitize_line("x\x1b[?25lz"), "xz"); // hide cursor
}

#[test]
fn bare_esc_and_non_csi_escapes_are_dropped() {
    assert_eq!(sanitize_line("a\x1bb"), "ab");
    assert_eq!(sanitize_line("a\x1b]0;title\x07b"), "a]0;titleb"); // OSC: ESC dropped, BEL dropped
}

#[test]
fn carriage_return_is_stripped() {
    // CR lets crafted content overwrite earlier text on the line.
    assert_eq!(sanitize_line("safe\rEVIL"), "safeEVIL");
}

#[test]
fn c0_controls_except_tab_are_stripped() {
    assert_eq!(sanitize_line("a\x07b\x08c\x0bd\x0ce"), "abcde");
    assert_eq!(sanitize_line("keep\ttab"), "keep\ttab");
}

#[test]
fn del_and_c1_code_points_are_stripped() {
    assert_eq!(sanitize_line("a\u{7f}b"), "ab");
    // U+009B is the single-char CSI; must not survive.
    assert_eq!(sanitize_line("a\u{9b}31mb"), "a31mb");
}

#[test]
fn unterminated_csi_drops_only_the_esc() {
    assert_eq!(sanitize_line("a\x1b[12;"), "a[12;");
}

#[test]
fn multibyte_chars_survive_around_stripping() {
    assert_eq!(
        sanitize_line("\u{4f60}\x1b[31m\u{597d}"),
        "\u{4f60}\u{597d}"
    );
}
