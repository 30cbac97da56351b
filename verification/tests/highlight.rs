//! Syntax highlighting.

use ambidiff_core::highlight::{
    extension_alias, file_extension, highlight_diff, MAX_HIGHLIGHT_BYTES, Rgb, ThemeChoice,
};
use ambidiff_core::json::Json;
use ambidiff_core::model::LineKind;
use ambidiff_core::parser::parse_file_diff;

#[test]
fn rgb_serde_round_trips_as_hex() {
    let rgb = Rgb(0x12, 0xab, 0xff);
    let json = Json::Text(rgb.to_hex()).to_compact();
    assert_eq!(json, "\"#12abff\"");
    let back = match Json::parse(&json).expect("json") {
        Json::Text(s) => Rgb::parse_hex(&s).expect("color"),
        other => panic!("{other:?}"),
    };
    assert_eq!(back, rgb);
}

#[test]
fn file_extension_extraction() {
    assert_eq!(file_extension("src/main.rs"), "rs");
    assert_eq!(file_extension("a/b/Makefile"), "Makefile");
    assert_eq!(file_extension(".gitignore"), ".gitignore");
    assert_eq!(file_extension("x.test.ts"), "ts");
}

#[test]
fn highlights_rust_diff_on_both_sides() {
    let raw = "@@ -1,3 +1,3 @@\n fn main() {\n-    let x = 1;\n+    let x = 2;\n }\n";
    let diff = parse_file_diff(raw).expect("parse");
    let map = highlight_diff("src/main.rs", &diff, ThemeChoice::Dark);
    // Context line 1 highlighted on both sides; changed line on each side.
    assert!(map.new.contains_key(&1), "context line on new side");
    assert!(map.old.contains_key(&1), "context line on old side");
    assert!(map.old.contains_key(&2), "removed line on old side");
    assert!(map.new.contains_key(&2), "added line on new side");
    // Spans must be in-bounds and ordered.
    for spans in map.new.values() {
        let mut prev_end = 0;
        for s in spans {
            assert!(s.start >= prev_end);
            assert!(s.end > s.start);
            prev_end = s.end;
        }
    }
}

#[test]
fn typescript_falls_back_to_javascript_grammar() {
    let raw = "@@ -1,2 +1,2 @@\n const routes = [];\n-export function f(x: string) {}\n+export function g(x: string) {}\n";
    let diff = parse_file_diff(raw).expect("parse");
    for path in ["a.ts", "a.tsx", "a.mts", "comp.jsx"] {
        let map = highlight_diff(path, &diff, ThemeChoice::Dark);
        assert!(
            !map.new.is_empty(),
            "{path} must highlight via the alias table"
        );
    }
}

#[test]
fn alias_table_entries_all_resolve() {
    let ss = syntect::parsing::SyntaxSet::load_defaults_newlines();
    for from in [
        "ts", "mts", "cts", "tsx", "jsx", "mjs", "cjs", "jsonc", "json5", "vue", "svelte", "astro",
        "kt", "kts",
    ] {
        let alias = extension_alias(from).expect("aliased");
        assert!(
            ss.find_syntax_by_extension(alias).is_some(),
            "alias target {alias:?} for {from:?} is not a bundled syntax"
        );
        assert!(
            ss.find_syntax_by_extension(from).is_none(),
            "{from:?} is bundled now; drop its alias"
        );
    }
}

#[test]
fn shebang_first_line_resolves_extensionless_scripts() {
    let raw = "@@ -1,2 +1,2 @@\n #!/usr/bin/env python3\n-x = 1\n+x = 2\n";
    let diff = parse_file_diff(raw).expect("parse");
    let map = highlight_diff("scripts/run", &diff, ThemeChoice::Dark);
    assert!(!map.new.is_empty(), "shebang sniff must find a grammar");
}

#[test]
fn unknown_language_returns_empty_map() {
    let raw = "@@ -1 +1 @@\n-a\n+b\n";
    let diff = parse_file_diff(raw).expect("parse");
    let map = highlight_diff("noext_unknown", &diff, ThemeChoice::Dark);
    assert!(map.new.is_empty() && map.old.is_empty());
}

#[test]
fn light_and_dark_themes_differ() {
    let raw = "@@ -1 +1 @@\n-let x = 1;\n+let x = 2;\n";
    let diff = parse_file_diff(raw).expect("parse");
    let dark = highlight_diff("a.rs", &diff, ThemeChoice::Dark);
    let light = highlight_diff("a.rs", &diff, ThemeChoice::Light);
    assert_ne!(dark, light);
}

#[test]
fn oversized_pseudo_file_is_rejected_before_reconstruction() {
    // A single context line long enough to blow the budget once counted
    // on both sides (but not on one side alone) must still be rejected;
    // proves the estimate accounts for context lines counting twice.
    let big = "x".repeat(MAX_HIGHLIGHT_BYTES / 2 + 10);
    let raw = format!("@@ -1,2 +1,2 @@\n {big}\n-a\n+b\n");
    let diff = parse_file_diff(&raw).expect("parse");
    let map = highlight_diff("a.rs", &diff, ThemeChoice::Dark);
    assert!(map.new.is_empty() && map.old.is_empty());
}

#[test]
fn binary_diff_gets_no_highlights() {
    let raw = "diff --git a/x.png b/x.png\nBinary files a/x.png and b/x.png differ\n";
    let diff = parse_file_diff(raw).expect("parse");
    let map = highlight_diff("x.png", &diff, ThemeChoice::Dark);
    assert!(map.new.is_empty());
}

#[test]
fn deterministic_across_runs() {
    let raw = "@@ -1,2 +1,2 @@\n import os\n-print(1)\n+print(2)\n";
    let diff = parse_file_diff(raw).expect("parse");
    let a = highlight_diff("x.py", &diff, ThemeChoice::Dark);
    let b = highlight_diff("x.py", &diff, ThemeChoice::Dark);
    assert_eq!(a, b);
}

#[test]
fn bundled_syntaxes_are_told_apart_by_name() {
    let set = syntect::parsing::SyntaxSet::load_defaults_newlines();
    let mut names: Vec<&str> = set.syntaxes().iter().map(|s| s.name.as_str()).collect();
    let count = names.len();
    names.sort_unstable();
    names.dedup();
    assert_eq!(names.len(), count);
    let themes = syntect::highlighting::ThemeSet::load_defaults();
    for name in ["base16-ocean.dark", "InspiredGitHub"] {
        assert!(themes.themes.contains_key(name), "{name}");
    }
}

#[test]
fn aliases_ignore_case_and_know_no_others() {
    assert_eq!(extension_alias("TSX"), Some("js"));
    assert_eq!(extension_alias("Kts"), Some("java"));
    assert_eq!(extension_alias("json5"), Some("json"));
    assert_eq!(extension_alias("astro"), Some("html"));
    assert_eq!(extension_alias("rs"), None);
    assert_eq!(extension_alias(""), None);
}

#[test]
fn highlighting_follows_the_text_line_by_line() {
    // An open comment on the first line changes what the second line is.
    let raw = "@@ -0,0 +1,2 @@\n+/* open\n+fn main() {}\n";
    let open = highlight_diff("a.rs", &parse_file_diff(raw).expect("parse"), ThemeChoice::Dark);
    let raw = "@@ -0,0 +1,2 @@\n+// shut\n+fn main() {}\n";
    let shut = highlight_diff("a.rs", &parse_file_diff(raw).expect("parse"), ThemeChoice::Dark);
    assert_eq!(open.new[&2].len(), 1, "all of it is a comment");
    assert!(shut.new[&2].len() > 1);
    assert_eq!(open.new[&2][0].end, 12);
}

#[test]
fn overlong_lines_are_passed_over() {
    let long = "x".repeat(1999);
    let raw = format!("@@ -0,0 +1,2 @@\n+{long}y\n+{long}\n");
    let map = highlight_diff("a.rs", &parse_file_diff(&raw).expect("parse"), ThemeChoice::Light);
    assert!(!map.new.contains_key(&1), "2001 bytes with its newline");
    assert!(map.new.contains_key(&2), "2000 bytes with its newline");
}

#[test]
fn colors_parse_with_and_without_a_hash() {
    assert_eq!(Rgb::parse_hex("#12aBff"), Some(Rgb(0x12, 0xab, 0xff)));
    assert_eq!(Rgb::parse_hex("12abff"), Some(Rgb(0x12, 0xab, 0xff)));
    for bad in ["", "#", "#12abf", "#12abfff", "##12abf", "#12abfg", "#12abf\u{e9}"] {
        assert_eq!(Rgb::parse_hex(bad), None, "{bad}");
    }
}

#[test]
fn spans_end_within_their_lines() {
    let raw = "@@ -1,4 +1,5 @@\n fn main() {\n-    let x = \"\u{e9}\";\n+    let x = \"\u{4f60}\";\n+    // done\n }\n \n";
    let diff = parse_file_diff(raw).expect("parse");
    let map = highlight_diff("src/main.rs", &diff, ThemeChoice::Light);
    for (spans, old) in [(&map.old, true), (&map.new, false)] {
        assert!(!spans.is_empty());
        for (num, list) in spans {
            let line = diff
                .hunks
                .iter()
                .flat_map(|h| &h.lines)
                .find(|l| match (old, l.kind) {
                    (true, LineKind::Add) | (false, LineKind::Remove) => false,
                    (true, _) => l.old_num == *num,
                    (false, _) => l.new_num == *num,
                })
                .expect("a line of that side");
            for span in list {
                assert!(span.end as usize <= line.content.len());
                assert!(line.content.is_char_boundary(span.end as usize));
            }
        }
    }
}

#[test]
fn bundled_syntaxes_have_names_of_their_own() {
    let set = syntect::parsing::SyntaxSet::load_defaults_newlines();
    let mut names: Vec<&str> = set.syntaxes().iter().map(|s| s.name.as_str()).collect();
    let all = names.len();
    names.sort_unstable();
    names.dedup();
    assert_eq!(names.len(), all);
}
