//! Intra-line diffs.

use ambidiff_core::worddiff::{
    compute_intra_ranges, pair_lines, tokenize, LinePair, MAX_LINE_LEN_FOR_DIFF, Pair, Range,
    Token, TokenClass,
};

fn ranges(pairs: &[(u32, u32)]) -> Vec<Range> {
    pairs
        .iter()
        .map(|&(start, end)| Range { start, end })
        .collect()
}

fn tokens(line: &str) -> Vec<Token> {
    let chars: Vec<char> = line.chars().collect();
    tokenize(&chars)
}

fn text(token: &Token) -> String {
    token.text.iter().collect()
}

#[test]
fn identical_lines_yield_none() {
    assert_eq!(compute_intra_ranges("same line", "same line"), None);
}

#[test]
fn empty_side_yields_none() {
    assert_eq!(compute_intra_ranges("", "x"), None);
    assert_eq!(compute_intra_ranges("x", ""), None);
}

#[test]
fn single_word_change_is_ranged() {
    let (minus, plus) =
        compute_intra_ranges("let x = foo(1)", "let x = bar(1)").expect("ranges");
    assert_eq!(minus, ranges(&[(8, 11)]));
    assert_eq!(plus, ranges(&[(8, 11)]));
}

#[test]
fn disjoint_lines_fail_similarity_gate() {
    assert_eq!(
        compute_intra_ranges("alpha beta gamma", "delta epsilon zeta"),
        None
    );
}

#[test]
fn whitespace_only_difference_yields_none() {
    // Tokens differ only in whitespace runs; changed ranges exclude
    // whitespace so both sides produce no ranges.
    assert_eq!(compute_intra_ranges("a  b", "a b"), None);
}

#[test]
fn adjacent_changed_tokens_merge_into_one_range() {
    // "foo(x)" -> "bar[y]": word+punct+word+punct all changed, merged.
    let (minus, plus) =
        compute_intra_ranges("keep foo(x) keep", "keep bar[y] keep").expect("ranges");
    assert_eq!(minus, ranges(&[(5, 11)]));
    assert_eq!(plus, ranges(&[(5, 11)]));
}

#[test]
fn whitespace_breaks_range_merging() {
    let (minus, _plus) =
        compute_intra_ranges("keep aa bb keep", "keep xx yy keep").expect("ranges");
    assert_eq!(minus, ranges(&[(5, 7), (8, 10)]));
}

#[test]
fn punctuation_runs_are_single_tokens() {
    let toks = tokens("a ==> b");
    let texts: Vec<String> = toks.iter().map(text).collect();
    assert_eq!(texts, vec!["a", " ", "==>", " ", "b"]);
}

#[test]
fn cjk_and_emoji_are_word_chars_with_byte_offsets() {
    let toks = tokens("\u{4f60}\u{597d} x");
    assert_eq!(text(&toks[0]), "\u{4f60}\u{597d}");
    assert_eq!((toks[0].start, toks[0].end), (0, 6)); // 2 CJK chars = 6 bytes
    // Emoji are neither alphanumeric nor whitespace: punctuation-class run.
    let toks = tokens("\u{1F600}\u{1F601}");
    assert_eq!(toks.len(), 1);
    assert_eq!(toks[0].class, TokenClass::Punct);
    assert_eq!((toks[0].start, toks[0].end), (0, 8));
}

#[test]
fn similarity_gate_on_point() {
    // shorter side 10 non-ws tokens (5 words + 4 spaces? no: spaces are ws).
    // Build: minus has words a b c d e f g h i j (10 non-ws tokens),
    // plus keeps exactly 3 of them: 3/10 = 30% >= threshold -> passes.
    let minus = "a b c d e f g h i j";
    let plus = "a b c X Y Z W V U T";
    let got = compute_intra_ranges(minus, plus);
    assert!(got.is_some(), "30% exactly must pass the threshold");
}

#[test]
fn similarity_gate_off_point() {
    // 2 of 10 kept = 20% < 30% -> gated off.
    let minus = "a b c d e f g h i j";
    let plus = "a b X Y Z W V U T S";
    assert_eq!(compute_intra_ranges(minus, plus), None);
}

#[test]
fn line_length_cap_on_point_allows_diff() {
    // Exactly 500 bytes passes; the shared prefix keeps similarity high.
    let base = "k ".repeat(248); // 496 bytes of alternating word/space
    let minus = format!("{base}aaaa"); // 500 bytes
    let plus = format!("{base}bbbb");
    assert_eq!(minus.len(), MAX_LINE_LEN_FOR_DIFF);
    assert!(compute_intra_ranges(&minus, &plus).is_some());
}

#[test]
fn line_length_cap_off_point_skips_diff() {
    let base = "k ".repeat(248);
    let minus = format!("{base}aaaaa"); // 501 bytes
    let plus = format!("{base}bbbb");
    assert_eq!(minus.len(), MAX_LINE_LEN_FOR_DIFF + 1);
    assert_eq!(compute_intra_ranges(&minus, &plus), None);
}

#[test]
fn equal_runs_pair_one_to_one_in_order() {
    let lines = [
        LinePair {
            content: "r1",
            is_remove: true,
        },
        LinePair {
            content: "r2",
            is_remove: true,
        },
        LinePair {
            content: "a1",
            is_remove: false,
        },
        LinePair {
            content: "a2",
            is_remove: false,
        },
    ];
    let pairs = pair_lines(&lines);
    assert_eq!(
        pairs,
        vec![
            Pair {
                remove_idx: 0,
                add_idx: 2
            },
            Pair {
                remove_idx: 1,
                add_idx: 3
            },
        ]
    );
}

#[test]
fn unequal_runs_pair_greedily_by_prefix_suffix_score() {
    // One remove, two adds: the remove should pair with the similar add,
    // not positionally with the first.
    let lines = [
        LinePair {
            content: "let value = compute();",
            is_remove: true,
        },
        LinePair {
            content: "// brand new comment",
            is_remove: false,
        },
        LinePair {
            content: "let value = compute_v2();",
            is_remove: false,
        },
    ];
    let pairs = pair_lines(&lines);
    assert_eq!(
        pairs,
        vec![Pair {
            remove_idx: 0,
            add_idx: 2
        }]
    );
}

#[test]
fn pairing_score_tie_takes_first_candidate() {
    // Both adds score identically against the remove; the first unused
    // candidate wins (strictly-greater comparison keeps the first).
    let lines = [
        LinePair {
            content: "xxx",
            is_remove: true,
        },
        LinePair {
            content: "yyy",
            is_remove: false,
        },
        LinePair {
            content: "zzz",
            is_remove: false,
        },
    ];
    let pairs = pair_lines(&lines);
    assert_eq!(
        pairs,
        vec![Pair {
            remove_idx: 0,
            add_idx: 1
        }]
    );
}

#[test]
fn no_removes_or_no_adds_pairs_nothing() {
    let only_adds = [
        LinePair {
            content: "a",
            is_remove: false,
        },
        LinePair {
            content: "b",
            is_remove: false,
        },
    ];
    assert!(pair_lines(&only_adds).is_empty());
    let only_removes = [LinePair {
        content: "a",
        is_remove: true,
    }];
    assert!(pair_lines(&only_removes).is_empty());
}

#[test]
fn ranges_are_always_in_bounds_and_ordered() {
    let minus = "fn process(input: &str) -> Result<Output, Error>";
    let plus = "fn process(input: &[u8]) -> Result<Output, ProcessError>";
    let (mr, pr) = compute_intra_ranges(minus, plus).expect("ranges");
    for r in mr {
        assert!(r.start < r.end);
        assert!((r.end as usize) <= minus.len());
        assert!(minus.is_char_boundary(r.start as usize));
        assert!(minus.is_char_boundary(r.end as usize));
    }
    for r in pr {
        assert!(r.start < r.end);
        assert!((r.end as usize) <= plus.len());
    }
}
