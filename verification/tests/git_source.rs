//! What git is asked, and what follows from its answers.

use ambidiff_core::git_output::{first_field_after_tab, split_nul, LineCounter, LineCounts};
use ambidiff_core::git_source::{
    answers_true, blob_args, diff_of_raw, diff_prefix_args, entry_args, entry_oid,
    file_diff_args, file_numstat_args, git_failed, index_entry_args, is_untracked, join_args, name_status_args, no_index_args,
    numstat_args, path_args, plan_comparison, preflight, raw_diff_of_patch,
    raw_diff_of_untracked, ref_args, refused_path, resolved_merge_base, resolved_ref,
    run_verdict, runner_args, side_content, side_lines, side_text, sign_untracked,
    signature_args, start_signature, tracked_args, tree_entry_args, untracked_args,
    unread_state, untracked_fits, untracked_verdict, BlobBudget, CappedOutput, ComparisonPlan, Fnv1a, PatchSigner, RawDiff,
    Resolver, RunOutput, SourceLimits, UntrackedCounter, UntrackedState,
};
use ambidiff_core::model::{FileDiffKind, FileStatus};
use ambidiff_core::rootio::{
    failed_dir, failed_final, root_err_to_source, DirStep, FinalStep, OpenFailure, RootEntry,
    RootError,
};
use ambidiff_core::source::{
    Comparison, Endpoint, FileDiffRequest, Listing, PathReason, SourceError,
};
use ambidiff_core::util::fnv1a64;

fn commit(oid: &str) -> Endpoint {
    Endpoint::Commit { oid: oid.into() }
}

fn request(path: &str, old_path: Option<&str>) -> FileDiffRequest {
    FileDiffRequest {
        path: path.into(),
        old_path: old_path.map(str::to_string),
        context: 3,
    }
}

const PREFIX: &str =
    "-c core.quotePath=true diff --no-color --no-ext-diff --no-textconv --relative -M";

#[test]
fn commands_are_spelled_in_full() {
    let range = Comparison {
        old: commit("a"),
        new: commit("b"),
    };
    let plain = Comparison {
        old: Endpoint::Index,
        new: Endpoint::Worktree,
    };
    assert_eq!(join_args(&diff_prefix_args()), PREFIX);
    assert_eq!(
        join_args(&name_status_args(&range)),
        format!("{PREFIX} a b --name-status -z --")
    );
    assert_eq!(
        join_args(&numstat_args(&plain)),
        format!("{PREFIX} --numstat -z --")
    );
    assert_eq!(
        join_args(&file_numstat_args(&plain, &request("x", Some("y")))),
        format!("{PREFIX} --numstat -z -- y x")
    );
    assert_eq!(
        join_args(&file_diff_args(&range, &request("x", Some("x")))),
        format!("{PREFIX} a b -U3 -- x")
    );
    assert_eq!(join_args(&signature_args(&plain)), format!("{PREFIX} --"));
    assert_eq!(join_args(&path_args(&request("-rf", None))), "-- -rf");
    assert_eq!(
        join_args(&untracked_args()),
        "ls-files --others --exclude-standard -z"
    );
    assert_eq!(join_args(&tracked_args("p")), "ls-files -z -- p");
    assert_eq!(
        join_args(&index_entry_args("p")),
        "ls-files -z --stage -- p"
    );
    assert_eq!(join_args(&tree_entry_args("t", "p")), "ls-tree -z t -- p");
    assert_eq!(join_args(&blob_args("o")), "cat-file blob o");
    assert_eq!(
        join_args(&no_index_args(7)),
        "-c core.quotePath=true diff --no-color --no-ext-diff --no-textconv --no-index -U7 -- \
         /dev/null -"
    );
    assert_eq!(
        join_args(&ref_args("main")),
        "rev-parse --verify --quiet --end-of-options main^{commit}"
    );
    assert_eq!(
        join_args(&runner_args(&["status"])),
        "--no-pager --literal-pathspecs status"
    );
}

#[test]
fn bases_are_planned_by_their_shape() {
    let plan = |base: Option<&str>, staged: bool| plan_comparison(base, staged).expect("plan");
    assert_eq!(plan(None, false), ComparisonPlan::Plain);
    assert_eq!(plan(None, true), ComparisonPlan::StagedHead);
    assert_eq!(
        plan(Some("main"), false),
        ComparisonPlan::WorktreeRef {
            spec_text: "main".into()
        }
    );
    assert_eq!(
        plan(Some("main"), true),
        ComparisonPlan::StagedRef {
            spec_text: "main".into()
        }
    );
    assert_eq!(
        plan(Some("a..b"), false),
        ComparisonPlan::Range {
            left: "a".into(),
            right: "b".into()
        }
    );
    assert_eq!(
        plan(Some("..b"), false),
        ComparisonPlan::Range {
            left: "HEAD".into(),
            right: "b".into()
        }
    );
    assert_eq!(
        plan(Some("a..."), false),
        ComparisonPlan::MergeBase {
            left: "a".into(),
            right: "HEAD".into()
        }
    );
    assert_eq!(
        plan(Some("a...b"), false),
        ComparisonPlan::MergeBase {
            left: "a".into(),
            right: "b".into()
        }
    );
    assert_eq!(
        plan_comparison(Some("a..b"), true),
        Err(SourceError::UnsupportedComparison {
            base: "a..b".into(),
            reason: "a staged comparison compares one ref with the index; a range has no index side"
                .into()
        })
    );
}

#[test]
fn plans_become_comparisons() {
    let plan = |base: Option<&str>, staged: bool| plan_comparison(base, staged).expect("plan");
    assert_eq!(
        plan(None, false).comparison(commit("x"), "y").label(),
        "index..worktree"
    );
    assert_eq!(
        plan(None, true)
            .comparison(Endpoint::EmptyTree { oid: "e".into() }, "")
            .label(),
        "empty..index"
    );
    assert_eq!(
        plan(Some("r"), true).comparison(commit("x"), "").label(),
        "x..index"
    );
    assert_eq!(
        plan(Some("r"), false).comparison(commit("x"), "").label(),
        "x..worktree"
    );
    assert_eq!(
        plan(Some("a...b"), false).comparison(commit("base"), "y").label(),
        "base..y"
    );
}

/// Settles a comparison in a repository that knows these commands only.
fn settle(
    base: Option<&str>,
    staged: bool,
    replies: &[(&str, &str)],
) -> (Vec<String>, Result<String, SourceError>) {
    let mut asked = Vec::new();
    let mut resolver = match Resolver::new(base, staged) {
        Ok(resolver) => resolver,
        Err(e) => return (asked, Err(e)),
    };
    while let Some(question) = resolver.question() {
        let command = question.args().join(" ");
        assert_eq!(question.reads_input(), command.starts_with("hash-object"));
        let reply = replies
            .iter()
            .find(|(known, _)| *known == command)
            .map(|(_, out)| out.to_string())
            .ok_or(SourceError::Timeout {
                args: command.clone(),
                seconds: 1,
            });
        asked.push(command);
        if let Err(e) = resolver.answer(reply) {
            return (asked, Err(e));
        }
    }
    let comparison = resolver.comparison().expect("settled").label();
    (asked, Ok(comparison))
}

const REV: &str = "rev-parse --verify --quiet --end-of-options ";

fn rev(name: &str) -> String {
    format!("{REV}{name}^{{commit}}")
}

#[test]
fn comparisons_are_settled_question_by_question() {
    let (a, b) = (rev("a"), rev("b"));
    let known = [
        (a.as_str(), "1\n"),
        (b.as_str(), "2\n"),
        ("merge-base 1 2", " 0\n"),
    ];
    assert_eq!(settle(None, false, &[]), (vec![], Ok("index..worktree".into())));
    assert_eq!(
        settle(Some("a"), false, &known),
        (vec![rev("a")], Ok("1..worktree".into()))
    );
    assert_eq!(
        settle(Some("a"), true, &known),
        (vec![rev("a")], Ok("1..index".into()))
    );
    assert_eq!(
        settle(Some("a..b"), false, &known),
        (vec![rev("a"), rev("b")], Ok("1..2".into()))
    );
    assert_eq!(
        settle(Some("a...b"), false, &known),
        (
            vec![rev("a"), rev("b"), "merge-base 1 2".into()],
            Ok("0..2".into())
        )
    );
}

#[test]
fn an_unborn_head_is_the_empty_tree() {
    let head = rev("HEAD");
    let tree = "hash-object -t tree --stdin";
    assert_eq!(
        settle(None, true, &[(head.as_str(), "9")]),
        (vec![rev("HEAD")], Ok("9..index".into()))
    );
    assert_eq!(
        settle(None, true, &[(tree, "4b825d\n")]),
        (vec![rev("HEAD"), tree.into()], Ok("empty..index".into()))
    );
    assert_eq!(
        settle(None, true, &[]).1,
        Err(SourceError::Timeout {
            args: tree.into(),
            seconds: 1
        })
    );
}

#[test]
fn unknown_refs_and_orphans_are_refused() {
    let (a, b) = (rev("a"), rev("b"));
    assert_eq!(
        settle(Some("a..b"), false, &[(a.as_str(), "1")]),
        (
            vec![rev("a"), rev("b")],
            Err(SourceError::InvalidRef { spec: "b".into() })
        )
    );
    assert_eq!(
        settle(Some("a"), false, &[(a.as_str(), " ")]).1,
        Err(SourceError::InvalidRef { spec: "a".into() })
    );
    assert_eq!(
        settle(Some("a...b"), false, &[(a.as_str(), "1"), (b.as_str(), "2")]).1,
        Err(SourceError::NoMergeBase {
            left: "a".into(),
            right: "b".into()
        })
    );
}

#[test]
fn entries_are_listed_where_the_endpoint_says() {
    let tree = Endpoint::EmptyTree { oid: "e".into() };
    assert_eq!(entry_args(&Endpoint::Worktree, "p"), None);
    assert_eq!(entry_args(&Endpoint::Index, "p"), Some(index_entry_args("p")));
    assert_eq!(entry_args(&commit("1"), "p"), Some(tree_entry_args("1", "p")));
    assert_eq!(entry_args(&tree, "p"), Some(tree_entry_args("e", "p")));
    assert_eq!(
        entry_oid(&Endpoint::Index, b"100644 abc 0\tp\0"),
        Some("abc".into())
    );
    assert_eq!(
        entry_oid(&commit("1"), b"100644 blob abc\tp\0"),
        Some("abc".into())
    );
    assert_eq!(entry_oid(&commit("1"), b""), None);
}

#[test]
fn blobs_are_read_up_to_their_budget() {
    let mut budget = BlobBudget::new(5);
    assert_eq!(budget.take_chunk(b"abc", "1"), Ok(()));
    assert_eq!(budget.take_chunk(b"de", "1"), Ok(()));
    assert_eq!(
        budget.take_chunk(b"f", "1"),
        Err(SourceError::TooLarge {
            context: "read blob 1".into(),
            limit_bytes: 5
        })
    );
}

#[test]
fn lookups_are_trimmed_and_may_fail() {
    assert_eq!(resolved_ref("main", Some(" abc\n")), Ok("abc".into()));
    for output in [None, Some(" \n")] {
        assert_eq!(
            resolved_ref("main", output),
            Err(SourceError::InvalidRef {
                spec: "main".into()
            })
        );
        assert_eq!(
            resolved_merge_base("l", "r", output),
            Err(SourceError::NoMergeBase {
                left: "l".into(),
                right: "r".into()
            })
        );
    }
    assert_eq!(resolved_merge_base("l", "r", Some("abc\n")), Ok("abc".into()));
    assert!(answers_true(true, b"true\n"));
    assert!(!answers_true(false, b"true\n"));
    assert!(!answers_true(true, b"false\n"));
}

#[test]
fn failures_carry_what_git_said() {
    assert_eq!(
        git_failed(&tracked_args("p"), b" fatal: \xff \n"),
        SourceError::GitFailed {
            args: "ls-files -z -- p".into(),
            stderr: "fatal: \u{fffd}".into()
        }
    );
}

#[test]
fn verdicts_put_the_deadline_first() {
    let args = tracked_args("p");
    let failure = SourceError::InvalidRef { spec: "x".into() };
    assert_eq!(
        run_verdict(&args, 10_000, true, Err(failure.clone()), Ok(true), vec![]),
        Err(SourceError::Timeout {
            args: "ls-files -z -- p".into(),
            seconds: 10
        })
    );
    assert_eq!(
        run_verdict(&args, 10_000, false, Err(failure.clone()), Ok(true), vec![]),
        Err(failure.clone())
    );
    assert_eq!(
        run_verdict(&args, 10_000, false, Ok(()), Err(failure.clone()), vec![]),
        Err(failure)
    );
    assert_eq!(
        run_verdict(&args, 10_000, false, Ok(()), Ok(false), vec![1]),
        Ok(RunOutput {
            status_ok: false,
            stderr: vec![1]
        })
    );
}

#[test]
fn listings_merge_counts_and_sort() {
    let mut listing = Listing::of_tracked(
        b"M\0z.rs\0R090\0old.rs\0new.rs\0D\0gone\0T\0link\0",
        b"1\t2\tz.rs\x003\t4\t\0old.rs\0new.rs\0-\t-\tgone\0",
    );
    listing.add_untracked(b"a.txt", Some(9));
    listing.add_untracked(b"\xff", None);
    let listing = listing.sorted();
    let shown: Vec<(&str, Option<u64>, Option<u64>)> = listing
        .entries
        .iter()
        .map(|e| (e.path.as_str(), e.adds, e.dels))
        .collect();
    assert_eq!(
        shown,
        vec![
            ("a.txt", Some(9), Some(0)),
            ("gone", None, None),
            ("link", None, None),
            ("new.rs", Some(3), Some(4)),
            ("z.rs", Some(1), Some(2)),
        ]
    );
    assert_eq!(listing.entries[0].status, FileStatus::Untracked);
    assert_eq!(listing.entries[1].status, FileStatus::Deleted);
    assert_eq!(listing.entries[2].status, FileStatus::Other);
    assert_eq!(listing.entries[3].old_path.as_deref(), Some("old.rs"));
    assert_eq!(listing.skipped.len(), 1);
    assert_eq!(listing.skipped[0].display, "\\xFF");
}

#[test]
fn nul_fields_keep_empty_ones_inside() {
    assert!(split_nul(b"").is_empty());
    assert!(split_nul(b"\0").is_empty());
    assert_eq!(split_nul(b"a\0\0b"), vec![&b"a"[..], b"", b"b"]);
}

#[test]
fn object_records_give_their_words() {
    let staged = b"100644 abc123 0\tsrc/a.rs\0";
    assert_eq!(first_field_after_tab(staged, 1).as_deref(), Some("abc123"));
    let tree = b"100644 blob def456\tsrc/a.rs\0";
    assert_eq!(first_field_after_tab(tree, 2).as_deref(), Some("def456"));
    assert_eq!(first_field_after_tab(tree, 3), None);
    assert_eq!(first_field_after_tab(b"no tab\0", 0), None);
    assert_eq!(first_field_after_tab(b"\xff\tx\0", 0), None);
    assert_eq!(first_field_after_tab(b"", 0), None);
    assert_eq!(
        first_field_after_tab(b"a\tx\0b \xe2\x80\x83c\ty\0", 1).as_deref(),
        Some("c")
    );
}

#[test]
fn preflight_stops_large_diffs_only() {
    let limits = SourceLimits::default();
    let counts = |adds, dels| Some(LineCounts { adds, dels });
    assert_eq!(preflight(counts(Some(10_000), Some(0)), &limits), None);
    assert_eq!(
        preflight(counts(Some(10_000), Some(1)), &limits),
        Some(RawDiff::TooLarge {
            adds: 10_000,
            dels: 1
        })
    );
    assert_eq!(
        preflight(counts(Some(u64::MAX), Some(u64::MAX)), &limits),
        Some(RawDiff::TooLarge {
            adds: u64::MAX,
            dels: u64::MAX
        })
    );
    assert_eq!(preflight(counts(None, None), &limits), None);
    assert_eq!(preflight(None, &limits), None);
}

#[test]
fn patches_become_raw_diffs() {
    let counts = Some(LineCounts {
        adds: Some(5),
        dels: None,
    });
    assert_eq!(
        raw_diff_of_patch(Ok(b"a\xffb".to_vec()), counts, Some(3)),
        Ok(RawDiff::Text {
            raw: "a\u{fffd}b".into(),
            old_total_lines: Some(3)
        })
    );
    let too_large = SourceError::TooLarge {
        context: "diff".into(),
        limit_bytes: 8,
    };
    assert_eq!(
        raw_diff_of_patch(Err(too_large), counts, None),
        Ok(RawDiff::TooLarge { adds: 5, dels: 0 })
    );
    let other = SourceError::InvalidRef { spec: "x".into() };
    assert_eq!(raw_diff_of_patch(Err(other.clone()), counts, None), Err(other));
}

#[test]
fn untracked_diffs_exit_with_a_failure_when_they_differ() {
    assert_eq!(
        raw_diff_of_untracked(false, b"@@ -0,0 +1 @@\n+a\n".to_vec(), 3, b""),
        Ok(RawDiff::Text {
            raw: "@@ -0,0 +1 @@\n+a\n".into(),
            old_total_lines: None
        })
    );
    assert!(matches!(
        raw_diff_of_untracked(false, vec![], 3, b"bad"),
        Err(SourceError::GitFailed { stderr, .. }) if stderr == "bad"
    ));
    assert!(raw_diff_of_untracked(true, vec![], 3, b"").is_ok());
    let worktree = Comparison {
        old: Endpoint::Index,
        new: Endpoint::Worktree,
    };
    assert!(is_untracked(&worktree, false, true));
    assert!(!is_untracked(&worktree, true, true));
    assert!(!is_untracked(&worktree, false, false));
    let limits = SourceLimits::default();
    assert!(untracked_fits(Some(2_097_152), &limits));
    assert!(!untracked_fits(Some(2_097_153), &limits));
    assert!(!untracked_fits(None, &limits));
}

#[test]
fn raw_diffs_parse_with_their_line_total() {
    let diff = diff_of_raw(RawDiff::Text {
        raw: "@@ -1 +1 @@\n-a\n+b\n".into(),
        old_total_lines: Some(9),
    })
    .expect("parse");
    assert_eq!(diff.old_total_lines, Some(9));
    let empty = diff_of_raw(RawDiff::Text {
        raw: String::new(),
        old_total_lines: Some(9),
    })
    .expect("parse");
    assert_eq!(empty.old_total_lines, None);
    let large = diff_of_raw(RawDiff::TooLarge { adds: 1, dels: 2 }).expect("placeholder");
    assert_eq!(large.kind, FileDiffKind::TooLarge { adds: 1, dels: 2 });
    assert!(matches!(
        diff_of_raw(RawDiff::Text {
            raw: "@@ -99999999999 +1 @@\n".into(),
            old_total_lines: None
        }),
        Err(SourceError::GitFailed { args, .. }) if args == "diff parse"
    ));
}

#[test]
fn sides_are_checked_capped_and_cut() {
    assert_eq!(refused_path("a/b"), None);
    assert_eq!(
        refused_path("../b"),
        Some(SourceError::InvalidPath {
            path: "../b".into(),
            reason: PathReason::ParentComponent
        })
    );
    assert_eq!(
        side_content(RootEntry::Symlink("t\u{e9}".into()), "l", 3),
        Ok(b"t\xc3\xa9".to_vec())
    );
    assert_eq!(
        side_content(RootEntry::File(vec![0; 4]), "f", 3),
        Err(SourceError::TooLarge {
            context: "read f".into(),
            limit_bytes: 3
        })
    );
    assert_eq!(side_text(b"caf\xc3\xa9").as_deref(), Some("caf\u{e9}"));
    assert_eq!(side_text(b"\xc3"), None);
    let content = "one\r\ntwo\nthree\r";
    assert_eq!(side_lines(content, 0, 9), vec!["one", "two", "three\r"]);
    assert_eq!(side_lines(content, 2, 2), vec!["two"]);
    assert!(side_lines(content, 3, 2).is_empty());
    assert!(side_lines("", 1, 1).is_empty());
    assert_eq!(side_lines("a\r\n", 1, 1), vec!["a"]);
}

#[test]
fn output_stops_at_its_cap() {
    let mut out = CappedOutput::new(4);
    assert_eq!(out.push(b"abc", "c"), Ok(()));
    assert_eq!(
        out.push(b"de", "c"),
        Err(SourceError::TooLarge {
            context: "c".into(),
            limit_bytes: 4
        })
    );
    assert_eq!(out.bytes, b"abc");
    assert_eq!(out.push(b"d", "c"), Ok(()));
    assert_eq!(out.bytes, b"abcd");
}

#[test]
fn counters_do_not_mind_how_content_is_cut() {
    for content in [&b""[..], b"a", b"a\n", b"a\nb", b"\n\n", b"a\0b\n"] {
        for cut in 0..=content.len() {
            let mut lines = LineCounter::default();
            let mut untracked = UntrackedCounter::default();
            for chunk in [&content[..cut], &content[cut..]] {
                lines.feed(chunk);
                untracked.feed(chunk);
            }
            let expected = content.split_inclusive(|&b| b == b'\n').count() as u64;
            assert_eq!(lines.total(), expected, "{content:?}");
            let binary = content.contains(&0);
            assert_eq!(untracked.total(), (!binary).then_some(expected));
        }
    }
}

#[test]
fn signatures_hash_what_they_are_fed() {
    let comparison = Comparison {
        old: commit("abc"),
        new: Endpoint::Worktree,
    };
    let mut hasher = start_signature(&comparison);
    hasher.feed(b"patch");
    sign_untracked(&mut hasher, b"p", &UntrackedState::Content(b"xy".to_vec()));
    sign_untracked(&mut hasher, b"q", &UntrackedState::Oversize(12));
    sign_untracked(&mut hasher, b"\xff", &UntrackedState::Content(b"no".to_vec()));
    sign_untracked(&mut hasher, b"r", &UntrackedState::Unknown);
    assert_eq!(
        hasher.finish(),
        fnv1a64(b"cmp\0abc..worktreepatchpxyqtoolarge:12r")
    );
    assert_eq!(Fnv1a::new().finish(), fnv1a64(b""));
}

#[test]
fn failed_steps_are_told_apart() {
    assert_eq!(
        failed_dir(OpenFailure::Loop, false),
        DirStep::Refused(PathReason::SymlinkComponent)
    );
    assert_eq!(
        failed_dir(OpenFailure::NotDir, true),
        DirStep::Refused(PathReason::SymlinkComponent)
    );
    assert_eq!(failed_dir(OpenFailure::NotDir, false), DirStep::Missing);
    assert_eq!(failed_dir(OpenFailure::NoEntry, false), DirStep::Missing);
    assert_eq!(failed_dir(OpenFailure::Other, true), DirStep::Failed);
    assert_eq!(failed_final(OpenFailure::Loop), FinalStep::ReadLink);
    assert_eq!(failed_final(OpenFailure::NotDir), FinalStep::Missing);
    assert_eq!(failed_final(OpenFailure::NoEntry), FinalStep::Missing);
    assert_eq!(failed_final(OpenFailure::Other), FinalStep::Failed);
    assert_eq!(
        root_err_to_source(RootError::NotRegularFile, "p"),
        SourceError::Io {
            context: "read p".into(),
            detail: "not a regular file".into()
        }
    );
    assert_eq!(
        root_err_to_source(RootError::Io("gone".into()), "p"),
        SourceError::Io {
            context: "read p".into(),
            detail: "gone".into()
        }
    );
    assert!(root_err_to_source(RootError::InvalidPath(PathReason::Empty), "p").is_invalid_path());
}

#[test]
fn signatures_follow_content_alone() {
    let comparison = Comparison {
        old: commit("abc"),
        new: Endpoint::Worktree,
    };
    let sign = |chunks: &[&[u8]], file: &[u8]| {
        let mut patch = PatchSigner::new(&comparison);
        assert_eq!(patch.args(), signature_args(&comparison));
        for chunk in chunks {
            patch.add(chunk);
        }
        let mut signer = patch.end(true, b"").expect("git answered");
        assert!(signer.wants_untracked());
        signer.add_listing(b"p\0");
        signer.add_file(b"p", &UntrackedState::Content(file.to_vec()));
        signer.finish()
    };
    let whole = sign(&[b"patch"], b"xy");
    assert_eq!(whole, fnv1a64(b"cmp\0abc..worktreepatchp\0pxy"));
    assert_eq!(sign(&[b"pa", b"", b"tch"], b"xy"), whole);
    assert_ne!(sign(&[b"patch"], b"xz"), whole);
    assert_ne!(sign(&[b"Patch"], b"xy"), whole);
}

#[test]
fn a_failed_diff_gives_no_signature() {
    let comparison = Comparison {
        old: commit("abc"),
        new: commit("def"),
    };
    let mut patch = PatchSigner::new(&comparison);
    patch.add(b"half a pat");
    let args = signature_args(&comparison);
    assert_eq!(
        patch.end(false, b" fatal\n").err(),
        Some(git_failed(&args, b"fatal"))
    );
    let signer = PatchSigner::new(&comparison).end(true, b"").ok();
    let signer = signer.expect("git answered");
    assert!(!signer.wants_untracked());
    assert_eq!(signer.finish(), fnv1a64(b"cmp\0abc..def"));
}

#[test]
fn an_empty_base_counts_as_none() {
    assert_eq!(
        settle(Some(""), false, &[]),
        (vec![], Ok("index..worktree".into()))
    );
    let head = rev("HEAD");
    assert_eq!(
        settle(Some(""), true, &[(head.as_str(), "9")]),
        (vec![rev("HEAD")], Ok("9..index".into()))
    );
}

#[test]
fn untracked_files_are_judged_by_their_size() {
    let limits = SourceLimits {
        untracked_bytes: 10,
        ..SourceLimits::default()
    };
    assert!(untracked_verdict(Some(10), &limits).is_none());
    for size in [Some(11), None] {
        assert!(matches!(
            untracked_verdict(size, &limits),
            Some(RawDiff::TooLarge { adds: 0, dels: 0 })
        ));
    }
    assert_eq!(unread_state(Some(10), &limits), None);
    assert_eq!(unread_state(Some(11), &limits), Some(UntrackedState::Oversize(11)));
    assert_eq!(unread_state(None, &limits), Some(UntrackedState::Unknown));
}
