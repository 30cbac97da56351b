//! Stacks of branches.

use ambidiff_core::json::Json;
use ambidiff_core::review_json::target_from;
use ambidiff_core::source::Endpoint;
use ambidiff_core::stack::{assemble_stack, ChainCommit, StackInput, TargetId};
use ambidiff_core::wire::{target_record_from, Wire};

/// A document from its text.
fn json(text: &str) -> Json {
    Json::parse(text).expect("json")
}

fn oid(c: char) -> String {
    std::iter::repeat_n(c, 40).collect()
}

fn chain(subjects: &[(char, &str)]) -> Vec<ChainCommit> {
    subjects
        .iter()
        .map(|(c, s)| ChainCommit {
            oid: oid(*c),
            subject: s.to_string(),
        })
        .collect()
}

fn input() -> StackInput {
    StackInput {
        trunk: "refs/remotes/origin/main".into(),
        base: oid('1'),
        head: oid('3'),
        chain: chain(&[('2', "Add login form"), ('3', "Wire the session cookie")]),
        branches: vec![
            (oid('1'), "main".into()),
            (oid('2'), "auth-1".into()),
            (oid('3'), "auth-2".into()),
        ],
        current_branch: Some("auth-2".into()),
        dirty: true,
    }
}

fn branch(name: &str) -> TargetId {
    TargetId::Branch { name: name.into() }
}

#[test]
fn three_commits_two_branches_assemble_in_order() {
    let stack = assemble_stack(input());
    assert_eq!(
        stack.ids(),
        vec![
            branch("auth-1"),
            branch("auth-2"),
            TargetId::Stack,
            TargetId::Worktree
        ]
    );
    let first = &stack.targets[0];
    assert_eq!(first.position, Some(1));
    assert_eq!(first.commit_count, 1);
    assert_eq!(first.subject.as_deref(), Some("Add login form"));
    assert_eq!(first.comparison.old, Endpoint::Commit { oid: oid('1') });
    assert_eq!(first.comparison.new, Endpoint::Commit { oid: oid('2') });
    let second = &stack.targets[1];
    assert_eq!(second.position, Some(2));
    assert_eq!(second.comparison.old, Endpoint::Commit { oid: oid('2') });
    assert_eq!(second.comparison.new, Endpoint::Commit { oid: oid('3') });
    let whole = &stack.targets[2];
    assert_eq!(whole.commit_count, 2);
    assert_eq!(whole.subject, None);
    assert_eq!(whole.comparison.old, Endpoint::Commit { oid: oid('1') });
    let worktree = &stack.targets[3];
    assert_eq!(worktree.tip, None);
    assert_eq!(worktree.comparison.new, Endpoint::Worktree);
    assert_eq!(worktree.comparison.old, Endpoint::Commit { oid: oid('3') });
}

#[test]
fn a_branch_at_the_base_is_not_a_pr() {
    // `main` sits at the merge-base and must not become a target; that
    // is also how a bottom PR fast-forwarded into trunk disappears.
    let stack = assemble_stack(input());
    assert!(stack.find(&branch("main")).is_none());
}

#[test]
fn several_branches_on_one_tip_prefer_current_then_alphabetical() {
    let mut input = input();
    input.branches.push((oid('3'), "zeta".into()));
    input.branches.push((oid('3'), "alpha".into()));
    let stack = assemble_stack(input.clone());
    let top = stack.find(&branch("auth-2")).expect("current branch wins");
    assert_eq!(top.aliases, vec!["alpha".to_string(), "zeta".to_string()]);

    input.current_branch = None;
    let stack = assemble_stack(input);
    let top = &stack.targets[1];
    assert_eq!(top.id, branch("alpha"), "alphabetical without a current");
    assert_eq!(top.aliases, vec!["auth-2".to_string(), "zeta".to_string()]);
}

#[test]
fn commits_above_the_last_branch_add_a_head_target() {
    let mut input = input();
    input.head = oid('5');
    input.chain = chain(&[
        ('2', "Add login form"),
        ('3', "Wire the session cookie"),
        ('4', "wip"),
        ('5', "more wip"),
    ]);
    input.current_branch = None;
    input.dirty = false;
    let stack = assemble_stack(input);
    assert_eq!(
        stack.ids(),
        vec![
            branch("auth-1"),
            branch("auth-2"),
            TargetId::Head,
            TargetId::Stack
        ]
    );
    let head = stack.find(&TargetId::Head).expect("head");
    assert_eq!(head.commit_count, 2);
    assert_eq!(head.subject.as_deref(), Some("more wip"));
    assert_eq!(head.comparison.old, Endpoint::Commit { oid: oid('3') });
    assert_eq!(head.comparison.new, Endpoint::Commit { oid: oid('5') });
    assert_eq!(stack.find(&TargetId::Stack).expect("stack").commit_count, 4);
}

#[test]
fn detached_head_without_any_branch_is_head_plus_stack() {
    let mut input = input();
    input.branches = vec![(oid('1'), "main".into())];
    input.current_branch = None;
    input.dirty = false;
    let stack = assemble_stack(input);
    assert_eq!(stack.ids(), vec![TargetId::Head, TargetId::Stack]);
    assert_eq!(stack.targets[0].commit_count, 2);
    assert_eq!(stack.default_target(), Some(TargetId::Stack));
}

#[test]
fn empty_chain_is_no_targets_when_clean_and_worktree_when_dirty() {
    let mut input = input();
    input.head = oid('1');
    input.chain = Vec::new();
    input.dirty = false;
    let clean = assemble_stack(input.clone());
    assert!(clean.targets.is_empty());
    assert_eq!(clean.default_target(), None);
    assert_eq!(clean.fallback_target(), None);

    input.dirty = true;
    let dirty = assemble_stack(input);
    assert_eq!(dirty.ids(), vec![TargetId::Worktree]);
    assert_eq!(dirty.default_target(), Some(TargetId::Worktree));
    assert_eq!(dirty.fallback_target(), Some(TargetId::Worktree));
}

#[test]
fn default_is_the_topmost_pr_and_fallback_is_the_stack() {
    let stack = assemble_stack(input());
    assert_eq!(stack.default_target(), Some(branch("auth-2")));
    assert_eq!(stack.fallback_target(), Some(TargetId::Stack));
}

#[test]
fn shape_key_moves_on_tip_branch_alias_and_dirty_changes() {
    let base = assemble_stack(input()).shape_key();
    assert_eq!(assemble_stack(input()).shape_key(), base, "deterministic");

    let mut retipped = input();
    retipped.chain[1].oid = oid('9');
    retipped.head = oid('9');
    retipped.branches[2].0 = oid('9');
    assert_ne!(assemble_stack(retipped).shape_key(), base, "tip move");

    let mut removed = input();
    removed.branches.retain(|(_, n)| n != "auth-1");
    assert_ne!(assemble_stack(removed).shape_key(), base, "branch removed");

    let mut aliased = input();
    aliased.branches.push((oid('3'), "alias".into()));
    assert_ne!(assemble_stack(aliased).shape_key(), base, "alias added");

    let mut clean = input();
    clean.dirty = false;
    assert_ne!(assemble_stack(clean).shape_key(), base, "dirty flip");

    let mut resubjected = input();
    resubjected.chain[1].subject = "reworded".into();
    assert_eq!(
        assemble_stack(resubjected).shape_key(),
        base,
        "subjects are display only"
    );
}

#[test]
fn parse_cli_keywords_prefix_and_bare_names() {
    assert_eq!(TargetId::parse_cli("stack"), Ok(TargetId::Stack));
    assert_eq!(TargetId::parse_cli("worktree"), Ok(TargetId::Worktree));
    assert_eq!(TargetId::parse_cli("head"), Ok(TargetId::Head));
    assert_eq!(TargetId::parse_cli("auth-2"), Ok(branch("auth-2")));
    assert_eq!(TargetId::parse_cli("branch:stack"), Ok(branch("stack")));
    assert!(TargetId::parse_cli("").is_err());
    assert!(TargetId::parse_cli("branch:").is_err());
}

#[test]
fn serde_spellings_are_tagged_objects() {
    assert_eq!(
        branch("auth-2").to_json(),
        json(r#"{"kind": "branch", "name": "auth-2"}"#)
    );
    assert_eq!(
        TargetId::Worktree.to_json(),
        json(r#"{"kind": "worktree"}"#)
    );
    let parsed = target_from(&json(r#"{"kind": "stack"}"#)).expect("parse");
    assert_eq!(parsed, TargetId::Stack);
    assert!(target_from(&json(r#"{"kind": "branch"}"#)).is_err());
    assert!(target_from(&json(r#""stack""#)).is_err());

    let target = &assemble_stack(input()).targets[3];
    let doc = target.to_json();
    assert_eq!(
        doc,
        json(&format!(
            r#"{{
                "id": {{"kind": "worktree"}},
                "label": "worktree",
                "position": null,
                "tip": null,
                "commitCount": 0,
                "subject": null,
                "aliases": [],
                "comparison": {{
                    "old": {{"kind": "commit", "oid": "{}"}},
                    "new": {{"kind": "worktree"}}
                }}
            }}"#,
            oid('3')
        )),
        "every field present, none skipped"
    );
    let back = target_record_from(&doc).expect("round trip");
    assert_eq!(&back, target);
}

#[test]
fn labels_keys_and_display() {
    assert_eq!(branch("x").label(), "x");
    assert_eq!(branch("x").key(), "branch:x");
    assert_eq!(TargetId::Stack.key(), "stack");
    assert_eq!(TargetId::Head.label(), "head");
}

#[test]
fn branches_are_found_where_they_lead() {
    let mut input = input();
    input.branches.push((oid('2'), "aaa".into()));
    input.branches.push((oid('3'), "zeta".into()));
    let stack = assemble_stack(input.clone());
    assert_eq!(stack.find(&branch("main")), None, "at the base");
    assert_eq!(stack.find(&branch("auth-1")), None, "aaa comes before it");
    assert_eq!(stack.find(&branch("zeta")), None, "the current branch is there");
    let low = stack.find(&branch("aaa")).expect("the least name");
    assert_eq!(low.tip, Some(oid('2')));
    assert_eq!(low.aliases, ["auth-1"]);
    let top = stack.find(&branch("auth-2")).expect("the current branch");
    assert_eq!(top.tip, Some(oid('3')));
    assert_eq!(top.aliases, ["zeta"]);

    input.current_branch = Some("zeta".into());
    let stack = assemble_stack(input);
    assert_eq!(stack.find(&branch("auth-2")), None);
    let top = stack.find(&branch("zeta")).expect("the current branch");
    assert_eq!(top.aliases, ["auth-2"]);
}

#[test]
fn targets_are_read_from_arrays_too() {
    let read = |text: &str| target_from(&json(text));
    assert_eq!(read(r#"["stack"]"#), Ok(TargetId::Stack));
    assert_eq!(read(r#"["branch","auth-2"]"#), Ok(branch("auth-2")));
    for (text, message) in [
        ("[]", "missing field `kind`"),
        ("[1]", "invalid type: integer `1`, expected variant identifier"),
        (
            r#"["tag"]"#,
            "unknown variant `tag`, expected one of `branch`, `head`, `stack`, `worktree`",
        ),
        (r#"["head",1,2]"#, "invalid length 2, expected 0 elements in sequence"),
        (
            r#"["branch"]"#,
            "invalid length 0, expected struct variant TargetId::Branch with 1 element",
        ),
        (r#"["branch",null]"#, "invalid type: null, expected a string"),
        (
            r#"["branch","a","b"]"#,
            "invalid length 2, expected 1 element in sequence",
        ),
        ("1", "invalid type: integer `1`, expected internally tagged enum TargetId"),
    ] {
        assert_eq!(read(text), Err(message.to_string()), "{text}");
    }
}
