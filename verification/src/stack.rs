//! Stacked-PR vocabulary: targets, the assembled stack, and the policy that
//! turns raw git facts into it.
//!
//! A stack is a linear chain of commits on one branch above trunk. Every PR
//! is a local branch pointing at its tip commit; child PRs physically
//! contain their parents' commits. Reviewing PR `n` means diffing
//! `tip(PR n-1)..tip(PR n)`. PR identity is the BRANCH NAME: an amend or a
//! rebase moves every tip oid but keeps the names, so comments tagged with a
//! branch survive both. Oids are a cache for display and comparison, never a
//! key.

use vstd::prelude::*;

use crate::model::copy_option;
use crate::source::{Comparison, ComparisonModel, Endpoint, EndpointModel};
use crate::text::{
    chars_of, copy_of, in_order, join_with, lemma_text_le_total, lemma_text_le_trans, push_text,
    same_text, starts_with, string_of, text_le,
};

verus! {

/// Which comparison inside a stack review a comment or a view refers to.
#[derive(Debug, PartialEq, Eq, Hash)]
pub enum TargetId {
    /// One PR: the local branch at its tip commit.
    Branch { name: String },
    /// Commits above the topmost PR branch up to `HEAD` (a detached HEAD, or
    /// work not yet given a branch).
    Head,
    /// The whole stack: merge-base with trunk up to `HEAD`.
    Stack,
    /// Uncommitted changes: `HEAD` against the working tree.
    Worktree,
}

#[verifier::ext_equal]
pub enum TargetIdModel {
    Branch { name: Seq<char> },
    Head,
    Stack,
    Worktree,
}

impl DeepView for TargetId {
    type V = TargetIdModel;

    open spec fn deep_view(&self) -> TargetIdModel {
        match *self {
            TargetId::Branch { name } => TargetIdModel::Branch { name: name@ },
            TargetId::Head => TargetIdModel::Head,
            TargetId::Stack => TargetIdModel::Stack,
            TargetId::Worktree => TargetIdModel::Worktree,
        }
    }
}

impl Clone for TargetId {
    fn clone(&self) -> (r: Self)
        ensures
            r.deep_view() == self.deep_view(),
    {
        match self {
            TargetId::Branch { name } => TargetId::Branch { name: copy_of(name.as_str()) },
            TargetId::Head => TargetId::Head,
            TargetId::Stack => TargetId::Stack,
            TargetId::Worktree => TargetId::Worktree,
        }
    }
}

impl TargetIdModel {
    pub open spec fn label(self) -> Seq<char> {
        match self {
            TargetIdModel::Branch { name } => name,
            TargetIdModel::Head => "head"@,
            TargetIdModel::Stack => "stack"@,
            TargetIdModel::Worktree => "worktree"@,
        }
    }

    pub open spec fn key(self) -> Seq<char> {
        match self {
            TargetIdModel::Branch { name } => "branch:"@ + name,
            other => other.label(),
        }
    }
}

/// What a command line says when it names a target: keywords, a branch behind
/// `branch:`, or a bare branch name.
pub open spec fn target_named(s: Seq<char>) -> Result<TargetIdModel, Seq<char>> {
    if s == "stack"@ {
        Ok(TargetIdModel::Stack)
    } else if s == "worktree"@ {
        Ok(TargetIdModel::Worktree)
    } else if s == "head"@ {
        Ok(TargetIdModel::Head)
    } else if s.len() == 0 {
        Err("target must not be empty"@)
    } else if "branch:"@.is_prefix_of(s) {
        if s.len() == "branch:"@.len() {
            Err("branch target needs a name after `branch:`"@)
        } else {
            Ok(TargetIdModel::Branch { name: s.skip("branch:"@.len() as int) })
        }
    } else {
        Ok(TargetIdModel::Branch { name: s })
    }
}

impl TargetId {
    /// Human label: the branch name, or the kind.
    pub fn label(&self) -> (r: &str)
        ensures
            r@ == self.deep_view().label(),
    {
        match self {
            TargetId::Branch { name } => name.as_str(),
            TargetId::Head => "head",
            TargetId::Stack => "stack",
            TargetId::Worktree => "worktree",
        }
    }

    /// Stable string key (`branch:<name>` or the kind), for maps and hashes
    /// on the browser side where object identity is not usable.
    pub fn key(&self) -> (r: String)
        ensures
            r@ == self.deep_view().key(),
    {
        match self {
            TargetId::Branch { name } => {
                let mut out: String = copy_of("branch:");
                push_text(&mut out, name.as_str());
                out
            },
            other => copy_of(other.label()),
        }
    }

    /// Parse the CLI spelling: `stack`, `worktree`, `head` are keywords;
    /// `branch:<name>` forces a branch (for a branch that happens to be
    /// named like a keyword); anything else is a branch name.
    pub fn parse_cli(s: &str) -> (r: Result<TargetId, String>)
        ensures
            match target_named(s@) {
                Ok(id) => r matches Ok(t) && t.deep_view() == id,
                Err(msg) => r matches Err(e) && e@ == msg,
            },
    {
        if same_text(s, "stack") {
            return Ok(TargetId::Stack);
        }
        if same_text(s, "worktree") {
            return Ok(TargetId::Worktree);
        }
        if same_text(s, "head") {
            return Ok(TargetId::Head);
        }
        let cs: Vec<char> = chars_of(s);
        if cs.len() == 0 {
            return Err(copy_of("target must not be empty"));
        }
        proof {
            reveal_strlit("branch:");
        }
        if starts_with(cs.as_slice(), "branch:") {
            if cs.len() == 7 {
                return Err(copy_of("branch target needs a name after `branch:`"));
            }
            let name: &[char] = vstd::slice::slice_subrange(cs.as_slice(), 7, cs.len());
            assert(name@ =~= s@.skip(7));
            return Ok(TargetId::Branch { name: string_of(name) });
        }
        Ok(TargetId::Branch { name: copy_of(s) })
    }
}

/// The CLI can name every target: its key, read back, is the target, except
/// for the branch without a name.
pub proof fn keys_name_their_targets(id: TargetIdModel)
    requires
        id matches TargetIdModel::Branch { name } ==> name.len() > 0,
    ensures
        target_named(id.key()) == Ok::<TargetIdModel, Seq<char>>(id),
{
    reveal_strlit("branch:");
    reveal_strlit("stack");
    reveal_strlit("worktree");
    reveal_strlit("head");
    assert("stack"@.len() == 5 && "worktree"@.len() == 8 && "head"@.len() == 4);
    if let TargetIdModel::Branch { name } = id {
        let key = id.key();
        assert(key.len() == 7 + name.len());
        assert(key[6] == ':');
        assert("worktree"@[6] == 'e');
        assert(key.skip(7) =~= name);
        assert("branch:"@ =~= key.take(7));
    }
}

/// Whether two targets are the same.
pub fn same_target(a: &TargetId, b: &TargetId) -> (r: bool)
    ensures
        r == (a.deep_view() == b.deep_view()),
{
    match (a, b) {
        (TargetId::Branch { name: x }, TargetId::Branch { name: y }) => same_text(
            x.as_str(),
            y.as_str(),
        ),
        (TargetId::Head, TargetId::Head) => true,
        (TargetId::Stack, TargetId::Stack) => true,
        (TargetId::Worktree, TargetId::Worktree) => true,
        _ => false,
    }
}

/// One reviewable comparison inside a stack.
#[derive(Debug, Clone, PartialEq, Eq)]
pub struct Target {
    pub id: TargetId,
    pub label: String,
    /// 1-based position among the PR targets (bottom to top); `None` for
    /// the head, stack, and worktree targets.
    pub position: Option<u32>,
    /// Tip commit oid; `None` for the worktree target.
    pub tip: Option<String>,
    /// Commits this target adds over the previous one.
    pub commit_count: u32,
    /// Tip commit subject, display only (never matched on).
    pub subject: Option<String>,
    /// Other branches pointing at the same tip.
    pub aliases: Vec<String>,
    pub comparison: Comparison,
}

#[verifier::ext_equal]
pub struct TargetModel {
    pub id: TargetIdModel,
    pub label: Seq<char>,
    pub position: Option<u32>,
    pub tip: Option<Seq<char>>,
    pub commit_count: u32,
    pub subject: Option<Seq<char>>,
    pub aliases: Seq<Seq<char>>,
    pub comparison: ComparisonModel,
}

impl DeepView for Target {
    type V = TargetModel;

    open spec fn deep_view(&self) -> TargetModel {
        TargetModel {
            id: self.id.deep_view(),
            label: self.label@,
            position: self.position,
            tip: self.tip.deep_view(),
            commit_count: self.commit_count,
            subject: self.subject.deep_view(),
            aliases: self.aliases.deep_view(),
            comparison: self.comparison.deep_view(),
        }
    }
}

/// A discovered stack: the trunk it sits on, its endpoints, and the ordered
/// targets (PR tips bottom to top, then `head` when HEAD has no branch,
/// then `stack`, then `worktree` when the tree is dirty).
#[derive(Debug, Clone, PartialEq, Eq)]
pub struct Stack {
    /// The trunk ref as resolved (e.g. `refs/remotes/origin/main`).
    pub trunk: String,
    /// Merge-base of trunk and HEAD (the bottom of the stack).
    pub base: String,
    /// HEAD's commit oid.
    pub head: String,
    pub targets: Vec<Target>,
}

#[verifier::ext_equal]
pub struct StackModel {
    pub trunk: Seq<char>,
    pub base: Seq<char>,
    pub head: Seq<char>,
    pub targets: Seq<TargetModel>,
}

impl DeepView for Stack {
    type V = StackModel;

    open spec fn deep_view(&self) -> StackModel {
        StackModel {
            trunk: self.trunk@,
            base: self.base@,
            head: self.head@,
            targets: self.targets.deep_view(),
        }
    }
}

/// Position of the first target with this id; the length where none has it.
pub open spec fn target_index(targets: Seq<TargetModel>, id: TargetIdModel) -> int
    decreases targets.len(),
{
    if targets.len() == 0 {
        0
    } else {
        let before = target_index(targets.drop_last(), id);
        if before < targets.len() - 1 || targets.last().id == id {
            before
        } else {
            targets.len() as int
        }
    }
}

proof fn lemma_target_index(targets: Seq<TargetModel>, id: TargetIdModel, i: int)
    requires
        0 <= i <= targets.len(),
        forall|k: int| 0 <= k < i ==> (#[trigger] targets[k]).id != id,
        i < targets.len() ==> targets[i].id == id,
    ensures
        target_index(targets, id) == i,
    decreases targets.len(),
{
    if targets.len() > 0 {
        if i < targets.len() {
            lemma_target_index(
                targets.drop_last(),
                id,
                if i < targets.len() - 1 {
                    i
                } else {
                    targets.len() - 1
                },
            );
        } else {
            lemma_target_index(targets.drop_last(), id, targets.len() - 1);
            assert(targets[targets.len() - 1].id != id);
        }
    }
}

/// The topmost branch among the first `n` targets.
pub open spec fn topmost_branch(targets: Seq<TargetModel>, n: int) -> Option<TargetIdModel>
    decreases n,
{
    if n <= 0 {
        None
    } else if targets[n - 1].id is Branch {
        Some(targets[n - 1].id)
    } else {
        topmost_branch(targets, n - 1)
    }
}

impl StackModel {
    pub open spec fn has(self, id: TargetIdModel) -> bool {
        target_index(self.targets, id) < self.targets.len()
    }

    pub open spec fn default_target(self) -> Option<TargetIdModel> {
        match topmost_branch(self.targets, self.targets.len() as int) {
            Some(id) => Some(id),
            None => if self.has(TargetIdModel::Stack) {
                Some(TargetIdModel::Stack)
            } else if self.has(TargetIdModel::Worktree) {
                Some(TargetIdModel::Worktree)
            } else {
                None
            },
        }
    }

    pub open spec fn fallback_target(self) -> Option<TargetIdModel> {
        if self.has(TargetIdModel::Stack) {
            Some(TargetIdModel::Stack)
        } else {
            self.default_target()
        }
    }

    pub open spec fn shape_key(self) -> Seq<char> {
        self.base + "\u{1}"@ + self.head + "\u{1}"@ + shape_of(
            self.targets,
            self.targets.len() as int,
        )
    }
}

/// The part of the shape key that one target gives.
pub open spec fn target_shape(target: TargetModel) -> Seq<char> {
    target.id.key() + "="@ + match target.tip {
        Some(tip) => tip,
        None => "-"@,
    } + "["@ + join_with(target.aliases, ","@) + "];"@
}

/// The part of the shape key that the first `n` targets give.
pub open spec fn shape_of(targets: Seq<TargetModel>, n: int) -> Seq<char>
    decreases n,
{
    if n <= 0 {
        Seq::empty()
    } else {
        shape_of(targets, n - 1) + target_shape(targets[n - 1])
    }
}

/// The strings put together with `sep` between them.
fn join(parts: &Vec<String>, sep: &str) -> (r: String)
    ensures
        r@ == join_with(parts.deep_view(), sep@),
{
    let ghost all = parts.deep_view();
    let mut out: String = String::new();
    let mut i: usize = 0;
    while i < parts.len()
        invariant
            i <= parts.len(),
            all == parts.deep_view(),
            out@ == join_with(all.take(i as int), sep@),
        decreases parts.len() - i,
    {
        let ghost before = all.take(i as int);
        assert(all.take(i + 1).drop_last() =~= before);
        if i > 0 {
            push_text(&mut out, sep);
        }
        push_text(&mut out, parts[i].as_str());
        assert(all[i as int] == parts[i as int]@);
        assert(out@ =~= join_with(all.take(i + 1), sep@));
        i += 1;
    }
    assert(all.take(all.len() as int) =~= all);
    out
}

impl Stack {
    fn index_of(&self, id: &TargetId) -> (r: usize)
        ensures
            r == target_index(self.deep_view().targets, id.deep_view()),
            r <= self.targets.len(),
    {
        let ghost targets = self.deep_view().targets;
        let mut i: usize = 0;
        while i < self.targets.len()
            invariant
                i <= self.targets.len(),
                targets == self.deep_view().targets,
                forall|k: int| 0 <= k < i ==> (#[trigger] targets[k]).id != id.deep_view(),
            decreases self.targets.len() - i,
        {
            assert(targets[i as int] == self.targets[i as int].deep_view());
            if same_target(&self.targets[i].id, id) {
                proof {
                    lemma_target_index(targets, id.deep_view(), i as int);
                }
                return i;
            }
            i += 1;
        }
        proof {
            lemma_target_index(targets, id.deep_view(), i as int);
        }
        i
    }

    pub fn find(&self, id: &TargetId) -> (r: Option<&Target>)
        ensures
            ({
                let i = target_index(self.deep_view().targets, id.deep_view());
                if i < self.targets.len() {
                    r == Some(&self.targets[i])
                } else {
                    r is None
                }
            }),
    {
        let i: usize = self.index_of(id);
        if i < self.targets.len() {
            Some(&self.targets[i])
        } else {
            None
        }
    }

    pub fn ids(&self) -> (r: Vec<TargetId>)
        ensures
            r.deep_view() == Seq::new(
                self.targets@.len(),
                |i: int| self.deep_view().targets[i].id,
            ),
    {
        let ghost targets = self.deep_view().targets;
        let mut out: Vec<TargetId> = Vec::new();
        let mut i: usize = 0;
        while i < self.targets.len()
            invariant
                i <= self.targets.len(),
                targets == self.deep_view().targets,
                out.len() == i,
                forall|k: int| 0 <= k < i ==> (#[trigger] out@[k]).deep_view() == targets[k].id,
            decreases self.targets.len() - i,
        {
            assert(targets[i as int] == self.targets[i as int].deep_view());
            out.push(self.targets[i].id.clone());
            i += 1;
        }
        assert(out.deep_view() =~= Seq::new(self.targets@.len(), |i: int| targets[i].id));
        out
    }

    /// What opens when nothing was asked for: the topmost PR, else the
    /// whole stack, else the worktree.
    pub fn default_target(&self) -> (r: Option<TargetId>)
        ensures
            r.deep_view() == self.deep_view().default_target(),
    {
        let ghost targets = self.deep_view().targets;
        let mut n: usize = self.targets.len();
        while n > 0
            invariant
                n <= self.targets.len(),
                targets == self.deep_view().targets,
                topmost_branch(targets, targets.len() as int) == topmost_branch(
                    targets,
                    n as int,
                ),
            decreases n,
        {
            assert(targets[n - 1] == self.targets[n - 1].deep_view());
            if let TargetId::Branch { .. } = self.targets[n - 1].id {
                return Some(self.targets[n - 1].id.clone());
            }
            n -= 1;
        }
        if self.index_of(&TargetId::Stack) < self.targets.len() {
            return Some(TargetId::Stack);
        }
        if self.index_of(&TargetId::Worktree) < self.targets.len() {
            return Some(TargetId::Worktree);
        }
        None
    }

    /// Where a selection lands when its branch leaves the stack: the whole
    /// stack, never a neighbouring PR (that would silently show someone
    /// else's diff under the old name).
    pub fn fallback_target(&self) -> (r: Option<TargetId>)
        ensures
            r.deep_view() == self.deep_view().fallback_target(),
    {
        if self.index_of(&TargetId::Stack) < self.targets.len() {
            return Some(TargetId::Stack);
        }
        self.default_target()
    }

    /// A string that changes whenever the strip must repaint: any tip move,
    /// branch added or removed, alias change, or dirty flip. Feeds the diff
    /// signature so the watch controller notices a restack.
    pub fn shape_key(&self) -> (r: String)
        ensures
            r@ == self.deep_view().shape_key(),
    {
        let ghost targets = self.deep_view().targets;
        let mut key: String = copy_of(self.base.as_str());
        push_text(&mut key, "\u{1}");
        push_text(&mut key, self.head.as_str());
        push_text(&mut key, "\u{1}");
        let ghost start = key@;
        let mut i: usize = 0;
        assert(start + shape_of(targets, 0) =~= start);
        while i < self.targets.len()
            invariant
                i <= self.targets.len(),
                targets == self.deep_view().targets,
                key@ == start + shape_of(targets, i as int),
            decreases self.targets.len() - i,
        {
            let target: &Target = &self.targets[i];
            assert(targets[i as int] == target.deep_view());
            push_text(&mut key, target.id.key().as_str());
            push_text(&mut key, "=");
            match &target.tip {
                Some(tip) => push_text(&mut key, tip.as_str()),
                None => push_text(&mut key, "-"),
            }
            push_text(&mut key, "[");
            push_text(&mut key, join(&target.aliases, ",").as_str());
            push_text(&mut key, "];");
            assert(key@ =~= start + shape_of(targets, i + 1));
            i += 1;
        }
        assert(key@ =~= self.deep_view().shape_key());
        key
    }
}

/// One commit of the first-parent chain `base..head`, bottom first.
#[derive(Debug, Clone, PartialEq, Eq)]
pub struct ChainCommit {
    pub oid: String,
    pub subject: String,
}

#[verifier::ext_equal]
pub struct ChainCommitModel {
    pub oid: Seq<char>,
    pub subject: Seq<char>,
}

impl DeepView for ChainCommit {
    type V = ChainCommitModel;

    open spec fn deep_view(&self) -> ChainCommitModel {
        ChainCommitModel { oid: self.oid@, subject: self.subject@ }
    }
}

/// The raw facts discovery collects; [`assemble_stack`] applies the policy.
#[derive(Debug, PartialEq, Eq)]
pub struct StackInput {
    pub trunk: String,
    pub base: String,
    pub head: String,
    /// `base..head`, bottom to top. Empty when HEAD is at (or below) trunk.
    pub chain: Vec<ChainCommit>,
    /// Every local branch as `(oid, name)`.
    pub branches: Vec<(String, String)>,
    /// The checked-out branch, if HEAD is not detached.
    pub current_branch: Option<String>,
    /// The working tree (or index) differs from HEAD.
    pub dirty: bool,
}

#[verifier::ext_equal]
pub struct StackInputModel {
    pub trunk: Seq<char>,
    pub base: Seq<char>,
    pub head: Seq<char>,
    pub chain: Seq<ChainCommitModel>,
    pub branches: Seq<(Seq<char>, Seq<char>)>,
    pub current_branch: Option<Seq<char>>,
    pub dirty: bool,
}

impl DeepView for StackInput {
    type V = StackInputModel;

    open spec fn deep_view(&self) -> StackInputModel {
        StackInputModel {
            trunk: self.trunk@,
            base: self.base@,
            head: self.head@,
            chain: self.chain.deep_view(),
            branches: self.branches.deep_view(),
            current_branch: self.current_branch.deep_view(),
            dirty: self.dirty,
        }
    }
}

impl Clone for StackInput {
    fn clone(&self) -> (r: Self)
        ensures
            r.deep_view() == self.deep_view(),
    {
        let mut chain: Vec<ChainCommit> = Vec::new();
        let mut i: usize = 0;
        while i < self.chain.len()
            invariant
                i <= self.chain.len(),
                chain.len() == i,
                forall|k: int|
                    0 <= k < i ==> (#[trigger] chain@[k]).deep_view()
                        == self.chain@[k].deep_view(),
            decreases self.chain.len() - i,
        {
            let at: &ChainCommit = &self.chain[i];
            chain.push(
                ChainCommit {
                    oid: copy_of(at.oid.as_str()),
                    subject: copy_of(at.subject.as_str()),
                },
            );
            i += 1;
        }
        let mut branches: Vec<(String, String)> = Vec::new();
        i = 0;
        while i < self.branches.len()
            invariant
                i <= self.branches.len(),
                branches.len() == i,
                forall|k: int|
                    0 <= k < i ==> (#[trigger] branches@[k]).deep_view()
                        == self.branches@[k].deep_view(),
            decreases self.branches.len() - i,
        {
            let at: &(String, String) = &self.branches[i];
            branches.push((copy_of(at.0.as_str()), copy_of(at.1.as_str())));
            i += 1;
        }
        assert(chain.deep_view() =~= self.chain.deep_view());
        assert(branches.deep_view() =~= self.branches.deep_view());
        StackInput {
            trunk: copy_of(self.trunk.as_str()),
            base: copy_of(self.base.as_str()),
            head: copy_of(self.head.as_str()),
            chain,
            branches,
            current_branch: copy_option(&self.current_branch),
            dirty: self.dirty,
        }
    }
}

// ------------------------------------------------------------ branch names

/// A sorted list of names with one more name in its place; a name that is in
/// the list already changes nothing.
pub open spec fn with_name(names: Seq<Seq<char>>, name: Seq<char>) -> Seq<Seq<char>>
    decreases names.len(),
{
    if names.len() == 0 {
        seq![name]
    } else if names.last() == name {
        names
    } else if text_le(names.last(), name) {
        names.push(name)
    } else {
        with_name(names.drop_last(), name).push(names.last())
    }
}

/// Whether the names stand in strictly ascending order.
pub open spec fn ascending(names: Seq<Seq<char>>) -> bool {
    forall|i: int, j: int|
        0 <= i < j < names.len() ==> text_le(#[trigger] names[i], #[trigger] names[j]) && names[i]
            != names[j]
}

/// Inserting keeps the order and adds exactly the name.
pub proof fn lemma_with_name(names: Seq<Seq<char>>, name: Seq<char>)
    requires
        ascending(names),
    ensures
        ascending(with_name(names, name)),
        with_name(names, name).contains(name),
        forall|other: Seq<char>| #[trigger]
            with_name(names, name).contains(other) <==> names.contains(other) || other == name,
    decreases names.len(),
{
    let after = with_name(names, name);
    if names.len() == 0 {
        assert(after[0] == name);
    } else if names.last() == name {
        assert(names[names.len() - 1] == name);
    } else if text_le(names.last(), name) {
        assert(after[names.len() as int] == name);
        assert forall|i: int, j: int| 0 <= i < j < after.len() implies text_le(
            #[trigger] after[i],
            #[trigger] after[j],
        ) && after[i] != after[j] by {
            if j < names.len() {
                assert(text_le(names[i], names[j]));
            } else if i < names.len() - 1 {
                assert(text_le(names[i], names[names.len() - 1]));
                lemma_text_le_trans(names[i], names.last(), name);
                lemma_text_le_total(names[i], names.last());
                if names[i] == name {
                    lemma_text_le_total(names.last(), name);
                }
            }
        }
        assert forall|other: Seq<char>| #[trigger] after.contains(other) <==> names.contains(other)
            || other == name by {
            if names.contains(other) {
                let k = choose|k: int| 0 <= k < names.len() && names[k] == other;
                assert(after[k] == other);
            }
            if after.contains(other) && other != name {
                let k = choose|k: int| 0 <= k < after.len() && after[k] == other;
                assert(names[k] == other);
            }
        }
    } else {
        let init = names.drop_last();
        assert(ascending(init)) by {
            assert forall|i: int, j: int| 0 <= i < j < init.len() implies text_le(
                #[trigger] init[i],
                #[trigger] init[j],
            ) && init[i] != init[j] by {
                assert(text_le(names[i], names[j]));
            }
        }
        lemma_with_name(init, name);
        lemma_text_le_total(names.last(), name);
        let inner = with_name(init, name);
        assert forall|i: int, j: int| 0 <= i < j < after.len() implies text_le(
            #[trigger] after[i],
            #[trigger] after[j],
        ) && after[i] != after[j] by {
            if j < inner.len() {
                assert(text_le(inner[i], inner[j]));
            } else {
                assert(inner.contains(inner[i]));
                if inner[i] != name {
                    let k = choose|k: int| 0 <= k < init.len() && init[k] == inner[i];
                    assert(text_le(names[k], names[names.len() - 1]));
                }
            }
        }
        assert forall|other: Seq<char>| #[trigger] after.contains(other) <==> names.contains(other)
            || other == name by {
            if names.contains(other) {
                let k = choose|k: int| 0 <= k < names.len() && names[k] == other;
                if k < init.len() {
                    assert(init[k] == other);
                    assert(inner.contains(other));
                    let m = choose|m: int| 0 <= m < inner.len() && inner[m] == other;
                    assert(after[m] == other);
                } else {
                    assert(after[inner.len() as int] == other);
                }
            }
            if other == name {
                assert(inner.contains(name));
                let m = choose|m: int| 0 <= m < inner.len() && inner[m] == name;
                assert(after[m] == name);
            }
            if after.contains(other) && other != name {
                let m = choose|m: int| 0 <= m < after.len() && after[m] == other;
                if m < inner.len() {
                    assert(inner.contains(other));
                    let k = choose|k: int| 0 <= k < init.len() && init[k] == other;
                    assert(names[k] == other);
                } else {
                    assert(names[names.len() - 1] == other);
                }
            }
        }
    }
}

/// The names of the first `n` branches that point at a commit, in order and
/// each once.
pub open spec fn names_at(
    branches: Seq<(Seq<char>, Seq<char>)>,
    oid: Seq<char>,
    n: int,
) -> Seq<Seq<char>>
    decreases n,
{
    if n <= 0 {
        Seq::empty()
    } else if branches[n - 1].0 == oid {
        with_name(names_at(branches, oid, n - 1), branches[n - 1].1)
    } else {
        names_at(branches, oid, n - 1)
    }
}

/// The names at a commit are those of the branches that point at it, in
/// ascending order.
pub proof fn names_at_are_sorted(branches: Seq<(Seq<char>, Seq<char>)>, oid: Seq<char>, n: int)
    requires
        0 <= n <= branches.len(),
    ensures
        ascending(names_at(branches, oid, n)),
        forall|name: Seq<char>| #[trigger]
            names_at(branches, oid, n).contains(name) <==> exists|i: int|
                0 <= i < n && (#[trigger] branches[i]).0 == oid && branches[i].1 == name,
    decreases n,
{
    if n > 0 {
        names_at_are_sorted(branches, oid, n - 1);
        let before = names_at(branches, oid, n - 1);
        let after = names_at(branches, oid, n);
        if branches[n - 1].0 == oid {
            lemma_with_name(before, branches[n - 1].1);
        }
        assert forall|name: Seq<char>| #[trigger] after.contains(name) <==> exists|i: int|
            0 <= i < n && (#[trigger] branches[i]).0 == oid && branches[i].1 == name by {
            if after.contains(name) {
                if before.contains(name) {
                    let i = choose|i: int|
                        0 <= i < n - 1 && (#[trigger] branches[i]).0 == oid && branches[i].1
                            == name;
                    assert(branches[i].0 == oid);
                } else {
                    assert(branches[n - 1].1 == name);
                }
            }
            if exists|i: int|
                0 <= i < n && (#[trigger] branches[i]).0 == oid && branches[i].1 == name {
                let i = choose|i: int|
                    0 <= i < n && (#[trigger] branches[i]).0 == oid && branches[i].1 == name;
                if i < n - 1 {
                    assert(before.contains(name));
                }
            }
        }
    } else {
        assert forall|name: Seq<char>| !(#[trigger] names_at(branches, oid, n).contains(name)) by {}
    }
}

/// A name in a list; the length where it is missing.
pub open spec fn name_index(names: Seq<Seq<char>>, name: Seq<char>) -> int
    decreases names.len(),
{
    if names.len() == 0 {
        0
    } else if names[0] == name {
        0
    } else {
        1 + name_index(names.drop_first(), name)
    }
}

/// The names with the preferred one moved to the front, the others as they
/// stand.
pub open spec fn preferred_first(names: Seq<Seq<char>>, preferred: Option<Seq<char>>) -> Seq<
    Seq<char>,
> {
    match preferred {
        Some(name) => {
            let at = name_index(names, name);
            if 0 <= at < names.len() {
                seq![name] + names.remove(at)
            } else {
                names
            }
        },
        None => names,
    }
}

// ----------------------------------------------------------- the assembly

/// What the walk up the chain has found.
#[verifier::ext_equal]
pub struct WalkModel {
    pub targets: Seq<TargetModel>,
    /// Tip of the last target, or the base.
    pub tip: Seq<char>,
    /// Number of commits that the targets take up.
    pub taken: int,
}

pub open spec fn commits(old: Seq<char>, new: Seq<char>) -> ComparisonModel {
    ComparisonModel {
        old: EndpointModel::Commit { oid: old },
        new: EndpointModel::Commit { oid: new },
    }
}

/// The names at a commit, the checked-out branch first.
pub open spec fn tip_names(input: StackInputModel, oid: Seq<char>) -> Seq<Seq<char>> {
    preferred_first(
        names_at(input.branches, oid, input.branches.len() as int),
        input.current_branch,
    )
}

/// The walk over the first `n` commits: every commit that a branch points at
/// ends a target, which takes up the commits since the one before.
pub open spec fn walk(input: StackInputModel, n: int) -> WalkModel
    decreases n,
{
    if n <= 0 {
        WalkModel { targets: Seq::empty(), tip: input.base, taken: 0 }
    } else {
        let before = walk(input, n - 1);
        let at = input.chain[n - 1];
        let names = tip_names(input, at.oid);
        if names.len() == 0 {
            before
        } else {
            let target = TargetModel {
                id: TargetIdModel::Branch { name: names[0] },
                label: names[0],
                position: Some((before.targets.len() + 1) as u32),
                tip: Some(at.oid),
                commit_count: (n - before.taken) as u32,
                subject: Some(at.subject),
                aliases: names.drop_first(),
                comparison: commits(before.tip, at.oid),
            };
            WalkModel { targets: before.targets.push(target), tip: at.oid, taken: n }
        }
    }
}

/// The target of the commits above the topmost branch, where there are some.
pub open spec fn head_targets(input: StackInputModel) -> Seq<TargetModel> {
    let n = input.chain.len() as int;
    let w = walk(input, n);
    if n > 0 && w.taken != n {
        seq![
            TargetModel {
                id: TargetIdModel::Head,
                label: "head"@,
                position: None,
                tip: Some(input.head),
                commit_count: (n - w.taken) as u32,
                subject: Some(input.chain.last().subject),
                aliases: Seq::empty(),
                comparison: commits(w.tip, input.head),
            },
        ]
    } else {
        Seq::empty()
    }
}

/// The target of the whole chain, where it is not empty.
pub open spec fn whole_targets(input: StackInputModel) -> Seq<TargetModel> {
    if input.chain.len() > 0 {
        seq![
            TargetModel {
                id: TargetIdModel::Stack,
                label: "stack"@,
                position: None,
                tip: Some(input.head),
                commit_count: input.chain.len() as u32,
                subject: None,
                aliases: Seq::empty(),
                comparison: commits(input.base, input.head),
            },
        ]
    } else {
        Seq::empty()
    }
}

/// The target of the uncommitted changes, where there are some.
pub open spec fn worktree_targets(input: StackInputModel) -> Seq<TargetModel> {
    if input.dirty {
        seq![
            TargetModel {
                id: TargetIdModel::Worktree,
                label: "worktree"@,
                position: None,
                tip: None,
                commit_count: 0,
                subject: None,
                aliases: Seq::empty(),
                comparison: ComparisonModel {
                    old: EndpointModel::Commit { oid: input.head },
                    new: EndpointModel::Worktree,
                },
            },
        ]
    } else {
        Seq::empty()
    }
}

/// The stack that the facts make.
pub open spec fn stack_of(input: StackInputModel) -> StackModel {
    StackModel {
        trunk: input.trunk,
        base: input.base,
        head: input.head,
        targets: walk(input, input.chain.len() as int).targets + head_targets(input)
            + whole_targets(input) + worktree_targets(input),
    }
}

fn commit(oid: &str) -> (r: Endpoint)
    ensures
        r.deep_view() == (EndpointModel::Commit { oid: oid@ }),
{
    Endpoint::Commit { oid: copy_of(oid) }
}

/// Puts a name into a sorted list, once.
pub fn insert_name(names: &mut Vec<String>, name: &str)
    ensures
        final(names).deep_view() == with_name(old(names).deep_view(), name@),
{
    let ghost all = names.deep_view();
    let mut i: usize = names.len();
    assert(all.take(all.len() as int) =~= all);
    assert(with_name(all, name@) + all.skip(all.len() as int) =~= with_name(all, name@));
    while i > 0 && !in_order(names[i - 1].as_str(), name)
        invariant
            i <= names.len(),
            all == names.deep_view(),
            with_name(all, name@) == with_name(all.take(i as int), name@) + all.skip(i as int),
        decreases i,
    {
        let ghost here = all.take(i as int);
        assert(here.last() == names[i - 1]@);
        proof {
            lemma_text_le_total(here.last(), name@);
            assert(here.drop_last() =~= all.take(i - 1));
            assert(with_name(here, name@) =~= with_name(all.take(i - 1), name@).push(here.last()));
            assert(with_name(all.take(i - 1), name@).push(here.last()) + all.skip(i as int)
                =~= with_name(all.take(i - 1), name@) + all.skip(i - 1));
        }
        i -= 1;
    }
    let ghost here = all.take(i as int);
    if i > 0 && same_text(names[i - 1].as_str(), name) {
        assert(here.last() == names[i - 1]@);
        assert(here + all.skip(i as int) =~= all);
        return ;
    }
    if i > 0 {
        assert(here.last() == names[i - 1]@);
    }
    assert(with_name(here, name@) =~= here.push(name@));
    names.insert(i, copy_of(name));
    assert(names.deep_view() =~= here.push(name@) + all.skip(i as int));
}

/// The branch names at a commit, the current branch first.
fn collect_names(
    branches: &Vec<(String, String)>,
    oid: &str,
    current: &Option<String>,
) -> (r: Vec<String>)
    ensures
        r.deep_view() == preferred_first(
            names_at(branches.deep_view(), oid@, branches.len() as int),
            current.deep_view(),
        ),
{
    let ghost model = branches.deep_view();
    let mut names: Vec<String> = Vec::new();
    let mut i: usize = 0;
    assert(names.deep_view() =~= Seq::empty());
    while i < branches.len()
        invariant
            i <= branches.len(),
            model == branches.deep_view(),
            names.deep_view() == names_at(model, oid@, i as int),
        decreases branches.len() - i,
    {
        assert(model[i as int] == branches[i as int].deep_view());
        if same_text(branches[i].0.as_str(), oid) {
            insert_name(&mut names, branches[i].1.as_str());
        }
        i += 1;
    }
    if let Some(name) = current {
        let ghost all = names.deep_view();
        let mut at: usize = 0;
        assert(all.skip(0) =~= all);
        while at < names.len() && !same_text(names[at].as_str(), name.as_str())
            invariant
                at <= names.len(),
                all == names.deep_view(),
                name_index(all, name@) == at + name_index(all.skip(at as int), name@),
            decreases names.len() - at,
        {
            assert(all.skip(at as int)[0] == names[at as int]@);
            assert(all.skip(at as int).drop_first() =~= all.skip(at + 1));
            at += 1;
        }
        if at < names.len() {
            assert(all.skip(at as int)[0] == names[at as int]@);
            let current_name: String = names.remove(at);
            assert(names.deep_view() =~= all.remove(at as int));
            let ghost rest = names.deep_view();
            names.insert(0, current_name);
            assert(names.deep_view() =~= seq![name@] + rest);
        }
    }
    names
}

/// Turn discovery facts into a stack. Only branches whose oid is IN the
/// chain are PR tips (a branch at the merge-base or below is not part of
/// this stack: that is how a merged bottom PR disappears). Several branches
/// on one commit: the current branch wins, else alphabetical; the rest are
/// aliases. A top commit without a branch adds `head`; a non-empty chain
/// adds `stack`; a dirty tree adds `worktree`.
pub fn assemble_stack(input: StackInput) -> (r: Stack)
    requires
        input.chain@.len() <= u32::MAX,
    ensures
        r.deep_view() == stack_of(input.deep_view()),
{
    let ghost model = input.deep_view();
    let mut targets: Vec<Target> = Vec::new();
    let mut previous_tip: String = copy_of(input.base.as_str());
    let mut taken: usize = 0;
    let mut index: usize = 0;
    assert(targets.deep_view() =~= Seq::empty());
    while index < input.chain.len()
        invariant
            index <= input.chain.len() <= u32::MAX,
            model == input.deep_view(),
            taken <= index,
            targets.len() <= index,
            targets.deep_view() == walk(model, index as int).targets,
            previous_tip@ == walk(model, index as int).tip,
            taken == walk(model, index as int).taken,
        decreases input.chain.len() - index,
    {
        let commit_at: &ChainCommit = &input.chain[index];
        assert(model.chain[index as int] == commit_at.deep_view());
        let mut names: Vec<String> = collect_names(
            &input.branches,
            commit_at.oid.as_str(),
            &input.current_branch,
        );
        if names.len() > 0 {
            let ghost all = names.deep_view();
            let ghost before = targets.deep_view();
            let first: String = names.remove(0);
            assert(names.deep_view() =~= all.drop_first());
            let target = Target {
                id: TargetId::Branch { name: copy_of(first.as_str()) },
                label: first,
                position: Some((targets.len() + 1) as u32),
                tip: Some(copy_of(commit_at.oid.as_str())),
                commit_count: (index + 1 - taken) as u32,
                subject: Some(copy_of(commit_at.subject.as_str())),
                aliases: names,
                comparison: Comparison {
                    old: commit(previous_tip.as_str()),
                    new: commit(commit_at.oid.as_str()),
                },
            };
            let ghost target_model = target.deep_view();
            targets.push(target);
            assert(targets.deep_view() =~= before.push(target_model));
            previous_tip = copy_of(commit_at.oid.as_str());
            taken = index + 1;
        }
        index += 1;
    }
    let count: usize = input.chain.len();
    if count > 0 && taken != count {
        let ghost before = targets.deep_view();
        let top: &ChainCommit = &input.chain[count - 1];
        assert(model.chain.last() == top.deep_view());
        let target = Target {
            id: TargetId::Head,
            label: copy_of("head"),
            position: None,
            tip: Some(copy_of(input.head.as_str())),
            commit_count: (count - taken) as u32,
            subject: Some(copy_of(top.subject.as_str())),
            aliases: Vec::new(),
            comparison: Comparison {
                old: commit(previous_tip.as_str()),
                new: commit(input.head.as_str()),
            },
        };
        let ghost target_model = target.deep_view();
        assert(target_model.aliases =~= Seq::empty());
        targets.push(target);
        assert(targets.deep_view() =~= before.push(target_model));
    }
    assert(targets.deep_view() =~= walk(model, count as int).targets + head_targets(model));
    if count > 0 {
        let ghost before = targets.deep_view();
        let target = Target {
            id: TargetId::Stack,
            label: copy_of("stack"),
            position: None,
            tip: Some(copy_of(input.head.as_str())),
            commit_count: count as u32,
            subject: None,
            aliases: Vec::new(),
            comparison: Comparison {
                old: commit(input.base.as_str()),
                new: commit(input.head.as_str()),
            },
        };
        let ghost target_model = target.deep_view();
        assert(target_model.aliases =~= Seq::empty());
        targets.push(target);
        assert(targets.deep_view() =~= before.push(target_model));
    }
    assert(targets.deep_view() =~= walk(model, count as int).targets + head_targets(model)
        + whole_targets(model));
    if input.dirty {
        let ghost before = targets.deep_view();
        let target = Target {
            id: TargetId::Worktree,
            label: copy_of("worktree"),
            position: None,
            tip: None,
            commit_count: 0,
            subject: None,
            aliases: Vec::new(),
            comparison: Comparison {
                old: commit(input.head.as_str()),
                new: Endpoint::Worktree,
            },
        };
        let ghost target_model = target.deep_view();
        assert(target_model.aliases =~= Seq::empty());
        targets.push(target);
        assert(targets.deep_view() =~= before.push(target_model));
    }
    assert(targets.deep_view() =~= stack_of(model).targets);
    Stack { trunk: input.trunk, base: input.base, head: input.head, targets }
}

// ---------------------------------------------------------------------- laws

/// Number of commits that the targets say they add, all together.
pub open spec fn commits_added(targets: Seq<TargetModel>, n: int) -> int
    decreases n,
{
    if n <= 0 {
        0
    } else {
        commits_added(targets, n - 1) + targets[n - 1].commit_count
    }
}

proof fn lemma_commits_added_prefix(a: Seq<TargetModel>, b: Seq<TargetModel>, n: int)
    requires
        0 <= n <= a.len(),
        n <= b.len(),
        forall|i: int| 0 <= i < n ==> a[i] == b[i],
    ensures
        commits_added(a, n) == commits_added(b, n),
    decreases n,
{
    if n > 0 {
        lemma_commits_added_prefix(a, b, n - 1);
    }
}

/// Where each target starts: at the tip of the one below, the first at the
/// base.
pub open spec fn targets_tile(targets: Seq<TargetModel>, base: Seq<char>) -> bool {
    forall|i: int|
        0 <= i < targets.len() ==> (#[trigger] targets[i]).tip is Some && targets[i].comparison
            == commits(
            if i == 0 {
                base
            } else {
                targets[i - 1].tip->0
            },
            targets[i].tip->0,
        )
}

proof fn lemma_walk(input: StackInputModel, n: int)
    requires
        0 <= n <= input.chain.len() <= u32::MAX,
    ensures
        ({
            let w = walk(input, n);
            &&& 0 <= w.taken <= n
            &&& w.targets.len() <= w.taken
            &&& commits_added(w.targets, w.targets.len() as int) == w.taken
            &&& targets_tile(w.targets, input.base)
            &&& w.tip == if w.targets.len() == 0 {
                input.base
            } else {
                w.targets.last().tip->0
            }
        }),
    decreases n,
{
    if n > 0 {
        lemma_walk(input, n - 1);
        let before = walk(input, n - 1);
        let after = walk(input, n);
        if after.targets.len() > before.targets.len() {
            lemma_commits_added_prefix(
                before.targets,
                after.targets,
                before.targets.len() as int,
            );
            assert forall|i: int| 0 <= i < after.targets.len() implies (
            #[trigger] after.targets[i]).tip is Some && after.targets[i].comparison == commits(
                if i == 0 {
                    input.base
                } else {
                    after.targets[i - 1].tip->0
                },
                after.targets[i].tip->0,
            ) by {
                if i < before.targets.len() {
                    assert(before.targets[i].tip is Some);
                }
            }
        }
    }
}

/// The branch and head targets tile the stack: each starts where the one
/// below ends, the first at the base, and together they add every commit of
/// the chain exactly once.
pub proof fn targets_tile_the_stack(input: StackInputModel)
    requires
        input.chain.len() <= u32::MAX,
    ensures
        ({
            let targets = walk(input, input.chain.len() as int).targets + head_targets(input);
            &&& targets_tile(targets, input.base)
            &&& commits_added(targets, targets.len() as int) == input.chain.len()
        }),
{
    let n = input.chain.len() as int;
    lemma_walk(input, n);
    let w = walk(input, n);
    let targets = w.targets + head_targets(input);
    lemma_commits_added_prefix(w.targets, targets, w.targets.len() as int);
    assert forall|i: int| 0 <= i < targets.len() implies (#[trigger] targets[i]).tip is Some
        && targets[i].comparison == commits(
        if i == 0 {
            input.base
        } else {
            targets[i - 1].tip->0
        },
        targets[i].tip->0,
    ) by {
        if i < w.targets.len() {
            assert(w.targets[i].tip is Some);
        }
    }
}

// A shape key can be taken apart again.

/// Whether `]` and `;` stand next to each other in a text.
pub open spec fn closes_early(s: Seq<char>) -> bool {
    exists|i: int| 0 <= i < s.len() - 1 && #[trigger] s[i] == ']' && s[i + 1] == ';'
}

/// Whether a target's names and tip keep clear of the marks between the parts
/// of a shape key. Object ids do, and git allows no `[` in a branch name.
pub open spec fn plainly_named(target: TargetModel) -> bool {
    &&& !target.id.key().contains('[')
    &&& target.tip matches Some(tip) ==> !tip.contains('=') && !tip.contains('[') && tip != "-"@
    &&& forall|i: int|
        0 <= i < target.aliases.len() ==> (#[trigger] target.aliases[i]).len() > 0
            && !target.aliases[i].contains(',') && !closes_early(target.aliases[i])
}

/// Whether a stack's ends and all its targets keep clear of those marks.
pub open spec fn plainly_named_stack(stack: StackModel) -> bool {
    &&& !stack.base.contains('\u{1}')
    &&& !stack.head.contains('\u{1}')
    &&& forall|i: int| 0 <= i < stack.targets.len() ==> plainly_named(#[trigger] stack.targets[i])
}

/// Whether a strip draws two targets at the same place with the same names.
pub open spec fn same_shape(a: TargetModel, b: TargetModel) -> bool {
    a.id == b.id && a.tip == b.tip && a.aliases == b.aliases
}

/// A text is cut in one way at the first occurrence of a mark.
proof fn lemma_cut_first(a: Seq<char>, x: Seq<char>, b: Seq<char>, y: Seq<char>, mark: char)
    requires
        a + seq![mark] + x == b + seq![mark] + y,
        !a.contains(mark),
        !b.contains(mark),
    ensures
        a == b,
        x == y,
{
    let l = a + seq![mark] + x;
    let r = b + seq![mark] + y;
    assert(l[a.len() as int] == mark);
    assert(r[b.len() as int] == mark);
    if a.len() < b.len() {
        assert(b[a.len() as int] == mark);
    } else if b.len() < a.len() {
        assert(a[b.len() as int] == mark);
    }
    assert(a =~= l.take(a.len() as int));
    assert(b =~= r.take(b.len() as int));
    assert(x =~= l.skip(a.len() as int + 1));
    assert(y =~= r.skip(b.len() as int + 1));
}

/// A text is cut in one way at the last occurrence of a mark.
proof fn lemma_cut_last(a: Seq<char>, x: Seq<char>, b: Seq<char>, y: Seq<char>, mark: char)
    requires
        a + seq![mark] + x == b + seq![mark] + y,
        !x.contains(mark),
        !y.contains(mark),
    ensures
        a == b,
        x == y,
{
    let l = a + seq![mark] + x;
    let r = b + seq![mark] + y;
    assert(l[a.len() as int] == mark);
    assert(r[b.len() as int] == mark);
    assert(l == r);
    assert(l.len() == a.len() + 1 + x.len() && r.len() == b.len() + 1 + y.len());
    if a.len() < b.len() {
        assert(l[b.len() as int] == x[b.len() - a.len() - 1]);
    } else if b.len() < a.len() {
        assert(r[a.len() as int] == y[a.len() - b.len() - 1]);
    }
    assert(a =~= l.take(a.len() as int));
    assert(b =~= r.take(b.len() as int));
    assert(x =~= l.skip(a.len() as int + 1));
    assert(y =~= r.skip(b.len() as int + 1));
}

/// A text is cut in one way where `];` first stands.
proof fn lemma_cut_close(a: Seq<char>, x: Seq<char>, b: Seq<char>, y: Seq<char>)
    requires
        a + "];"@ + x == b + "];"@ + y,
        !closes_early(a),
        !closes_early(b),
    ensures
        a == b,
        x == y,
{
    reveal_strlit("];");
    let l = a + "];"@ + x;
    let r = b + "];"@ + y;
    assert(l[a.len() as int] == ']' && l[a.len() as int + 1] == ';');
    assert(r[b.len() as int] == ']' && r[b.len() as int + 1] == ';');
    if a.len() < b.len() {
        assert(b[a.len() as int] == ']');
        if a.len() + 1 < b.len() {
            assert(b[a.len() as int + 1] == ';');
        }
    } else if b.len() < a.len() {
        assert(a[b.len() as int] == ']');
        if b.len() + 1 < a.len() {
            assert(a[b.len() as int + 1] == ';');
        }
    }
    assert(a =~= l.take(a.len() as int));
    assert(b =~= r.take(b.len() as int));
    assert(x =~= l.skip(a.len() as int + 2));
    assert(y =~= r.skip(b.len() as int + 2));
}

/// Aliases put together do not close early, where none of them does.
proof fn lemma_joined_stays_open(parts: Seq<Seq<char>>)
    requires
        forall|i: int| 0 <= i < parts.len() ==> !closes_early(#[trigger] parts[i]),
    ensures
        !closes_early(join_with(parts, ","@)),
    decreases parts.len(),
{
    reveal_strlit(",");
    if parts.len() > 1 {
        let before = parts.drop_last();
        assert forall|i: int| 0 <= i < before.len() implies !closes_early(#[trigger] before[i]) by {
            assert(before[i] == parts[i]);
        }
        lemma_joined_stays_open(before);
        let front = join_with(before, ","@);
        let all = join_with(parts, ","@);
        assert(!closes_early(parts[parts.len() - 1]));
        if closes_early(all) {
            let i = choose|i: int|
                0 <= i < all.len() - 1 && #[trigger] all[i] == ']' && all[i + 1] == ';';
            if i + 1 < front.len() {
                assert(front[i] == ']' && front[i + 1] == ';');
            } else if i > front.len() {
                let k = i - front.len() - 1;
                assert(parts.last()[k] == ']' && parts.last()[k + 1] == ';');
            }
        }
    }
}

/// A list of names without commas can be read off the joined text.
proof fn lemma_joined_apart(a: Seq<Seq<char>>, b: Seq<Seq<char>>)
    requires
        forall|i: int|
            0 <= i < a.len() ==> (#[trigger] a[i]).len() > 0 && !a[i].contains(','),
        forall|i: int|
            0 <= i < b.len() ==> (#[trigger] b[i]).len() > 0 && !b[i].contains(','),
        join_with(a, ","@) == join_with(b, ","@),
    ensures
        a == b,
    decreases a.len(),
{
    reveal_strlit(",");
    assert(","@ =~= seq![',']);
    let text = join_with(a, ","@);
    if a.len() > 0 {
        assert(a[a.len() - 1].len() > 0);
    }
    if b.len() > 0 {
        assert(b[b.len() - 1].len() > 0);
    }
    if a.len() > 1 && b.len() > 1 {
        let front = a.drop_last();
        let other = b.drop_last();
        assert(!a[a.len() - 1].contains(',') && !b[b.len() - 1].contains(','));
        lemma_cut_last(
            join_with(front, ","@),
            a.last(),
            join_with(other, ","@),
            b.last(),
            ',',
        );
        assert forall|i: int| 0 <= i < front.len() implies (#[trigger] front[i]).len() > 0
            && !front[i].contains(',') by {
            assert(front[i] == a[i]);
        }
        assert forall|i: int| 0 <= i < other.len() implies (#[trigger] other[i]).len() > 0
            && !other[i].contains(',') by {
            assert(other[i] == b[i]);
        }
        lemma_joined_apart(front, other);
        assert(a =~= front.push(a.last()));
        assert(b =~= other.push(b.last()));
    } else if a.len() > 1 {
        let at = join_with(a.drop_last(), ","@).len() as int;
        assert(text[at] == ',');
        if b.len() == 1 {
            assert(!b[0].contains(','));
            assert(b[0][at] == ',');
        }
    } else if b.len() > 1 {
        let at = join_with(b.drop_last(), ","@).len() as int;
        assert(text[at] == ',');
        if a.len() == 1 {
            assert(!a[0].contains(','));
            assert(a[0][at] == ',');
        }
    }
    assert(a =~= b);
}

/// What a key says of its id.
proof fn lemma_keys_differ(a: TargetIdModel, b: TargetIdModel)
    requires
        a.key() == b.key(),
    ensures
        a == b,
{
    reveal_strlit("branch:");
    reveal_strlit("stack");
    reveal_strlit("worktree");
    reveal_strlit("head");
    assert("stack"@.len() == 5 && "worktree"@.len() == 8 && "head"@.len() == 4);
    assert("worktree"@[6] == 'e' && "stack"@[0] == 's' && "head"@[0] == 'h');
    if let TargetIdModel::Branch { name } = a {
        assert(a.key()[6] == ':' && a.key().len() == 7 + name.len());
        assert(name =~= a.key().skip(7));
    }
    if let TargetIdModel::Branch { name } = b {
        assert(b.key()[6] == ':' && b.key().len() == 7 + name.len());
        assert(name =~= b.key().skip(7));
    }
}

/// The first target can be read off the text of the targets.
proof fn lemma_first_shape(a: TargetModel, x: Seq<char>, b: TargetModel, y: Seq<char>)
    requires
        plainly_named(a),
        plainly_named(b),
        target_shape(a) + x == target_shape(b) + y,
    ensures
        same_shape(a, b),
        x == y,
{
    reveal_strlit("=");
    reveal_strlit("[");
    reveal_strlit("-");
    let tip_a = match a.tip {
        Some(tip) => tip,
        None => "-"@,
    };
    let tip_b = match b.tip {
        Some(tip) => tip,
        None => "-"@,
    };
    let name_a = a.id.key() + seq!['='] + tip_a;
    let name_b = b.id.key() + seq!['='] + tip_b;
    let rest_a = join_with(a.aliases, ","@) + "];"@ + x;
    let rest_b = join_with(b.aliases, ","@) + "];"@ + y;
    assert(target_shape(a) + x =~= name_a + seq!['['] + rest_a);
    assert(target_shape(b) + y =~= name_b + seq!['['] + rest_b);
    assert(!name_a.contains('[')) by {
        assert forall|i: int| 0 <= i < name_a.len() implies name_a[i] != '[' by {
            if i < a.id.key().len() {
                assert(name_a[i] == a.id.key()[i]);
            } else if i > a.id.key().len() {
                assert(name_a[i] == tip_a[i - a.id.key().len() - 1]);
            }
        }
    }
    assert(!name_b.contains('[')) by {
        assert forall|i: int| 0 <= i < name_b.len() implies name_b[i] != '[' by {
            if i < b.id.key().len() {
                assert(name_b[i] == b.id.key()[i]);
            } else if i > b.id.key().len() {
                assert(name_b[i] == tip_b[i - b.id.key().len() - 1]);
            }
        }
    }
    lemma_cut_first(name_a, rest_a, name_b, rest_b, '[');
    lemma_cut_last(a.id.key(), tip_a, b.id.key(), tip_b, '=');
    lemma_keys_differ(a.id, b.id);
    lemma_joined_stays_open(a.aliases);
    lemma_joined_stays_open(b.aliases);
    lemma_cut_close(join_with(a.aliases, ","@), x, join_with(b.aliases, ","@), y);
    lemma_joined_apart(a.aliases, b.aliases);
}

/// The text of some targets begins with that of the first.
proof fn lemma_shape_front(targets: Seq<TargetModel>, n: int)
    requires
        0 < n <= targets.len(),
    ensures
        shape_of(targets, n) == target_shape(targets[0]) + shape_of(targets.skip(1), n - 1),
    decreases n,
{
    let rest = targets.skip(1);
    if n == 1 {
        assert(shape_of(targets, 0) =~= Seq::empty());
        assert(shape_of(targets, 1) =~= target_shape(targets[0]));
    } else {
        lemma_shape_front(targets, n - 1);
        assert(rest[n - 2] == targets[n - 1]);
    }
    assert(shape_of(targets, n) =~= target_shape(targets[0]) + shape_of(rest, n - 1));
}

proof fn lemma_shape_not_empty(target: TargetModel)
    ensures
        target_shape(target).len() > 0,
{
    reveal_strlit("=");
}

proof fn lemma_shapes_apart(a: Seq<TargetModel>, b: Seq<TargetModel>)
    requires
        forall|i: int| 0 <= i < a.len() ==> plainly_named(#[trigger] a[i]),
        forall|i: int| 0 <= i < b.len() ==> plainly_named(#[trigger] b[i]),
        shape_of(a, a.len() as int) == shape_of(b, b.len() as int),
    ensures
        a.len() == b.len(),
        forall|i: int| 0 <= i < a.len() ==> same_shape(#[trigger] a[i], b[i]),
    decreases a.len(),
{
    if a.len() == 0 {
        assert(shape_of(a, 0).len() == 0);
    }
    if b.len() == 0 {
        assert(shape_of(b, 0).len() == 0);
    }
    if a.len() > 0 {
        lemma_shape_front(a, a.len() as int);
        lemma_shape_not_empty(a[0]);
    }
    if b.len() > 0 {
        lemma_shape_front(b, b.len() as int);
        lemma_shape_not_empty(b[0]);
    }
    if a.len() > 0 && b.len() > 0 {
        let x = a.skip(1);
        let y = b.skip(1);
        lemma_first_shape(
            a[0],
            shape_of(x, x.len() as int),
            b[0],
            shape_of(y, y.len() as int),
        );
        assert forall|i: int| 0 <= i < x.len() implies plainly_named(#[trigger] x[i]) by {
            assert(x[i] == a[i + 1]);
        }
        assert forall|i: int| 0 <= i < y.len() implies plainly_named(#[trigger] y[i]) by {
            assert(y[i] == b[i + 1]);
        }
        lemma_shapes_apart(x, y);
        assert forall|i: int| 0 <= i < a.len() implies same_shape(#[trigger] a[i], b[i]) by {
            if i > 0 {
                assert(same_shape(x[i - 1], y[i - 1]));
            }
        }
    }
}

/// The shape key changes whenever the strip must repaint: two stacks with the
/// same key have the same ends and the same targets, with the same tips and
/// aliases. This takes names that keep clear of the marks between the parts.
pub proof fn shape_keys_tell_stacks_apart(a: StackModel, b: StackModel)
    requires
        plainly_named_stack(a),
        plainly_named_stack(b),
        a.shape_key() == b.shape_key(),
    ensures
        a.base == b.base,
        a.head == b.head,
        a.targets.len() == b.targets.len(),
        forall|i: int|
            0 <= i < a.targets.len() ==> same_shape(#[trigger] a.targets[i], b.targets[i]),
{
    reveal_strlit("\u{1}");
    let x = shape_of(a.targets, a.targets.len() as int);
    let y = shape_of(b.targets, b.targets.len() as int);
    let mark = seq!['\u{1}'];
    assert(a.shape_key() =~= a.base + mark + (a.head + mark + x));
    assert(b.shape_key() =~= b.base + mark + (b.head + mark + y));
    lemma_cut_first(a.base, a.head + mark + x, b.base, b.head + mark + y, '\u{1}');
    lemma_cut_first(a.head, x, b.head, y, '\u{1}');
    lemma_shapes_apart(a.targets, b.targets);
}

// Which branches the targets stand for.

/// Whether a branch with this name points at a commit.
pub open spec fn points_at(input: StackInputModel, name: Seq<char>, oid: Seq<char>) -> bool {
    exists|i: int|
        0 <= i < input.branches.len() && (#[trigger] input.branches[i]).0 == oid
            && input.branches[i].1 == name
}

/// Whether a name stands for its commit: it is the checked-out branch, or that
/// is elsewhere and no other name there comes before it.
pub open spec fn leads(input: StackInputModel, name: Seq<char>, oid: Seq<char>) -> bool {
    input.current_branch == Some(name) || {
        &&& input.current_branch matches Some(current) ==> !points_at(input, current, oid)
        &&& forall|other: Seq<char>| #[trigger]
            points_at(input, other, oid) ==> text_le(name, other)
    }
}

/// Whether no two branches have the same name.
pub open spec fn branches_distinct(input: StackInputModel) -> bool {
    forall|i: int, j: int|
        0 <= i < j < input.branches.len() ==> (#[trigger] input.branches[i]).1 != (
        #[trigger] input.branches[j]).1
}

/// Whether a commit is in the chain.
pub open spec fn in_chain(input: StackInputModel, oid: Seq<char>) -> bool {
    exists|k: int| 0 <= k < input.chain.len() && (#[trigger] input.chain[k]).oid == oid
}

/// Whether a target is that of a commit's names.
spec fn made_of(target: TargetModel, names: Seq<Seq<char>>, oid: Seq<char>) -> bool {
    &&& names.len() > 0
    &&& target.id == (TargetIdModel::Branch { name: names[0] })
    &&& target.tip == Some(oid)
    &&& target.aliases == names.drop_first()
}

proof fn lemma_name_index(names: Seq<Seq<char>>, name: Seq<char>)
    ensures
        0 <= name_index(names, name) <= names.len(),
        name_index(names, name) < names.len() <==> names.contains(name),
        name_index(names, name) < names.len() ==> names[name_index(names, name)] == name,
    decreases names.len(),
{
    if names.len() > 0 {
        let rest = names.drop_first();
        lemma_name_index(rest, name);
        if names.contains(name) && names[0] != name {
            let k = choose|k: int| 0 <= k < names.len() && names[k] == name;
            assert(rest[k - 1] == name);
        }
    }
}

/// The names at a commit: all that point at it; the first leads, the others
/// follow in ascending order.
proof fn lemma_tip_names(input: StackInputModel, oid: Seq<char>)
    ensures
        ({
            let names = tip_names(input, oid);
            &&& forall|name: Seq<char>| #[trigger]
                points_at(input, name, oid) ==> names.len() > 0
            &&& names.len() > 0 ==> {
                &&& points_at(input, names[0], oid)
                &&& leads(input, names[0], oid)
                &&& ascending(names.drop_first())
                &&& forall|name: Seq<char>| #[trigger]
                    names.drop_first().contains(name) <==> name != names[0] && points_at(
                        input,
                        name,
                        oid,
                    )
            }
        }),
{
    let n = input.branches.len() as int;
    let sorted = names_at(input.branches, oid, n);
    let names = tip_names(input, oid);
    names_at_are_sorted(input.branches, oid, n);
    assert forall|name: Seq<char>| #[trigger] points_at(input, name, oid) <==> sorted.contains(
        name,
    ) by {}
    assert forall|name: Seq<char>| #[trigger] points_at(input, name, oid) implies names.len()
        > 0 by {
        assert(sorted.contains(name));
    }
    if names.len() > 0 {
        let rest = names.drop_first();
        let at = match input.current_branch {
            Some(current) => {
                lemma_name_index(sorted, current);
                if sorted.contains(current) {
                    name_index(sorted, current)
                } else {
                    0
                }
            },
            None => 0,
        };
        assert(sorted.len() > 0);
        assert(names[0] == sorted[at]);
        assert(rest =~= sorted.remove(at));
        assert(sorted.contains(names[0]));
        assert(points_at(input, names[0], oid));
        if input.current_branch != Some(names[0]) {
            assert forall|other: Seq<char>| #[trigger] points_at(input, other, oid) implies text_le(
                names[0],
                other,
            ) by {
                let k = choose|k: int| 0 <= k < sorted.len() && sorted[k] == other;
                if k > 0 {
                    assert(text_le(sorted[0], sorted[k]));
                } else {
                    lemma_text_le_total(names[0], names[0]);
                }
            }
        }
        assert forall|i: int, j: int| 0 <= i < j < rest.len() implies text_le(
            #[trigger] rest[i],
            #[trigger] rest[j],
        ) && rest[i] != rest[j] by {
            let a = if i < at {
                i
            } else {
                i + 1
            };
            let b = if j < at {
                j
            } else {
                j + 1
            };
            assert(text_le(sorted[a], sorted[b]) && sorted[a] != sorted[b]);
        }
        assert forall|name: Seq<char>| #[trigger] rest.contains(name) <==> name != names[0]
            && points_at(input, name, oid) by {
            if rest.contains(name) {
                let i = choose|i: int| 0 <= i < rest.len() && rest[i] == name;
                let a = if i < at {
                    i
                } else {
                    i + 1
                };
                assert(sorted[a] == name);
                if a < at {
                    assert(sorted[a] != sorted[at]);
                } else {
                    assert(sorted[at] != sorted[a]);
                }
            }
            if name != names[0] && points_at(input, name, oid) {
                let a = choose|a: int| 0 <= a < sorted.len() && sorted[a] == name;
                if a < at {
                    assert(rest[a] == name);
                } else {
                    assert(rest[a - 1] == name);
                }
            }
        }
    }
}

/// The targets of the walk are those of the commits that a branch points at.
proof fn lemma_walk_targets(input: StackInputModel, n: int)
    requires
        0 <= n <= input.chain.len(),
    ensures
        forall|i: int|
            0 <= i < walk(input, n).targets.len() ==> exists|k: int|
                0 <= k < n && made_of(
                    #[trigger] walk(input, n).targets[i],
                    tip_names(input, (#[trigger] input.chain[k]).oid),
                    input.chain[k].oid,
                ),
        forall|k: int|
            0 <= k < n && tip_names(input, (#[trigger] input.chain[k]).oid).len() > 0
                ==> exists|i: int|
                0 <= i < walk(input, n).targets.len() && made_of(
                    #[trigger] walk(input, n).targets[i],
                    tip_names(input, input.chain[k].oid),
                    input.chain[k].oid,
                ),
    decreases n,
{
    if n > 0 {
        lemma_walk_targets(input, n - 1);
        let before = walk(input, n - 1).targets;
        let after = walk(input, n).targets;
        assert forall|i: int| 0 <= i < after.len() implies exists|k: int|
            0 <= k < n && made_of(
                #[trigger] after[i],
                tip_names(input, (#[trigger] input.chain[k]).oid),
                input.chain[k].oid,
            ) by {
            if i < before.len() {
                assert(after[i] == before[i]);
                let k = choose|k: int|
                    0 <= k < n - 1 && made_of(
                        before[i],
                        tip_names(input, (#[trigger] input.chain[k]).oid),
                        input.chain[k].oid,
                    );
                assert(made_of(
                    after[i],
                    tip_names(input, input.chain[k].oid),
                    input.chain[k].oid,
                ));
            } else {
                assert(made_of(
                    after[i],
                    tip_names(input, input.chain[n - 1].oid),
                    input.chain[n - 1].oid,
                ));
            }
        }
        assert forall|k: int|
            0 <= k < n && tip_names(input, (#[trigger] input.chain[k]).oid).len()
                > 0 implies exists|i: int|
            0 <= i < after.len() && made_of(
                #[trigger] after[i],
                tip_names(input, input.chain[k].oid),
                input.chain[k].oid,
            ) by {
            if k < n - 1 {
                let i = choose|i: int|
                    0 <= i < before.len() && made_of(
                        #[trigger] before[i],
                        tip_names(input, input.chain[k].oid),
                        input.chain[k].oid,
                    );
                assert(after[i] == before[i]);
            } else {
                assert(made_of(
                    after[before.len() as int],
                    tip_names(input, input.chain[k].oid),
                    input.chain[k].oid,
                ));
            }
        }
    }
}

/// What `target_index` means, without recursion.
proof fn lemma_target_index_means(targets: Seq<TargetModel>, id: TargetIdModel)
    ensures
        0 <= target_index(targets, id) <= targets.len(),
        target_index(targets, id) < targets.len() ==> targets[target_index(targets, id)].id == id,
        forall|k: int|
            0 <= k < targets.len() && (#[trigger] targets[k]).id == id ==> target_index(targets, id)
                <= k,
    decreases targets.len(),
{
    if targets.len() > 0 {
        let init = targets.drop_last();
        lemma_target_index_means(init, id);
        assert forall|k: int| 0 <= k < targets.len() && (#[trigger] targets[k]).id
            == id implies target_index(targets, id) <= k by {
            if k < init.len() {
                assert(init[k].id == id);
            }
        }
    }
}

/// A stack has a target for a branch exactly where the branch points into the
/// chain and leads its commit: it is the checked-out one, or that is elsewhere
/// and no other name at the commit comes before it. The target's tip is that
/// commit and its aliases are the other names there, in ascending order. A branch
/// that points elsewhere (at the base, or below) has no target.
pub proof fn branches_are_found_where_they_lead(input: StackInputModel, b: int)
    requires
        branches_distinct(input),
        0 <= b < input.branches.len(),
    ensures
        ({
            let (oid, name) = input.branches[b];
            let id = TargetIdModel::Branch { name };
            let stack = stack_of(input);
            let target = stack.targets[target_index(stack.targets, id)];
            &&& stack.has(id) <==> in_chain(input, oid) && leads(input, name, oid)
            &&& stack.has(id) ==> {
                &&& target.tip == Some(oid)
                &&& ascending(target.aliases)
                &&& forall|other: Seq<char>| #[trigger]
                    target.aliases.contains(other) <==> other != name && points_at(
                        input,
                        other,
                        oid,
                    )
            }
        }),
{
    let (oid, name) = input.branches[b];
    let id = TargetIdModel::Branch { name };
    let n = input.chain.len() as int;
    let walked = walk(input, n).targets;
    let all = stack_of(input).targets;
    let idx = target_index(all, id);
    lemma_walk_targets(input, n);
    lemma_target_index_means(all, id);
    assert(points_at(input, name, oid));
    lemma_tip_names(input, oid);
    let names = tip_names(input, oid);
    if idx < all.len() {
        assert(idx < walked.len()) by {
            if idx >= walked.len() {
                let tail = head_targets(input) + whole_targets(input) + worktree_targets(input);
                assert(all =~= walked + tail);
                assert(all[idx] == tail[idx - walked.len()]);
            }
        }
        assert(all[idx] == walked[idx]);
        let k = choose|k: int|
            0 <= k < n && made_of(
                walked[idx],
                tip_names(input, (#[trigger] input.chain[k]).oid),
                input.chain[k].oid,
            );
        let at = input.chain[k].oid;
        lemma_tip_names(input, at);
        assert(points_at(input, name, at));
        let c = choose|c: int|
            0 <= c < input.branches.len() && (#[trigger] input.branches[c]).0 == at
                && input.branches[c].1 == name;
        if c < b {
            assert(input.branches[c].1 != input.branches[b].1);
        } else if b < c {
            assert(input.branches[b].1 != input.branches[c].1);
        }
        assert(at == oid);
    }
    if in_chain(input, oid) && leads(input, name, oid) {
        let k = choose|k: int| 0 <= k < n && (#[trigger] input.chain[k]).oid == oid;
        assert(names[0] == name) by {
            if input.current_branch == Some(name) {
                // The first name leads too: it is the current one, since that
                // points here.
                assert(points_at(input, name, oid));
            } else {
                assert(points_at(input, names[0], oid));
                assert(text_le(name, names[0]));
                assert(text_le(names[0], name));
                lemma_text_le_total(name, names[0]);
            }
        }
        let i = choose|i: int|
            0 <= i < walked.len() && made_of(#[trigger] walked[i], names, oid);
        assert(all[i] == walked[i]);
        assert(all[i].id == id);
    }
}

} // verus!
