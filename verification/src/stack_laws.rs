//! What the targets of a stack are, told by the commits and branches that it
//! is made of.

use vstd::prelude::*;

use crate::source::EndpointModel;
use crate::stack::{
    head_targets, name_index, names_at, names_at_are_sorted, points_at, stack_of, target_index,
    target_named, tip_names, topmost_branch, walk, whole_targets, worktree_targets, StackInputModel,
    StackModel, TargetIdModel, TargetModel,
};

verus! {

/// Whether a branch points at a commit of the chain.
pub open spec fn has_branch(input: StackInputModel, c: int) -> bool {
    exists|i: int|
        0 <= i < input.branches.len() && (#[trigger] input.branches[i]).0 == input.chain[c].oid
}

/// Whether these positions of the chain are those that branches point at, in
/// order.
pub open spec fn are_ends(input: StackInputModel, ends: Seq<int>) -> bool {
    &&& forall|j: int, k: int| 0 <= j < k < ends.len() ==> #[trigger] ends[j] < #[trigger] ends[k]
    &&& forall|k: int|
        0 <= k < ends.len() ==> 0 <= (#[trigger] ends[k]) < input.chain.len() && has_branch(
            input,
            ends[k],
        )
    &&& forall|c: int|
        0 <= c < input.chain.len() && #[trigger] has_branch(input, c) ==> ends.contains(c)
}

/// The commit that ends the target below target `k`: the base below the
/// first.
pub open spec fn below_end(input: StackInputModel, ends: Seq<int>, k: int) -> Seq<char> {
    if k == 0 {
        input.base
    } else {
        input.chain[ends[k - 1]].oid
    }
}

/// How many commits of the chain stand up to the end of target `k - 1`.
pub open spec fn taken_below(ends: Seq<int>, k: int) -> int {
    if k == 0 {
        0
    } else {
        ends[k - 1] + 1
    }
}

/// Whether a target is one of a branch that ends at position `ends[k]`.
pub open spec fn is_branch_target(
    t: TargetModel,
    input: StackInputModel,
    ends: Seq<int>,
    k: int,
) -> bool {
    let at = input.chain[ends[k]];
    &&& t.id matches TargetIdModel::Branch { name } && t.label == name && points_at(
        input,
        name,
        at.oid,
    )
    &&& t.position == Some((k + 1) as u32)
    &&& t.tip == Some(at.oid)
    &&& t.subject == Some(at.subject)
    &&& t.commit_count == (ends[k] + 1 - taken_below(ends, k)) as u32
    &&& t.comparison.old == (EndpointModel::Commit { oid: below_end(input, ends, k) })
    &&& t.comparison.new == (EndpointModel::Commit { oid: at.oid })
}

/// Whether a target is that of commits up to the head.
pub open spec fn is_head_target(
    t: TargetModel,
    id: TargetIdModel,
    from: Seq<char>,
    count: int,
    input: StackInputModel,
) -> bool {
    &&& t.id == id
    &&& t.position is None
    &&& t.tip == Some(input.head)
    &&& t.commit_count == count as u32
    &&& t.aliases.len() == 0
    &&& t.comparison.old == (EndpointModel::Commit { oid: from })
    &&& t.comparison.new == (EndpointModel::Commit { oid: input.head })
}

/// Whether a target is that of the uncommitted changes.
pub open spec fn is_worktree_target(t: TargetModel, input: StackInputModel) -> bool {
    &&& t.id == TargetIdModel::Worktree
    &&& t.label == "worktree"@
    &&& t.position is None
    &&& t.tip is None
    &&& t.subject is None
    &&& t.commit_count == 0
    &&& t.aliases.len() == 0
    &&& t.comparison.old == (EndpointModel::Commit { oid: input.head })
    &&& t.comparison.new == EndpointModel::Worktree
}

/// Whether targets are those of the facts: one for each commit of the chain
/// that a branch points at, from the base up; one for what is above the last
/// of them; one for the whole chain, where there is one; and one for
/// uncommitted changes.
pub open spec fn describe(
    targets: Seq<TargetModel>,
    input: StackInputModel,
    ends: Seq<int>,
) -> bool {
    let m = ends.len() as int;
    let n = input.chain.len() as int;
    let loose = n > 0 && (m == 0 || ends[m - 1] != n - 1);
    let whole = m + if loose {
        1int
    } else {
        0
    };
    let work = whole + if n > 0 {
        1int
    } else {
        0
    };
    &&& are_ends(input, ends)
    &&& targets.len() == work + if input.dirty {
        1int
    } else {
        0
    }
    &&& forall|k: int| 0 <= k < m ==> is_branch_target(#[trigger] targets[k], input, ends, k)
    &&& loose ==> is_head_target(
        targets[m],
        TargetIdModel::Head,
        below_end(input, ends, m),
        n - taken_below(ends, m),
        input,
    ) && targets[m].label == "head"@ && targets[m].subject == Some(input.chain[n - 1].subject)
    &&& n > 0 ==> is_head_target(targets[whole], TargetIdModel::Stack, input.base, n, input)
        && targets[whole].label == "stack"@ && targets[whole].subject is None
    &&& input.dirty ==> is_worktree_target(targets[work], input)
}

/// A stack is what its commits and branches make it: every target stands for
/// the stretch of the chain between the end below it and its own, and says
/// so in its position, its count, its subject and its comparison.
pub proof fn targets_describe_the_chain(input: StackInputModel)
    requires
        input.chain.len() <= u32::MAX,
    ensures
        stack_of(input).trunk == input.trunk,
        stack_of(input).base == input.base,
        stack_of(input).head == input.head,
        exists|ends: Seq<int>| #[trigger] describe(stack_of(input).targets, input, ends),
{
    let n = input.chain.len() as int;
    lemma_walk_ends(input, n);
    let ends = ends_of(input, n);
    let w = walk(input, n);
    let all = stack_of(input).targets;
    let m = ends.len() as int;
    assert forall|k: int| 0 <= k < m implies is_branch_target(
        #[trigger] all[k],
        input,
        ends,
        k,
    ) by {
        assert(all[k] == w.targets[k]);
    }
    assert(are_ends(input, ends));
    let whole = m + head_targets(input).len();
    let work = whole + whole_targets(input).len();
    if head_targets(input).len() > 0 {
        assert(all[m] == head_targets(input)[0]);
    }
    if whole_targets(input).len() > 0 {
        assert(all[whole] == whole_targets(input)[0]);
    }
    if worktree_targets(input).len() > 0 {
        assert(all[work] == worktree_targets(input)[0]);
    }
    assert(describe(all, input, ends));
}

/// Whether a target has this id.
pub open spec fn some_target(stack: StackModel, id: TargetIdModel) -> bool {
    exists|k: int| 0 <= k < stack.targets.len() && (#[trigger] stack.targets[k]).id == id
}

/// Whether target `k` is the last of a branch.
pub open spec fn is_last_branch(stack: StackModel, k: int) -> bool {
    &&& 0 <= k < stack.targets.len()
    &&& stack.targets[k].id is Branch
    &&& forall|j: int| k < j < stack.targets.len() ==> !((#[trigger] stack.targets[j]).id is Branch)
}

/// What is shown first is the topmost branch; without one the whole stack,
/// without that the uncommitted changes, and nothing where there are none.
/// What is fallen back to is the whole stack, and otherwise the same.
pub proof fn first_views_go_from_the_top(stack: StackModel)
    ensures
        forall|k: int| #[trigger]
            is_last_branch(stack, k) ==> stack.default_target() == Some(stack.targets[k].id),
        (forall|k: int| !(#[trigger] is_last_branch(stack, k))) ==> stack.default_target()
            == if some_target(stack, TargetIdModel::Stack) {
            Some(TargetIdModel::Stack)
        } else if some_target(stack, TargetIdModel::Worktree) {
            Some(TargetIdModel::Worktree)
        } else {
            None
        },
        stack.fallback_target() == if some_target(stack, TargetIdModel::Stack) {
            Some(TargetIdModel::Stack)
        } else {
            stack.default_target()
        },
{
    lemma_topmost(stack, stack.targets.len() as int);
    lemma_index(stack.targets, TargetIdModel::Stack);
    lemma_index(stack.targets, TargetIdModel::Worktree);
}

/// A target is found exactly where the stack has it, and then the first one.
pub proof fn targets_are_found_by_id(stack: StackModel, id: TargetIdModel)
    ensures
        stack.has(id) <==> some_target(stack, id),
        stack.has(id) ==> {
            let k = target_index(stack.targets, id);
            &&& 0 <= k < stack.targets.len()
            &&& stack.targets[k].id == id
            &&& forall|j: int| 0 <= j < k ==> (#[trigger] stack.targets[j]).id != id
        },
{
    lemma_index(stack.targets, id);
}

/// A name that is no keyword and has no prefix is that of a branch; with the
/// prefix every name is, keywords too. Nothing names nothing.
pub proof fn names_name_branches(name: Seq<char>)
    ensures
        name.len() > 0 ==> target_named("branch:"@ + name) == Ok::<TargetIdModel, Seq<char>>(
            TargetIdModel::Branch { name },
        ),
        name.len() == 0 ==> target_named(name) is Err && target_named("branch:"@ + name) is Err,
        name.len() > 0 && name != "stack"@ && name != "worktree"@ && name != "head"@
            && !"branch:"@.is_prefix_of(name) ==> target_named(name) == Ok::<
            TargetIdModel,
            Seq<char>,
        >(TargetIdModel::Branch { name }),
        target_named("stack"@) == Ok::<TargetIdModel, Seq<char>>(TargetIdModel::Stack),
        target_named("worktree"@) == Ok::<TargetIdModel, Seq<char>>(TargetIdModel::Worktree),
        target_named("head"@) == Ok::<TargetIdModel, Seq<char>>(TargetIdModel::Head),
{
    reveal_strlit("branch:");
    reveal_strlit("stack");
    reveal_strlit("worktree");
    reveal_strlit("head");
    let full = "branch:"@ + name;
    assert(full[0] == 'b');
    assert("stack"@[0] == 's');
    assert("worktree"@[0] == 'w');
    assert("head"@[0] == 'h');
    assert("branch:"@.is_prefix_of(full)) by {
        assert(full.take(7) =~= "branch:"@);
    }
    assert(full.skip(7) =~= name);
}

proof fn lemma_index(targets: Seq<TargetModel>, id: TargetIdModel)
    ensures
        0 <= target_index(targets, id) <= targets.len(),
        target_index(targets, id) < targets.len() ==> targets[target_index(targets, id)].id == id,
        forall|j: int| 0 <= j < target_index(targets, id) ==> (#[trigger] targets[j]).id != id,
    decreases targets.len(),
{
    if targets.len() > 0 {
        let front = targets.drop_last();
        lemma_index(front, id);
        assert forall|j: int| 0 <= j < target_index(targets, id) implies (
        #[trigger] targets[j]).id != id by {
            if j < front.len() {
                assert(front[j] == targets[j]);
            }
        }
    }
}

proof fn lemma_topmost(stack: StackModel, n: int)
    requires
        0 <= n <= stack.targets.len(),
        forall|j: int|
            n <= j < stack.targets.len() ==> !((#[trigger] stack.targets[j]).id is Branch),
    ensures
        match topmost_branch(stack.targets, n) {
            Some(id) => id is Branch && exists|k: int| #[trigger]
                is_last_branch(stack, k) && stack.targets[k].id == id,
            None => forall|k: int| !(#[trigger] is_last_branch(stack, k)),
        },
        forall|k: int| #[trigger]
            is_last_branch(stack, k) ==> topmost_branch(stack.targets, n) == Some(
                stack.targets[k].id,
            ),
    decreases n,
{
    if n > 0 {
        if stack.targets[n - 1].id is Branch {
            assert(is_last_branch(stack, n - 1));
            assert forall|k: int| #[trigger] is_last_branch(stack, k) implies k == n - 1 by {
                if k < n - 1 {
                    assert(!(stack.targets[n - 1].id is Branch));
                } else if k > n - 1 {
                    assert(!(stack.targets[k].id is Branch));
                }
            }
        } else {
            lemma_topmost(stack, n - 1);
        }
    }
}

/// The ends among the first `n` commits.
spec fn ends_of(input: StackInputModel, n: int) -> Seq<int>
    decreases n,
{
    if n <= 0 {
        Seq::empty()
    } else if has_branch(input, n - 1) {
        ends_of(input, n - 1).push(n - 1)
    } else {
        ends_of(input, n - 1)
    }
}

proof fn lemma_names(input: StackInputModel, c: int)
    ensures
        ({
            let names = tip_names(input, input.chain[c].oid);
            &&& names.len() > 0 <==> has_branch(input, c)
            &&& names.len() > 0 ==> points_at(input, names[0], input.chain[c].oid)
        }),
{
    let oid = input.chain[c].oid;
    let n = input.branches.len() as int;
    let sorted = names_at(input.branches, oid, n);
    let names = tip_names(input, oid);
    names_at_are_sorted(input.branches, oid, n);
    if has_branch(input, c) {
        let i = choose|i: int| 0 <= i < n && (#[trigger] input.branches[i]).0 == oid;
        assert(sorted.contains(input.branches[i].1));
    }
    if names.len() > 0 {
        assert(sorted.contains(names[0])) by {
            if names == sorted {
                assert(sorted[0] == names[0]);
            } else {
                let preferred = input.current_branch->0;
                lemma_name_index(sorted, preferred);
                let at = name_index(sorted, preferred);
                assert(sorted[at] == preferred);
            }
        }
        let i = choose|i: int|
            0 <= i < n && (#[trigger] input.branches[i]).0 == oid && input.branches[i].1
                == names[0];
        assert(input.branches[i].0 == oid);
    }
}

proof fn lemma_name_index(names: Seq<Seq<char>>, name: Seq<char>)
    ensures
        0 <= name_index(names, name) <= names.len(),
        name_index(names, name) < names.len()
            ==> names[name_index(names, name)] == name,
    decreases names.len(),
{
    if names.len() > 0 && names[0] != name {
        lemma_name_index(names.drop_first(), name);
    }
}

proof fn lemma_walk_ends(input: StackInputModel, n: int)
    requires
        0 <= n <= input.chain.len() <= u32::MAX,
    ensures
        ({
            let w = walk(input, n);
            let ends = ends_of(input, n);
            let m = ends.len() as int;
            &&& w.targets.len() == m
            &&& m <= n
            &&& w.tip == below_end(input, ends, m)
            &&& w.taken == taken_below(ends, m)
            &&& forall|k: int|
                0 <= k < m ==> is_branch_target(#[trigger] w.targets[k], input, ends, k)
            &&& forall|j: int, k: int|
                0 <= j < k < ends.len() ==> #[trigger] ends[j] < #[trigger] ends[k]
            &&& forall|k: int|
                0 <= k < ends.len() ==> 0 <= (#[trigger] ends[k]) < n && has_branch(input, ends[k])
            &&& forall|c: int| 0 <= c < n && #[trigger] has_branch(input, c) ==> ends.contains(c)
        }),
    decreases n,
{
    if n > 0 {
        lemma_walk_ends(input, n - 1);
        lemma_names(input, n - 1);
        let before = ends_of(input, n - 1);
        let ends = ends_of(input, n);
        let w = walk(input, n);
        let w0 = walk(input, n - 1);
        assert forall|k: int| 0 <= k < ends.len() implies is_branch_target(
            #[trigger] w.targets[k],
            input,
            ends,
            k,
        ) by {
            if k < before.len() {
                assert(is_branch_target(w0.targets[k], input, before, k));
                assert(ends[k] == before[k]);
            }
        }
        assert forall|c: int| 0 <= c < n && #[trigger] has_branch(input, c) implies ends.contains(
            c,
        ) by {
            if c < n - 1 {
                let k = choose|k: int| 0 <= k < before.len() && before[k] == c;
                assert(ends[k] == c);
            } else {
                assert(ends.last() == c);
            }
        }
    }
}

} // verus!
