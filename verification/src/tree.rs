//! Collapsible file tree: build a trie from paths (always split on `/`),
//! collapse single-child directory chains, and flatten to display rows
//! against a list of collapsed directories, so all frontends show the
//! identical tree.

use vstd::prelude::*;

use crate::model::{FileEntry, FileEntryModel};
use crate::text::{
    char_seqs, chars_of, copy_of, in_order, lemma_text_le_total, same_text, split_chars, split_on,
    string_of, text_le, text_of_three,
};

verus! {

/// One node of the built tree.
#[derive(Debug, PartialEq, Eq)]
pub struct TreeNode {
    /// Display segment; collapsed chains join with `/` (e.g. `src/app/ui`).
    pub name: String,
    /// Full path of this node from the root.
    pub path: String,
    /// Index into the input file list for leaves; None for directories.
    pub file_index: Option<usize>,
    pub children: Vec<TreeNode>,
}

#[verifier::ext_equal]
pub struct NodeModel {
    pub name: Seq<char>,
    pub path: Seq<char>,
    pub file_index: Option<usize>,
    pub children: Seq<NodeModel>,
}

impl TreeNode {
    pub open spec fn model(self) -> NodeModel
        decreases self,
    {
        NodeModel {
            name: self.name@,
            path: self.path@,
            file_index: self.file_index,
            children: Seq::new(
                self.children@.len(),
                |i: int|
                    if 0 <= i < self.children@.len() {
                        self.children@[i].model()
                    } else {
                        arbitrary()
                    },
            ),
        }
    }
}

impl DeepView for TreeNode {
    type V = NodeModel;

    open spec fn deep_view(&self) -> NodeModel {
        self.model()
    }
}

impl NodeModel {
    pub open spec fn is_dir(self) -> bool {
        self.file_index is None
    }
}

impl TreeNode {
    pub fn is_dir(&self) -> (r: bool)
        ensures
            r == self.model().is_dir(),
    {
        self.file_index.is_none()
    }
}

proof fn lemma_node_children(node: TreeNode)
    ensures
        node.model().children == node.children.deep_view(),
{
    assert(node.model().children =~= node.children.deep_view());
}

impl Clone for TreeNode {
    fn clone(&self) -> (r: Self)
        ensures
            r.model() == self.model(),
    {
        copy_node(self)
    }
}

fn copy_node(node: &TreeNode) -> (r: TreeNode)
    ensures
        r.model() == node.model(),
    decreases node,
{
    let r = TreeNode {
        name: copy_of(node.name.as_str()),
        path: copy_of(node.path.as_str()),
        file_index: node.file_index,
        children: copy_nodes(&node.children),
    };
    proof {
        lemma_node_children(r);
        lemma_node_children(*node);
    }
    r
}

fn copy_nodes(nodes: &Vec<TreeNode>) -> (r: Vec<TreeNode>)
    ensures
        r.deep_view() == nodes.deep_view(),
    decreases nodes,
{
    let mut out: Vec<TreeNode> = Vec::new();
    let mut i: usize = 0;
    while i < nodes.len()
        invariant
            i <= nodes.len(),
            out.len() == i,
            forall|k: int| 0 <= k < i ==> (#[trigger] out@[k]).model() == nodes@[k].model(),
        decreases nodes.len() - i,
    {
        out.push(copy_node(&nodes[i]));
        i += 1;
    }
    assert(out.deep_view() =~= nodes.deep_view());
    out
}

/// One flattened display row.
#[derive(Debug, Clone, PartialEq, Eq)]
pub struct TreeRow {
    pub depth: usize,
    pub name: String,
    pub path: String,
    pub is_dir: bool,
    /// For directories: whether this row is currently collapsed.
    pub collapsed: bool,
    pub file_index: Option<usize>,
    /// Open/reopened comment count for this file leaf; 0 for directories and
    /// filled in by the caller (the projection derives it from the review,
    /// which this module knows nothing about).
    pub comments_todo: usize,
    /// Total comment count for this file leaf.
    pub comments_total: usize,
}

#[verifier::ext_equal]
pub struct TreeRowModel {
    pub depth: usize,
    pub name: Seq<char>,
    pub path: Seq<char>,
    pub is_dir: bool,
    pub collapsed: bool,
    pub file_index: Option<usize>,
    pub comments_todo: usize,
    pub comments_total: usize,
}

impl DeepView for TreeRow {
    type V = TreeRowModel;

    open spec fn deep_view(&self) -> TreeRowModel {
        TreeRowModel {
            depth: self.depth,
            name: self.name@,
            path: self.path@,
            is_dir: self.is_dir,
            collapsed: self.collapsed,
            file_index: self.file_index,
            comments_todo: self.comments_todo,
            comments_total: self.comments_total,
        }
    }
}

// ------------------------------------------------------------------ insertion

/// The pieces that are not empty.
pub open spec fn nonempty(parts: Seq<Seq<char>>) -> Seq<Seq<char>>
    decreases parts.len(),
{
    if parts.len() == 0 {
        Seq::empty()
    } else if parts.last().len() == 0 {
        nonempty(parts.drop_last())
    } else {
        nonempty(parts.drop_last()).push(parts.last())
    }
}

/// The segments of a path; empty ones do not count.
pub open spec fn segments_of(path: Seq<char>) -> Seq<Seq<char>> {
    nonempty(split_on(path, '/'))
}

/// First node with the name that is a directory or not; the length where
/// there is none.
pub open spec fn node_index(nodes: Seq<NodeModel>, name: Seq<char>, is_dir: bool) -> int
    decreases nodes.len(),
{
    if nodes.len() == 0 {
        0
    } else {
        let before = node_index(nodes.drop_last(), name, is_dir);
        if before < nodes.len() - 1 || (nodes.last().name == name && nodes.last().is_dir()
            == is_dir) {
            before
        } else {
            nodes.len() as int
        }
    }
}

/// A path one segment longer.
pub open spec fn joined(prefix: Seq<char>, segment: Seq<char>) -> Seq<char> {
    if prefix.len() == 0 {
        segment
    } else {
        prefix + "/"@ + segment
    }
}

/// The nodes with a file put in under its remaining segments. A file that is
/// there already stays as it is.
pub open spec fn with_path(
    nodes: Seq<NodeModel>,
    segments: Seq<Seq<char>>,
    prefix: Seq<char>,
    file_index: usize,
) -> Seq<NodeModel>
    decreases segments.len(),
{
    if segments.len() == 0 {
        nodes
    } else {
        let segment = segments[0];
        let path = joined(prefix, segment);
        let at = node_index(nodes, segment, segments.len() > 1);
        if segments.len() == 1 {
            if at < nodes.len() {
                nodes
            } else {
                nodes.push(
                    NodeModel {
                        name: segment,
                        path,
                        file_index: Some(file_index),
                        children: Seq::empty(),
                    },
                )
            }
        } else if at < nodes.len() {
            nodes.update(
                at,
                NodeModel {
                    children: with_path(
                        nodes[at].children,
                        segments.drop_first(),
                        path,
                        file_index,
                    ),
                    ..nodes[at]
                },
            )
        } else {
            nodes.push(
                NodeModel {
                    name: segment,
                    path,
                    file_index: None,
                    children: with_path(Seq::empty(), segments.drop_first(), path, file_index),
                },
            )
        }
    }
}

/// The trie of the first `n` of the indexed files.
pub open spec fn trie(files: Seq<FileEntryModel>, indices: Seq<usize>, n: int) -> Seq<NodeModel>
    decreases n,
{
    if n <= 0 {
        Seq::empty()
    } else {
        let i = indices[n - 1];
        with_path(
            trie(files, indices, n - 1),
            segments_of(files[i as int].path),
            Seq::empty(),
            i,
        )
    }
}

proof fn lemma_node_index(nodes: Seq<NodeModel>, name: Seq<char>, is_dir: bool, i: int)
    requires
        0 <= i <= nodes.len(),
        forall|k: int|
            0 <= k < i ==> !((#[trigger] nodes[k]).name == name && nodes[k].is_dir() == is_dir),
        i < nodes.len() ==> nodes[i].name == name && nodes[i].is_dir() == is_dir,
    ensures
        node_index(nodes, name, is_dir) == i,
    decreases nodes.len(),
{
    if nodes.len() > 0 {
        if i < nodes.len() - 1 {
            lemma_node_index(nodes.drop_last(), name, is_dir, i);
        } else {
            lemma_node_index(nodes.drop_last(), name, is_dir, nodes.len() - 1);
            if i == nodes.len() {
                assert(!(nodes[nodes.len() - 1].name == name && nodes[nodes.len() - 1].is_dir()
                    == is_dir));
            }
        }
    }
}

fn find_node(nodes: &Vec<TreeNode>, name: &str, is_dir: bool) -> (r: usize)
    ensures
        r == node_index(nodes.deep_view(), name@, is_dir),
        r <= nodes.len(),
{
    let ghost model = nodes.deep_view();
    let mut i: usize = 0;
    while i < nodes.len()
        invariant
            i <= nodes.len(),
            model == nodes.deep_view(),
            forall|k: int|
                0 <= k < i ==> !((#[trigger] model[k]).name == name@ && model[k].is_dir()
                    == is_dir),
        decreases nodes.len() - i,
    {
        assert(model[i as int] == nodes[i as int].model());
        if same_text(nodes[i].name.as_str(), name) && nodes[i].is_dir() == is_dir {
            proof {
                lemma_node_index(model, name@, is_dir, i as int);
            }
            return i;
        }
        i += 1;
    }
    proof {
        lemma_node_index(model, name@, is_dir, i as int);
    }
    i
}

/// The segments of a path.
fn split_path(path: &str) -> (r: Vec<String>)
    ensures
        r.deep_view() == segments_of(path@),
{
    let parts: Vec<Vec<char>> = split_chars(chars_of(path).as_slice(), '/');
    let ghost all = char_seqs(parts@);
    let mut out: Vec<String> = Vec::new();
    let mut i: usize = 0;
    assert(out.deep_view() =~= nonempty(all.take(0)));
    while i < parts.len()
        invariant
            i <= parts.len(),
            all == char_seqs(parts@),
            out.deep_view() == nonempty(all.take(i as int)),
        decreases parts.len() - i,
    {
        assert(all.take(i + 1).drop_last() =~= all.take(i as int));
        if parts[i].len() > 0 {
            let ghost before = out.deep_view();
            out.push(string_of(parts[i].as_slice()));
            assert(out.deep_view() =~= before.push(all[i as int]));
        }
        i += 1;
    }
    assert(all.take(all.len() as int) =~= all);
    out
}

fn insert_path(
    nodes: &mut Vec<TreeNode>,
    segments: &Vec<String>,
    from: usize,
    prefix: &str,
    file_index: usize,
)
    requires
        from <= segments.len(),
    ensures
        final(nodes).deep_view() == with_path(
            old(nodes).deep_view(),
            segments.deep_view().skip(from as int),
            prefix@,
            file_index,
        ),
    decreases segments.len() - from,
{
    let ghost before = nodes.deep_view();
    let ghost rest = segments.deep_view().skip(from as int);
    if from == segments.len() {
        return ;
    }
    let segment: &str = segments[from].as_str();
    assert(rest[0] == segment@);
    assert(rest.drop_first() =~= segments.deep_view().skip(from + 1));
    let path: String = if prefix.is_empty() {
        copy_of(segment)
    } else {
        text_of_three(prefix, "/", segment)
    };
    assert(path@ == joined(prefix@, segment@));
    let is_leaf: bool = from + 1 == segments.len();
    let at: usize = find_node(nodes, segment, !is_leaf);
    if is_leaf {
        if at == nodes.len() {
            let leaf = TreeNode {
                name: copy_of(segment),
                path,
                file_index: Some(file_index),
                children: Vec::new(),
            };
            let ghost model = leaf.model();
            assert(model.children =~= Seq::empty());
            nodes.push(leaf);
            assert(nodes.deep_view() =~= before.push(model));
        }
        return ;
    }
    if at < nodes.len() {
        let mut node: TreeNode = nodes.remove(at);
        let ghost node_before = node.model();
        assert(node_before == before[at as int]);
        proof {
            lemma_node_children(node);
        }
        insert_path(&mut node.children, segments, from + 1, path.as_str(), file_index);
        proof {
            lemma_node_children(node);
        }
        let ghost model = node.model();
        nodes.insert(at, node);
        assert(nodes.deep_view() =~= before.update(at as int, model));
    } else {
        let mut children: Vec<TreeNode> = Vec::new();
        assert(children.deep_view() =~= Seq::empty());
        insert_path(&mut children, segments, from + 1, path.as_str(), file_index);
        let node = TreeNode { name: copy_of(segment), path, file_index: None, children };
        proof {
            lemma_node_children(node);
        }
        let ghost model = node.model();
        nodes.push(node);
        assert(nodes.deep_view() =~= before.push(model));
    }
}

// ------------------------------------------------------------------- collapse

/// A directory with chains of single directories merged into their last.
pub open spec fn collapsed_dir(
    name: Seq<char>,
    path: Seq<char>,
    children: Seq<NodeModel>,
) -> NodeModel
    decreases children, 1nat,
{
    if children.len() == 1 && children[0].is_dir() {
        collapsed_dir(
            name + "/"@ + children[0].name,
            children[0].path,
            children[0].children,
        )
    } else {
        NodeModel { name, path, file_index: None, children: collapsed_nodes(children) }
    }
}

/// A node with the chains in it merged.
pub open spec fn collapsed_node(node: NodeModel) -> NodeModel
    decreases node, 0nat,
{
    if node.is_dir() {
        collapsed_dir(node.name, node.path, node.children)
    } else {
        NodeModel { children: collapsed_nodes(node.children), ..node }
    }
}

pub open spec fn collapsed_nodes(nodes: Seq<NodeModel>) -> Seq<NodeModel>
    decreases nodes, 0nat,
{
    if nodes.len() == 0 {
        Seq::empty()
    } else {
        collapsed_nodes(nodes.drop_last()).push(collapsed_node(nodes.last()))
    }
}

proof fn lemma_collapsed_nodes_len(nodes: Seq<NodeModel>)
    ensures
        collapsed_nodes(nodes).len() == nodes.len(),
        forall|i: int|
            0 <= i < nodes.len() ==> #[trigger] collapsed_nodes(nodes)[i] == collapsed_node(
                nodes[i],
            ),
    decreases nodes.len(),
{
    if nodes.len() > 0 {
        lemma_collapsed_nodes_len(nodes.drop_last());
        assert forall|i: int| 0 <= i < nodes.len() implies #[trigger] collapsed_nodes(nodes)[i]
            == collapsed_node(nodes[i]) by {
            if i < nodes.len() - 1 {
                assert(nodes.drop_last()[i] == nodes[i]);
            }
        }
    }
}

/// Merges chains of single directories: a directory with exactly one child
/// that is also a directory merges into it (`src` + `app` -> `src/app`).
fn collapse_single_child_dirs(node: TreeNode) -> (r: TreeNode)
    ensures
        r.model() == collapsed_node(node.model()),
    decreases node.model(), 0nat,
{
    let mut node: TreeNode = node;
    proof {
        lemma_node_children(node);
    }
    if node.is_dir() && node.children.len() == 1 && node.children[0].is_dir() {
        let ghost model = node.model();
        let child: TreeNode = node.children.remove(0);
        assert(model.children[0] == child.model());
        let merged = TreeNode {
            name: text_of_three(node.name.as_str(), "/", child.name.as_str()),
            path: child.path,
            file_index: None,
            children: child.children,
        };
        proof {
            lemma_node_children(merged);
            lemma_node_children(child);
        }
        return collapse_dir(merged);
    }
    let children: Vec<TreeNode> = collapse_all(node.children);
    let r = TreeNode {
        name: node.name,
        path: node.path,
        file_index: node.file_index,
        children,
    };
    proof {
        lemma_node_children(r);
    }
    r
}

fn collapse_dir(node: TreeNode) -> (r: TreeNode)
    requires
        node.model().is_dir(),
    ensures
        r.model() == collapsed_dir(node.model().name, node.model().path, node.model().children),
    decreases node.model().children, 1nat,
{
    let mut node: TreeNode = node;
    proof {
        lemma_node_children(node);
    }
    if node.children.len() == 1 && node.children[0].is_dir() {
        let ghost model = node.model();
        let child: TreeNode = node.children.remove(0);
        assert(model.children[0] == child.model());
        let merged = TreeNode {
            name: text_of_three(node.name.as_str(), "/", child.name.as_str()),
            path: child.path,
            file_index: None,
            children: child.children,
        };
        proof {
            lemma_node_children(merged);
            lemma_node_children(child);
        }
        return collapse_dir(merged);
    }
    let children: Vec<TreeNode> = collapse_all(node.children);
    let r = TreeNode { name: node.name, path: node.path, file_index: None, children };
    proof {
        lemma_node_children(r);
    }
    r
}

fn collapse_all(nodes: Vec<TreeNode>) -> (r: Vec<TreeNode>)
    ensures
        r.deep_view() == collapsed_nodes(nodes.deep_view()),
    decreases nodes.deep_view(), 0nat,
{
    let ghost model = nodes.deep_view();
    proof {
        lemma_collapsed_nodes_len(model);
    }
    let mut out: Vec<TreeNode> = Vec::new();
    for node in it: nodes.into_iter()
        invariant
            it.seq() == nodes@,
            model == nodes.deep_view(),
            out.len() == it.index(),
            forall|k: int|
                0 <= k < out.len() ==> (#[trigger] out@[k]).model() == collapsed_node(model[k]),
    {
        assert(model[it.index()] == node.model());
        out.push(collapse_single_child_dirs(node));
    }
    assert(out.deep_view() =~= collapsed_nodes(model));
    out
}

// ----------------------------------------------------------------------- sort

/// The order of siblings: directories first, each kind by name.
pub open spec fn sibling_le(a: NodeModel, b: NodeModel) -> bool {
    if a.is_dir() != b.is_dir() {
        a.is_dir()
    } else {
        text_le(a.name, b.name)
    }
}

/// A sorted list of siblings with one more in its place, behind those that it
/// ties with.
pub open spec fn with_sibling(nodes: Seq<NodeModel>, node: NodeModel) -> Seq<NodeModel>
    decreases nodes.len(),
{
    if nodes.len() == 0 || sibling_le(nodes.last(), node) {
        nodes.push(node)
    } else {
        with_sibling(nodes.drop_last(), node).push(nodes.last())
    }
}

/// A node with its descendants sorted.
pub open spec fn sorted_node(node: NodeModel) -> NodeModel
    decreases node,
{
    NodeModel { children: sorted_nodes(node.children), ..node }
}

/// Siblings sorted, and their descendants.
pub open spec fn sorted_nodes(nodes: Seq<NodeModel>) -> Seq<NodeModel>
    decreases nodes,
{
    if nodes.len() == 0 {
        Seq::empty()
    } else {
        with_sibling(sorted_nodes(nodes.drop_last()), sorted_node(nodes.last()))
    }
}

fn sibling_in_order(a: &TreeNode, b: &TreeNode) -> (r: bool)
    ensures
        r == sibling_le(a.model(), b.model()),
{
    if a.is_dir() != b.is_dir() {
        a.is_dir()
    } else {
        in_order(a.name.as_str(), b.name.as_str())
    }
}

fn insert_sibling(nodes: &mut Vec<TreeNode>, node: TreeNode)
    ensures
        final(nodes).deep_view() == with_sibling(old(nodes).deep_view(), node.model()),
{
    let ghost all = nodes.deep_view();
    let ghost model = node.model();
    let mut i: usize = nodes.len();
    assert(all.take(all.len() as int) =~= all);
    assert(with_sibling(all, model) + all.skip(all.len() as int) =~= with_sibling(all, model));
    while i > 0 && !sibling_in_order(&nodes[i - 1], &node)
        invariant
            i <= nodes.len(),
            all == nodes.deep_view(),
            model == node.model(),
            with_sibling(all, model) == with_sibling(all.take(i as int), model) + all.skip(
                i as int,
            ),
        decreases i,
    {
        let ghost here = all.take(i as int);
        assert(here.last() == nodes[i - 1].model());
        proof {
            assert(here.drop_last() =~= all.take(i - 1));
            assert(with_sibling(all.take(i - 1), model).push(here.last()) + all.skip(i as int)
                =~= with_sibling(all.take(i - 1), model) + all.skip(i - 1));
        }
        i -= 1;
    }
    let ghost here = all.take(i as int);
    if i > 0 {
        assert(here.last() == nodes[i - 1].model());
    }
    nodes.insert(i, node);
    assert(nodes.deep_view() =~= here.push(model) + all.skip(i as int));
}

fn sort_node(node: TreeNode) -> (r: TreeNode)
    ensures
        r.model() == sorted_node(node.model()),
    decreases node.model(),
{
    proof {
        lemma_node_children(node);
    }
    let r = TreeNode {
        name: node.name,
        path: node.path,
        file_index: node.file_index,
        children: sort_tree(node.children),
    };
    proof {
        lemma_node_children(r);
    }
    r
}

fn sort_tree(nodes: Vec<TreeNode>) -> (r: Vec<TreeNode>)
    ensures
        r.deep_view() == sorted_nodes(nodes.deep_view()),
    decreases nodes.deep_view(),
{
    let ghost model = nodes.deep_view();
    let mut out: Vec<TreeNode> = Vec::new();
    assert(out.deep_view() =~= sorted_nodes(model.take(0)));
    for node in it: nodes.into_iter()
        invariant
            it.seq() == nodes@,
            model == nodes.deep_view(),
            out.deep_view() == sorted_nodes(model.take(it.index())),
    {
        assert(model[it.index()] == node.model());
        assert(model.take(it.index() + 1).drop_last() =~= model.take(it.index()));
        insert_sibling(&mut out, sort_node(node));
    }
    assert(model.take(model.len() as int) =~= model);
    out
}

// ---------------------------------------------------------------------- build

/// The tree of the indexed files.
pub open spec fn tree_of(files: Seq<FileEntryModel>, indices: Seq<usize>) -> Seq<NodeModel> {
    sorted_nodes(collapsed_nodes(trie(files, indices, indices.len() as int)))
}

/// Build the trie, collapse single-child dir chains, sort (directories first,
/// then files, both alphabetical). `file_index` on each leaf is its position
/// in `files`.
pub fn build_file_tree(files: &[FileEntry]) -> (r: Vec<TreeNode>)
    ensures
        r.deep_view() == tree_of(
            files.deep_view(),
            Seq::new(files@.len(), |i: int| i as usize),
        ),
{
    let mut indices: Vec<usize> = Vec::new();
    let mut i: usize = 0;
    while i < files.len()
        invariant
            i <= files.len(),
            indices@ == Seq::new(i as nat, |k: int| k as usize),
        decreases files.len() - i,
    {
        indices.push(i);
        assert(indices@ =~= Seq::new((i + 1) as nat, |k: int| k as usize));
        i += 1;
    }
    assert(indices@ =~= Seq::new(files@.len(), |i: int| i as usize));
    build_filtered_file_tree(files, indices.as_slice())
}

/// Build a tree from only the files at `indices`, keeping each leaf's
/// `file_index` canonical (its position in the FULL `files` slice, not in
/// the filtered subset).
pub fn build_filtered_file_tree(files: &[FileEntry], indices: &[usize]) -> (r: Vec<TreeNode>)
    requires
        forall|k: int| 0 <= k < indices@.len() ==> (#[trigger] indices@[k]) < files@.len(),
    ensures
        r.deep_view() == tree_of(files.deep_view(), indices@),
{
    let ghost model = files.deep_view();
    let mut roots: Vec<TreeNode> = Vec::new();
    let mut n: usize = 0;
    assert(roots.deep_view() =~= Seq::empty());
    while n < indices.len()
        invariant
            n <= indices.len(),
            model == files.deep_view(),
            forall|k: int| 0 <= k < indices@.len() ==> (#[trigger] indices@[k]) < files@.len(),
            roots.deep_view() == trie(model, indices@, n as int),
        decreases indices.len() - n,
    {
        let index: usize = indices[n];
        assert(model[index as int] == files[index as int].deep_view());
        let segments: Vec<String> = split_path(files[index].path.as_str());
        assert(segments.deep_view().skip(0) =~= segments.deep_view());
        proof {
            reveal_strlit("");
            assert(""@ =~= Seq::<char>::empty());
        }
        insert_path(&mut roots, &segments, 0, "", index);
        n += 1;
    }
    sort_tree(collapse_all(roots))
}

// -------------------------------------------------------------------- flatten

/// One level deeper.
pub open spec fn deeper(depth: usize) -> usize {
    if depth < usize::MAX {
        (depth + 1) as usize
    } else {
        depth
    }
}

/// The display row of a node.
pub open spec fn node_row(node: NodeModel, hidden: Seq<Seq<char>>, depth: usize) -> TreeRowModel {
    TreeRowModel {
        depth,
        name: node.name,
        path: node.path,
        is_dir: node.is_dir(),
        collapsed: node.is_dir() && hidden.contains(node.path),
        file_index: node.file_index,
        comments_todo: 0,
        comments_total: 0,
    }
}

/// The display rows of a node: its own, and those below it unless it is a
/// file or collapsed.
pub open spec fn node_rows(node: NodeModel, hidden: Seq<Seq<char>>, depth: usize) -> Seq<
    TreeRowModel,
>
    decreases node,
{
    let row = node_row(node, hidden, depth);
    if node.is_dir() && !row.collapsed {
        seq![row] + flat_rows(node.children, hidden, deeper(depth))
    } else {
        seq![row]
    }
}

/// The display rows of nodes.
pub open spec fn flat_rows(nodes: Seq<NodeModel>, hidden: Seq<Seq<char>>, depth: usize) -> Seq<
    TreeRowModel,
>
    decreases nodes,
{
    if nodes.len() == 0 {
        Seq::empty()
    } else {
        flat_rows(nodes.drop_last(), hidden, depth) + node_rows(nodes.last(), hidden, depth)
    }
}

/// Whether a path is among the collapsed ones.
fn is_hidden(hidden: &[String], path: &str) -> (r: bool)
    ensures
        r == hidden.deep_view().contains(path@),
{
    let ghost model = hidden.deep_view();
    let mut i: usize = 0;
    while i < hidden.len()
        invariant
            i <= hidden.len(),
            model == hidden.deep_view(),
            forall|k: int| 0 <= k < i ==> (#[trigger] model[k]) != path@,
        decreases hidden.len() - i,
    {
        if same_text(hidden[i].as_str(), path) {
            assert(model[i as int] == path@);
            return true;
        }
        assert(model[i as int] != path@);
        i += 1;
    }
    false
}

/// Flatten the tree to display rows, honoring the collapsed directories
/// (named by node path).
pub fn flatten_tree(nodes: &[TreeNode], collapsed: &[String]) -> (r: Vec<TreeRow>)
    ensures
        r.deep_view() == flat_rows(nodes.deep_view(), collapsed.deep_view(), 0),
{
    let mut rows: Vec<TreeRow> = Vec::new();
    assert(rows.deep_view() =~= Seq::empty());
    let ghost model = nodes.deep_view();
    let mut i: usize = 0;
    assert(flat_rows(model.take(0), collapsed.deep_view(), 0) =~= Seq::empty());
    while i < nodes.len()
        invariant
            i <= nodes.len(),
            model == nodes.deep_view(),
            rows.deep_view() == flat_rows(model.take(i as int), collapsed.deep_view(), 0),
        decreases nodes.len() - i,
    {
        assert(model[i as int] == nodes[i as int].model());
        assert(model.take(i + 1).drop_last() =~= model.take(i as int));
        flatten_into(&nodes[i], collapsed, 0, &mut rows);
        i += 1;
    }
    assert(model.take(model.len() as int) =~= model);
    rows
}

fn flatten_into(node: &TreeNode, collapsed: &[String], depth: usize, rows: &mut Vec<TreeRow>)
    ensures
        final(rows).deep_view() == old(rows).deep_view() + node_rows(
            node.model(),
            collapsed.deep_view(),
            depth,
        ),
    decreases node,
{
    let ghost start = rows.deep_view();
    let is_collapsed: bool = node.is_dir() && is_hidden(collapsed, node.path.as_str());
    let row = TreeRow {
        depth,
        name: copy_of(node.name.as_str()),
        path: copy_of(node.path.as_str()),
        is_dir: node.is_dir(),
        collapsed: is_collapsed,
        file_index: node.file_index,
        comments_todo: 0,
        comments_total: 0,
    };
    let ghost row_model = row.deep_view();
    rows.push(row);
    assert(rows.deep_view() =~= start + seq![row_model]);
    if node.is_dir() && !is_collapsed {
        proof {
            lemma_node_children(*node);
        }
        flatten_children(&node.children, collapsed, depth.saturating_add(1), rows);
        assert(rows.deep_view() =~= start + node_rows(
            node.model(),
            collapsed.deep_view(),
            depth,
        ));
    }
}

fn flatten_children(
    nodes: &Vec<TreeNode>,
    collapsed: &[String],
    depth: usize,
    rows: &mut Vec<TreeRow>,
)
    ensures
        final(rows).deep_view() == old(rows).deep_view() + flat_rows(
            nodes.deep_view(),
            collapsed.deep_view(),
            depth,
        ),
    decreases nodes,
{
    let ghost start = rows.deep_view();
    let ghost model = nodes.deep_view();
    let mut i: usize = 0;
    assert(start + flat_rows(model.take(0), collapsed.deep_view(), depth) =~= start);
    while i < nodes.len()
        invariant
            i <= nodes.len(),
            model == nodes.deep_view(),
            rows.deep_view() == start + flat_rows(
                model.take(i as int),
                collapsed.deep_view(),
                depth,
            ),
        decreases nodes.len() - i,
    {
        assert(model[i as int] == nodes[i as int].model());
        assert(model.take(i + 1).drop_last() =~= model.take(i as int));
        flatten_into(&nodes[i], collapsed, depth, rows);
        assert(rows.deep_view() =~= start + flat_rows(
            model.take(i + 1),
            collapsed.deep_view(),
            depth,
        ));
        i += 1;
    }
    assert(model.take(model.len() as int) =~= model);
}

// ---------------------------------------------------------------------- laws

/// The path that segments spell below a prefix.
pub open spec fn joined_all(prefix: Seq<char>, segments: Seq<Seq<char>>) -> Seq<char>
    decreases segments.len(),
{
    if segments.len() == 0 {
        prefix
    } else {
        joined_all(joined(prefix, segments[0]), segments.drop_first())
    }
}

/// A path without its empty segments.
pub open spec fn clean_path(path: Seq<char>) -> Seq<char> {
    joined_all(Seq::empty(), segments_of(path))
}

/// Whether every leaf under a node names one of the indexed files by its
/// position in the full list, and carries its path.
pub open spec fn canonical_node(
    node: NodeModel,
    files: Seq<FileEntryModel>,
    indices: Seq<usize>,
) -> bool
    decreases node,
{
    &&& node.file_index matches Some(i) ==> indices.contains(i) && node.path == clean_path(
        files[i as int].path,
    )
    &&& canonical_nodes(node.children, files, indices)
}

pub open spec fn canonical_nodes(
    nodes: Seq<NodeModel>,
    files: Seq<FileEntryModel>,
    indices: Seq<usize>,
) -> bool
    decreases nodes,
{
    nodes.len() == 0 || canonical_nodes(nodes.drop_last(), files, indices) && canonical_node(
        nodes.last(),
        files,
        indices,
    )
}

proof fn lemma_canonical_nodes(
    nodes: Seq<NodeModel>,
    files: Seq<FileEntryModel>,
    indices: Seq<usize>,
)
    ensures
        canonical_nodes(nodes, files, indices) <==> forall|i: int|
            0 <= i < nodes.len() ==> canonical_node(#[trigger] nodes[i], files, indices),
    decreases nodes.len(),
{
    if nodes.len() > 0 {
        let init = nodes.drop_last();
        lemma_canonical_nodes(init, files, indices);
        if canonical_nodes(nodes, files, indices) {
            assert forall|i: int| 0 <= i < nodes.len() implies canonical_node(
                #[trigger] nodes[i],
                files,
                indices,
            ) by {
                if i < init.len() {
                    assert(canonical_node(init[i], files, indices));
                }
            }
        }
        if forall|i: int|
            0 <= i < nodes.len() ==> canonical_node(#[trigger] nodes[i], files, indices) {
            assert forall|i: int| 0 <= i < init.len() implies canonical_node(
                #[trigger] init[i],
                files,
                indices,
            ) by {
                assert(canonical_node(nodes[i], files, indices));
            }
            assert(canonical_node(nodes[nodes.len() - 1], files, indices));
        }
    }
}

proof fn lemma_with_path_canonical(
    nodes: Seq<NodeModel>,
    segments: Seq<Seq<char>>,
    prefix: Seq<char>,
    file_index: usize,
    files: Seq<FileEntryModel>,
    indices: Seq<usize>,
)
    requires
        canonical_nodes(nodes, files, indices),
        indices.contains(file_index),
        joined_all(prefix, segments) == clean_path(files[file_index as int].path),
    ensures
        canonical_nodes(with_path(nodes, segments, prefix, file_index), files, indices),
    decreases segments.len(),
{
    if segments.len() > 0 {
        let segment = segments[0];
        let path = joined(prefix, segment);
        let at = node_index(nodes, segment, segments.len() > 1);
        let after = with_path(nodes, segments, prefix, file_index);
        lemma_canonical_nodes(nodes, files, indices);
        lemma_canonical_nodes(after, files, indices);
        if segments.len() == 1 {
            assert(segments.drop_first() =~= Seq::<Seq<char>>::empty());
            assert(joined_all(path, segments.drop_first()) == path);
            assert forall|i: int| 0 <= i < after.len() implies canonical_node(
                #[trigger] after[i],
                files,
                indices,
            ) by {
                if i < nodes.len() {
                    assert(canonical_node(nodes[i], files, indices));
                }
            }
        } else {
            lemma_node_index_bound(nodes, segment, true);
            if at < nodes.len() {
                assert(canonical_node(nodes[at], files, indices));
                lemma_with_path_canonical(
                    nodes[at].children,
                    segments.drop_first(),
                    path,
                    file_index,
                    files,
                    indices,
                );
            } else {
                lemma_with_path_canonical(
                    Seq::empty(),
                    segments.drop_first(),
                    path,
                    file_index,
                    files,
                    indices,
                );
            }
            assert forall|i: int| 0 <= i < after.len() implies canonical_node(
                #[trigger] after[i],
                files,
                indices,
            ) by {
                if i < nodes.len() {
                    assert(canonical_node(nodes[i], files, indices));
                }
            }
        }
    }
}

proof fn lemma_node_index_bound(nodes: Seq<NodeModel>, name: Seq<char>, is_dir: bool)
    ensures
        0 <= node_index(nodes, name, is_dir) <= nodes.len(),
    decreases nodes.len(),
{
    if nodes.len() > 0 {
        lemma_node_index_bound(nodes.drop_last(), name, is_dir);
    }
}

proof fn lemma_trie_canonical(files: Seq<FileEntryModel>, indices: Seq<usize>, n: int)
    requires
        0 <= n <= indices.len(),
    ensures
        canonical_nodes(trie(files, indices, n), files, indices),
    decreases n,
{
    if n > 0 {
        lemma_trie_canonical(files, indices, n - 1);
        let i = indices[n - 1];
        assert(indices.contains(i));
        lemma_with_path_canonical(
            trie(files, indices, n - 1),
            segments_of(files[i as int].path),
            Seq::empty(),
            i,
            files,
            indices,
        );
    }
}

proof fn lemma_collapsed_dir_canonical(
    name: Seq<char>,
    path: Seq<char>,
    children: Seq<NodeModel>,
    files: Seq<FileEntryModel>,
    indices: Seq<usize>,
)
    requires
        canonical_nodes(children, files, indices),
    ensures
        canonical_node(collapsed_dir(name, path, children), files, indices),
        collapsed_dir(name, path, children).is_dir(),
    decreases children, 1nat,
{
    if children.len() == 1 && children[0].is_dir() {
        lemma_canonical_nodes(children, files, indices);
        assert(canonical_node(children[0], files, indices));
        lemma_collapsed_dir_canonical(
            name + "/"@ + children[0].name,
            children[0].path,
            children[0].children,
            files,
            indices,
        );
    } else {
        lemma_collapsed_nodes_canonical(children, files, indices);
    }
}

proof fn lemma_collapsed_node_canonical(
    node: NodeModel,
    files: Seq<FileEntryModel>,
    indices: Seq<usize>,
)
    requires
        canonical_node(node, files, indices),
    ensures
        canonical_node(collapsed_node(node), files, indices),
    decreases node, 0nat,
{
    if node.is_dir() {
        lemma_collapsed_dir_canonical(node.name, node.path, node.children, files, indices);
    } else {
        lemma_collapsed_nodes_canonical(node.children, files, indices);
    }
}

proof fn lemma_collapsed_nodes_canonical(
    nodes: Seq<NodeModel>,
    files: Seq<FileEntryModel>,
    indices: Seq<usize>,
)
    requires
        canonical_nodes(nodes, files, indices),
    ensures
        canonical_nodes(collapsed_nodes(nodes), files, indices),
    decreases nodes, 0nat,
{
    if nodes.len() > 0 {
        lemma_collapsed_nodes_canonical(nodes.drop_last(), files, indices);
        lemma_collapsed_node_canonical(nodes.last(), files, indices);
        let after = collapsed_nodes(nodes);
        assert(after.drop_last() =~= collapsed_nodes(nodes.drop_last()));
    }
}

proof fn lemma_with_sibling_canonical(
    nodes: Seq<NodeModel>,
    node: NodeModel,
    files: Seq<FileEntryModel>,
    indices: Seq<usize>,
)
    requires
        canonical_nodes(nodes, files, indices),
        canonical_node(node, files, indices),
    ensures
        canonical_nodes(with_sibling(nodes, node), files, indices),
    decreases nodes.len(),
{
    let after = with_sibling(nodes, node);
    if nodes.len() == 0 || sibling_le(nodes.last(), node) {
        assert(after.drop_last() =~= nodes);
    } else {
        lemma_with_sibling_canonical(nodes.drop_last(), node, files, indices);
        assert(after.drop_last() =~= with_sibling(nodes.drop_last(), node));
    }
}

proof fn lemma_sorted_canonical(
    nodes: Seq<NodeModel>,
    files: Seq<FileEntryModel>,
    indices: Seq<usize>,
)
    requires
        canonical_nodes(nodes, files, indices),
    ensures
        canonical_nodes(sorted_nodes(nodes), files, indices),
    decreases nodes,
{
    if nodes.len() > 0 {
        lemma_sorted_canonical(nodes.drop_last(), files, indices);
        assert(canonical_node(nodes.last(), files, indices));
        lemma_sorted_canonical(nodes.last().children, files, indices);
        assert(canonical_node(sorted_node(nodes.last()), files, indices));
        lemma_with_sibling_canonical(
            sorted_nodes(nodes.drop_last()),
            sorted_node(nodes.last()),
            files,
            indices,
        );
    }
}

/// Every leaf of a tree names one of the given files by its position in the
/// full file list, whatever was filtered out, and carries that file's path.
pub proof fn leaves_are_canonical(files: Seq<FileEntryModel>, indices: Seq<usize>)
    ensures
        canonical_nodes(tree_of(files, indices), files, indices),
{
    let t = trie(files, indices, indices.len() as int);
    lemma_trie_canonical(files, indices, indices.len() as int);
    lemma_collapsed_nodes_canonical(t, files, indices);
    lemma_sorted_canonical(collapsed_nodes(t), files, indices);
}

/// Whether siblings stand in order at every level.
pub open spec fn in_tree_order(nodes: Seq<NodeModel>) -> bool
    decreases nodes,
{
    nodes.len() == 0 || (in_tree_order(nodes.drop_last()) && in_tree_order(nodes.last().children)
        && (nodes.len() > 1 ==> sibling_le(nodes[nodes.len() - 2], nodes.last())))
}

proof fn lemma_with_sibling_order(nodes: Seq<NodeModel>, node: NodeModel)
    requires
        in_tree_order(nodes),
        in_tree_order(node.children),
    ensures
        in_tree_order(with_sibling(nodes, node)),
        with_sibling(nodes, node).len() > 0,
        with_sibling(nodes, node).last() == node || (nodes.len() > 0 && with_sibling(
            nodes,
            node,
        ).last() == nodes.last()),
    decreases nodes.len(),
{
    let after = with_sibling(nodes, node);
    if nodes.len() == 0 || sibling_le(nodes.last(), node) {
        assert(after.drop_last() =~= nodes);
    } else {
        let init = nodes.drop_last();
        let inner = with_sibling(init, node);
        lemma_with_sibling_order(init, node);
        assert(after.drop_last() =~= inner);
        lemma_text_le_total(nodes.last().name, node.name);
        assert(after[after.len() - 2] == inner.last());
        if inner.last() != node {
            assert(inner.last() == init.last());
            assert(init.last() == nodes[nodes.len() - 2]);
        }
    }
}

/// A built tree stands in order at every level: directories before files,
/// each kind by name.
pub proof fn trees_are_sorted(nodes: Seq<NodeModel>)
    ensures
        in_tree_order(sorted_nodes(nodes)),
    decreases nodes,
{
    if nodes.len() > 0 {
        trees_are_sorted(nodes.drop_last());
        trees_are_sorted(nodes.last().children);
        lemma_with_sibling_order(
            sorted_nodes(nodes.drop_last()),
            sorted_node(nodes.last()),
        );
    }
}

/// Whether no directory has a directory as its only child, at any level.
pub open spec fn without_chains(nodes: Seq<NodeModel>) -> bool
    decreases nodes,
{
    nodes.len() == 0 || (without_chains(nodes.drop_last()) && without_chains(nodes.last().children)
        && !(nodes.last().is_dir() && nodes.last().children.len() == 1
        && nodes.last().children[0].is_dir()))
}

proof fn lemma_collapsed_dir_chainless(
    name: Seq<char>,
    path: Seq<char>,
    children: Seq<NodeModel>,
)
    ensures
        ({
            let r = collapsed_dir(name, path, children);
            &&& r.is_dir()
            &&& without_chains(r.children)
            &&& !(r.children.len() == 1 && r.children[0].is_dir())
        }),
    decreases children, 1nat,
{
    if children.len() == 1 && children[0].is_dir() {
        lemma_collapsed_dir_chainless(
            name + "/"@ + children[0].name,
            children[0].path,
            children[0].children,
        );
    } else {
        collapsing_leaves_no_chains(children);
        lemma_collapsed_nodes_len(children);
        if children.len() == 1 {
            assert(collapsed_nodes(children)[0] == collapsed_node(children[0]));
        }
    }
}

/// Collapsing leaves no directory that has a directory as its only child.
pub proof fn collapsing_leaves_no_chains(nodes: Seq<NodeModel>)
    ensures
        without_chains(collapsed_nodes(nodes)),
    decreases nodes, 0nat,
{
    if nodes.len() > 0 {
        let last = nodes.last();
        collapsing_leaves_no_chains(nodes.drop_last());
        let after = collapsed_nodes(nodes);
        assert(after.drop_last() =~= collapsed_nodes(nodes.drop_last()));
        assert(after.last() == collapsed_node(last));
        if last.is_dir() {
            lemma_collapsed_dir_chainless(last.name, last.path, last.children);
        } else {
            collapsing_leaves_no_chains(last.children);
        }
    }
}

/// Whether every directory holds something, at every level.
pub open spec fn without_empty_dirs(nodes: Seq<NodeModel>) -> bool
    decreases nodes,
{
    nodes.len() == 0 || (without_empty_dirs(nodes.drop_last()) && without_empty_dirs(
        nodes.last().children,
    ) && (nodes.last().is_dir() ==> nodes.last().children.len() > 0))
}

spec fn holds_something(node: NodeModel) -> bool {
    without_empty_dirs(node.children) && (node.is_dir() ==> node.children.len() > 0)
}

proof fn lemma_without_empty_dirs(nodes: Seq<NodeModel>)
    ensures
        without_empty_dirs(nodes) <==> forall|i: int|
            0 <= i < nodes.len() ==> holds_something(#[trigger] nodes[i]),
    decreases nodes.len(),
{
    if nodes.len() > 0 {
        let init = nodes.drop_last();
        lemma_without_empty_dirs(init);
        if without_empty_dirs(nodes) {
            assert forall|i: int| 0 <= i < nodes.len() implies holds_something(
                #[trigger] nodes[i],
            ) by {
                if i < init.len() {
                    assert(holds_something(init[i]));
                }
            }
        }
        if forall|i: int| 0 <= i < nodes.len() ==> holds_something(#[trigger] nodes[i]) {
            assert forall|i: int| 0 <= i < init.len() implies holds_something(
                #[trigger] init[i],
            ) by {
                assert(holds_something(nodes[i]));
            }
            assert(holds_something(nodes[nodes.len() - 1]));
        }
    }
}

proof fn lemma_with_path_fills(
    nodes: Seq<NodeModel>,
    segments: Seq<Seq<char>>,
    prefix: Seq<char>,
    file_index: usize,
)
    requires
        without_empty_dirs(nodes),
    ensures
        without_empty_dirs(with_path(nodes, segments, prefix, file_index)),
        segments.len() > 0 ==> with_path(nodes, segments, prefix, file_index).len() > 0,
    decreases segments.len(),
{
    if segments.len() > 0 {
        let path = joined(prefix, segments[0]);
        let at = node_index(nodes, segments[0], segments.len() > 1);
        let after = with_path(nodes, segments, prefix, file_index);
        lemma_node_index_bound(nodes, segments[0], segments.len() > 1);
        lemma_without_empty_dirs(nodes);
        lemma_without_empty_dirs(after);
        if segments.len() > 1 {
            if at < nodes.len() {
                assert(holds_something(nodes[at]));
                lemma_with_path_fills(nodes[at].children, segments.drop_first(), path, file_index);
            } else {
                lemma_with_path_fills(Seq::empty(), segments.drop_first(), path, file_index);
            }
        }
        assert forall|i: int| 0 <= i < after.len() implies holds_something(#[trigger] after[i]) by {
            if i < nodes.len() {
                assert(holds_something(nodes[i]));
            }
        }
    }
}

proof fn lemma_collapsed_dir_holds(name: Seq<char>, path: Seq<char>, children: Seq<NodeModel>)
    requires
        without_empty_dirs(children),
        children.len() > 0,
    ensures
        holds_something(collapsed_dir(name, path, children)),
    decreases children, 1nat,
{
    if children.len() == 1 && children[0].is_dir() {
        lemma_without_empty_dirs(children);
        assert(holds_something(children[0]));
        lemma_collapsed_dir_holds(
            name + "/"@ + children[0].name,
            children[0].path,
            children[0].children,
        );
    } else {
        lemma_collapsed_holds(children);
        lemma_collapsed_nodes_len(children);
    }
}

proof fn lemma_collapsed_holds(nodes: Seq<NodeModel>)
    requires
        without_empty_dirs(nodes),
    ensures
        without_empty_dirs(collapsed_nodes(nodes)),
    decreases nodes, 0nat,
{
    if nodes.len() > 0 {
        let last = nodes.last();
        lemma_collapsed_holds(nodes.drop_last());
        let after = collapsed_nodes(nodes);
        assert(after.drop_last() =~= collapsed_nodes(nodes.drop_last()));
        assert(after.last() == collapsed_node(last));
        if last.is_dir() {
            lemma_collapsed_dir_holds(last.name, last.path, last.children);
        } else {
            lemma_collapsed_holds(last.children);
        }
    }
}

proof fn lemma_with_sibling_holds(nodes: Seq<NodeModel>, node: NodeModel)
    requires
        without_empty_dirs(nodes),
        holds_something(node),
    ensures
        without_empty_dirs(with_sibling(nodes, node)),
        with_sibling(nodes, node).len() == nodes.len() + 1,
    decreases nodes.len(),
{
    let after = with_sibling(nodes, node);
    if nodes.len() == 0 || sibling_le(nodes.last(), node) {
        assert(after.drop_last() =~= nodes);
    } else {
        lemma_with_sibling_holds(nodes.drop_last(), node);
        assert(after.drop_last() =~= with_sibling(nodes.drop_last(), node));
    }
}

proof fn lemma_sorted_holds(nodes: Seq<NodeModel>)
    requires
        without_empty_dirs(nodes),
    ensures
        without_empty_dirs(sorted_nodes(nodes)),
        sorted_nodes(nodes).len() == nodes.len(),
    decreases nodes,
{
    if nodes.len() > 0 {
        lemma_sorted_holds(nodes.drop_last());
        lemma_sorted_holds(nodes.last().children);
        lemma_with_sibling_holds(
            sorted_nodes(nodes.drop_last()),
            sorted_node(nodes.last()),
        );
    }
}

proof fn lemma_trie_holds(files: Seq<FileEntryModel>, indices: Seq<usize>, n: int)
    ensures
        without_empty_dirs(trie(files, indices, n)),
    decreases n,
{
    if n > 0 {
        lemma_trie_holds(files, indices, n - 1);
        let i = indices[n - 1];
        lemma_with_path_fills(
            trie(files, indices, n - 1),
            segments_of(files[i as int].path),
            Seq::empty(),
            i,
        );
    }
}

/// A directory that none of the given files lies under is not in the tree:
/// every directory holds something, at every level.
pub proof fn empty_directories_are_pruned(files: Seq<FileEntryModel>, indices: Seq<usize>)
    ensures
        without_empty_dirs(tree_of(files, indices)),
{
    let t = trie(files, indices, indices.len() as int);
    lemma_trie_holds(files, indices, indices.len() as int);
    lemma_collapsed_holds(t);
    lemma_sorted_holds(collapsed_nodes(t));
}

/// Whether a leaf with this path stands at or below a node.
pub open spec fn has_leaf(node: NodeModel, path: Seq<char>) -> bool
    decreases node,
{
    node.file_index is Some && node.path == path || some_leaf(node.children, path)
}

/// Whether a leaf with this path stands among the nodes or below them.
pub open spec fn some_leaf(nodes: Seq<NodeModel>, path: Seq<char>) -> bool
    decreases nodes,
{
    nodes.len() > 0 && (some_leaf(nodes.drop_last(), path) || has_leaf(nodes.last(), path))
}

proof fn lemma_has_leaf(node: NodeModel, path: Seq<char>)
    ensures
        has_leaf(node, path) <==> node.file_index is Some && node.path == path || some_leaf(
            node.children,
            path,
        ),
{
}

proof fn lemma_some_leaf(nodes: Seq<NodeModel>, path: Seq<char>)
    ensures
        some_leaf(nodes, path) <==> exists|i: int|
            0 <= i < nodes.len() && has_leaf(#[trigger] nodes[i], path),
    decreases nodes.len(),
{
    if nodes.len() > 0 {
        let init = nodes.drop_last();
        lemma_some_leaf(init, path);
        if some_leaf(init, path) {
            let i = choose|i: int| 0 <= i < init.len() && has_leaf(#[trigger] init[i], path);
            assert(has_leaf(nodes[i], path));
        }
        if has_leaf(nodes.last(), path) {
            assert(has_leaf(nodes[nodes.len() - 1], path));
        }
        if exists|i: int| 0 <= i < nodes.len() && has_leaf(#[trigger] nodes[i], path) {
            let i = choose|i: int| 0 <= i < nodes.len() && has_leaf(#[trigger] nodes[i], path);
            if i < init.len() {
                assert(has_leaf(init[i], path));
            }
        }
    }
}

/// Whether the nodes carry the paths that their names spell below a prefix.
spec fn spelled(nodes: Seq<NodeModel>, prefix: Seq<char>) -> bool
    decreases nodes,
{
    nodes.len() == 0 || (spelled(nodes.drop_last(), prefix) && spelled_node(nodes.last(), prefix))
}

spec fn spelled_node(node: NodeModel, prefix: Seq<char>) -> bool
    decreases node,
{
    node.path == joined(prefix, node.name) && spelled(node.children, node.path)
}

proof fn lemma_spelled(nodes: Seq<NodeModel>, prefix: Seq<char>)
    ensures
        spelled(nodes, prefix) <==> forall|i: int|
            0 <= i < nodes.len() ==> spelled_node(#[trigger] nodes[i], prefix),
    decreases nodes.len(),
{
    if nodes.len() > 0 {
        let init = nodes.drop_last();
        lemma_spelled(init, prefix);
        if spelled(nodes, prefix) {
            assert forall|i: int| 0 <= i < nodes.len() implies spelled_node(
                #[trigger] nodes[i],
                prefix,
            ) by {
                if i < init.len() {
                    assert(spelled_node(init[i], prefix));
                }
            }
        }
        if forall|i: int| 0 <= i < nodes.len() ==> spelled_node(#[trigger] nodes[i], prefix) {
            assert forall|i: int| 0 <= i < init.len() implies spelled_node(
                #[trigger] init[i],
                prefix,
            ) by {
                assert(spelled_node(nodes[i], prefix));
            }
            assert(spelled_node(nodes[nodes.len() - 1], prefix));
        }
    }
}

proof fn lemma_node_index_names(nodes: Seq<NodeModel>, name: Seq<char>, is_dir: bool)
    ensures
        0 <= node_index(nodes, name, is_dir) <= nodes.len(),
        node_index(nodes, name, is_dir) < nodes.len() ==> nodes[node_index(
            nodes,
            name,
            is_dir,
        )].name == name && nodes[node_index(nodes, name, is_dir)].is_dir() == is_dir,
    decreases nodes.len(),
{
    if nodes.len() > 0 {
        lemma_node_index_names(nodes.drop_last(), name, is_dir);
    }
}

/// Putting a file in gives it a leaf and keeps the others.
proof fn lemma_with_path_leaves(
    nodes: Seq<NodeModel>,
    segments: Seq<Seq<char>>,
    prefix: Seq<char>,
    file_index: usize,
)
    requires
        spelled(nodes, prefix),
    ensures
        spelled(with_path(nodes, segments, prefix, file_index), prefix),
        segments.len() > 0 ==> some_leaf(
            with_path(nodes, segments, prefix, file_index),
            joined_all(prefix, segments),
        ),
        forall|p: Seq<char>| #[trigger]
            some_leaf(nodes, p) ==> some_leaf(with_path(nodes, segments, prefix, file_index), p),
    decreases segments.len(),
{
    if segments.len() > 0 {
        let path = joined(prefix, segments[0]);
        let rest = segments.drop_first();
        let at = node_index(nodes, segments[0], segments.len() > 1);
        let after = with_path(nodes, segments, prefix, file_index);
        let own = if at < nodes.len() {
            at
        } else {
            nodes.len() as int
        };
        lemma_node_index_names(nodes, segments[0], segments.len() > 1);
        lemma_spelled(nodes, prefix);
        lemma_spelled(after, prefix);
        if at < nodes.len() {
            assert(spelled_node(nodes[at], prefix));
        }
        if segments.len() > 1 {
            if at < nodes.len() {
                lemma_with_path_leaves(nodes[at].children, rest, path, file_index);
            } else {
                lemma_with_path_leaves(Seq::empty(), rest, path, file_index);
            }
        } else {
            assert(rest =~= Seq::<Seq<char>>::empty());
            assert(joined_all(path, rest) == path);
        }
        assert(joined_all(prefix, segments) == joined_all(path, rest));
        assert forall|i: int| 0 <= i < after.len() implies spelled_node(
            #[trigger] after[i],
            prefix,
        ) by {
            if i < nodes.len() {
                assert(spelled_node(nodes[i], prefix));
            }
        }
        lemma_some_leaf(after, joined_all(prefix, segments));
        lemma_has_leaf(after[own], joined_all(prefix, segments));
        assert(has_leaf(after[own], joined_all(prefix, segments)));
        assert forall|p: Seq<char>| #[trigger] some_leaf(nodes, p) implies some_leaf(after, p) by {
            lemma_some_leaf(nodes, p);
            lemma_some_leaf(after, p);
            let i = choose|i: int| 0 <= i < nodes.len() && has_leaf(#[trigger] nodes[i], p);
            lemma_has_leaf(nodes[i], p);
            lemma_has_leaf(after[i], p);
            assert(has_leaf(after[i], p));
        }
    }
}

proof fn lemma_trie_leaves(files: Seq<FileEntryModel>, indices: Seq<usize>, n: int, k: int)
    requires
        0 <= n <= indices.len(),
        0 <= k < indices.len(),
        segments_of(files[indices[k] as int].path).len() > 0,
    ensures
        spelled(trie(files, indices, n), Seq::empty()),
        k < n ==> some_leaf(trie(files, indices, n), clean_path(files[indices[k] as int].path)),
    decreases n,
{
    if n > 0 {
        lemma_trie_leaves(files, indices, n - 1, k);
        let i = indices[n - 1];
        lemma_with_path_leaves(
            trie(files, indices, n - 1),
            segments_of(files[i as int].path),
            Seq::empty(),
            i,
        );
    }
}

proof fn lemma_collapsed_dir_leaves(
    name: Seq<char>,
    path: Seq<char>,
    children: Seq<NodeModel>,
    p: Seq<char>,
)
    requires
        some_leaf(children, p),
    ensures
        has_leaf(collapsed_dir(name, path, children), p),
    decreases children, 1nat,
{
    if children.len() == 1 && children[0].is_dir() {
        assert(children.drop_last() =~= Seq::<NodeModel>::empty());
        assert(!some_leaf(children.drop_last(), p));
        lemma_has_leaf(children[0], p);
        lemma_collapsed_dir_leaves(
            name + "/"@ + children[0].name,
            children[0].path,
            children[0].children,
            p,
        );
    } else {
        lemma_collapsed_leaves(children, p);
        lemma_has_leaf(collapsed_dir(name, path, children), p);
    }
}

proof fn lemma_collapsed_leaves(nodes: Seq<NodeModel>, p: Seq<char>)
    requires
        some_leaf(nodes, p),
    ensures
        some_leaf(collapsed_nodes(nodes), p),
    decreases nodes, 0nat,
{
    let last = nodes.last();
    let after = collapsed_nodes(nodes);
    assert(after.drop_last() =~= collapsed_nodes(nodes.drop_last()));
    assert(after.last() == collapsed_node(last));
    lemma_has_leaf(last, p);
    lemma_has_leaf(collapsed_node(last), p);
    if some_leaf(nodes.drop_last(), p) {
        lemma_collapsed_leaves(nodes.drop_last(), p);
    } else if last.is_dir() {
        lemma_collapsed_dir_leaves(last.name, last.path, last.children, p);
    } else if some_leaf(last.children, p) {
        lemma_collapsed_leaves(last.children, p);
    }
}

proof fn lemma_with_sibling_leaves(nodes: Seq<NodeModel>, node: NodeModel, p: Seq<char>)
    requires
        some_leaf(nodes, p) || has_leaf(node, p),
    ensures
        some_leaf(with_sibling(nodes, node), p),
    decreases nodes.len(),
{
    let after = with_sibling(nodes, node);
    if nodes.len() == 0 || sibling_le(nodes.last(), node) {
        assert(after.drop_last() =~= nodes);
    } else {
        assert(after.drop_last() =~= with_sibling(nodes.drop_last(), node));
        if some_leaf(nodes.drop_last(), p) || has_leaf(node, p) {
            lemma_with_sibling_leaves(nodes.drop_last(), node, p);
        }
    }
}

proof fn lemma_sorted_leaves(nodes: Seq<NodeModel>, p: Seq<char>)
    requires
        some_leaf(nodes, p),
    ensures
        some_leaf(sorted_nodes(nodes), p),
    decreases nodes,
{
    let last = nodes.last();
    lemma_has_leaf(last, p);
    lemma_has_leaf(sorted_node(last), p);
    if some_leaf(nodes.drop_last(), p) {
        lemma_sorted_leaves(nodes.drop_last(), p);
    } else if some_leaf(last.children, p) {
        lemma_sorted_leaves(last.children, p);
    }
    lemma_with_sibling_leaves(sorted_nodes(nodes.drop_last()), sorted_node(last), p);
}

/// No file is left out: each of the given files has a leaf with its path,
/// where the path has a segment at all.
pub proof fn every_file_has_a_leaf(files: Seq<FileEntryModel>, indices: Seq<usize>, k: int)
    requires
        0 <= k < indices.len(),
        segments_of(files[indices[k] as int].path).len() > 0,
    ensures
        some_leaf(tree_of(files, indices), clean_path(files[indices[k] as int].path)),
{
    let n = indices.len() as int;
    let t = trie(files, indices, n);
    let p = clean_path(files[indices[k] as int].path);
    lemma_trie_leaves(files, indices, n, k);
    lemma_collapsed_leaves(t, p);
    lemma_sorted_leaves(collapsed_nodes(t), p);
}

proof fn lemma_with_sibling_chainless(nodes: Seq<NodeModel>, node: NodeModel)
    requires
        without_chains(nodes),
        without_chains(node.children),
        !(node.is_dir() && node.children.len() == 1 && node.children[0].is_dir()),
    ensures
        without_chains(with_sibling(nodes, node)),
    decreases nodes.len(),
{
    let after = with_sibling(nodes, node);
    if nodes.len() == 0 || sibling_le(nodes.last(), node) {
        assert(after.drop_last() =~= nodes);
    } else {
        lemma_with_sibling_chainless(nodes.drop_last(), node);
        assert(after.drop_last() =~= with_sibling(nodes.drop_last(), node));
    }
}

proof fn lemma_with_sibling_len(nodes: Seq<NodeModel>, node: NodeModel)
    ensures
        with_sibling(nodes, node).len() == nodes.len() + 1,
    decreases nodes.len(),
{
    if nodes.len() > 0 && !sibling_le(nodes.last(), node) {
        lemma_with_sibling_len(nodes.drop_last(), node);
    }
}

/// Sorting keeps the number of siblings, and a single one keeps its kind.
proof fn lemma_sorted_len(nodes: Seq<NodeModel>)
    ensures
        sorted_nodes(nodes).len() == nodes.len(),
        nodes.len() == 1 ==> sorted_nodes(nodes)[0].is_dir() == nodes[0].is_dir(),
    decreases nodes.len(),
{
    if nodes.len() > 0 {
        lemma_sorted_len(nodes.drop_last());
        lemma_with_sibling_len(sorted_nodes(nodes.drop_last()), sorted_node(nodes.last()));
    }
}

proof fn lemma_sorted_chainless(nodes: Seq<NodeModel>)
    requires
        without_chains(nodes),
    ensures
        without_chains(sorted_nodes(nodes)),
    decreases nodes,
{
    if nodes.len() > 0 {
        let last = nodes.last();
        lemma_sorted_chainless(nodes.drop_last());
        lemma_sorted_chainless(last.children);
        lemma_sorted_len(last.children);
        lemma_with_sibling_chainless(sorted_nodes(nodes.drop_last()), sorted_node(last));
    }
}

/// No directory of a built tree has a directory as its only child, at any level.
pub proof fn trees_have_no_chains(files: Seq<FileEntryModel>, indices: Seq<usize>)
    ensures
        without_chains(tree_of(files, indices)),
{
    let t = trie(files, indices, indices.len() as int);
    collapsing_leaves_no_chains(t);
    lemma_sorted_chainless(collapsed_nodes(t));
}

/// Number of leaves at or below a node that stand for a file.
pub open spec fn leaves_at(node: NodeModel, file_index: usize) -> nat
    decreases node,
{
    leaves_among(node.children, file_index) + if node.file_index == Some(file_index) {
        1nat
    } else {
        0
    }
}

/// Number of leaves among the nodes or below them that stand for a file.
pub open spec fn leaves_among(nodes: Seq<NodeModel>, file_index: usize) -> nat
    decreases nodes,
{
    if nodes.len() == 0 {
        0
    } else {
        leaves_among(nodes.drop_last(), file_index) + leaves_at(nodes.last(), file_index)
    }
}

proof fn lemma_leaves_at(node: NodeModel, i: usize)
    ensures
        leaves_at(node, i) == leaves_among(node.children, i) + if node.file_index == Some(i) {
            1nat
        } else {
            0
        },
{
}

proof fn lemma_leaves_update(nodes: Seq<NodeModel>, at: int, node: NodeModel, i: usize)
    requires
        0 <= at < nodes.len(),
    ensures
        leaves_among(nodes.update(at, node), i) + leaves_at(nodes[at], i) == leaves_among(nodes, i)
            + leaves_at(node, i),
    decreases nodes.len(),
{
    let after = nodes.update(at, node);
    if at < nodes.len() - 1 {
        lemma_leaves_update(nodes.drop_last(), at, node, i);
        assert(after.drop_last() =~= nodes.drop_last().update(at, node));
    } else {
        assert(after.drop_last() =~= nodes.drop_last());
    }
}

proof fn lemma_leaves_push(nodes: Seq<NodeModel>, node: NodeModel, i: usize)
    ensures
        leaves_among(nodes.push(node), i) == leaves_among(nodes, i) + leaves_at(node, i),
{
    assert(nodes.push(node).drop_last() =~= nodes);
}

proof fn lemma_leaf_among(nodes: Seq<NodeModel>, at: int, i: usize)
    requires
        0 <= at < nodes.len(),
        leaves_at(nodes[at], i) > 0,
    ensures
        leaves_among(nodes, i) > 0,
    decreases nodes.len(),
{
    if at < nodes.len() - 1 {
        lemma_leaf_among(nodes.drop_last(), at, i);
    }
}

/// Whether a file stands under these segments.
spec fn has_spot(nodes: Seq<NodeModel>, segments: Seq<Seq<char>>) -> bool
    decreases segments.len(),
{
    if segments.len() == 0 {
        false
    } else {
        let at = node_index(nodes, segments[0], segments.len() > 1);
        at < nodes.len() && (segments.len() == 1 || has_spot(
            nodes[at].children,
            segments.drop_first(),
        ))
    }
}

/// Putting a file in adds one leaf, unless its spot is taken, and no leaf of
/// another file.
proof fn lemma_with_path_counts(
    nodes: Seq<NodeModel>,
    segments: Seq<Seq<char>>,
    prefix: Seq<char>,
    file_index: usize,
    i: usize,
)
    requires
        segments.len() > 0,
    ensures
        leaves_among(with_path(nodes, segments, prefix, file_index), i) == leaves_among(nodes, i)
            + if i == file_index && !has_spot(nodes, segments) {
            1nat
        } else {
            0
        },
    decreases segments.len(),
{
    let path = joined(prefix, segments[0]);
    let rest = segments.drop_first();
    let at = node_index(nodes, segments[0], segments.len() > 1);
    let none = Seq::<NodeModel>::empty();
    lemma_node_index_names(nodes, segments[0], segments.len() > 1);
    if segments.len() == 1 {
        if at >= nodes.len() {
            let leaf = NodeModel {
                name: segments[0],
                path,
                file_index: Some(file_index),
                children: none,
            };
            lemma_leaves_push(nodes, leaf, i);
            lemma_leaves_at(leaf, i);
        }
    } else if at < nodes.len() {
        let inner = with_path(nodes[at].children, rest, path, file_index);
        let dir = NodeModel { children: inner, ..nodes[at] };
        lemma_with_path_counts(nodes[at].children, rest, path, file_index, i);
        lemma_leaves_update(nodes, at, dir, i);
        lemma_leaves_at(nodes[at], i);
        lemma_leaves_at(dir, i);
    } else {
        let inner = with_path(none, rest, path, file_index);
        let dir = NodeModel { name: segments[0], path, file_index: None, children: inner };
        lemma_with_path_counts(none, rest, path, file_index, i);
        lemma_leaves_push(nodes, dir, i);
        lemma_leaves_at(dir, i);
        assert(!has_spot(none, rest)) by {
            lemma_node_index_names(none, rest[0], rest.len() > 1);
        }
    }
}

/// The position of a node stays what it was when a node behind it comes in.
proof fn lemma_node_index_push(nodes: Seq<NodeModel>, node: NodeModel, name: Seq<char>, dir: bool)
    ensures
        node_index(nodes, name, dir) < nodes.len() ==> node_index(nodes.push(node), name, dir)
            == node_index(nodes, name, dir),
        node_index(nodes, name, dir) == nodes.len() && node.name == name && node.is_dir() == dir
            ==> node_index(nodes.push(node), name, dir) == nodes.len(),
{
    assert(nodes.push(node).drop_last() =~= nodes);
    lemma_node_index_names(nodes, name, dir);
}

/// The position of a node stays what it was when another gets new children.
proof fn lemma_node_index_update(
    nodes: Seq<NodeModel>,
    at: int,
    children: Seq<NodeModel>,
    name: Seq<char>,
    dir: bool,
)
    requires
        0 <= at < nodes.len(),
    ensures
        node_index(nodes.update(at, NodeModel { children, ..nodes[at] }), name, dir) == node_index(
            nodes,
            name,
            dir,
        ),
    decreases nodes.len(),
{
    let after = nodes.update(at, NodeModel { children, ..nodes[at] });
    if at < nodes.len() - 1 {
        lemma_node_index_update(nodes.drop_last(), at, children, name, dir);
        assert(after.drop_last() =~= nodes.drop_last().update(
            at,
            NodeModel { children, ..nodes[at] },
        ));
    } else {
        assert(after.drop_last() =~= nodes.drop_last());
    }
}

/// Putting a file in takes its spot and frees no other.
proof fn lemma_with_path_spots(
    nodes: Seq<NodeModel>,
    segments: Seq<Seq<char>>,
    prefix: Seq<char>,
    file_index: usize,
    other: Seq<Seq<char>>,
)
    requires
        segments.len() > 0,
    ensures
        has_spot(with_path(nodes, segments, prefix, file_index), segments),
        has_spot(nodes, other) ==> has_spot(
            with_path(nodes, segments, prefix, file_index),
            other,
        ),
    decreases segments.len(),
{
    let path = joined(prefix, segments[0]);
    let rest = segments.drop_first();
    let many = segments.len() > 1;
    let at = node_index(nodes, segments[0], many);
    let after = with_path(nodes, segments, prefix, file_index);
    lemma_node_index_names(nodes, segments[0], many);
    if at < nodes.len() {
        if many {
            let inner = with_path(nodes[at].children, rest, path, file_index);
            lemma_with_path_spots(
                nodes[at].children,
                rest,
                path,
                file_index,
                if other.len() > 0 {
                    other.drop_first()
                } else {
                    other
                },
            );
            lemma_node_index_update(nodes, at, inner, segments[0], many);
            if has_spot(nodes, other) {
                lemma_node_index_update(nodes, at, inner, other[0], other.len() > 1);
                lemma_node_index_names(nodes, other[0], other.len() > 1);
            }
        }
    } else {
        let node = after[nodes.len() as int];
        if many {
            lemma_with_path_spots(Seq::empty(), rest, path, file_index, rest);
        }
        lemma_node_index_push(nodes, node, segments[0], many);
        if has_spot(nodes, other) {
            lemma_node_index_push(nodes, node, other[0], other.len() > 1);
            lemma_node_index_names(nodes, other[0], other.len() > 1);
        }
    }
}

/// A taken spot holds a leaf of an indexed file with the path that the segments
/// spell.
proof fn lemma_spot_is_a_leaf(
    nodes: Seq<NodeModel>,
    segments: Seq<Seq<char>>,
    prefix: Seq<char>,
    files: Seq<FileEntryModel>,
    indices: Seq<usize>,
) -> (i: usize)
    requires
        spelled(nodes, prefix),
        canonical_nodes(nodes, files, indices),
        has_spot(nodes, segments),
    ensures
        indices.contains(i),
        clean_path(files[i as int].path) == joined_all(prefix, segments),
        leaves_among(nodes, i) > 0,
    decreases segments.len(),
{
    let path = joined(prefix, segments[0]);
    let rest = segments.drop_first();
    let at = node_index(nodes, segments[0], segments.len() > 1);
    lemma_node_index_names(nodes, segments[0], segments.len() > 1);
    lemma_spelled(nodes, prefix);
    lemma_canonical_nodes(nodes, files, indices);
    let node = nodes[at];
    assert(spelled_node(node, prefix));
    assert(canonical_node(node, files, indices));
    let i = if segments.len() == 1 {
        assert(rest =~= Seq::<Seq<char>>::empty());
        assert(joined_all(path, rest) == path);
        node.file_index->0
    } else {
        lemma_spot_is_a_leaf(node.children, rest, path, files, indices)
    };
    lemma_leaves_at(node, i);
    lemma_leaf_among(nodes, at, i);
    i
}

/// Whether no other of the given files has the path of this one.
pub open spec fn path_is_its_own(
    files: Seq<FileEntryModel>,
    indices: Seq<usize>,
    i: usize,
) -> bool {
    forall|j: usize| #[trigger]
        indices.contains(j) && clean_path(files[j as int].path) == clean_path(files[i as int].path)
            ==> j == i
}

proof fn lemma_trie_counts(files: Seq<FileEntryModel>, indices: Seq<usize>, n: int, i: usize)
    requires
        0 <= n <= indices.len(),
        segments_of(files[i as int].path).len() > 0,
        path_is_its_own(files, indices, i),
    ensures
        ({
            let nodes = trie(files, indices, n);
            let segments = segments_of(files[i as int].path);
            if indices.take(n).contains(i) {
                leaves_among(nodes, i) == 1 && has_spot(nodes, segments)
            } else {
                leaves_among(nodes, i) == 0
            }
        }),
    decreases n,
{
    let none = Seq::<char>::empty();
    let segments = segments_of(files[i as int].path);
    if n > 0 {
        lemma_trie_counts(files, indices, n - 1, i);
        let before = trie(files, indices, n - 1);
        let j = indices[n - 1];
        let own = segments_of(files[j as int].path);
        assert(indices.take(n).drop_last() =~= indices.take(n - 1));
        assert(indices.take(n)[n - 1] == j);
        let shorter = indices.take(n - 1);
        let longer = indices.take(n);
        if shorter.contains(i) {
            let k = choose|k: int| 0 <= k < shorter.len() && shorter[k] == i;
            assert(longer[k] == i);
        }
        if longer.contains(i) && i != j {
            let k = choose|k: int| 0 <= k < longer.len() && longer[k] == i;
            assert(shorter[k] == i);
        }
        if own.len() > 0 {
            lemma_with_path_counts(before, own, none, j, i);
            lemma_with_path_spots(before, own, none, j, segments);
            if j == i && !indices.take(n - 1).contains(i) && has_spot(before, segments) {
                lemma_trie_canonical(files, indices, n - 1);
                lemma_trie_spelled(files, indices, n - 1);
                let m = lemma_spot_is_a_leaf(before, segments, none, files, indices);
                assert(indices.contains(m));
            }
        }
    } else {
        assert(!indices.take(0).contains(i));
    }
}

proof fn lemma_trie_spelled(files: Seq<FileEntryModel>, indices: Seq<usize>, n: int)
    ensures
        spelled(trie(files, indices, n), Seq::empty()),
    decreases n,
{
    if n > 0 {
        lemma_trie_spelled(files, indices, n - 1);
        let i = indices[n - 1];
        lemma_with_path_leaves(
            trie(files, indices, n - 1),
            segments_of(files[i as int].path),
            Seq::empty(),
            i,
        );
    }
}

proof fn lemma_collapsed_dir_counts(
    name: Seq<char>,
    path: Seq<char>,
    children: Seq<NodeModel>,
    i: usize,
)
    ensures
        leaves_at(collapsed_dir(name, path, children), i) == leaves_among(children, i),
    decreases children, 1nat,
{
    if children.len() == 1 && children[0].is_dir() {
        assert(children.drop_last() =~= Seq::<NodeModel>::empty());
        assert(leaves_among(children.drop_last(), i) == 0);
        lemma_leaves_at(children[0], i);
        lemma_collapsed_dir_counts(
            name + "/"@ + children[0].name,
            children[0].path,
            children[0].children,
            i,
        );
    } else {
        lemma_collapsed_counts(children, i);
        lemma_leaves_at(collapsed_dir(name, path, children), i);
    }
}

proof fn lemma_collapsed_counts(nodes: Seq<NodeModel>, i: usize)
    ensures
        leaves_among(collapsed_nodes(nodes), i) == leaves_among(nodes, i),
    decreases nodes, 0nat,
{
    if nodes.len() > 0 {
        let last = nodes.last();
        lemma_collapsed_counts(nodes.drop_last(), i);
        lemma_leaves_push(collapsed_nodes(nodes.drop_last()), collapsed_node(last), i);
        lemma_leaves_at(last, i);
        lemma_leaves_at(collapsed_node(last), i);
        if last.is_dir() {
            lemma_collapsed_dir_counts(last.name, last.path, last.children, i);
        } else {
            lemma_collapsed_counts(last.children, i);
        }
    }
}

proof fn lemma_with_sibling_counts(nodes: Seq<NodeModel>, node: NodeModel, i: usize)
    ensures
        leaves_among(with_sibling(nodes, node), i) == leaves_among(nodes, i) + leaves_at(node, i),
    decreases nodes.len(),
{
    if nodes.len() == 0 || sibling_le(nodes.last(), node) {
        lemma_leaves_push(nodes, node, i);
    } else {
        lemma_with_sibling_counts(nodes.drop_last(), node, i);
        lemma_leaves_push(with_sibling(nodes.drop_last(), node), nodes.last(), i);
    }
}

proof fn lemma_sorted_counts(nodes: Seq<NodeModel>, i: usize)
    ensures
        leaves_among(sorted_nodes(nodes), i) == leaves_among(nodes, i),
    decreases nodes,
{
    if nodes.len() > 0 {
        let last = nodes.last();
        lemma_sorted_counts(nodes.drop_last(), i);
        lemma_sorted_counts(last.children, i);
        lemma_leaves_at(last, i);
        lemma_leaves_at(sorted_node(last), i);
        lemma_with_sibling_counts(sorted_nodes(nodes.drop_last()), sorted_node(last), i);
    }
}

/// Each of the given files has exactly one leaf, where its path has a segment at
/// all and is no other file's.
pub proof fn every_file_has_exactly_one_leaf(
    files: Seq<FileEntryModel>,
    indices: Seq<usize>,
    k: int,
)
    requires
        0 <= k < indices.len(),
        segments_of(files[indices[k] as int].path).len() > 0,
        path_is_its_own(files, indices, indices[k]),
    ensures
        leaves_among(tree_of(files, indices), indices[k]) == 1,
{
    let n = indices.len() as int;
    let i = indices[k];
    let t = trie(files, indices, n);
    assert(indices.take(n) =~= indices);
    lemma_trie_counts(files, indices, n, i);
    lemma_collapsed_counts(t, i);
    lemma_sorted_counts(collapsed_nodes(t), i);
}

} // verus!
