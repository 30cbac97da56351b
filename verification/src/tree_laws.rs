//! What a file tree and its display rows look like, told by where nodes
//! stand.

use vstd::prelude::*;
use vstd::utf8::encode_utf8;

use crate::model::FileEntryModel;
use crate::text::{
    bytes_le, join_with, lemma_split_on_nonempty, split_on, split_then_join_is_identity, text_le,
};
use crate::tree::{
    clean_path, collapsed_dir, collapsed_node, collapsed_nodes, deeper, flat_rows, in_tree_order,
    joined, joined_all, node_index, node_rows, nonempty, segments_of, sibling_le, sorted_node,
    sorted_nodes, tree_of, trees_are_sorted, trie, with_path, with_sibling, NodeModel, TreeRowModel,
};

verus! {

/// The nodes below the node at a place; a place is the list of positions
/// that leads to it from the roots.
pub open spec fn below(nodes: Seq<NodeModel>, place: Seq<int>) -> Seq<NodeModel>
    decreases place.len(),
{
    if place.len() == 0 {
        nodes
    } else {
        below(nodes[place[0]].children, place.drop_first())
    }
}

/// Whether there is a node at a place, or the place is that of the roots.
pub open spec fn is_place(nodes: Seq<NodeModel>, place: Seq<int>) -> bool
    decreases place.len(),
{
    place.len() == 0 || (0 <= place[0] < nodes.len() && is_place(
        nodes[place[0]].children,
        place.drop_first(),
    ))
}

/// The node at a place.
pub open spec fn node_at(nodes: Seq<NodeModel>, place: Seq<int>) -> NodeModel
    decreases place.len(),
{
    if place.len() <= 1 {
        nodes[place[0]]
    } else {
        node_at(nodes[place[0]].children, place.drop_first())
    }
}

/// Whether a run of bytes does not come after another: it is the start of
/// it, or has the smaller byte where the two first differ.
pub open spec fn not_after(a: Seq<u8>, b: Seq<u8>) -> bool {
    ||| a.len() <= b.len() && a == b.take(a.len() as int)
    ||| exists|m: int|
        #![trigger a[m]]
        0 <= m < a.len() && m < b.len() && a.take(m) == b.take(m) && a[m] < b[m]
}

/// Texts are ordered by their bytes.
pub proof fn texts_go_by_their_bytes(a: Seq<char>, b: Seq<char>)
    ensures
        text_le(a, b) <==> not_after(encode_utf8(a), encode_utf8(b)),
{
    lemma_not_after(encode_utf8(a), encode_utf8(b));
}

/// Whether a node may stand right before another: directories come before
/// files, and within a kind names go up byte by byte.
pub open spec fn goes_before(a: NodeModel, b: NodeModel) -> bool {
    if a.file_index is None {
        b.file_index is Some || not_after(encode_utf8(a.name), encode_utf8(b.name))
    } else {
        b.file_index is Some && not_after(encode_utf8(a.name), encode_utf8(b.name))
    }
}

/// At every place of a tree the nodes stand in order.
pub proof fn siblings_stand_in_order(
    files: Seq<FileEntryModel>,
    indices: Seq<usize>,
    place: Seq<int>,
    i: int,
)
    requires
        is_place(tree_of(files, indices), place),
        0 <= i < below(tree_of(files, indices), place).len() - 1,
    ensures
        goes_before(
            below(tree_of(files, indices), place)[i],
            below(tree_of(files, indices), place)[i + 1],
        ),
{
    let t = tree_of(files, indices);
    trees_are_sorted(collapsed_nodes(trie(files, indices, indices.len() as int)));
    lemma_order_below(t, place);
    let kids = below(t, place);
    lemma_neighbours(kids, i);
    lemma_not_after(encode_utf8(kids[i].name), encode_utf8(kids[i + 1].name));
}

/// At every place of a tree names are not empty, and a node's path is that
/// of the directory it stands in, a slash and its name; at the roots it is
/// the name alone.
pub proof fn names_spell_paths(
    files: Seq<FileEntryModel>,
    indices: Seq<usize>,
    place: Seq<int>,
    i: int,
)
    requires
        is_place(tree_of(files, indices), place),
        0 <= i < below(tree_of(files, indices), place).len(),
    ensures
        ({
            let t = tree_of(files, indices);
            let node = below(t, place)[i];
            &&& node.name.len() > 0
            &&& place.len() == 0 ==> node.path == node.name
            &&& place.len() > 0 ==> node.path == node_at(t, place).path + seq!['/'] + node.name
        }),
{
    let t = tree_of(files, indices);
    let n = indices.len() as int;
    lemma_trie_named(files, indices, n);
    lemma_collapsed_named(trie(files, indices, n), Seq::empty());
    lemma_sorted_named(collapsed_nodes(trie(files, indices, n)), Seq::empty());
    lemma_named_below(t, Seq::empty(), place, i);
}

/// A path without empty segments is shown as it is.
pub proof fn plain_paths_are_kept(path: Seq<char>)
    requires
        path.len() > 0,
        path[0] != '/',
        path.last() != '/',
        forall|k: int| 0 <= k < path.len() - 1 ==> !((#[trigger] path[k]) == '/' && path[k + 1]
            == '/'),
    ensures
        clean_path(path) == path,
        segments_of(path).len() > 0,
{
    let parts = split_on(path, '/');
    lemma_split_on_nonempty(path, '/');
    lemma_pieces_filled(path);
    lemma_nonempty_all(parts);
    split_then_join_is_identity(path, '/');
    lemma_join_spells(parts);
}

/// Whether a directory is open: its path is not among those that hide what
/// is below them.
pub open spec fn is_open(node: NodeModel, hidden: Seq<Seq<char>>) -> bool {
    node.file_index is None && forall|k: int|
        0 <= k < hidden.len() ==> #[trigger] hidden[k] != node.path
}

/// Whether the node at a place can be seen: it is there, and every directory
/// above it is open.
pub open spec fn can_be_seen(
    nodes: Seq<NodeModel>,
    hidden: Seq<Seq<char>>,
    place: Seq<int>,
) -> bool
    decreases place.len(),
{
    place.len() > 0 && 0 <= place[0] < nodes.len() && (place.len() == 1 || (is_open(
        nodes[place[0]],
        hidden,
    ) && can_be_seen(nodes[place[0]].children, hidden, place.drop_first())))
}

/// Whether a row is that of a node.
pub open spec fn is_row_of(
    row: TreeRowModel,
    node: NodeModel,
    hidden: Seq<Seq<char>>,
    depth: int,
) -> bool {
    &&& row.name == node.name
    &&& row.path == node.path
    &&& row.file_index == node.file_index
    &&& row.is_dir == (node.file_index is None)
    &&& row.collapsed == (node.file_index is None && !is_open(node, hidden))
    &&& row.depth == if depth <= usize::MAX {
        depth
    } else {
        usize::MAX as int
    }
    &&& row.comments_todo == 0
    &&& row.comments_total == 0
}

/// Whether a place comes before another from top to bottom: a directory
/// before what is in it, and what is in it before what follows it.
pub open spec fn is_above(a: Seq<int>, b: Seq<int>) -> bool
    decreases a.len(),
{
    b.len() > 0 && (a.len() == 0 || a[0] < b[0] || (a[0] == b[0] && is_above(
        a.drop_first(),
        b.drop_first(),
    )))
}

/// Whether rows are those of the nodes at these places.
pub open spec fn rows_are(
    rows: Seq<TreeRowModel>,
    nodes: Seq<NodeModel>,
    hidden: Seq<Seq<char>>,
    depth: int,
    places: Seq<Seq<int>>,
) -> bool {
    &&& places.len() == rows.len()
    &&& forall|k: int|
        0 <= k < rows.len() ==> can_be_seen(nodes, hidden, #[trigger] places[k]) && is_row_of(
            rows[k],
            node_at(nodes, places[k]),
            hidden,
            depth + places[k].len() - 1,
        )
    &&& forall|j: int, k: int|
        0 <= j < k < places.len() ==> is_above(#[trigger] places[j], #[trigger] places[k])
    &&& forall|place: Seq<int>| #[trigger]
        can_be_seen(nodes, hidden, place) ==> places.contains(place)
}

/// The display rows are those of the nodes that can be seen, each once, from
/// top to bottom, as deep as they stand.
pub proof fn rows_are_what_can_be_seen(nodes: Seq<NodeModel>, hidden: Seq<Seq<char>>)
    ensures
        exists|places: Seq<Seq<int>>| #[trigger]
            rows_are(flat_rows(nodes, hidden, 0), nodes, hidden, 0, places),
{
    lemma_rows(nodes, hidden, 0, 0);
    assert(rows_are(flat_rows(nodes, hidden, 0), nodes, hidden, 0, places_of(nodes, hidden)));
}

// -------------------------------------------------------------- proofs: order

proof fn lemma_order_below(nodes: Seq<NodeModel>, place: Seq<int>)
    requires
        in_tree_order(nodes),
        is_place(nodes, place),
    ensures
        in_tree_order(below(nodes, place)),
    decreases place.len(),
{
    if place.len() > 0 {
        lemma_order_of(nodes, place[0]);
        lemma_order_below(nodes[place[0]].children, place.drop_first());
    }
}

proof fn lemma_order_of(nodes: Seq<NodeModel>, i: int)
    requires
        in_tree_order(nodes),
        0 <= i < nodes.len(),
    ensures
        in_tree_order(nodes[i].children),
    decreases nodes.len(),
{
    if i < nodes.len() - 1 {
        lemma_order_of(nodes.drop_last(), i);
    }
}

proof fn lemma_neighbours(nodes: Seq<NodeModel>, i: int)
    requires
        in_tree_order(nodes),
        0 <= i < nodes.len() - 1,
    ensures
        sibling_le(nodes[i], nodes[i + 1]),
    decreases nodes.len(),
{
    if i < nodes.len() - 2 {
        lemma_neighbours(nodes.drop_last(), i);
    }
}

proof fn lemma_not_after(a: Seq<u8>, b: Seq<u8>)
    ensures
        bytes_le(a, b) <==> not_after(a, b),
    decreases a.len(),
{
    if a.len() == 0 {
        assert(a =~= b.take(0));
    } else if b.len() > 0 {
        let x = a.drop_first();
        let y = b.drop_first();
        assert(a =~= seq![a[0]] + x);
        assert(b =~= seq![b[0]] + y);
        if a[0] != b[0] {
            assert(a.take(0) =~= b.take(0));
            if not_after(a, b) && a[0] > b[0] {
                if a.len() <= b.len() && a == b.take(a.len() as int) {
                    assert(b.take(a.len() as int)[0] == b[0]);
                } else {
                    let m = choose|m: int|
                        #![trigger a[m]]
                        0 <= m < a.len() && m < b.len() && a.take(m) == b.take(m) && a[m] < b[m];
                    if m > 0 {
                        assert(a.take(m)[0] == b.take(m)[0]);
                    }
                }
            }
        } else {
            lemma_not_after(x, y);
            if not_after(x, y) {
                if x.len() <= y.len() && x == y.take(x.len() as int) {
                    assert(b.take(a.len() as int) =~= seq![b[0]] + y.take(x.len() as int));
                } else {
                    let m = choose|m: int|
                        #![trigger x[m]]
                        0 <= m < x.len() && m < y.len() && x.take(m) == y.take(m) && x[m] < y[m];
                    assert(a.take(m + 1) =~= seq![a[0]] + x.take(m));
                    assert(b.take(m + 1) =~= seq![b[0]] + y.take(m));
                    assert(a[m + 1] == x[m] && b[m + 1] == y[m]);
                }
            }
            if not_after(a, b) {
                if a.len() <= b.len() && a == b.take(a.len() as int) {
                    assert(x =~= y.take(x.len() as int)) by {
                        assert forall|i: int| 0 <= i < x.len() implies x[i] == y[i] by {
                            assert(a[i + 1] == b.take(a.len() as int)[i + 1]);
                        }
                    }
                } else {
                    let m = choose|m: int|
                        #![trigger a[m]]
                        0 <= m < a.len() && m < b.len() && a.take(m) == b.take(m) && a[m] < b[m];
                    assert(m > 0);
                    assert(x.take(m - 1) =~= y.take(m - 1)) by {
                        assert forall|i: int| 0 <= i < m - 1 implies x[i] == y[i] by {
                            assert(a.take(m)[i + 1] == b.take(m)[i + 1]);
                        }
                    }
                    assert(x[m - 1] == a[m] && y[m - 1] == b[m]);
                }
            }
        }
    }
}

// -------------------------------------------------------------- proofs: names

/// Whether nodes have names and carry the paths that these spell.
spec fn named(nodes: Seq<NodeModel>, prefix: Seq<char>) -> bool
    decreases nodes,
{
    nodes.len() == 0 || (named(nodes.drop_last(), prefix) && named_node(nodes.last(), prefix))
}

spec fn named_node(node: NodeModel, prefix: Seq<char>) -> bool
    decreases node,
{
    node.name.len() > 0 && node.path == joined(prefix, node.name) && named(
        node.children,
        node.path,
    )
}

proof fn lemma_named(nodes: Seq<NodeModel>, prefix: Seq<char>)
    ensures
        named(nodes, prefix) <==> forall|i: int|
            0 <= i < nodes.len() ==> named_node(#[trigger] nodes[i], prefix),
    decreases nodes.len(),
{
    if nodes.len() > 0 {
        let front = nodes.drop_last();
        lemma_named(front, prefix);
        if named(nodes, prefix) {
            assert forall|i: int| 0 <= i < nodes.len() implies named_node(
                #[trigger] nodes[i],
                prefix,
            ) by {
                if i < front.len() {
                    assert(named_node(front[i], prefix));
                }
            }
        }
        if forall|i: int| 0 <= i < nodes.len() ==> named_node(#[trigger] nodes[i], prefix) {
            assert forall|i: int| 0 <= i < front.len() implies named_node(
                #[trigger] front[i],
                prefix,
            ) by {
                assert(named_node(nodes[i], prefix));
            }
            assert(named_node(nodes[nodes.len() - 1], prefix));
        }
    }
}

proof fn lemma_named_below(
    nodes: Seq<NodeModel>,
    prefix: Seq<char>,
    place: Seq<int>,
    i: int,
)
    requires
        named(nodes, prefix),
        is_place(nodes, place),
        0 <= i < below(nodes, place).len(),
    ensures
        ({
            let node = below(nodes, place)[i];
            &&& node.name.len() > 0
            &&& place.len() == 0 ==> node.path == joined(prefix, node.name)
            &&& place.len() > 0 ==> node.path == node_at(nodes, place).path + seq!['/']
                + node.name
        }),
    decreases place.len(),
{
    lemma_named(nodes, prefix);
    if place.len() == 0 {
        assert(named_node(nodes[i], prefix));
    } else {
        let top = nodes[place[0]];
        assert(named_node(top, prefix));
        lemma_named_below(top.children, top.path, place.drop_first(), i);
        if place.len() == 1 {
            reveal_strlit("/");
            assert("/"@ =~= seq!['/']);
        }
    }
}

proof fn lemma_with_path_named(
    nodes: Seq<NodeModel>,
    segments: Seq<Seq<char>>,
    prefix: Seq<char>,
    file_index: usize,
)
    requires
        named(nodes, prefix),
        forall|k: int| 0 <= k < segments.len() ==> (#[trigger] segments[k]).len() > 0,
    ensures
        named(with_path(nodes, segments, prefix, file_index), prefix),
    decreases segments.len(),
{
    if segments.len() > 0 {
        let path = joined(prefix, segments[0]);
        let rest = segments.drop_first();
        let at = node_index(nodes, segments[0], segments.len() > 1);
        let after = with_path(nodes, segments, prefix, file_index);
        lemma_index_names(nodes, segments[0], segments.len() > 1);
        lemma_named(nodes, prefix);
        lemma_named(after, prefix);
        assert(segments[0].len() > 0);
        assert forall|k: int| 0 <= k < rest.len() implies (#[trigger] rest[k]).len() > 0 by {
            assert(rest[k] == segments[k + 1]);
        }
        if at < nodes.len() {
            assert(named_node(nodes[at], prefix));
            if segments.len() > 1 {
                lemma_with_path_named(nodes[at].children, rest, path, file_index);
            }
        } else if segments.len() > 1 {
            lemma_with_path_named(Seq::empty(), rest, path, file_index);
        }
        assert forall|i: int| 0 <= i < after.len() implies named_node(
            #[trigger] after[i],
            prefix,
        ) by {
            if i < nodes.len() {
                assert(named_node(nodes[i], prefix));
            }
        }
    }
}

proof fn lemma_index_names(nodes: Seq<NodeModel>, name: Seq<char>, is_dir: bool)
    ensures
        0 <= node_index(nodes, name, is_dir) <= nodes.len(),
        node_index(nodes, name, is_dir) < nodes.len() ==> nodes[node_index(
            nodes,
            name,
            is_dir,
        )].name == name,
    decreases nodes.len(),
{
    if nodes.len() > 0 {
        lemma_index_names(nodes.drop_last(), name, is_dir);
    }
}

proof fn lemma_segments_filled(parts: Seq<Seq<char>>)
    ensures
        forall|k: int| 0 <= k < nonempty(parts).len() ==> (#[trigger] nonempty(parts)[k]).len() > 0,
    decreases parts.len(),
{
    if parts.len() > 0 {
        let before = nonempty(parts.drop_last());
        lemma_segments_filled(parts.drop_last());
        assert forall|k: int| 0 <= k < nonempty(parts).len() implies (
        #[trigger] nonempty(parts)[k]).len() > 0 by {
            if k < before.len() {
                assert(nonempty(parts)[k] == before[k]);
            }
        }
    }
}

proof fn lemma_trie_named(files: Seq<FileEntryModel>, indices: Seq<usize>, n: int)
    ensures
        named(trie(files, indices, n), Seq::empty()),
    decreases n,
{
    if n > 0 {
        lemma_trie_named(files, indices, n - 1);
        let i = indices[n - 1];
        lemma_segments_filled(split_on(files[i as int].path, '/'));
        lemma_with_path_named(
            trie(files, indices, n - 1),
            segments_of(files[i as int].path),
            Seq::empty(),
            i,
        );
    }
}

proof fn lemma_collapsed_dir_named(
    name: Seq<char>,
    path: Seq<char>,
    children: Seq<NodeModel>,
    prefix: Seq<char>,
)
    requires
        name.len() > 0,
        path == joined(prefix, name),
        named(children, path),
    ensures
        named_node(collapsed_dir(name, path, children), prefix),
    decreases children, 1nat,
{
    if children.len() == 1 && children[0].is_dir() {
        let child = children[0];
        lemma_named(children, path);
        assert(named_node(child, path));
        let longer = name + "/"@ + child.name;
        assert(joined(path, child.name) =~= joined(prefix, longer));
        lemma_collapsed_dir_named(longer, child.path, child.children, prefix);
    } else {
        lemma_collapsed_named(children, path);
    }
}

proof fn lemma_collapsed_named(nodes: Seq<NodeModel>, prefix: Seq<char>)
    requires
        named(nodes, prefix),
    ensures
        named(collapsed_nodes(nodes), prefix),
    decreases nodes, 0nat,
{
    if nodes.len() > 0 {
        let last = nodes.last();
        lemma_named(nodes, prefix);
        assert(named_node(nodes[nodes.len() - 1], prefix));
        lemma_collapsed_named(nodes.drop_last(), prefix);
        let after = collapsed_nodes(nodes);
        assert(after.drop_last() =~= collapsed_nodes(nodes.drop_last()));
        assert(after.last() == collapsed_node(last));
        if last.is_dir() {
            lemma_collapsed_dir_named(last.name, last.path, last.children, prefix);
        } else {
            lemma_collapsed_named(last.children, last.path);
            assert(collapsed_node(last).children == collapsed_nodes(last.children));
        }
        assert(named_node(after.last(), prefix));
    }
}

proof fn lemma_with_sibling_named(nodes: Seq<NodeModel>, node: NodeModel, prefix: Seq<char>)
    requires
        named(nodes, prefix),
        named_node(node, prefix),
    ensures
        named(with_sibling(nodes, node), prefix),
    decreases nodes.len(),
{
    let after = with_sibling(nodes, node);
    if nodes.len() == 0 || sibling_le(nodes.last(), node) {
        assert(after.drop_last() =~= nodes);
    } else {
        lemma_with_sibling_named(nodes.drop_last(), node, prefix);
        assert(after.drop_last() =~= with_sibling(nodes.drop_last(), node));
    }
}

proof fn lemma_sorted_named(nodes: Seq<NodeModel>, prefix: Seq<char>)
    requires
        named(nodes, prefix),
    ensures
        named(sorted_nodes(nodes), prefix),
    decreases nodes,
{
    if nodes.len() > 0 {
        let last = nodes.last();
        lemma_named(nodes, prefix);
        assert(named_node(nodes[nodes.len() - 1], prefix));
        lemma_sorted_named(nodes.drop_last(), prefix);
        lemma_sorted_named(last.children, last.path);
        lemma_with_sibling_named(sorted_nodes(nodes.drop_last()), sorted_node(last), prefix);
    }
}

// -------------------------------------------------------------- proofs: paths

proof fn lemma_pieces_filled(path: Seq<char>)
    requires
        path.len() > 0,
        path[0] != '/',
        forall|k: int| 0 <= k < path.len() - 1 ==> !((#[trigger] path[k]) == '/' && path[k + 1]
            == '/'),
    ensures
        forall|k: int|
            0 <= k < split_on(path, '/').len() - 1 ==> (#[trigger] split_on(path, '/')[k]).len()
                > 0,
        split_on(path, '/').last().len() > 0 <==> path.last() != '/',
    decreases path.len(),
{
    reveal_with_fuel(split_on, 2);
    let front = path.drop_last();
    if front.len() > 0 {
        lemma_split_on_nonempty(front, '/');
        assert forall|k: int| 0 <= k < front.len() - 1 implies !((#[trigger] front[k]) == '/'
            && front[k + 1] == '/') by {
            assert(path[k] == front[k]);
        }
        lemma_pieces_filled(front);
        assert(path[path.len() - 2] == front.last());
        let before = split_on(front, '/');
        let parts = split_on(path, '/');
        assert forall|k: int| 0 <= k < parts.len() - 1 implies (#[trigger] parts[k]).len() > 0 by {
            assert(parts[k] == before[k]);
        }
    }
}

proof fn lemma_nonempty_all(parts: Seq<Seq<char>>)
    requires
        forall|k: int| 0 <= k < parts.len() ==> (#[trigger] parts[k]).len() > 0,
    ensures
        nonempty(parts) == parts,
    decreases parts.len(),
{
    if parts.len() > 0 {
        let front = parts.drop_last();
        assert forall|k: int| 0 <= k < front.len() implies (#[trigger] front[k]).len() > 0 by {
            assert(parts[k].len() > 0);
        }
        lemma_nonempty_all(front);
        assert(parts[parts.len() - 1].len() > 0);
        assert(front.push(parts.last()) =~= parts);
    } else {
        assert(nonempty(parts) =~= parts);
    }
}

proof fn lemma_joined_push(prefix: Seq<char>, parts: Seq<Seq<char>>, last: Seq<char>)
    ensures
        joined_all(prefix, parts.push(last)) == joined(joined_all(prefix, parts), last),
    decreases parts.len(),
{
    let all = parts.push(last);
    if parts.len() == 0 {
        assert(all.drop_first() =~= Seq::<Seq<char>>::empty());
        reveal_with_fuel(joined_all, 2);
    } else {
        assert(all.drop_first() =~= parts.drop_first().push(last));
        lemma_joined_push(joined(prefix, parts[0]), parts.drop_first(), last);
    }
}

proof fn lemma_join_spells(parts: Seq<Seq<char>>)
    requires
        forall|k: int| 0 <= k < parts.len() ==> (#[trigger] parts[k]).len() > 0,
    ensures
        joined_all(Seq::empty(), parts) == join_with(parts, seq!['/']),
        parts.len() > 0 ==> joined_all(Seq::empty(), parts).len() > 0,
    decreases parts.len(),
{
    if parts.len() > 0 {
        let front = parts.drop_last();
        assert forall|k: int| 0 <= k < front.len() implies (#[trigger] front[k]).len() > 0 by {
            assert(parts[k].len() > 0);
        }
        lemma_join_spells(front);
        lemma_joined_push(Seq::empty(), front, parts.last());
        assert(front.push(parts.last()) =~= parts);
        assert(parts[parts.len() - 1].len() > 0);
        reveal_strlit("/");
        assert("/"@ =~= seq!['/']);
        if parts.len() == 1 {
            reveal_with_fuel(joined_all, 2);
        }
    }
}

// --------------------------------------------------------------- proofs: rows

spec fn places_of(nodes: Seq<NodeModel>, hidden: Seq<Seq<char>>) -> Seq<Seq<int>>
    decreases nodes,
{
    if nodes.len() == 0 {
        Seq::empty()
    } else {
        places_of(nodes.drop_last(), hidden) + places_at(
            nodes.last(),
            hidden,
            nodes.len() - 1,
        )
    }
}

spec fn places_at(node: NodeModel, hidden: Seq<Seq<char>>, i: int) -> Seq<Seq<int>>
    decreases node,
{
    if is_open(node, hidden) {
        seq![seq![i]] + led_by(i, places_of(node.children, hidden))
    } else {
        seq![seq![i]]
    }
}

spec fn led_by(i: int, places: Seq<Seq<int>>) -> Seq<Seq<int>> {
    Seq::new(places.len(), |k: int| seq![i] + places[k])
}

/// A depth as a row can give it.
spec fn largest(depth: int) -> int {
    if depth <= usize::MAX {
        depth
    } else {
        usize::MAX as int
    }
}

/// The rows of one node, seen as one of its siblings.
proof fn lemma_rows_at(
    nodes: Seq<NodeModel>,
    hidden: Seq<Seq<char>>,
    at: int,
    depth: usize,
    i: int,
)
    requires
        at >= 0,
        depth == largest(at),
        0 <= i < nodes.len(),
        is_open(nodes[i], hidden) ==> rows_are(
            flat_rows(nodes[i].children, hidden, deeper(depth)),
            nodes[i].children,
            hidden,
            at + 1,
            places_of(nodes[i].children, hidden),
        ),
    ensures
        ({
            let rows = node_rows(nodes[i], hidden, depth);
            let places = places_at(nodes[i], hidden, i);
            &&& places.len() == rows.len()
            &&& forall|k: int|
                0 <= k < rows.len() ==> {
                    let place = #[trigger] places[k];
                    &&& place.len() > 0
                    &&& place[0] == i
                    &&& can_be_seen(nodes, hidden, place)
                    &&& is_row_of(
                        rows[k],
                        node_at(nodes, place),
                        hidden,
                        at + place.len() - 1,
                    )
                }
            &&& forall|j: int, k: int|
                0 <= j < k < places.len() ==> is_above(#[trigger] places[j], #[trigger] places[k])
            &&& forall|place: Seq<int>|
                #![trigger can_be_seen(nodes, hidden, place)]
                can_be_seen(nodes, hidden, place) && place[0] == i ==> places.contains(place)
        }),
{
    let node = nodes[i];
    let rows = node_rows(node, hidden, depth);
    let places = places_at(node, hidden, i);
    let own = seq![i];
    assert(places[0] == own);
    assert(node_at(nodes, own) == node);
    assert(is_row_of(rows[0], node, hidden, at));
    if is_open(node, hidden) {
        let inner = flat_rows(node.children, hidden, deeper(depth));
        let deep = places_of(node.children, hidden);
        assert forall|k: int| 0 <= k < rows.len() implies {
            let place = #[trigger] places[k];
            &&& place.len() > 0
            &&& place[0] == i
            &&& can_be_seen(nodes, hidden, place)
            &&& is_row_of(rows[k], node_at(nodes, place), hidden, at + place.len() - 1)
        } by {
            if k > 0 {
                let place = places[k];
                assert(place == seq![i] + deep[k - 1]);
                assert(place.drop_first() =~= deep[k - 1]);
                assert(rows[k] == inner[k - 1]);
                assert(can_be_seen(node.children, hidden, deep[k - 1]));
            }
        }
        assert forall|j: int, k: int| 0 <= j < k < places.len() implies is_above(
            #[trigger] places[j],
            #[trigger] places[k],
        ) by {
            assert(places[k] == seq![i] + deep[k - 1]);
            assert(places[k].drop_first() =~= deep[k - 1]);
            assert(can_be_seen(node.children, hidden, deep[k - 1]));
            if j > 0 {
                assert(places[j] == seq![i] + deep[j - 1]);
                assert(places[j].drop_first() =~= deep[j - 1]);
                assert(is_above(deep[j - 1], deep[k - 1]));
            } else {
                assert(own.drop_first() =~= Seq::<int>::empty());
                assert(is_above(own.drop_first(), deep[k - 1]));
            }
        }
        assert forall|place: Seq<int>|
            #![trigger can_be_seen(nodes, hidden, place)]
            can_be_seen(nodes, hidden, place) && place[0] == i implies places.contains(place) by {
            if place.len() == 1 {
                assert(place =~= own);
                assert(places[0] == place);
            } else {
                let rest = place.drop_first();
                assert(can_be_seen(node.children, hidden, rest));
                let k = choose|k: int| 0 <= k < deep.len() && deep[k] == rest;
                assert(places[k + 1] == seq![i] + deep[k]);
                assert(place =~= seq![i] + rest);
            }
        }
    } else {
        assert forall|place: Seq<int>|
            #![trigger can_be_seen(nodes, hidden, place)]
            can_be_seen(nodes, hidden, place) && place[0] == i implies places.contains(place) by {
            assert(place =~= own);
            assert(places[0] == place);
        }
    }
}

proof fn lemma_rows(nodes: Seq<NodeModel>, hidden: Seq<Seq<char>>, at: int, depth: usize)
    requires
        at >= 0,
        depth == largest(at),
    ensures
        rows_are(flat_rows(nodes, hidden, depth), nodes, hidden, at, places_of(nodes, hidden)),
    decreases nodes,
{
    let rows = flat_rows(nodes, hidden, depth);
    let places = places_of(nodes, hidden);
    if nodes.len() == 0 {
        assert(rows_are(rows, nodes, hidden, at, places));
    } else {
        let front = nodes.drop_last();
        let i = nodes.len() - 1;
        lemma_rows(front, hidden, at, depth);
        lemma_rows(nodes.last().children, hidden, at + 1, deeper(depth));
        lemma_rows_at(nodes, hidden, at, depth, i);
        let rows1 = flat_rows(front, hidden, depth);
        let places1 = places_of(front, hidden);
        let rows2 = node_rows(nodes[i], hidden, depth);
        let places2 = places_at(nodes[i], hidden, i);
        assert(rows == rows1 + rows2);
        assert(places == places1 + places2);
        assert forall|place: Seq<int>| #[trigger] can_be_seen(front, hidden, place) implies
            can_be_seen(nodes, hidden, place) && node_at(front, place) == node_at(nodes, place)
            && place[0] < i by {
            assert(front[place[0]] == nodes[place[0]]);
        }
        assert forall|k: int| 0 <= k < rows.len() implies can_be_seen(
            nodes,
            hidden,
            #[trigger] places[k],
        ) && is_row_of(
            rows[k],
            node_at(nodes, places[k]),
            hidden,
            at + places[k].len() - 1,
        ) by {
            if k < rows1.len() {
                assert(places[k] == places1[k]);
                assert(can_be_seen(front, hidden, places1[k]));
            } else {
                assert(places[k] == places2[k - rows1.len()]);
            }
        }
        assert forall|j: int, k: int| 0 <= j < k < places.len() implies is_above(
            #[trigger] places[j],
            #[trigger] places[k],
        ) by {
            if k < rows1.len() {
                assert(places[j] == places1[j] && places[k] == places1[k]);
            } else if j < rows1.len() {
                assert(places[j] == places1[j] && places[k] == places2[k - rows1.len()]);
                assert(can_be_seen(front, hidden, places1[j]));
            } else {
                assert(places[j] == places2[j - rows1.len()]);
                assert(places[k] == places2[k - rows1.len()]);
            }
        }
        assert forall|place: Seq<int>| #[trigger] can_be_seen(nodes, hidden, place) implies
            places.contains(place) by {
            if place[0] < i {
                assert(front[place[0]] == nodes[place[0]]);
                assert(can_be_seen(front, hidden, place));
                let k = choose|k: int| 0 <= k < places1.len() && places1[k] == place;
                assert(places[k] == place);
            } else {
                assert(places2.contains(place));
                let k = choose|k: int| 0 <= k < places2.len() && places2[k] == place;
                assert(places[k + places1.len()] == place);
            }
        }
    }
}

} // verus!
