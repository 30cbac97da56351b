//! The file tree.

use ambidiff_core::model::{FileEntry, FileStatus};
use ambidiff_core::tree::{build_file_tree, build_filtered_file_tree, flatten_tree};

fn files(paths: &[&str]) -> Vec<FileEntry> {
    paths
        .iter()
        .map(|p| FileEntry {
            path: (*p).to_string(),
            old_path: None,
            status: FileStatus::Modified,
            adds: None,
            dels: None,
        })
        .collect()
}

#[test]
fn builds_trie_and_collapses_single_child_chains() {
    let tree = build_file_tree(&files(&[
        "src/app/ui/view.rs",
        "src/app/ui/model.rs",
        "src/lib.rs",
        "README.md",
    ]));
    // Root: "src" (dir), "README.md" (file). "app/ui" collapses under src.
    assert_eq!(tree.len(), 2);
    assert_eq!(tree[0].name, "src");
    assert!(tree[0].is_dir());
    assert_eq!(tree[1].name, "README.md");
    // src has children: app/ui (collapsed dir) and lib.rs.
    let src = &tree[0];
    assert_eq!(src.children[0].name, "app/ui");
    assert_eq!(src.children[0].path, "src/app/ui");
    assert_eq!(src.children[1].name, "lib.rs");
    let ui = &src.children[0];
    assert_eq!(ui.children.len(), 2);
    assert_eq!(ui.children[0].name, "model.rs");
}

#[test]
fn root_single_chain_collapses_but_keeps_leaf() {
    let tree = build_file_tree(&files(&["a/b/c/file.txt"]));
    assert_eq!(tree.len(), 1);
    assert_eq!(tree[0].name, "a/b/c");
    assert_eq!(tree[0].children[0].name, "file.txt");
    assert_eq!(tree[0].children[0].file_index, Some(0));
}

#[test]
fn dirs_sort_before_files_alphabetically() {
    let tree = build_file_tree(&files(&["z.txt", "b/x.txt", "a.txt", "y/q.txt"]));
    let names: Vec<&str> = tree.iter().map(|n| n.name.as_str()).collect();
    assert_eq!(names, vec!["b", "y", "a.txt", "z.txt"]);
}

#[test]
fn flatten_honors_collapsed_set() {
    let tree = build_file_tree(&files(&["src/a.rs", "src/b.rs", "top.txt"]));
    let open = flatten_tree(&tree, &[]);
    assert_eq!(open.len(), 4);
    assert_eq!(open[0].name, "src");
    assert_eq!(open[1].depth, 1);

    let collapsed = vec!["src".to_string()];
    let rows = flatten_tree(&tree, &collapsed);
    assert_eq!(rows.len(), 2);
    assert!(rows[0].collapsed);
    assert_eq!(rows[1].name, "top.txt");
}

#[test]
fn filtered_tree_keeps_canonical_file_indices() {
    let all = files(&["src/a.rs", "src/b.rs", "top.txt"]);
    // Only "src/b.rs" (index 1) passes the filter; its file_index must
    // still be 1, not renumbered to 0 within the filtered subset.
    let tree = build_filtered_file_tree(&all, &[1]);
    let rows = flatten_tree(&tree, &[]);
    let leaf = rows.iter().find(|r| !r.is_dir).expect("one file leaf");
    assert_eq!(leaf.path, "src/b.rs");
    assert_eq!(leaf.file_index, Some(1));
}

#[test]
fn filtered_tree_omits_directories_with_no_passing_descendants() {
    let all = files(&["src/a.rs", "other/b.rs"]);
    let tree = build_filtered_file_tree(&all, &[0]);
    let rows = flatten_tree(&tree, &[]);
    assert!(rows.iter().all(|r| r.path != "other"));
}

#[test]
fn tree_rows_default_to_zero_comment_counts() {
    let tree = build_file_tree(&files(&["a.rs"]));
    let rows = flatten_tree(&tree, &[]);
    assert_eq!((rows[0].comments_todo, rows[0].comments_total), (0, 0));
}

#[test]
fn empty_input_builds_empty_tree() {
    assert!(build_file_tree(&[]).is_empty());
}

#[test]
fn duplicate_leading_slashes_and_segments_are_tolerated() {
    let tree = build_file_tree(&files(&["a//b.txt"]));
    assert_eq!(tree[0].name, "a");
    assert_eq!(tree[0].children[0].name, "b.txt");
}

#[test]
fn every_file_has_exactly_one_leaf_and_no_chain_is_left() {
    let paths = ["a/b/c/x", "a/b/c/y", "a/b/d/e/z", "f/g/h", "x", "a/b/x"];
    let listing = files(&paths);
    let rows = flatten_tree(&build_file_tree(&listing), &[]);
    for (i, path) in paths.iter().enumerate() {
        let leaves: Vec<_> = rows.iter().filter(|r| r.file_index == Some(i)).collect();
        assert_eq!(leaves.len(), 1);
        assert_eq!(leaves[0].path, *path);
    }
    let dirs: Vec<&str> = rows
        .iter()
        .filter(|r| r.is_dir)
        .map(|r| r.path.as_str())
        .collect();
    assert_eq!(dirs, ["a/b", "a/b/c", "a/b/d/e", "f/g"]);
}
