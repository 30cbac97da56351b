//! Root-relative paths.

use ambidiff_core::rootio::check_relative_path;
use ambidiff_core::source::PathReason;

#[test]
fn check_relative_path_accepts_plain_and_nested() {
    assert_eq!(check_relative_path("a").expect("valid"), vec!["a"]);
    assert_eq!(
        check_relative_path("a/b/c").expect("valid"),
        vec!["a", "b", "c"]
    );
}

#[test]
fn check_relative_path_rejects_each_escape_shape() {
    assert_eq!(check_relative_path(""), Err(PathReason::Empty));
    assert_eq!(check_relative_path("/a"), Err(PathReason::Absolute));
    assert_eq!(check_relative_path("a/"), Err(PathReason::TrailingSlash));
    assert_eq!(check_relative_path("a//b"), Err(PathReason::EmptyComponent));
    assert_eq!(
        check_relative_path("./a"),
        Err(PathReason::CurrentComponent)
    );
    assert_eq!(
        check_relative_path("../a"),
        Err(PathReason::ParentComponent)
    );
    assert_eq!(
        check_relative_path("a/../b"),
        Err(PathReason::ParentComponent)
    );
    assert_eq!(check_relative_path("a\0b"), Err(PathReason::ContainsNul));
}
