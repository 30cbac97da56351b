//! Diff sources.

use ambidiff_core::model::{FileDiff, FileEntry, FileStatus};
use ambidiff_core::review::Side;
use ambidiff_core::source::{
    Comparison, DiffSource, Endpoint, FileDiffRequest, Listing, SourceError,
};

fn entry() -> FileEntry {
    FileEntry {
        path: "new.rs".into(),
        old_path: Some("old.rs".into()),
        status: FileStatus::Renamed,
        adds: Some(1),
        dels: Some(2),
    }
}

#[test]
fn path_on_uses_rename_origin_for_old_side_only() {
    let req = FileDiffRequest::for_entry(&entry(), 3);
    assert_eq!(req.path_on(Side::Old), "old.rs");
    assert_eq!(req.path_on(Side::New), "new.rs");
}

#[test]
fn path_on_falls_back_to_path_without_a_rename() {
    let req = FileDiffRequest {
        path: "a.rs".into(),
        old_path: None,
        context: 3,
    };
    assert_eq!(req.path_on(Side::Old), "a.rs");
    assert_eq!(req.path_on(Side::New), "a.rs");
}

#[test]
fn comparison_display_and_endpoint_accessors() {
    let cmp = Comparison {
        old: Endpoint::Commit {
            oid: "deadbeef".into(),
        },
        new: Endpoint::Worktree,
    };
    assert_eq!(cmp.label(), "deadbeef..worktree");
    assert_eq!(
        cmp.endpoint(Side::Old),
        &Endpoint::Commit {
            oid: "deadbeef".into()
        }
    );
    assert_eq!(cmp.endpoint(Side::New), &Endpoint::Worktree);
    assert!(cmp.new_is_worktree());

    let staged = Comparison {
        old: Endpoint::Index,
        new: Endpoint::Index,
    };
    assert_eq!(staged.label(), "index..index");
    assert!(!staged.new_is_worktree());

    let unborn = Comparison {
        old: Endpoint::EmptyTree {
            oid: "4b825dc".into(),
        },
        new: Endpoint::Index,
    };
    assert_eq!(unborn.label(), "empty..index");
}

struct Fake;
impl DiffSource for Fake {
    fn listing(&self) -> Result<Listing, SourceError> {
        Ok(Listing {
            entries: vec![entry()],
            skipped: vec![],
        })
    }
    fn file_diff(&self, _req: &FileDiffRequest) -> Result<FileDiff, SourceError> {
        Ok(FileDiff::empty())
    }
    fn read_side(&self, side: Side, _path: &str) -> Result<Option<String>, SourceError> {
        Ok(match side {
            Side::Old => Some("old content".into()),
            Side::New => None,
        })
    }
    fn read_side_lines(
        &self,
        _side: Side,
        _path: &str,
        _first: u32,
        _last: u32,
    ) -> Result<Option<Vec<String>>, SourceError> {
        Ok(None)
    }
}

#[test]
fn a_trait_implementation_serves_listing_and_read_side_directly() {
    let fake = Fake;
    assert_eq!(fake.listing().expect("listing").entries, vec![entry()]);
    assert_eq!(
        fake.read_side(Side::Old, "x").expect("read old"),
        Some("old content".into())
    );
    assert_eq!(fake.read_side(Side::New, "x").expect("read new"), None);
}
