//! What a painter makes of the requests it is sent.

use vstd::prelude::*;

use crate::json::{JsonModel, MemberModel};
use crate::model::{FileDiffModel, FileEntryModel, FileStatus};
use crate::painter::{entry_for, entry_position, filter_named, with_total, PainterModel};
use crate::projection::FileFilter;
use crate::view::ViewOptions;

verus! {

/// A total that comes with a request goes into the diff where it fits, and
/// takes the place of any other; nothing else of the diff changes.
pub proof fn totals_come_with_requests(diff: FileDiffModel, total: Option<u64>)
    ensures
        ({
            let after = with_total(diff, total);
            &&& after.kind == diff.kind
            &&& after.hunks == diff.hunks
            &&& after.old_missing_newline == diff.old_missing_newline
            &&& after.new_missing_newline == diff.new_missing_newline
            &&& total is None ==> after.old_total_lines == diff.old_total_lines
            &&& total matches Some(n) ==> if n < 0x1_0000_0000 {
                after.old_total_lines matches Some(m) && m == n
            } else {
                after.old_total_lines is None
            }
        }),
{
}

/// A path is shown as the first listed entry that has it. A path that is not
/// listed is shown as modified, without counts and under its own name.
pub proof fn paths_are_looked_up_in_the_list(files: Seq<FileEntryModel>, path: Seq<char>, i: int)
    ensures
        0 <= i < files.len() && files[i].path == path && (forall|k: int|
            0 <= k < i ==> (#[trigger] files[k]).path != path) ==> entry_for(files, path)
            == files[i],
        (forall|k: int| 0 <= k < files.len() ==> (#[trigger] files[k]).path != path) ==> {
            let entry = entry_for(files, path);
            &&& entry.path == path
            &&& entry.old_path is None
            &&& entry.status == FileStatus::Modified
            &&& entry.adds is None
            &&& entry.dels is None
        },
        entry_for(files, path).path == path,
{
    lemma_position(files, path);
    let at = entry_position(files, path);
    if 0 <= i < files.len() && files[i].path == path && at < i {
        assert(files[at].path == path);
    }
}

/// Loading a diff makes or renews the view of its path: with the entry of the
/// list, the diff, the options and the generation of the painter. Gaps that
/// were opened stay open exactly where the generation is the same; wishes
/// stay in any case. Nothing else changes.
pub proof fn loads_renew_one_view(
    p: PainterModel,
    path: Seq<char>,
    diff: FileDiffModel,
    opts: ViewOptions,
)
    ensures
        ({
            let after = p.with_loaded(path, diff, opts);
            let view = after.views[path];
            &&& after.review == p.review
            &&& after.files == p.files
            &&& after.generation == p.generation
            &&& after.targets == p.targets
            &&& after.selected == p.selected
            &&& after.views.contains_key(path)
            &&& view.entry == entry_for(p.files, path)
            &&& view.diff == diff
            &&& view.opts == opts
            &&& view.generation == p.generation
            &&& p.views.contains_key(path) ==> view.wanted == p.views[path].wanted
            &&& !p.views.contains_key(path) ==> view.wanted.len() == 0
            &&& p.views.contains_key(path) && p.views[path].generation == p.generation
                ==> view.held == p.views[path].held
            &&& !(p.views.contains_key(path) && p.views[path].generation == p.generation)
                ==> forall|id: Seq<char>| !(#[trigger] view.held.contains_key(id))
            &&& forall|other: Seq<char>|
                other != path ==> (#[trigger] after.views.contains_key(other)
                    <==> p.views.contains_key(other))
            &&& forall|other: Seq<char>|
                other != path && #[trigger] p.views.contains_key(other) ==> after.views[other]
                    == p.views[other]
        }),
{
}

/// A filter is asked for by its name in small letters, bare or as the key of
/// a null.
pub proof fn filters_are_named(filter: FileFilter)
    ensures
        ({
            let name = match filter {
                FileFilter::All => "all"@,
                FileFilter::Annotated => "annotated"@,
                FileFilter::Unreviewed => "unreviewed"@,
            };
            &&& filter_named(JsonModel::Text(name)) == Some(filter)
            &&& filter_named(
                JsonModel::Object(seq![MemberModel { key: name, value: JsonModel::Null }]),
            ) == Some(filter)
        }),
{
    reveal_strlit("all");
    reveal_strlit("annotated");
    reveal_strlit("unreviewed");
    assert("all"@.len() == 3);
    assert("annotated"@.len() == 9);
    assert("unreviewed"@.len() == 10);
}

proof fn lemma_position(files: Seq<FileEntryModel>, path: Seq<char>)
    ensures
        0 <= entry_position(files, path) <= files.len(),
        entry_position(files, path) < files.len() ==> files[entry_position(files, path)].path
            == path,
        forall|k: int|
            0 <= k < entry_position(files, path) ==> (#[trigger] files[k]).path != path,
    decreases files.len(),
{
    if files.len() > 0 {
        let front = files.drop_last();
        lemma_position(front, path);
        assert forall|k: int| 0 <= k < entry_position(files, path) implies (
        #[trigger] files[k]).path != path by {
            if k < front.len() {
                assert(front[k] == files[k]);
            }
        }
    }
}

} // verus!
