//! The state behind a painter that runs the derivations by itself: it is
//! handed raw diff text and review files, and answers for rows, anchors, tree
//! and search without a round trip. Each loaded file gets one [`ViewState`],
//! which owns its own expansion and generation bookkeeping.

use vstd::prelude::*;

use crate::anchor::{target_of, ActiveCell, ScopeModel, TargetScope};
use crate::goto::{find_line, line_target, LineTarget};
use crate::json::{json_read, lookup, Integer, Json, JsonMap, JsonModel, NumberModel};
use crate::model::{FileDiff, FileDiffKind, FileDiffModel, FileEntry, FileEntryModel, FileStatus};
use crate::parser::{parse_file_diff, parsed_diff};
use crate::projection::{FileFilter, ReviewProjection};
use crate::protocol::{decode_view_options, not_an_object, view_options_of, ViewOptionsWire};
use crate::review::{
    copy_target, count_status, parse_review, ReviewError, ReviewFile, ReviewModel, Side, Source,
    Status, StatusCounts,
};
use crate::review_json::{fresh_review, loaded, put_text, read_variant, variant_from, LoadModel};
use crate::rows::GapInfo;
use crate::search::{all_matches, SearchMatch};
use crate::stack::{ascending, with_name, TargetId, TargetIdModel};
use crate::text::{copy_of, debug_text, push_text, quoted, same_text};
use crate::view::ViewOptions;
use crate::view_state::{
    expansion_of, gap_ids, ExpandError, ExpansionResult, ViewState, ViewStateModel,
};
use crate::wire::{member_at, texts_from, texts_in};

verus! {

/// A file's view, by its path.
struct CachedView {
    path: String,
    state: ViewState,
}

/// What a painter holds.
pub struct Painter {
    review: Option<ReviewFile>,
    files: Vec<FileEntry>,
    /// Bumped whenever the listing is set; every loaded view and every
    /// expansion is checked against it.
    generation: u64,
    views: Vec<CachedView>,
    /// The stack's live targets and the selected one; empty and `None` outside
    /// stack reviews.
    targets: Vec<TargetId>,
    selected: Option<TargetId>,
}

#[verifier::ext_equal]
pub struct PainterModel {
    pub review: Option<ReviewModel>,
    pub files: Seq<FileEntryModel>,
    pub generation: u64,
    pub views: Map<Seq<char>, ViewStateModel>,
    pub targets: Seq<TargetIdModel>,
    pub selected: Option<TargetIdModel>,
}

/// The views by path; a later one wins.
spec fn view_map(views: Seq<CachedView>) -> Map<Seq<char>, ViewStateModel>
    decreases views.len(),
{
    if views.len() == 0 {
        Map::empty()
    } else {
        view_map(views.drop_last()).insert(
            views.last().path@,
            views.last().state.deep_view(),
        )
    }
}

spec fn paths_distinct(views: Seq<CachedView>) -> bool {
    forall|i: int, j: int|
        0 <= i < j < views.len() ==> (#[trigger] views[i]).path@ != (#[trigger] views[j]).path@
}

proof fn lemma_view_map(views: Seq<CachedView>, path: Seq<char>)
    requires
        paths_distinct(views),
    ensures
        view_map(views).contains_key(path) <==> exists|i: int|
            0 <= i < views.len() && (#[trigger] views[i]).path@ == path,
        forall|i: int|
            0 <= i < views.len() && (#[trigger] views[i]).path@ == path ==> view_map(views)[path]
                == views[i].state.deep_view(),
    decreases views.len(),
{
    if views.len() > 0 {
        let init = views.drop_last();
        assert forall|i: int, j: int| 0 <= i < j < init.len() implies (
        #[trigger] init[i]).path@ != (#[trigger] init[j]).path@ by {
            assert(init[i] == views[i] && init[j] == views[j]);
        }
        lemma_view_map(init, path);
        let last = views[views.len() - 1];
        if last.path@ == path {
            assert forall|i: int|
                0 <= i < views.len() && (#[trigger] views[i]).path@ == path implies view_map(
                views,
            )[path] == views[i].state.deep_view() by {
                if i < views.len() - 1 {
                    assert(views[i].path@ != last.path@);
                }
            }
        } else {
            if view_map(init).contains_key(path) {
                let i = choose|i: int| 0 <= i < init.len() && (#[trigger] init[i]).path@ == path;
                assert(views[i].path@ == path);
            }
            assert forall|i: int|
                0 <= i < views.len() && (#[trigger] views[i]).path@ == path implies view_map(
                views,
            )[path] == views[i].state.deep_view() by {
                assert(init[i] == views[i]);
            }
            if exists|i: int| 0 <= i < views.len() && (#[trigger] views[i]).path@ == path {
                let i = choose|i: int| 0 <= i < views.len() && (#[trigger] views[i]).path@ == path;
                assert(init[i].path@ == path);
            }
        }
    }
}

/// Replacing the view of a path replaces what the path maps to.
proof fn lemma_replaced_view(before: Seq<CachedView>, after: Seq<CachedView>, at: int)
    requires
        paths_distinct(before),
        0 <= at < before.len(),
        after.len() == before.len(),
        after[at].path@ == before[at].path@,
        forall|i: int| 0 <= i < before.len() && i != at ==> #[trigger] after[i] == before[i],
    ensures
        paths_distinct(after),
        view_map(after) == view_map(before).insert(
            before[at].path@,
            after[at].state.deep_view(),
        ),
{
    let path = before[at].path@;
    assert forall|i: int, j: int| 0 <= i < j < after.len() implies (#[trigger] after[i]).path@ != (
    #[trigger] after[j]).path@ by {
        assert(after[i].path@ == before[i].path@);
        assert(after[j].path@ == before[j].path@);
    }
    let want = view_map(before).insert(path, after[at].state.deep_view());
    assert forall|p: Seq<char>|
        #![trigger view_map(after).contains_key(p)]
        view_map(after).contains_key(p) == want.contains_key(p) && (want.contains_key(p)
            ==> view_map(after)[p] == want[p]) by {
        lemma_view_map(before, p);
        lemma_view_map(after, p);
        if p == path {
            assert(after[at].path@ == p);
        } else {
            if view_map(before).contains_key(p) {
                let i = choose|i: int|
                    0 <= i < before.len() && (#[trigger] before[i]).path@ == p;
                assert(after[i] == before[i]);
                assert(after[i].path@ == p);
            }
            if view_map(after).contains_key(p) {
                let i = choose|i: int| 0 <= i < after.len() && (#[trigger] after[i]).path@ == p;
                assert(after[i] == before[i]);
                assert(before[i].path@ == p);
            }
        }
    }
    assert(view_map(after) =~= want);
}

// ---------------------------------------------------------------------- options

/// The view options and the old side's line total of a load request. Text that
/// is not JSON counts as `null`, which is no object.
pub open spec fn load_options(
    text: Seq<char>,
) -> Result<(ViewOptionsWire, Option<u64>), Seq<char>> {
    match json_read(text) {
        None => Err(not_an_object().text()),
        Some(doc) => match view_options_of(doc) {
            Err(e) => Err(e.text()),
            Ok(options) => Ok(
                (
                    options,
                    match doc {
                        JsonModel::Object(members) => match lookup(members, "oldTotalLines"@) {
                            Some(JsonModel::Number(NumberModel::Unsigned(n))) => Some(n),
                            _ => None,
                        },
                        _ => None,
                    },
                ),
            ),
        },
    }
}

/// Decodes `{mode?, wordDiff?, theme?, oldTotalLines?}`; other keys are
/// ignored.
pub fn decode_load_options(text: &str) -> (r: Result<(ViewOptionsWire, Option<u64>), String>)
    ensures
        match load_options(text@) {
            Ok(options) => r == Ok::<(ViewOptionsWire, Option<u64>), String>(options),
            Err(msg) => r matches Err(m) && m@ == msg,
        },
{
    let doc: Json = match Json::parse(text) {
        Ok(doc) => doc,
        Err(_) => Json::Null,
    };
    assert(doc is Null ==> view_options_of(doc.model()) == Err::<
        ViewOptionsWire,
        crate::protocol::DecodeErrorModel,
    >(not_an_object()));
    match decode_view_options(&doc) {
        Err(e) => Err(e.message()),
        Ok(options) => {
            let total: Option<u64> = match doc.get("oldTotalLines") {
                Some(Json::Number(n)) => match n.integer() {
                    Integer::Unsigned(v) => Some(v),
                    _ => None,
                },
                _ => None,
            };
            Ok((options, total))
        },
    }
}

/// A diff with the line total of its old side, where one was given; one beyond
/// 32 bits counts as unknown.
pub open spec fn with_total(diff: FileDiffModel, total: Option<u64>) -> FileDiffModel {
    match total {
        None => diff,
        Some(n) => FileDiffModel {
            old_total_lines: if n <= u32::MAX {
                Some(n as u32)
            } else {
                None
            },
            ..diff
        },
    }
}

/// The diff of a load request.
pub open spec fn requested_diff(raw: Seq<char>, total: Option<u64>) -> Result<
    FileDiffModel,
    Seq<char>,
> {
    match parsed_diff(raw) {
        Ok(diff) => Ok(with_total(diff, total)),
        Err(e) => Err(e.text()),
    }
}

fn parse_requested(raw: &str, total: Option<u64>) -> (r: Result<FileDiff, String>)
    ensures
        match requested_diff(raw@, total) {
            Ok(diff) => r matches Ok(d) && d.deep_view() == diff,
            Err(msg) => r matches Err(m) && m@ == msg,
        },
{
    match parse_file_diff(raw) {
        Err(e) => Err(e.message()),
        Ok(diff) => {
            let ghost model = diff.deep_view();
            let mut diff: FileDiff = diff;
            if let Some(n) = total {
                diff.old_total_lines = if n <= u32::MAX as u64 {
                    Some(n as u32)
                } else {
                    None
                };
                assert(diff.deep_view() =~= with_total(model, total));
            }
            Ok(diff)
        },
    }
}

/// The names of an array of texts; nothing where the document is another.
pub open spec fn names_in(doc: Option<JsonModel>) -> Seq<Seq<char>> {
    match doc {
        Some(JsonModel::Array(items)) => match texts_in(items) {
            Some(names) => names,
            None => Seq::empty(),
        },
        _ => Seq::empty(),
    }
}

fn no_names() -> (r: Vec<String>)
    ensures
        r.deep_view() == Seq::<Seq<char>>::empty(),
{
    let r: Vec<String> = Vec::new();
    assert(r.deep_view() =~= Seq::empty());
    r
}

/// Decodes an array of collapsed directory paths; any other text collapses
/// none.
pub fn decode_collapsed(text: &str) -> (r: Vec<String>)
    ensures
        r.deep_view() == names_in(json_read(text@)),
{
    match Json::parse(text) {
        Ok(Json::Array(items)) => match texts_from(&items) {
            Some(names) => names,
            None => no_names(),
        },
        _ => no_names(),
    }
}

/// The filter that a document names.
pub open spec fn filter_named(doc: JsonModel) -> Option<FileFilter> {
    match read_variant(doc) {
        Ok((name, JsonModel::Null)) => if name == "all"@ {
            Some(FileFilter::All)
        } else if name == "annotated"@ {
            Some(FileFilter::Annotated)
        } else if name == "unreviewed"@ {
            Some(FileFilter::Unreviewed)
        } else {
            None
        },
        _ => None,
    }
}

/// The filter and the collapsed directories of a projection request; what is
/// missing or unknown takes its default.
pub open spec fn projection_options(text: Seq<char>) -> (FileFilter, Seq<Seq<char>>) {
    match json_read(text) {
        None => (FileFilter::All, Seq::empty()),
        Some(doc) => (
            match member_at(doc, "filter"@) {
                Some(value) => match filter_named(value) {
                    Some(filter) => filter,
                    None => FileFilter::All,
                },
                None => FileFilter::All,
            },
            names_in(member_at(doc, "collapsed"@)),
        ),
    }
}

fn filter_from(doc: &Json) -> (r: Option<FileFilter>)
    ensures
        r == filter_named(doc.model()),
{
    let (name, payload): (&str, Option<&Json>) = match variant_from(doc) {
        Ok(v) => v,
        Err(_) => {
            return None;
        },
    };
    let unit: bool = match payload {
        None => true,
        Some(Json::Null) => true,
        Some(_) => false,
    };
    if !unit {
        return None;
    }
    if same_text(name, "all") {
        Some(FileFilter::All)
    } else if same_text(name, "annotated") {
        Some(FileFilter::Annotated)
    } else if same_text(name, "unreviewed") {
        Some(FileFilter::Unreviewed)
    } else {
        None
    }
}

/// Decodes `{filter?, collapsed?}`.
pub fn decode_projection_options(text: &str) -> (r: (FileFilter, Vec<String>))
    ensures
        (r.0, r.1.deep_view()) == projection_options(text@),
{
    let doc: Json = match Json::parse(text) {
        Ok(doc) => doc,
        Err(_) => {
            return (FileFilter::All, no_names());
        },
    };
    let filter: FileFilter = match doc.get("filter") {
        Some(value) => match filter_from(value) {
            Some(filter) => filter,
            None => FileFilter::All,
        },
        None => FileFilter::All,
    };
    let collapsed: Vec<String> = match doc.get("collapsed") {
        Some(Json::Array(items)) => match texts_from(items) {
            Some(names) => names,
            None => no_names(),
        },
        _ => no_names(),
    };
    (filter, collapsed)
}

// ---------------------------------------------------------------------- entries

/// Position of the first entry of this path; the length where there is none.
pub open spec fn entry_position(files: Seq<FileEntryModel>, path: Seq<char>) -> int
    decreases files.len(),
{
    if files.len() == 0 {
        0
    } else {
        let before = entry_position(files.drop_last(), path);
        if before < files.len() - 1 || files.last().path == path {
            before
        } else {
            files.len() as int
        }
    }
}

/// The listed entry of a path; a path that is not listed counts as modified.
pub open spec fn entry_for(files: Seq<FileEntryModel>, path: Seq<char>) -> FileEntryModel {
    let at = entry_position(files, path);
    if at < files.len() {
        files[at]
    } else {
        FileEntryModel {
            path,
            old_path: None,
            status: FileStatus::Modified,
            adds: None,
            dels: None,
        }
    }
}

proof fn lemma_entry_position(files: Seq<FileEntryModel>, path: Seq<char>, at: int)
    requires
        0 <= at <= files.len(),
        at < files.len() ==> files[at].path == path,
        forall|i: int| 0 <= i < at ==> (#[trigger] files[i]).path != path,
    ensures
        entry_position(files, path) == at,
    decreases files.len(),
{
    if files.len() > 0 {
        let init = files.drop_last();
        assert(forall|i: int| 0 <= i < init.len() ==> init[i] == files[i]);
        if at < files.len() {
            lemma_entry_position(init, path, at);
        } else {
            lemma_entry_position(init, path, at - 1);
            assert(files[at - 1].path != path);
        }
    }
}

fn find_entry(files: &Vec<FileEntry>, path: &str) -> (r: FileEntry)
    ensures
        r.deep_view() == entry_for(files.deep_view(), path@),
{
    let ghost model = files.deep_view();
    let mut i: usize = 0;
    while i < files.len()
        invariant
            i <= files.len(),
            model == files.deep_view(),
            model.len() == files.len(),
            forall|k: int| 0 <= k < i ==> (#[trigger] model[k]).path != path@,
        decreases files.len() - i,
    {
        assert(model[i as int] == files[i as int].deep_view());
        if same_text(files[i].path.as_str(), path) {
            proof {
                lemma_entry_position(model, path@, i as int);
            }
            return files[i].clone();
        }
        i += 1;
    }
    proof {
        lemma_entry_position(model, path@, i as int);
    }
    FileEntry {
        path: copy_of(path),
        old_path: None,
        status: FileStatus::Modified,
        adds: None,
        dels: None,
    }
}

// ---------------------------------------------------------------------- painter

/// A view that is loaded again: at the same generation its expansions are
/// replayed, at another their content is dropped and only the wish remains.
pub open spec fn loaded_view(
    held: Option<ViewStateModel>,
    entry: FileEntryModel,
    diff: FileDiffModel,
    opts: ViewOptions,
    generation: u64,
) -> ViewStateModel {
    match held {
        Some(state) => ViewStateModel {
            entry,
            diff,
            opts,
            generation,
            held: if generation == state.generation {
                state.held
            } else {
                Map::empty()
            },
            wanted: state.wanted,
        },
        None => ViewStateModel {
            entry,
            diff,
            opts,
            generation,
            held: Map::empty(),
            wanted: Seq::empty(),
        },
    }
}

impl PainterModel {
    /// The view of a path, where it is loaded.
    pub open spec fn view_of(self, path: Seq<char>) -> Option<ViewStateModel> {
        if self.views.contains_key(path) {
            Some(self.views[path])
        } else {
            None
        }
    }

    /// The painter with a diff loaded.
    pub open spec fn with_loaded(
        self,
        path: Seq<char>,
        diff: FileDiffModel,
        opts: ViewOptions,
    ) -> PainterModel {
        PainterModel {
            views: self.views.insert(
                path,
                loaded_view(
                    self.view_of(path),
                    entry_for(self.files, path),
                    diff,
                    opts,
                    self.generation,
                ),
            ),
            ..self
        }
    }

    /// What comments are projected from: the review, or one without comments
    /// where none has been set.
    pub open spec fn scope(self) -> ScopeModel {
        ScopeModel { selected: self.selected, live: self.targets }
    }
}

/// What a path that is not loaded is answered with.
pub open spec fn not_loaded_text(path: Seq<char>) -> Seq<char> {
    debug_text(path) + " not loaded"@
}

fn not_loaded(path: &str) -> (r: String)
    ensures
        r@ == not_loaded_text(path@),
{
    let mut out: String = quoted(path);
    push_text(&mut out, " not loaded");
    out
}

/// What a stored review comes to.
#[derive(Debug, Clone, PartialEq, Eq)]
pub struct ReviewSummary {
    pub name: String,
    pub revision: u32,
    pub counts: StatusCounts,
    pub read_only: bool,
    pub warnings: Vec<String>,
}

impl ReviewSummary {
    /// Whether this sums up a load.
    pub open spec fn sums_up(self, outcome: LoadModel) -> bool {
        let comments = outcome.review.comments;
        &&& self.name@ == outcome.review.review
        &&& self.revision == outcome.review.revision
        &&& self.counts.open == count_status(comments, Status::Open)
        &&& self.counts.addressed == count_status(comments, Status::Addressed)
        &&& self.counts.resolved == count_status(comments, Status::Resolved)
        &&& self.counts.reopened == count_status(comments, Status::Reopened)
        &&& self.read_only == outcome.salvage.read_only
        &&& self.warnings.deep_view() == outcome.salvage.warnings
    }
}

/// An error on the wire.
pub fn error_json(msg: &str) -> (r: Json)
    ensures
        r.model() == JsonModel::Object(
            crate::json::with_member(Seq::empty(), "error"@, JsonModel::Text(msg@)),
        ),
{
    let mut map: JsonMap = JsonMap::new();
    put_text(&mut map, "error", msg);
    Json::Object(map)
}

/// A review with no comments, used whenever no review file has been set yet so
/// every projection has something to derive placements from.
pub fn empty_review() -> (r: ReviewFile)
    ensures
        r.deep_view() == fresh_review(Seq::empty(), None, "1970-01-01T00:00:00Z"@),
{
    ReviewFile::new(String::new(), Source::git(None), "1970-01-01T00:00:00Z")
}

impl DeepView for Painter {
    type V = PainterModel;

    closed spec fn deep_view(&self) -> PainterModel {
        PainterModel {
            review: match self.review {
                Some(review) => Some(review.deep_view()),
                None => None,
            },
            files: self.files.deep_view(),
            generation: self.generation,
            views: view_map(self.views@),
            targets: self.targets.deep_view(),
            selected: self.selected.deep_view(),
        }
    }
}

impl Painter {
    /// Every path has one view, and every view is the one its state calls for.
    pub closed spec fn wf(&self) -> bool {
        &&& paths_distinct(self.views@)
        &&& forall|i: int| 0 <= i < self.views@.len() ==> (#[trigger] self.views@[i]).state.wf()
    }

    /// A painter that was handed nothing yet.
    pub fn new() -> (r: Self)
        ensures
            r.wf(),
            r.deep_view() == (PainterModel {
                review: None,
                files: Seq::empty(),
                generation: 0,
                views: Map::empty(),
                targets: Seq::empty(),
                selected: None,
            }),
    {
        let r = Painter {
            review: None,
            files: Vec::new(),
            generation: 0,
            views: Vec::new(),
            targets: Vec::new(),
            selected: None,
        };
        assert(r.files.deep_view() =~= Seq::empty());
        assert(r.targets.deep_view() =~= Seq::empty());
        r
    }

    /// Store a review file and sum it up. One that cannot be salvaged leaves
    /// the stored one as it is.
    pub fn set_review(&mut self, content: &str) -> (r: Result<ReviewSummary, ReviewError>)
        requires
            old(self).wf(),
        ensures
            final(self).wf(),
            match loaded(content@) {
                Ok(outcome) => final(self).deep_view() == (PainterModel {
                    review: Some(outcome.review),
                    ..old(self).deep_view()
                }) && (r matches Ok(summary) && summary.sums_up(outcome)),
                Err(error) => final(self).deep_view() == old(self).deep_view() && (r matches Err(e)
                    && e.deep_view() == error),
            },
    {
        match parse_review(content) {
            Ok(outcome) => {
                let summary = ReviewSummary {
                    name: copy_of(outcome.review.review.as_str()),
                    revision: outcome.review.revision,
                    counts: outcome.review.counts(),
                    read_only: outcome.read_only,
                    warnings: outcome.warnings,
                };
                self.review = Some(outcome.review);
                Ok(summary)
            },
            Err(e) => Err(e),
        }
    }

    /// The stored review.
    pub fn review(&self) -> (r: Option<&ReviewFile>)
        ensures
            match self.deep_view().review {
                Some(model) => r matches Some(review) && review.deep_view() == model,
                None => r is None,
            },
    {
        match &self.review {
            Some(review) => Some(review),
            None => None,
        }
    }

    pub fn files(&self) -> (r: &Vec<FileEntry>)
        ensures
            r.deep_view() == self.deep_view().files,
    {
        &self.files
    }

    pub fn generation(&self) -> (r: u64)
        ensures
            r == self.deep_view().generation,
    {
        self.generation
    }

    /// Store the changed-file listing and bump the generation every cached
    /// view and expansion is checked against.
    pub fn set_files(&mut self, files: Vec<FileEntry>) -> (r: u64)
        requires
            old(self).wf(),
            old(self).deep_view().generation < u64::MAX,
        ensures
            final(self).wf(),
            r == old(self).deep_view().generation + 1,
            final(self).deep_view() == (PainterModel {
                files: files.deep_view(),
                generation: r,
                ..old(self).deep_view()
            }),
    {
        self.files = files;
        self.generation = self.generation + 1;
        self.generation
    }

    /// Store the stack's live targets and the selected one. Every later
    /// projection is scoped to it.
    pub fn set_targets(&mut self, targets: Vec<TargetId>, selected: Option<TargetId>)
        requires
            old(self).wf(),
        ensures
            final(self).wf(),
            final(self).deep_view() == (PainterModel {
                targets: targets.deep_view(),
                selected: selected.deep_view(),
                ..old(self).deep_view()
            }),
    {
        self.targets = targets;
        self.selected = selected;
    }

    /// Position of the view of a path.
    fn position(&self, path: &str) -> (r: Option<usize>)
        requires
            self.wf(),
        ensures
            match r {
                Some(i) => i < self.views@.len() && self.views@[i as int].path@ == path@
                    && self.deep_view().views.contains_key(path@) && self.deep_view().views[path@]
                    == self.views@[i as int].state.deep_view(),
                None => !self.deep_view().views.contains_key(path@),
            },
    {
        let mut i: usize = 0;
        while i < self.views.len()
            invariant
                i <= self.views.len(),
                self.wf(),
                forall|k: int| 0 <= k < i ==> (#[trigger] self.views@[k]).path@ != path@,
            decreases self.views.len() - i,
        {
            if same_text(self.views[i].path.as_str(), path) {
                proof {
                    lemma_view_map(self.views@, path@);
                }
                return Some(i);
            }
            i += 1;
        }
        proof {
            lemma_view_map(self.views@, path@);
        }
        None
    }

    /// Build (or reload) the cached view of a path.
    fn load(&mut self, path: &str, diff: FileDiff, opts: ViewOptions)
        requires
            old(self).wf(),
        ensures
            final(self).wf(),
            final(self).deep_view() == old(self).deep_view().with_loaded(
                path@,
                diff.deep_view(),
                opts,
            ),
    {
        let ghost before = self.views@;
        let ghost model = self.deep_view();
        let entry: FileEntry = find_entry(&self.files, path);
        let generation: u64 = self.generation;
        match self.position(path) {
            Some(at) => {
                let cached: &mut CachedView = &mut self.views[at];
                cached.state.set_options(opts);
                cached.state.reload(entry, diff, generation);
                proof {
                    lemma_replaced_view(before, self.views@, at as int);
                }
            },
            None => {
                let state: ViewState = ViewState::new(entry, diff, opts, generation);
                self.views.push(CachedView { path: copy_of(path), state });
                proof {
                    lemma_view_map(before, path@);
                    assert(self.views@.drop_last() =~= before);
                    assert forall|i: int, j: int| 0 <= i < j < self.views@.len() implies (
                    #[trigger] self.views@[i]).path@ != (#[trigger] self.views@[j]).path@ by {
                        if j < before.len() {
                            assert(before[i].path@ != before[j].path@);
                        } else {
                            assert(before[i].path@ != path@);
                        }
                    }
                }
            },
        }
        assert(self.deep_view().views =~= model.with_loaded(
            path@,
            diff.deep_view(),
            opts,
        ).views);
    }

    /// Parse a raw single-file diff and build (or reload) its cached view.
    /// `opts_json`: `{mode, wordDiff, theme, oldTotalLines?}`. Reloading a path
    /// already cached at the current generation replays its held expansions
    /// instead of discarding them.
    pub fn load_file(&mut self, path: &str, raw_diff: &str, opts_json: &str) -> (r: Result<
        (),
        String,
    >)
        requires
            old(self).wf(),
        ensures
            final(self).wf(),
            match load_options(opts_json@) {
                Err(msg) => final(self).deep_view() == old(self).deep_view() && (r matches Err(m)
                    && m@ == msg),
                Ok((options, total)) => match requested_diff(raw_diff@, total) {
                    Err(msg) => final(self).deep_view() == old(self).deep_view() && (r matches Err(
                        m,
                    ) && m@ == msg),
                    Ok(diff) => r is Ok && final(self).deep_view() == old(
                        self,
                    ).deep_view().with_loaded(path@, diff, view_options(options)),
                },
            },
    {
        let (options, total): (ViewOptionsWire, Option<u64>) = match decode_load_options(
            opts_json,
        ) {
            Ok(v) => v,
            Err(msg) => {
                return Err(msg);
            },
        };
        match parse_requested(raw_diff, total) {
            Err(msg) => Err(msg),
            Ok(diff) => {
                self.load(path, diff, ViewOptions::from(options));
                Ok(())
            },
        }
    }

    /// Load (or reload) a placeholder view for a binary or too-large diff.
    pub fn load_placeholder(&mut self, path: &str, kind: FileDiffKind, opts_json: &str) -> (r:
        Result<(), String>)
        requires
            old(self).wf(),
        ensures
            final(self).wf(),
            match load_options(opts_json@) {
                Err(msg) => final(self).deep_view() == old(self).deep_view() && (r matches Err(m)
                    && m@ == msg),
                Ok((options, _)) => r is Ok && final(self).deep_view() == old(
                    self,
                ).deep_view().with_loaded(
                    path@,
                    crate::model::bare_diff(kind.deep_view()),
                    view_options(options),
                ),
            },
    {
        match decode_load_options(opts_json) {
            Err(msg) => Err(msg),
            Ok((options, _)) => {
                self.load(path, FileDiff::placeholder(kind), ViewOptions::from(options));
                Ok(())
            },
        }
    }

    /// The cached view of a path.
    pub fn state(&self, path: &str) -> (r: Result<&ViewState, String>)
        requires
            self.wf(),
        ensures
            match self.deep_view().view_of(path@) {
                Some(state) => r matches Ok(s) && s.deep_view() == state && s.wf(),
                None => r matches Err(msg) && msg@ == not_loaded_text(path@),
            },
    {
        match self.position(path) {
            Some(i) => Ok(&self.views[i].state),
            None => Err(not_loaded(path)),
        }
    }

    /// The projection every answer derives from: the stored review or
    /// `placeholder` where there is none, the stored listing, the stored
    /// target scope. One builder, so the tree, a file's comments, the overview
    /// and an expansion can never disagree about scope.
    pub fn projection<'a>(&'a self, placeholder: &'a ReviewFile, filter: FileFilter) -> (r:
        ReviewProjection<'a>)
        ensures
            r.comment_models() == (match self.deep_view().review {
                Some(review) => review.comments,
                None => placeholder.deep_view().comments,
            }),
            r.file_models() == self.deep_view().files,
            r.filter_model() == filter,
            r.scope_model() == self.deep_view().scope(),
    {
        let review: &'a ReviewFile = match &self.review {
            Some(review) => review,
            None => placeholder,
        };
        ReviewProjection::scoped(review, self.files.as_slice(), filter, self.target_scope())
    }

    fn target_scope(&self) -> (r: TargetScope)
        ensures
            r.deep_view() == self.deep_view().scope(),
    {
        let ghost model = self.targets.deep_view();
        let mut live: Vec<TargetId> = Vec::new();
        let mut i: usize = 0;
        assert(live.deep_view() =~= model.take(0));
        while i < self.targets.len()
            invariant
                i <= self.targets.len(),
                model == self.targets.deep_view(),
                model.len() == self.targets.len(),
                live.deep_view() == model.take(i as int),
            decreases self.targets.len() - i,
        {
            let ghost before = live.deep_view();
            let id: TargetId = self.targets[i].clone();
            live.push(id);
            proof {
                assert(model[i as int] == self.targets[i as int].deep_view());
                assert(live.deep_view() =~= before.push(id.deep_view()));
                assert(model.take(i + 1) =~= model.take(i as int).push(model[i as int]));
            }
            i += 1;
        }
        assert(model.take(i as int) =~= model);
        TargetScope { selected: copy_target(&self.selected), live }
    }

    /// Search a cached file's rows.
    pub fn search(&self, path: &str, query: &str) -> (r: Result<Vec<SearchMatch>, String>)
        requires
            self.wf(),
        ensures
            match self.deep_view().view_of(path@) {
                Some(state) => r matches Ok(hits) && hits@ == all_matches(
                    state.shown_rows(),
                    query@,
                ),
                None => r matches Err(msg) && msg@ == not_loaded_text(path@),
            },
    {
        match self.state(path) {
            Ok(state) => Ok(state.search(query)),
            Err(msg) => Err(msg),
        }
    }

    /// Resolve a line number against a cached file's rows.
    pub fn goto_line(&self, path: &str, line: u32) -> (r: Result<LineTarget, String>)
        requires
            self.wf(),
        ensures
            match self.deep_view().view_of(path@) {
                Some(state) => r matches Ok(target) && target.deep_view() == line_target(
                    state.shown_rows(),
                    line,
                ),
                None => r matches Err(msg) && msg@ == not_loaded_text(path@),
            },
    {
        match self.state(path) {
            Ok(state) => Ok(find_line(state.view().rows.as_slice(), line)),
            Err(msg) => Err(msg),
        }
    }

    /// Gaps a cached file still wants expanded.
    pub fn pending_expansions(&self, path: &str) -> (r: Result<Vec<GapInfo>, String>)
        requires
            self.wf(),
        ensures
            match self.deep_view().view_of(path@) {
                Some(state) => r matches Ok(gaps) && gaps.deep_view() == state.pending()
                    && ascending(gap_ids(gaps.deep_view())),
                None => r matches Err(msg) && msg@ == not_loaded_text(path@),
            },
    {
        match self.state(path) {
            Ok(state) => Ok(state.pending_expansions()),
            Err(msg) => Err(msg),
        }
    }

    /// The semantic (side, line) a new comment on `row` of a cached file
    /// should anchor to.
    pub fn anchor_target(&self, path: &str, row: usize, cell: ActiveCell) -> (r: Result<
        Option<(Side, u32)>,
        String,
    >)
        requires
            self.wf(),
        ensures
            match self.deep_view().view_of(path@) {
                Some(state) => r == Ok::<Option<(Side, u32)>, String>(
                    if row < state.shown_rows().len() {
                        target_of(state.shown_rows()[row as int], cell)
                    } else {
                        None
                    },
                ),
                None => r matches Err(msg) && msg@ == not_loaded_text(path@),
            },
    {
        match self.state(path) {
            Ok(state) => Ok(state.anchor_target(row, cell)),
            Err(msg) => Err(msg),
        }
    }

    /// Apply new view options to every cached view.
    pub fn set_view_options(&mut self, opts: ViewOptions)
        requires
            old(self).wf(),
        ensures
            final(self).wf(),
            forall|path: Seq<char>| #[trigger]
                final(self).deep_view().view_of(path) == (match old(self).deep_view().view_of(
                    path,
                ) {
                    Some(state) => Some(ViewStateModel { opts, ..state }),
                    None => None,
                }),
            final(self).deep_view() == (PainterModel {
                views: final(self).deep_view().views,
                ..old(self).deep_view()
            }),
    {
        let ghost before = self.views@;
        let mut i: usize = 0;
        while i < self.views.len()
            invariant
                i <= self.views.len(),
                self.views@.len() == before.len(),
                self.review == old(self).review,
                self.files == old(self).files,
                self.generation == old(self).generation,
                self.targets == old(self).targets,
                self.selected == old(self).selected,
                forall|k: int|
                    0 <= k < before.len() ==> (#[trigger] self.views@[k]).path@ == before[k].path@
                        && self.views@[k].state.wf(),
                forall|k: int|
                    0 <= k < before.len() ==> (#[trigger] self.views@[k]).state.deep_view() == (
                    if k < i {
                        ViewStateModel { opts, ..before[k].state.deep_view() }
                    } else {
                        before[k].state.deep_view()
                    }),
            decreases self.views.len() - i,
        {
            let ghost mid = self.views@;
            let cached: &mut CachedView = &mut self.views[i];
            cached.state.set_options(opts);
            assert(forall|k: int| 0 <= k < before.len() && k != i ==> self.views@[k] == mid[k]);
            i += 1;
        }
        proof {
            let after = self.views@;
            assert forall|a: int, b: int| 0 <= a < b < after.len() implies (
            #[trigger] after[a]).path@ != (#[trigger] after[b]).path@ by {
                assert(before[a].path@ != before[b].path@);
            }
            assert forall|path: Seq<char>| #[trigger]
                self.deep_view().view_of(path) == (match old(self).deep_view().view_of(path) {
                    Some(state) => Some(ViewStateModel { opts, ..state }),
                    None => None,
                }) by {
                lemma_view_map(before, path);
                lemma_view_map(after, path);
                if view_map(before).contains_key(path) {
                    let k = choose|k: int|
                        0 <= k < before.len() && (#[trigger] before[k]).path@ == path;
                    assert(after[k].path@ == path);
                }
                if view_map(after).contains_key(path) {
                    let k = choose|k: int|
                        0 <= k < after.len() && (#[trigger] after[k]).path@ == path;
                    assert(before[k].path@ == path);
                }
            }
        }
    }

    /// Expand a gap in a cached view, at the painter's own generation. The wish
    /// is remembered whether it succeeds or not.
    pub fn expand(&mut self, path: &str, gap_id: &str, content: &str) -> (r: Result<
        ExpansionResult,
        String,
    >)
        requires
            old(self).wf(),
        ensures
            final(self).wf(),
            match old(self).deep_view().view_of(path@) {
                None => final(self).deep_view() == old(self).deep_view() && (r matches Err(msg)
                    && msg@ == not_loaded_text(path@)),
                Some(state) => {
                    let wished = ViewStateModel {
                        wanted: with_name(state.wanted, gap_id@),
                        ..state
                    };
                    let generation = old(self).deep_view().generation;
                    match wished.refusal(gap_id@, generation) {
                        Some(error) => final(self).deep_view() == (PainterModel {
                            views: old(self).deep_view().views.insert(path@, wished),
                            ..old(self).deep_view()
                        }) && (r matches Err(msg) && msg@ == error.text()),
                        None => final(self).deep_view() == (PainterModel {
                            views: old(self).deep_view().views.insert(
                                path@,
                                ViewStateModel {
                                    held: wished.held.insert(gap_id@, content@),
                                    ..wished
                                },
                            ),
                            ..old(self).deep_view()
                        }) && (r matches Ok(done) && expansion_of(
                            wished,
                            gap_id@,
                            content@,
                            done,
                        )),
                    }
                },
            },
    {
        let ghost before = self.views@;
        let ghost model = self.deep_view();
        let generation: u64 = self.generation;
        let at: usize = match self.position(path) {
            Some(at) => at,
            None => {
                return Err(not_loaded(path));
            },
        };
        let cached: &mut CachedView = &mut self.views[at];
        cached.state.mark_wanted(gap_id);
        let outcome: Result<ExpansionResult, ExpandError> = cached.state.expand(
            gap_id,
            content,
            generation,
        );
        proof {
            lemma_replaced_view(before, self.views@, at as int);
        }
        match outcome {
            Ok(done) => Ok(done),
            Err(e) => Err(e.message()),
        }
    }
}

/// The view options of a request.
pub open spec fn view_options(wire: ViewOptionsWire) -> ViewOptions {
    ViewOptions {
        mode: wire.mode,
        word_diff: wire.word_diff,
        highlight: wire.theme.choice(),
    }
}

// ------------------------------------------------------------------------- laws

/// Loading a file again at the same generation keeps its opened gaps, and at
/// another drops their content but keeps the wish.
pub proof fn reloads_keep_what_they_can(
    painter: PainterModel,
    path: Seq<char>,
    diff: FileDiffModel,
    opts: ViewOptions,
)
    requires
        painter.view_of(path) is Some,
    ensures
        ({
            let before = painter.view_of(path)->0;
            let after = painter.with_loaded(path, diff, opts).view_of(path)->0;
            &&& after.wanted == before.wanted
            &&& before.generation == painter.generation ==> after.held == before.held
            &&& before.generation != painter.generation ==> after.held == Map::<
                Seq<char>,
                Seq<char>,
            >::empty()
        }),
{
}

/// Loading one file changes no other view.
pub proof fn loads_leave_other_views_alone(
    painter: PainterModel,
    path: Seq<char>,
    other: Seq<char>,
    diff: FileDiffModel,
    opts: ViewOptions,
)
    requires
        other != path,
    ensures
        painter.with_loaded(path, diff, opts).view_of(other) == painter.view_of(other),
{
}

} // verus!
