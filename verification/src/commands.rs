//! The command table: one semantics table, three keymaps.
//!
//! Every user action has a stable id; each frontend maps its own default
//! chords onto the same ids, so help overlays and rebinding stay consistent
//! everywhere.

use vstd::prelude::*;

use crate::text::{same_text, strs};

verus! {

/// One action in the shared command table.
#[derive(Debug, Clone)]
pub struct CommandSpec {
    /// Stable id, e.g. `ambidiff.nav.nextHunk`.
    pub id: &'static str,
    pub name: &'static str,
    pub desc: &'static str,
    /// Default chords of the terminal frontend.
    pub tui: Vec<&'static str>,
    /// Default chords of the editor frontend.
    pub nvim: Vec<&'static str>,
    /// Default chords of the browser frontend.
    pub web: Vec<&'static str>,
}

#[verifier::ext_equal]
pub struct CommandModel {
    pub id: Seq<char>,
    pub name: Seq<char>,
    pub desc: Seq<char>,
    pub tui: Seq<Seq<char>>,
    pub nvim: Seq<Seq<char>>,
    pub web: Seq<Seq<char>>,
}

impl DeepView for CommandSpec {
    type V = CommandModel;

    open spec fn deep_view(&self) -> CommandModel {
        CommandModel {
            id: self.id@,
            name: self.name@,
            desc: self.desc@,
            tui: strs(self.tui@),
            nvim: strs(self.nvim@),
            web: strs(self.web@),
        }
    }
}

pub open spec fn entry(
    id: &str,
    name: &str,
    desc: &str,
    tui: Seq<Seq<char>>,
    nvim: Seq<Seq<char>>,
    web: Seq<Seq<char>>,
) -> CommandModel {
    CommandModel { id: id@, name: name@, desc: desc@, tui, nvim, web }
}

fn command(
    id: &'static str,
    name: &'static str,
    desc: &'static str,
    tui: Vec<&'static str>,
    nvim: Vec<&'static str>,
    web: Vec<&'static str>,
) -> (r: CommandSpec)
    ensures
        r.deep_view() == entry(id, name, desc, strs(tui@), strs(nvim@), strs(web@)),
{
    CommandSpec { id, name, desc, tui, nvim, web }
}

fn no_chord() -> (r: Vec<&'static str>)
    ensures
        strs(r@) == Seq::<Seq<char>>::empty(),
{
    let r: Vec<&'static str> = Vec::new();
    assert(strs(r@) =~= Seq::empty());
    r
}

fn one_chord(a: &'static str) -> (r: Vec<&'static str>)
    ensures
        strs(r@) == seq![a@],
{
    let mut r: Vec<&'static str> = Vec::new();
    r.push(a);
    assert(strs(r@) =~= seq![a@]);
    r
}

fn two_chords(a: &'static str, b: &'static str) -> (r: Vec<&'static str>)
    ensures
        strs(r@) == seq![a@, b@],
{
    let mut r: Vec<&'static str> = Vec::new();
    r.push(a);
    r.push(b);
    assert(strs(r@) =~= seq![a@, b@]);
    r
}

/// Moving the cursor and the focus.
pub open spec fn navigation_table() -> Seq<CommandModel> {
    seq![
        entry(
            "ambidiff.nav.cursorDown",
            "Cursor down",
            "Move the cursor one row down",
            seq!["j"@, "Down"@],
            seq!["j"@],
            seq!["j"@, "ArrowDown"@],
        ),
        entry(
            "ambidiff.nav.cursorUp",
            "Cursor up",
            "Move the cursor one row up",
            seq!["k"@, "Up"@],
            seq!["k"@],
            seq!["k"@, "ArrowUp"@],
        ),
        entry(
            "ambidiff.nav.pageDown",
            "Page down",
            "Scroll one page down",
            seq!["C-d"@, "PageDown"@],
            seq!["<C-d>"@],
            seq!["PageDown"@],
        ),
        entry(
            "ambidiff.nav.pageUp",
            "Page up",
            "Scroll one page up",
            seq!["C-u"@, "PageUp"@],
            seq!["<C-u>"@],
            seq!["PageUp"@],
        ),
        entry(
            "ambidiff.nav.top",
            "Go to top",
            "Jump to the first row",
            seq!["g"@],
            seq!["gg"@],
            seq!["g"@],
        ),
        entry(
            "ambidiff.nav.bottom",
            "Go to bottom",
            "Jump to the last row",
            seq!["G"@],
            seq!["G"@],
            seq!["G"@],
        ),
        entry(
            "ambidiff.nav.nextHunk",
            "Next hunk",
            "Jump to the next hunk",
            seq!["]"@],
            seq!["]h"@],
            seq!["]"@],
        ),
        entry(
            "ambidiff.nav.prevHunk",
            "Previous hunk",
            "Jump to the previous hunk",
            seq!["["@],
            seq!["[h"@],
            seq!["["@],
        ),
        entry(
            "ambidiff.nav.nextFile",
            "Next file",
            "Open the next changed file",
            seq!["}"@],
            seq!["]f"@],
            seq!["}"@],
        ),
        entry(
            "ambidiff.nav.prevFile",
            "Previous file",
            "Open the previous changed file",
            seq!["{"@],
            seq!["[f"@],
            seq!["{"@],
        ),
        entry(
            "ambidiff.nav.nextComment",
            "Next comment",
            "Jump to the next comment",
            seq!["."@],
            seq!["]c"@],
            seq!["."@],
        ),
        entry(
            "ambidiff.nav.prevComment",
            "Previous comment",
            "Jump to the previous comment",
            seq![","@],
            seq!["[c"@],
            seq![","@],
        ),
        entry(
            "ambidiff.nav.focusSwitch",
            "Switch focus",
            "Switch focus between tree and diff",
            seq!["Tab"@],
            seq![],
            seq!["Tab"@],
        ),
    ]
}

fn navigation_commands() -> (r: Vec<CommandSpec>)
    ensures
        r.deep_view() == navigation_table(),
{
    let mut out: Vec<CommandSpec> = Vec::new();
    out.push(
        command(
            "ambidiff.nav.cursorDown",
            "Cursor down",
            "Move the cursor one row down",
            two_chords("j", "Down"),
            one_chord("j"),
            two_chords("j", "ArrowDown"),
        ),
    );
    out.push(
        command(
            "ambidiff.nav.cursorUp",
            "Cursor up",
            "Move the cursor one row up",
            two_chords("k", "Up"),
            one_chord("k"),
            two_chords("k", "ArrowUp"),
        ),
    );
    out.push(
        command(
            "ambidiff.nav.pageDown",
            "Page down",
            "Scroll one page down",
            two_chords("C-d", "PageDown"),
            one_chord("<C-d>"),
            one_chord("PageDown"),
        ),
    );
    out.push(
        command(
            "ambidiff.nav.pageUp",
            "Page up",
            "Scroll one page up",
            two_chords("C-u", "PageUp"),
            one_chord("<C-u>"),
            one_chord("PageUp"),
        ),
    );
    out.push(
        command(
            "ambidiff.nav.top",
            "Go to top",
            "Jump to the first row",
            one_chord("g"),
            one_chord("gg"),
            one_chord("g"),
        ),
    );
    out.push(
        command(
            "ambidiff.nav.bottom",
            "Go to bottom",
            "Jump to the last row",
            one_chord("G"),
            one_chord("G"),
            one_chord("G"),
        ),
    );
    out.push(
        command(
            "ambidiff.nav.nextHunk",
            "Next hunk",
            "Jump to the next hunk",
            one_chord("]"),
            one_chord("]h"),
            one_chord("]"),
        ),
    );
    out.push(
        command(
            "ambidiff.nav.prevHunk",
            "Previous hunk",
            "Jump to the previous hunk",
            one_chord("["),
            one_chord("[h"),
            one_chord("["),
        ),
    );
    out.push(
        command(
            "ambidiff.nav.nextFile",
            "Next file",
            "Open the next changed file",
            one_chord("}"),
            one_chord("]f"),
            one_chord("}"),
        ),
    );
    out.push(
        command(
            "ambidiff.nav.prevFile",
            "Previous file",
            "Open the previous changed file",
            one_chord("{"),
            one_chord("[f"),
            one_chord("{"),
        ),
    );
    out.push(
        command(
            "ambidiff.nav.nextComment",
            "Next comment",
            "Jump to the next comment",
            one_chord("."),
            one_chord("]c"),
            one_chord("."),
        ),
    );
    out.push(
        command(
            "ambidiff.nav.prevComment",
            "Previous comment",
            "Jump to the previous comment",
            one_chord(","),
            one_chord("[c"),
            one_chord(","),
        ),
    );
    out.push(
        command(
            "ambidiff.nav.focusSwitch",
            "Switch focus",
            "Switch focus between tree and diff",
            one_chord("Tab"),
            no_chord(),
            one_chord("Tab"),
        ),
    );
    assert(out.deep_view() =~= navigation_table());
    out
}

/// What is shown, and how.
pub open spec fn view_table() -> Seq<CommandModel> {
    seq![
        entry(
            "ambidiff.view.toggleLayout",
            "Toggle layout",
            "Switch between unified and side-by-side",
            seq!["s"@],
            seq!["gs"@],
            seq!["s"@],
        ),
        entry(
            "ambidiff.view.toggleWordDiff",
            "Toggle word diff",
            "Toggle intra-line word highlighting",
            seq!["w"@],
            seq!["gw"@],
            seq!["w"@],
        ),
        entry(
            "ambidiff.view.toggleTree",
            "Toggle file tree",
            "Show or hide the file tree",
            seq!["t"@],
            seq![],
            seq!["t"@],
        ),
        entry(
            "ambidiff.view.toggleWrap",
            "Toggle wrap",
            "Toggle long-line wrapping",
            seq!["W"@],
            seq![],
            seq!["W"@],
        ),
        entry(
            "ambidiff.view.toggleLineNumbers",
            "Toggle line numbers",
            "Show or hide line numbers",
            seq!["L"@],
            seq![],
            seq!["L"@],
        ),
        entry(
            "ambidiff.view.toggleTheme",
            "Toggle theme",
            "Switch between light and dark themes",
            seq!["T"@],
            seq![],
            seq!["T"@],
        ),
        entry(
            "ambidiff.view.cycleFilter",
            "Cycle file filter",
            "Cycle all / annotated / unreviewed files",
            seq!["f"@],
            seq![],
            seq!["f"@],
        ),
        entry(
            "ambidiff.view.expand",
            "Expand gap",
            "Expand the collapsed lines under the cursor",
            seq!["Enter"@],
            seq!["za"@],
            seq!["Enter"@],
        ),
        entry(
            "ambidiff.view.refresh",
            "Refresh",
            "Re-read the diff and review file now",
            seq!["r"@],
            seq!["gr"@],
            seq!["r"@],
        ),
    ]
}

fn view_commands() -> (r: Vec<CommandSpec>)
    ensures
        r.deep_view() == view_table(),
{
    let mut out: Vec<CommandSpec> = Vec::new();
    out.push(
        command(
            "ambidiff.view.toggleLayout",
            "Toggle layout",
            "Switch between unified and side-by-side",
            one_chord("s"),
            one_chord("gs"),
            one_chord("s"),
        ),
    );
    out.push(
        command(
            "ambidiff.view.toggleWordDiff",
            "Toggle word diff",
            "Toggle intra-line word highlighting",
            one_chord("w"),
            one_chord("gw"),
            one_chord("w"),
        ),
    );
    out.push(
        command(
            "ambidiff.view.toggleTree",
            "Toggle file tree",
            "Show or hide the file tree",
            one_chord("t"),
            no_chord(),
            one_chord("t"),
        ),
    );
    out.push(
        command(
            "ambidiff.view.toggleWrap",
            "Toggle wrap",
            "Toggle long-line wrapping",
            one_chord("W"),
            no_chord(),
            one_chord("W"),
        ),
    );
    out.push(
        command(
            "ambidiff.view.toggleLineNumbers",
            "Toggle line numbers",
            "Show or hide line numbers",
            one_chord("L"),
            no_chord(),
            one_chord("L"),
        ),
    );
    out.push(
        command(
            "ambidiff.view.toggleTheme",
            "Toggle theme",
            "Switch between light and dark themes",
            one_chord("T"),
            no_chord(),
            one_chord("T"),
        ),
    );
    out.push(
        command(
            "ambidiff.view.cycleFilter",
            "Cycle file filter",
            "Cycle all / annotated / unreviewed files",
            one_chord("f"),
            no_chord(),
            one_chord("f"),
        ),
    );
    out.push(
        command(
            "ambidiff.view.expand",
            "Expand gap",
            "Expand the collapsed lines under the cursor",
            one_chord("Enter"),
            one_chord("za"),
            one_chord("Enter"),
        ),
    );
    out.push(
        command(
            "ambidiff.view.refresh",
            "Refresh",
            "Re-read the diff and review file now",
            one_chord("r"),
            one_chord("gr"),
            one_chord("r"),
        ),
    );
    assert(out.deep_view() =~= view_table());
    out
}

/// Acting on comments.
pub open spec fn review_table() -> Seq<CommandModel> {
    seq![
        entry(
            "ambidiff.review.comment",
            "Comment on line",
            "Add a comment on the cursor line",
            seq!["c"@],
            seq!["gc"@],
            seq!["c"@],
        ),
        entry(
            "ambidiff.review.commentFile",
            "Comment on file",
            "Add a file-level comment",
            seq!["F"@],
            seq!["gF"@],
            seq!["F"@],
        ),
        entry(
            "ambidiff.review.commentReview",
            "Comment on review",
            "Add a review-level comment",
            seq!["R"@],
            seq!["gR"@],
            seq!["R"@],
        ),
        entry(
            "ambidiff.review.address",
            "Mark addressed",
            "Mark the comment at the cursor addressed",
            seq!["a"@],
            seq!["ga"@],
            seq!["a"@],
        ),
        entry(
            "ambidiff.review.resolve",
            "Resolve",
            "Resolve the comment at the cursor (human only)",
            seq!["x"@],
            seq!["gx"@],
            seq!["x"@],
        ),
        entry(
            "ambidiff.review.reopen",
            "Reopen",
            "Reopen the comment at the cursor (human only)",
            seq!["o"@],
            seq!["go"@],
            seq!["o"@],
        ),
        entry(
            "ambidiff.review.editComment",
            "Edit comment",
            "Edit the comment body at the cursor",
            seq!["e"@],
            seq!["ge"@],
            seq!["e"@],
        ),
        entry(
            "ambidiff.review.deleteComment",
            "Delete comment",
            "Delete the comment at the cursor",
            seq!["D"@],
            seq!["gD"@],
            seq!["D"@],
        ),
    ]
}

fn review_commands() -> (r: Vec<CommandSpec>)
    ensures
        r.deep_view() == review_table(),
{
    let mut out: Vec<CommandSpec> = Vec::new();
    out.push(
        command(
            "ambidiff.review.comment",
            "Comment on line",
            "Add a comment on the cursor line",
            one_chord("c"),
            one_chord("gc"),
            one_chord("c"),
        ),
    );
    out.push(
        command(
            "ambidiff.review.commentFile",
            "Comment on file",
            "Add a file-level comment",
            one_chord("F"),
            one_chord("gF"),
            one_chord("F"),
        ),
    );
    out.push(
        command(
            "ambidiff.review.commentReview",
            "Comment on review",
            "Add a review-level comment",
            one_chord("R"),
            one_chord("gR"),
            one_chord("R"),
        ),
    );
    out.push(
        command(
            "ambidiff.review.address",
            "Mark addressed",
            "Mark the comment at the cursor addressed",
            one_chord("a"),
            one_chord("ga"),
            one_chord("a"),
        ),
    );
    out.push(
        command(
            "ambidiff.review.resolve",
            "Resolve",
            "Resolve the comment at the cursor (human only)",
            one_chord("x"),
            one_chord("gx"),
            one_chord("x"),
        ),
    );
    out.push(
        command(
            "ambidiff.review.reopen",
            "Reopen",
            "Reopen the comment at the cursor (human only)",
            one_chord("o"),
            one_chord("go"),
            one_chord("o"),
        ),
    );
    out.push(
        command(
            "ambidiff.review.editComment",
            "Edit comment",
            "Edit the comment body at the cursor",
            one_chord("e"),
            one_chord("ge"),
            one_chord("e"),
        ),
    );
    out.push(
        command(
            "ambidiff.review.deleteComment",
            "Delete comment",
            "Delete the comment at the cursor",
            one_chord("D"),
            one_chord("gD"),
            one_chord("D"),
        ),
    );
    assert(out.deep_view() =~= review_table());
    out
}

/// Searching.
pub open spec fn search_table() -> Seq<CommandModel> {
    seq![
        entry(
            "ambidiff.search.start",
            "Search",
            "Search within the diff",
            seq!["/"@],
            seq!["/"@],
            seq!["/"@],
        ),
        entry(
            "ambidiff.search.next",
            "Next match",
            "Jump to the next search match",
            seq!["n"@],
            seq!["n"@],
            seq!["n"@],
        ),
        entry(
            "ambidiff.search.prev",
            "Previous match",
            "Jump to the previous search match",
            seq!["N"@],
            seq!["N"@],
            seq!["N"@],
        ),
    ]
}

fn search_commands() -> (r: Vec<CommandSpec>)
    ensures
        r.deep_view() == search_table(),
{
    let mut out: Vec<CommandSpec> = Vec::new();
    out.push(
        command(
            "ambidiff.search.start",
            "Search",
            "Search within the diff",
            one_chord("/"),
            one_chord("/"),
            one_chord("/"),
        ),
    );
    out.push(
        command(
            "ambidiff.search.next",
            "Next match",
            "Jump to the next search match",
            one_chord("n"),
            one_chord("n"),
            one_chord("n"),
        ),
    );
    out.push(
        command(
            "ambidiff.search.prev",
            "Previous match",
            "Jump to the previous search match",
            one_chord("N"),
            one_chord("N"),
            one_chord("N"),
        ),
    );
    assert(out.deep_view() =~= search_table());
    out
}

/// The program itself.
pub open spec fn app_table() -> Seq<CommandModel> {
    seq![
        entry(
            "ambidiff.app.help",
            "Help",
            "Show the help overlay",
            seq!["?"@],
            seq!["g?"@],
            seq!["?"@],
        ),
        entry(
            "ambidiff.app.quit",
            "Quit",
            "Quit ambidiff",
            seq!["q"@],
            seq![],
            seq![],
        ),
    ]
}

fn app_commands() -> (r: Vec<CommandSpec>)
    ensures
        r.deep_view() == app_table(),
{
    let mut out: Vec<CommandSpec> = Vec::new();
    out.push(
        command(
            "ambidiff.app.help",
            "Help",
            "Show the help overlay",
            one_chord("?"),
            one_chord("g?"),
            one_chord("?"),
        ),
    );
    out.push(
        command(
            "ambidiff.app.quit",
            "Quit",
            "Quit ambidiff",
            one_chord("q"),
            no_chord(),
            no_chord(),
        ),
    );
    assert(out.deep_view() =~= app_table());
    out
}

/// The full command table, grouped by area.
pub open spec fn command_table() -> Seq<CommandModel> {
    navigation_table() + view_table() + review_table() + search_table() + app_table()
}

/// The full command table, grouped by area.
pub fn commands() -> (r: Vec<CommandSpec>)
    ensures
        r.deep_view() == command_table(),
{
    let mut out: Vec<CommandSpec> = navigation_commands();
    let mut view: Vec<CommandSpec> = view_commands();
    let mut review: Vec<CommandSpec> = review_commands();
    let mut search: Vec<CommandSpec> = search_commands();
    let mut app: Vec<CommandSpec> = app_commands();
    let ghost parts = (
        out.deep_view(),
        view.deep_view(),
        review.deep_view(),
        search.deep_view(),
        app.deep_view(),
    );
    out.append(&mut view);
    out.append(&mut review);
    out.append(&mut search);
    out.append(&mut app);
    assert(out.deep_view() =~= parts.0 + parts.1 + parts.2 + parts.3 + parts.4);
    out
}

/// Position of the first command of this id; the length where there is none.
pub open spec fn command_position(table: Seq<CommandModel>, id: Seq<char>) -> int
    decreases table.len(),
{
    if table.len() == 0 {
        0
    } else {
        let before = command_position(table.drop_last(), id);
        if before < table.len() - 1 || table.last().id == id {
            before
        } else {
            table.len() as int
        }
    }
}

/// The command of this id.
pub open spec fn command_named(id: Seq<char>) -> Option<CommandModel> {
    let at = command_position(command_table(), id);
    if at < command_table().len() {
        Some(command_table()[at])
    } else {
        None
    }
}

proof fn lemma_command_position(table: Seq<CommandModel>, id: Seq<char>, at: int)
    requires
        0 <= at <= table.len(),
        at < table.len() ==> table[at].id == id,
        forall|i: int| 0 <= i < at ==> (#[trigger] table[i]).id != id,
    ensures
        command_position(table, id) == at,
    decreases table.len(),
{
    if table.len() > 0 {
        let init = table.drop_last();
        assert(forall|i: int| 0 <= i < init.len() ==> init[i] == table[i]);
        if at < table.len() {
            lemma_command_position(init, id, at);
        } else {
            lemma_command_position(init, id, at - 1);
            assert(table[at - 1].id != id);
        }
    }
}

/// Look up a command by id.
pub fn find(id: &str) -> (r: Option<CommandSpec>)
    ensures
        r.deep_view() == command_named(id@),
{
    let all: Vec<CommandSpec> = commands();
    let ghost table = command_table();
    for command in it: all.into_iter()
        invariant
            it.seq() == all@,
            table == command_table(),
            table == all.deep_view(),
            forall|k: int| 0 <= k < it.index() ==> (#[trigger] table[k]).id != id@,
    {
        assert(table[it.index() as int] == command.deep_view());
        if same_text(command.id, id) {
            proof {
                lemma_command_position(table, id@, it.index() as int);
            }
            return Some(command);
        }
    }
    proof {
        lemma_command_position(table, id@, table.len() as int);
    }
    None
}

/// No two commands share an id.
pub proof fn ids_are_unique(i: int, j: int)
    requires
        0 <= i < j < command_table().len(),
    ensures
        command_table()[i].id != command_table()[j].id,
{
    reveal_strlit("ambidiff.nav.cursorDown");
    reveal_strlit("ambidiff.nav.cursorUp");
    reveal_strlit("ambidiff.nav.pageDown");
    reveal_strlit("ambidiff.nav.pageUp");
    reveal_strlit("ambidiff.nav.top");
    reveal_strlit("ambidiff.nav.bottom");
    reveal_strlit("ambidiff.nav.nextHunk");
    reveal_strlit("ambidiff.nav.prevHunk");
    reveal_strlit("ambidiff.nav.nextFile");
    reveal_strlit("ambidiff.nav.prevFile");
    reveal_strlit("ambidiff.nav.nextComment");
    reveal_strlit("ambidiff.nav.prevComment");
    reveal_strlit("ambidiff.nav.focusSwitch");
    reveal_strlit("ambidiff.view.toggleLayout");
    reveal_strlit("ambidiff.view.toggleWordDiff");
    reveal_strlit("ambidiff.view.toggleTree");
    reveal_strlit("ambidiff.view.toggleWrap");
    reveal_strlit("ambidiff.view.toggleLineNumbers");
    reveal_strlit("ambidiff.view.toggleTheme");
    reveal_strlit("ambidiff.view.cycleFilter");
    reveal_strlit("ambidiff.view.expand");
    reveal_strlit("ambidiff.view.refresh");
    reveal_strlit("ambidiff.review.comment");
    reveal_strlit("ambidiff.review.commentFile");
    reveal_strlit("ambidiff.review.commentReview");
    reveal_strlit("ambidiff.review.address");
    reveal_strlit("ambidiff.review.resolve");
    reveal_strlit("ambidiff.review.reopen");
    reveal_strlit("ambidiff.review.editComment");
    reveal_strlit("ambidiff.review.deleteComment");
    reveal_strlit("ambidiff.search.start");
    reveal_strlit("ambidiff.search.next");
    reveal_strlit("ambidiff.search.prev");
    reveal_strlit("ambidiff.app.help");
    reveal_strlit("ambidiff.app.quit");
    let a = command_table()[i].id;
    let b = command_table()[j].id;
    if a == b {
        assert(a.len() == b.len());
        assert(a[13] == b[13]);
        assert(a[a.len() - 4] == b[b.len() - 4]);
    }
}

/// A listed command is found by its id.
pub proof fn listed_commands_are_found(i: int)
    requires
        0 <= i < command_table().len(),
    ensures
        command_named(command_table()[i].id) == Some(command_table()[i]),
{
    let table = command_table();
    assert forall|k: int| 0 <= k < i implies (#[trigger] table[k]).id != table[i].id by {
        ids_are_unique(k, i);
    }
    lemma_command_position(table, table[i].id, i);
}

/// Every id starts with the program's name.
pub proof fn ids_are_namespaced(i: int)
    requires
        0 <= i < command_table().len(),
    ensures
        "ambidiff."@.is_prefix_of(command_table()[i].id),
{
    reveal_strlit("ambidiff.");
    reveal_strlit("ambidiff.nav.cursorDown");
    reveal_strlit("ambidiff.nav.cursorUp");
    reveal_strlit("ambidiff.nav.pageDown");
    reveal_strlit("ambidiff.nav.pageUp");
    reveal_strlit("ambidiff.nav.top");
    reveal_strlit("ambidiff.nav.bottom");
    reveal_strlit("ambidiff.nav.nextHunk");
    reveal_strlit("ambidiff.nav.prevHunk");
    reveal_strlit("ambidiff.nav.nextFile");
    reveal_strlit("ambidiff.nav.prevFile");
    reveal_strlit("ambidiff.nav.nextComment");
    reveal_strlit("ambidiff.nav.prevComment");
    reveal_strlit("ambidiff.nav.focusSwitch");
    reveal_strlit("ambidiff.view.toggleLayout");
    reveal_strlit("ambidiff.view.toggleWordDiff");
    reveal_strlit("ambidiff.view.toggleTree");
    reveal_strlit("ambidiff.view.toggleWrap");
    reveal_strlit("ambidiff.view.toggleLineNumbers");
    reveal_strlit("ambidiff.view.toggleTheme");
    reveal_strlit("ambidiff.view.cycleFilter");
    reveal_strlit("ambidiff.view.expand");
    reveal_strlit("ambidiff.view.refresh");
    reveal_strlit("ambidiff.review.comment");
    reveal_strlit("ambidiff.review.commentFile");
    reveal_strlit("ambidiff.review.commentReview");
    reveal_strlit("ambidiff.review.address");
    reveal_strlit("ambidiff.review.resolve");
    reveal_strlit("ambidiff.review.reopen");
    reveal_strlit("ambidiff.review.editComment");
    reveal_strlit("ambidiff.review.deleteComment");
    reveal_strlit("ambidiff.search.start");
    reveal_strlit("ambidiff.search.next");
    reveal_strlit("ambidiff.search.prev");
    reveal_strlit("ambidiff.app.help");
    reveal_strlit("ambidiff.app.quit");
    let head = "ambidiff."@;
    let id = command_table()[i].id;
    assert(id.len() >= 9 && head.len() == 9);
    assert(head[0] == id[0] && head[1] == id[1] && head[2] == id[2]);
    assert(head[3] == id[3] && head[4] == id[4] && head[5] == id[5]);
    assert(head[6] == id[6] && head[7] == id[7] && head[8] == id[8]);
}

/// No chord of the terminal frontend is bound twice.
pub proof fn tui_chords_do_not_collide(i: int, k: int, j: int, l: int)
    requires
        0 <= i < command_table().len(),
        0 <= j < command_table().len(),
        0 <= k < command_table()[i].tui.len(),
        0 <= l < command_table()[j].tui.len(),
        command_table()[i].tui[k] == command_table()[j].tui[l],
    ensures
        i == j && k == l,
{
    reveal_strlit("j");
    reveal_strlit("Down");
    reveal_strlit("k");
    reveal_strlit("Up");
    reveal_strlit("C-d");
    reveal_strlit("PageDown");
    reveal_strlit("C-u");
    reveal_strlit("PageUp");
    reveal_strlit("g");
    reveal_strlit("G");
    reveal_strlit("]");
    reveal_strlit("[");
    reveal_strlit("}");
    reveal_strlit("{");
    reveal_strlit(".");
    reveal_strlit(",");
    reveal_strlit("Tab");
    reveal_strlit("s");
    reveal_strlit("w");
    reveal_strlit("t");
    reveal_strlit("W");
    reveal_strlit("L");
    reveal_strlit("T");
    reveal_strlit("f");
    reveal_strlit("Enter");
    reveal_strlit("r");
    reveal_strlit("c");
    reveal_strlit("F");
    reveal_strlit("R");
    reveal_strlit("a");
    reveal_strlit("x");
    reveal_strlit("o");
    reveal_strlit("e");
    reveal_strlit("D");
    reveal_strlit("/");
    reveal_strlit("n");
    reveal_strlit("N");
    reveal_strlit("?");
    reveal_strlit("q");
    assert(command_table()[i].tui.len() <= 2 && command_table()[j].tui.len() <= 2);
    assert(k == 0 || k == 1);
    assert(l == 0 || l == 1);
    let a = command_table()[i].tui[k];
    let b = command_table()[j].tui[l];
    assert(a.len() == b.len());
    assert(a[0] == b[0]);
    assert(a[a.len() - 1] == b[b.len() - 1]);
}

/// No chord of the editor frontend is bound twice.
pub proof fn nvim_chords_do_not_collide(i: int, k: int, j: int, l: int)
    requires
        0 <= i < command_table().len(),
        0 <= j < command_table().len(),
        0 <= k < command_table()[i].nvim.len(),
        0 <= l < command_table()[j].nvim.len(),
        command_table()[i].nvim[k] == command_table()[j].nvim[l],
    ensures
        i == j && k == l,
{
    reveal_strlit("j");
    reveal_strlit("k");
    reveal_strlit("<C-d>");
    reveal_strlit("<C-u>");
    reveal_strlit("gg");
    reveal_strlit("G");
    reveal_strlit("]h");
    reveal_strlit("[h");
    reveal_strlit("]f");
    reveal_strlit("[f");
    reveal_strlit("]c");
    reveal_strlit("[c");
    reveal_strlit("gs");
    reveal_strlit("gw");
    reveal_strlit("za");
    reveal_strlit("gr");
    reveal_strlit("gc");
    reveal_strlit("gF");
    reveal_strlit("gR");
    reveal_strlit("ga");
    reveal_strlit("gx");
    reveal_strlit("go");
    reveal_strlit("ge");
    reveal_strlit("gD");
    reveal_strlit("/");
    reveal_strlit("n");
    reveal_strlit("N");
    reveal_strlit("g?");
    assert(command_table()[i].nvim.len() <= 2 && command_table()[j].nvim.len() <= 2);
    assert(k == 0 || k == 1);
    assert(l == 0 || l == 1);
    let a = command_table()[i].nvim[k];
    let b = command_table()[j].nvim[l];
    assert(a.len() == b.len());
    assert(a[0] == b[0]);
    assert(a[a.len() - 1] == b[b.len() - 1]);
    assert(a.len() == 5 ==> a[3] == b[3]);
}

} // verus!
