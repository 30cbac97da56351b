//! What the parser makes of a patch, told by writing patches out: what is
//! written is what is read.

use vstd::prelude::*;

use crate::model::{DiffLineModel, FileDiffKindModel, HunkModel, LineKind};
use crate::parser::{
    capped_line, line_step, parsed_diff, prefix_within, read_header, read_pair, run_lines,
    start_state, HeaderModel, PairModel, ParseErrorModel, ParserModel, StepModel,
};
use crate::text::{
    byte_len, decimal_round_trip, decimal_text, find_text_from, index_from, is_digit,
    lemma_find_text_from, lemma_index_from, lines_of, occurs_at, trim, trim_end, trim_start,
    white_space,
};

verus! {

/// A start and a length as a hunk heading gives them; a length of one may be
/// left out.
pub open spec fn span_text(start: nat, len: nat, short: bool) -> Seq<char> {
    if short && len == 1 {
        decimal_text(start)
    } else {
        decimal_text(start) + ","@ + decimal_text(len)
    }
}

/// A hunk heading with these numbers.
pub open spec fn heading(
    old_start: nat,
    old_len: nat,
    new_start: nat,
    new_len: nat,
    context: Seq<char>,
    short: bool,
) -> Seq<char> {
    "@@ -"@ + span_text(old_start, old_len, short) + " +"@ + span_text(new_start, new_len, short)
        + " @@"@ + if context.len() == 0 {
        context
    } else {
        " "@ + context
    }
}

/// Whether no whitespace stands at either end.
pub open spec fn is_bare(s: Seq<char>) -> bool {
    s.len() > 0 ==> !white_space(s[0]) && !white_space(s.last())
}

/// A heading is read as its four numbers and its context. A number that does
/// not fit 32 bits is an overflow; numbers that fit but reach past the last
/// line number are an extent.
pub proof fn headings_say_their_numbers(
    old_start: nat,
    old_len: nat,
    new_start: nat,
    new_len: nat,
    context: Seq<char>,
    short: bool,
)
    requires
        is_bare(context),
    ensures
        ({
            let r = read_header(heading(old_start, old_len, new_start, new_len, context, short));
            let fits = old_start <= u32::MAX && old_len <= u32::MAX && new_start <= u32::MAX
                && new_len <= u32::MAX;
            let ends = old_start + old_len <= u32::MAX + 1 && new_start + new_len <= u32::MAX + 1;
            if !fits {
                r == HeaderModel::Overflow
            } else if !ends {
                r == HeaderModel::Extent
            } else {
                r matches HeaderModel::Header {
                    old_start: a,
                    old_len: b,
                    new_start: c,
                    new_len: d,
                    context: e,
                } && a == old_start && b == old_len && c == new_start && d == new_len && e
                    == context
            }
        }),
{
    let line = heading(old_start, old_len, new_start, new_len, context, short);
    let old = span_text(old_start, old_len, short);
    let new = span_text(new_start, new_len, short);
    let end = if context.len() == 0 {
        context
    } else {
        " "@ + context
    };
    reveal_strlit("@@ -");
    reveal_strlit(" +");
    reveal_strlit(" @@");
    reveal_strlit(" ");
    lemma_span(old_start, old_len, short);
    lemma_span(new_start, new_len, short);
    let rest = line.skip(4);
    assert(rest =~= old + " +"@ + new + " @@"@ + end);
    assert("@@ -"@.is_prefix_of(line)) by {
        assert(line.take(4) =~= "@@ -"@);
    }
    lemma_index_from(rest, ' ', 0);
    let space = index_from(rest, ' ', 0);
    assert(rest[old.len() as int] == ' ');
    assert(space == old.len()) by {
        if space < old.len() {
            assert(old[space] == rest[space]);
        } else if space > old.len() {
            assert(rest[old.len() as int] != ' ');
        }
    }
    assert(" +"@.is_prefix_of(rest.skip(space))) by {
        assert(rest.skip(space).take(2) =~= " +"@);
    }
    assert(rest.take(space) =~= old);
    let tail = rest.skip(space + 2);
    assert(tail =~= new + " @@"@ + end);
    lemma_find_text_from(tail, " @@"@, 0);
    let n = new.len() as int;
    assert(occurs_at(tail, " @@"@, n)) by {
        assert(tail.subrange(n, n + 3) =~= " @@"@);
    }
    let at = find_text_from(tail, " @@"@, 0)->0;
    assert(at == n) by {
        if at < n {
            assert(tail.subrange(at, at + 3)[0] == ' ');
            assert(tail[at] == new[at]);
        }
    }
    assert(tail.take(at) =~= new);
    assert(tail.skip(at + 3) =~= end);
    lemma_trim_bare(context);
}

/// A character for each kind of line, as a patch puts it before the content.
pub open spec fn sign(kind: LineKind) -> char {
    match kind {
        LineKind::Context => ' ',
        LineKind::Add => '+',
        LineKind::Remove => '-',
    }
}

/// Whether a line of this kind stands in the old file, or in the new one.
pub open spec fn stands_in(kind: LineKind, old: bool) -> bool {
    if old {
        kind != LineKind::Add
    } else {
        kind != LineKind::Remove
    }
}

/// How many of the first `n` lines stand on a side.
pub open spec fn passed(lines: Seq<DiffLineModel>, n: int, old: bool) -> int
    decreases n,
{
    if n <= 0 {
        0
    } else {
        passed(lines, n - 1, old) + if stands_in(lines[n - 1].kind, old) {
            1int
        } else {
            0
        }
    }
}

/// The number of the line that follows `n` others; numbers stay at the
/// largest one.
pub open spec fn numbered_from(start: u32, n: int) -> int {
    if start + n <= u32::MAX {
        start + n
    } else {
        u32::MAX as int
    }
}

/// Whether a hunk is one that a patch can say: its extents end in range, no
/// whitespace stands round its context, its lines are of a length that is
/// kept, and each has the number that its place gives it on the sides it
/// stands on and zero on the other.
pub open spec fn can_be_written(hunk: HunkModel) -> bool {
    &&& is_bare(hunk.context)
    &&& hunk.old_start + hunk.old_len <= u32::MAX + 1
    &&& hunk.new_start + hunk.new_len <= u32::MAX + 1
    &&& forall|k: int|
        0 <= k < hunk.lines.len() ==> {
            let line = #[trigger] hunk.lines[k];
            &&& byte_len(line.content) <= 1048576
            &&& line.old_num == if line.kind == LineKind::Add {
                0
            } else {
                numbered_from(hunk.old_start, passed(hunk.lines, k, true))
            }
            &&& line.new_num == if line.kind == LineKind::Remove {
                0
            } else {
                numbered_from(hunk.new_start, passed(hunk.lines, k, false))
            }
        }
}

/// The first `n` lines of a hunk as a patch has them: each behind its sign,
/// with git's remark behind those that end their file without a newline.
pub open spec fn body_text(lines: Seq<DiffLineModel>, marks: Seq<bool>, n: int) -> Seq<Seq<char>>
    decreases n,
{
    if n <= 0 {
        Seq::empty()
    } else {
        let said = body_text(lines, marks, n - 1).push(
            seq![sign(lines[n - 1].kind)] + lines[n - 1].content,
        );
        if marks[n - 1] {
            said.push("\\ No newline at end of file"@)
        } else {
            said
        }
    }
}

/// The first `n` hunks as a patch has them.
pub open spec fn patch_text(
    hunks: Seq<HunkModel>,
    marks: Seq<Seq<bool>>,
    short: bool,
    n: int,
) -> Seq<Seq<char>>
    decreases n,
{
    if n <= 0 {
        Seq::empty()
    } else {
        let hunk = hunks[n - 1];
        patch_text(hunks, marks, short, n - 1).push(
            heading(
                hunk.old_start as nat,
                hunk.old_len as nat,
                hunk.new_start as nat,
                hunk.new_len as nat,
                hunk.context,
                short,
            ),
        ) + body_text(hunk.lines, marks[n - 1], hunk.lines.len() as int)
    }
}

/// Whether one of the first `n` lines that stand on a side ends its file
/// without a newline.
pub open spec fn some_marked(
    lines: Seq<DiffLineModel>,
    marks: Seq<bool>,
    n: int,
    old: bool,
) -> bool {
    exists|k: int| 0 <= k < n && #[trigger] marks[k] && stands_in(lines[k].kind, old)
}

/// Whether that holds of one of the first `n` hunks.
pub open spec fn some_hunk_marked(
    hunks: Seq<HunkModel>,
    marks: Seq<Seq<bool>>,
    n: int,
    old: bool,
) -> bool {
    exists|h: int|
        0 <= h < n && some_marked(
            #[trigger] hunks[h].lines,
            marks[h],
            hunks[h].lines.len() as int,
            old,
        )
}

/// Whether a line before the hunks is one that says nothing of them.
pub open spec fn is_noise(line: Seq<char>) -> bool {
    &&& !"diff --git "@.is_prefix_of(line)
    &&& !"@@ -"@.is_prefix_of(line)
    &&& !("Binary files "@.is_prefix_of(line) && " differ"@.is_suffix_of(line))
    &&& line != "GIT binary patch"@
}

/// The lines before the hunks: git's heading of the file, where there is
/// one, and noise.
pub open spec fn is_preamble(lines: Seq<Seq<char>>) -> bool {
    forall|i: int|
        0 <= i < lines.len() ==> is_noise(#[trigger] lines[i]) || (i == 0
            && "diff --git "@.is_prefix_of(lines[0]))
}

/// Whether what follows a patch is the end, or the patch of another file.
pub open spec fn ends_patch(preamble: Seq<Seq<char>>, rest: Seq<Seq<char>>) -> bool {
    rest.len() == 0 || ("diff --git "@.is_prefix_of(rest[0]) && preamble.len() > 0
        && "diff --git "@.is_prefix_of(preamble[0]))
}

/// A patch says its hunks: they are read back exactly as they were written,
/// whatever git says before them and whatever file comes after. A side is
/// said to lack its final newline exactly where git's remark stands behind a
/// line of that side.
pub proof fn written_patches_are_read_back(
    raw: Seq<char>,
    preamble: Seq<Seq<char>>,
    hunks: Seq<HunkModel>,
    marks: Seq<Seq<bool>>,
    short: bool,
    rest: Seq<Seq<char>>,
)
    requires
        lines_of(raw) == preamble + patch_text(hunks, marks, short, hunks.len() as int) + rest,
        is_preamble(preamble),
        ends_patch(preamble, rest),
        forall|h: int| 0 <= h < hunks.len() ==> can_be_written(#[trigger] hunks[h]),
    ensures
        parsed_diff(raw) matches Ok(diff) && {
            &&& diff.kind == FileDiffKindModel::Text
            &&& diff.hunks == hunks
            &&& diff.old_total_lines is None
            &&& diff.old_missing_newline == some_hunk_marked(
                hunks,
                marks,
                hunks.len() as int,
                true,
            )
            &&& diff.new_missing_newline == some_hunk_marked(
                hunks,
                marks,
                hunks.len() as int,
                false,
            )
        },
{
    let n = hunks.len() as int;
    lemma_preamble(preamble);
    let st = state_after(start_state(), preamble)->0;
    lemma_patch(st, hunks, marks, short, n);
    let patch = patch_text(hunks, marks, short, n);
    let end = state_after(st, patch)->0;
    assert(preamble + patch + rest =~= preamble + (patch + rest));
    lemma_run_through(start_state(), preamble, patch + rest);
    lemma_run_through(st, patch, rest);
    assert(hunks.take(n) =~= hunks);
}

/// A heading whose numbers cannot be used is refused, with its line, wherever
/// it stands behind a patch that can be read.
pub proof fn unusable_headings_are_refused(
    raw: Seq<char>,
    preamble: Seq<Seq<char>>,
    hunks: Seq<HunkModel>,
    marks: Seq<Seq<bool>>,
    old_start: nat,
    old_len: nat,
    new_start: nat,
    new_len: nat,
    context: Seq<char>,
    short: bool,
    rest: Seq<Seq<char>>,
)
    requires
        is_bare(context),
        lines_of(raw) == preamble + patch_text(hunks, marks, short, hunks.len() as int).push(
            heading(old_start, old_len, new_start, new_len, context, short),
        ) + rest,
        is_preamble(preamble),
        forall|h: int| 0 <= h < hunks.len() ==> can_be_written(#[trigger] hunks[h]),
        old_start + old_len > u32::MAX + 1 || new_start + new_len > u32::MAX + 1 || old_start
            > u32::MAX || new_start > u32::MAX,
    ensures
        parsed_diff(raw) matches Err(e) && {
            let line = heading(old_start, old_len, new_start, new_len, context, short);
            if old_start > u32::MAX || old_len > u32::MAX || new_start > u32::MAX || new_len
                > u32::MAX {
                e == (ParseErrorModel::HunkHeader { header: line })
            } else {
                e == (ParseErrorModel::Extent { header: line })
            }
        },
{
    let n = hunks.len() as int;
    let line = heading(old_start, old_len, new_start, new_len, context, short);
    lemma_preamble(preamble);
    let st = state_after(start_state(), preamble)->0;
    lemma_patch(st, hunks, marks, short, n);
    let patch = patch_text(hunks, marks, short, n);
    let tail = seq![line] + rest;
    assert(preamble + patch.push(line) + rest =~= preamble + (patch + tail));
    lemma_run_through(start_state(), preamble, patch + tail);
    lemma_run_through(st, patch, tail);
    headings_say_their_numbers(old_start, old_len, new_start, new_len, context, short);
    lemma_heading_start(old_start, old_len, new_start, new_len, context, short);
    lemma_prefixes(line);
    assert(tail[0] == line);
}

/// A line of a hunk without a sign, or without anything, is a context line as
/// it stands.
pub proof fn stray_lines_are_context(
    raw: Seq<char>,
    preamble: Seq<Seq<char>>,
    hunks: Seq<HunkModel>,
    marks: Seq<Seq<bool>>,
    short: bool,
    stray: Seq<char>,
)
    requires
        lines_of(raw) == preamble + patch_text(hunks, marks, short, hunks.len() as int).push(stray),
        is_preamble(preamble),
        hunks.len() > 0,
        forall|h: int| 0 <= h < hunks.len() ==> can_be_written(#[trigger] hunks[h]),
        byte_len(stray) <= 1048576,
        stray.len() > 0 ==> stray[0] != '+' && stray[0] != '-' && stray[0] != ' ' && stray[0]
            != '\\' && stray[0] != '@' && stray[0] != 'd',
    ensures
        parsed_diff(raw) matches Ok(diff) && {
            let n = hunks.len() as int;
            let last = hunks[n - 1];
            let count = last.lines.len() as int;
            let line = diff.hunks[n - 1].lines[count];
            &&& diff.hunks.len() == n
            &&& forall|h: int| 0 <= h < n - 1 ==> #[trigger] diff.hunks[h] == hunks[h]
            &&& diff.hunks[n - 1].old_start == last.old_start
            &&& diff.hunks[n - 1].old_len == last.old_len
            &&& diff.hunks[n - 1].new_start == last.new_start
            &&& diff.hunks[n - 1].new_len == last.new_len
            &&& diff.hunks[n - 1].context == last.context
            &&& diff.hunks[n - 1].lines.len() == count + 1
            &&& forall|k: int|
                0 <= k < count ==> #[trigger] diff.hunks[n - 1].lines[k] == last.lines[k]
            &&& line.kind == LineKind::Context
            &&& line.content == stray
            &&& line.old_num == numbered_from(last.old_start, passed(last.lines, count, true))
            &&& line.new_num == numbered_from(last.new_start, passed(last.lines, count, false))
        },
{
    let n = hunks.len() as int;
    lemma_preamble(preamble);
    let st = state_after(start_state(), preamble)->0;
    lemma_patch(st, hunks, marks, short, n);
    let patch = patch_text(hunks, marks, short, n);
    let tail = seq![stray];
    assert(preamble + patch.push(stray) =~= preamble + (patch + tail));
    lemma_run_through(start_state(), preamble, patch + tail);
    lemma_run_through(st, patch, tail);
    assert(hunks.take(n) =~= hunks);
    lemma_prefixes(stray);
    reveal_strlit("\\ ");
    reveal_strlit("diff --git ");
    reveal_strlit("@@ -");
    let at = state_after(st, patch)->0;
    reveal_with_fuel(run_lines, 2);
    assert(tail[0] == stray);
    assert(tail.drop_first() =~= Seq::<Seq<char>>::empty());
}

/// Whether the first `k` characters are as many as fit in a mebibyte.
pub open spec fn is_cut(content: Seq<char>, k: int) -> bool {
    &&& 0 <= k < content.len()
    &&& byte_len(content.take(k)) <= 1048576
    &&& byte_len(content.take(k + 1)) > 1048576
}

/// A line that takes no more than a mebibyte is kept whole. One that takes
/// more is cut behind the last character that fits, and says so.
pub proof fn long_lines_are_cut(content: Seq<char>)
    ensures
        byte_len(content) <= 1048576 ==> capped_line(content) == content,
        byte_len(content) > 1048576 ==> exists|k: int| #[trigger]
            is_cut(content, k) && capped_line(content) == content.take(k) + " [line truncated]"@,
{
    if byte_len(content) > 1048576 {
        let k = lemma_cut(content);
        assert(is_cut(content, k));
    }
}

proof fn lemma_cut(s: Seq<char>) -> (k: int)
    requires
        byte_len(s) > 1048576,
    ensures
        is_cut(s, k),
        prefix_within(s, 1048576) == s.take(k),
    decreases s.len(),
{
    let front = s.drop_last();
    reveal_with_fuel(prefix_within, 2);
    assert(s.len() > 0);
    assert(s.take(s.len() as int) =~= s);
    assert(front =~= s.take(s.len() - 1));
    if byte_len(front) <= 1048576 {
        s.len() - 1
    } else {
        let k = lemma_cut(front);
        assert(front.take(k) =~= s.take(k));
        assert(front.take(k + 1) =~= s.take(k + 1));
        k
    }
}

/// A file that git calls binary before any hunk is a placeholder without
/// hunks, which says whether the file is new, deleted or neither.
pub proof fn binary_files_are_placeholders(
    raw: Seq<char>,
    preamble: Seq<Seq<char>>,
    marker: Seq<char>,
    rest: Seq<Seq<char>>,
)
    requires
        lines_of(raw) == preamble.push(marker) + rest,
        is_preamble(preamble),
        marker == "GIT binary patch"@ || ("Binary files "@.is_prefix_of(marker)
            && " differ"@.is_suffix_of(marker)),
    ensures
        parsed_diff(raw) matches Ok(diff) && {
            let new_file = exists|i: int|
                0 <= i < preamble.len() && "new file mode"@.is_prefix_of(#[trigger] preamble[i]);
            let deleted = exists|i: int|
                0 <= i < preamble.len() && "deleted file mode"@.is_prefix_of(
                    #[trigger] preamble[i],
                );
            &&& diff.hunks.len() == 0
            &&& diff.old_total_lines is None
            &&& !diff.old_missing_newline
            &&& !diff.new_missing_newline
            &&& diff.kind == (FileDiffKindModel::Binary {
                desc: if new_file {
                    "(new binary file)"@
                } else if deleted {
                    "(deleted binary file)"@
                } else {
                    "(binary file)"@
                },
            })
        },
{
    lemma_preamble(preamble);
    let st = state_after(start_state(), preamble)->0;
    let tail = seq![marker] + rest;
    assert(preamble.push(marker) + rest =~= preamble + tail);
    lemma_run_through(start_state(), preamble, tail);
    assert(tail[0] == marker);
    lemma_prefixes(marker);
}

// ------------------------------------------------------------------- proofs

proof fn lemma_span(start: nat, len: nat, short: bool)
    ensures
        forall|i: int|
            0 <= i < span_text(start, len, short).len() ==> #[trigger] span_text(
                start,
                len,
                short,
            )[i] != ' ',
        read_pair(span_text(start, len, short)) == if start > u32::MAX || len > u32::MAX {
            PairModel::Overflow
        } else {
            PairModel::Pair { start: start as u32, len: len as u32 }
        },
{
    let text = span_text(start, len, short);
    let a = decimal_text(start);
    let b = decimal_text(len);
    decimal_round_trip(start);
    decimal_round_trip(len);
    reveal_strlit(",");
    assert forall|i: int| 0 <= i < text.len() implies #[trigger] text[i] != ' ' by {
        if i < a.len() {
            assert(is_digit(a[i]) && text[i] == a[i]);
        } else if i > a.len() {
            assert(is_digit(b[i - a.len() - 1]) && text[i] == b[i - a.len() - 1]);
        }
    }
    lemma_index_from(text, ',', 0);
    let comma = index_from(text, ',', 0);
    assert(comma == a.len()) by {
        if comma < a.len() {
            assert(is_digit(a[comma]) && text[comma] == a[comma]);
        } else if comma > a.len() {
            assert(text[a.len() as int] == ',');
        }
    }
    assert(text.take(comma) =~= a);
    if !(short && len == 1) {
        assert(text.skip(comma + 1) =~= b);
    }
}

proof fn lemma_trim_bare(context: Seq<char>)
    requires
        is_bare(context),
    ensures
        trim(" "@ + context) == context,
        context.len() == 0 ==> trim(context) == context,
{
    reveal_strlit(" ");
    let padded = " "@ + context;
    reveal_with_fuel(trim_start, 3);
    reveal_with_fuel(trim_end, 2);
    assert(padded[0] == ' ');
    assert(white_space(' '));
    assert(padded.drop_first() =~= context);
}

proof fn lemma_heading_start(
    old_start: nat,
    old_len: nat,
    new_start: nat,
    new_len: nat,
    context: Seq<char>,
    short: bool,
)
    ensures
        ({
            let line = heading(old_start, old_len, new_start, new_len, context, short);
            line.len() > 0 && line[0] == '@'
        }),
{
    reveal_strlit("@@ -");
}

/// What the first character of a line rules out.
proof fn lemma_prefixes(line: Seq<char>)
    ensures
        line.len() > 0 && line[0] != 'd' ==> !"diff --git "@.is_prefix_of(line)
            && !"deleted file mode"@.is_prefix_of(line),
        line.len() > 0 && line[0] != 'n' ==> !"new file mode"@.is_prefix_of(line),
        line.len() > 0 && line[0] != '@' ==> !"@@ -"@.is_prefix_of(line),
        line.len() > 0 && line[0] != '\\' ==> !"\\ "@.is_prefix_of(line),
        line.len() > 0 && line[0] != 'B' ==> !"Binary files "@.is_prefix_of(line),
        "diff --git "@.is_prefix_of(line) ==> line[0] == 'd',
        "new file mode"@.is_prefix_of(line) ==> line[0] == 'n',
        "deleted file mode"@.is_prefix_of(line) ==> line[0] == 'd',
        "Binary files "@.is_prefix_of(line) ==> line.len() > 0 && line[0] == 'B',
        line == "GIT binary patch"@ ==> line.len() > 0 && line[0] == 'G',
        "diff --git "@.is_prefix_of(line) ==> !"deleted file mode"@.is_prefix_of(line),
{
    reveal_strlit("diff --git ");
    reveal_strlit("deleted file mode");
    reveal_strlit("new file mode");
    reveal_strlit("@@ -");
    reveal_strlit("\\ ");
    reveal_strlit("Binary files ");
    reveal_strlit("GIT binary patch");
    assert("diff --git "@[0] == 'd' && "diff --git "@[1] == 'i');
    assert("deleted file mode"@[0] == 'd' && "deleted file mode"@[1] == 'e');
    assert("new file mode"@[0] == 'n');
    assert("@@ -"@[0] == '@');
    assert("\\ "@[0] == '\\');
    assert("Binary files "@[0] == 'B');
}

/// Where a run of lines leads, if every one of them leads on.
spec fn state_after(st: ParserModel, lines: Seq<Seq<char>>) -> Option<ParserModel>
    decreases lines.len(),
{
    if lines.len() == 0 {
        Some(st)
    } else {
        match state_after(st, lines.drop_last()) {
            None => None,
            Some(before) => match line_step(before, lines.last()) {
                StepModel::Next { state } => Some(state),
                _ => None,
            },
        }
    }
}

proof fn lemma_one_more(st: ParserModel, lines: Seq<Seq<char>>, line: Seq<char>)
    ensures
        state_after(st, lines.push(line)) == match state_after(st, lines) {
            None => None::<ParserModel>,
            Some(before) => match line_step(before, line) {
                StepModel::Next { state } => Some(state),
                _ => None,
            },
        },
{
    assert(lines.push(line).drop_last() =~= lines);
}

proof fn lemma_run_through(st: ParserModel, lines: Seq<Seq<char>>, rest: Seq<Seq<char>>)
    requires
        state_after(st, lines) is Some,
    ensures
        run_lines(st, lines + rest) == run_lines(state_after(st, lines)->0, rest),
    decreases lines.len(),
{
    if lines.len() == 0 {
        assert(lines + rest =~= rest);
    } else {
        let front = lines.drop_last();
        let tail = seq![lines.last()] + rest;
        assert(lines + rest =~= front + tail);
        lemma_run_through(st, front, tail);
        assert(tail.drop_first() =~= rest);
    }
}

proof fn lemma_preamble(lines: Seq<Seq<char>>)
    requires
        is_preamble(lines),
    ensures
        state_after(start_state(), lines) matches Some(st) && {
            &&& st.in_header
            &&& st.hunks.len() == 0
            &&& !st.old_missing
            &&& !st.new_missing
            &&& st.seen_boundary <==> lines.len() > 0 && "diff --git "@.is_prefix_of(lines[0])
            &&& st.new_file <==> exists|i: int|
                0 <= i < lines.len() && "new file mode"@.is_prefix_of(#[trigger] lines[i])
            &&& st.deleted_file <==> exists|i: int|
                0 <= i < lines.len() && "deleted file mode"@.is_prefix_of(#[trigger] lines[i])
        },
    decreases lines.len(),
{
    if lines.len() > 0 {
        let front = lines.drop_last();
        let n = lines.len() - 1;
        assert forall|i: int| 0 <= i < front.len() implies is_noise(#[trigger] front[i]) || (i == 0
            && "diff --git "@.is_prefix_of(front[0])) by {
            assert(front[i] == lines[i]);
        }
        lemma_preamble(front);
        lemma_prefixes(lines[n]);
        assert(is_noise(lines[n]) || n == 0);
        assert forall|i: int| 0 <= i < n implies front[i] == #[trigger] lines[i] by {}
        if exists|i: int|
            0 <= i < front.len() && "new file mode"@.is_prefix_of(#[trigger] front[i]) {
            let i = choose|i: int|
                0 <= i < front.len() && "new file mode"@.is_prefix_of(#[trigger] front[i]);
            assert("new file mode"@.is_prefix_of(lines[i]));
        }
        if exists|i: int|
            0 <= i < front.len() && "deleted file mode"@.is_prefix_of(#[trigger] front[i]) {
            let i = choose|i: int|
                0 <= i < front.len() && "deleted file mode"@.is_prefix_of(#[trigger] front[i]);
            assert("deleted file mode"@.is_prefix_of(lines[i]));
        }
    }
}

/// Whether the parser counts on from the end of a hunk.
spec fn ends_hunk(st: ParserModel, hunk: HunkModel) -> bool {
    let n = hunk.lines.len() as int;
    &&& st.old_num == numbered_from(hunk.old_start, passed(hunk.lines, n, true))
    &&& st.new_num == numbered_from(hunk.new_start, passed(hunk.lines, n, false))
}

/// Where the parser stands in the midst of a hunk.
spec fn in_hunk(
    st: ParserModel,
    before: ParserModel,
    hunk: HunkModel,
    marks: Seq<bool>,
    n: int,
) -> bool {
    &&& !st.in_header
    &&& st.seen_boundary == before.seen_boundary
    &&& st.old_num == numbered_from(hunk.old_start, passed(hunk.lines, n, true))
    &&& st.new_num == numbered_from(hunk.new_start, passed(hunk.lines, n, false))
    &&& st.hunks == before.hunks.push(HunkModel { lines: hunk.lines.take(n), ..hunk })
    &&& st.old_missing == (before.old_missing || some_marked(hunk.lines, marks, n, true))
    &&& st.new_missing == (before.new_missing || some_marked(hunk.lines, marks, n, false))
}

proof fn lemma_passed_bound(lines: Seq<DiffLineModel>, n: int, old: bool)
    ensures
        passed(lines, n, old) >= 0,
    decreases n,
{
    if n > 0 {
        lemma_passed_bound(lines, n - 1, old);
    }
}

proof fn lemma_one_more_marked(lines: Seq<DiffLineModel>, marks: Seq<bool>, n: int, old: bool)
    requires
        0 < n,
    ensures
        some_marked(lines, marks, n, old) <==> some_marked(lines, marks, n - 1, old) || (marks[n
            - 1] && stands_in(lines[n - 1].kind, old)),
{
    if some_marked(lines, marks, n, old) {
        let k = choose|k: int|
            0 <= k < n && #[trigger] marks[k] && stands_in(lines[k].kind, old);
        assert(marks[k]);
    }
}

proof fn lemma_said_line(
    st: ParserModel,
    before: ParserModel,
    hunk: HunkModel,
    marks: Seq<bool>,
    n: int,
)
    requires
        can_be_written(hunk),
        0 < n <= hunk.lines.len(),
        in_hunk(st, before, hunk, marks, n - 1),
    ensures
        ({
            let line = hunk.lines[n - 1];
            let step = line_step(st, seq![sign(line.kind)] + line.content);
            let marked = line_step(step->state, "\\ No newline at end of file"@);
            &&& step is Next
            &&& !marks[n - 1] ==> in_hunk(step->state, before, hunk, marks, n)
            &&& marks[n - 1] ==> marked is Next && in_hunk(marked->state, before, hunk, marks, n)
        }),
{
    let line = hunk.lines[n - 1];
    let text = seq![sign(line.kind)] + line.content;
    lemma_prefixes(text);
    assert(text.skip(1) =~= line.content);
    lemma_passed_bound(hunk.lines, n - 1, true);
    lemma_passed_bound(hunk.lines, n - 1, false);
    lemma_one_more_marked(hunk.lines, marks, n, true);
    lemma_one_more_marked(hunk.lines, marks, n, false);
    let state = line_step(st, text)->state;
    assert(st.hunks.drop_last() =~= before.hunks);
    assert(hunk.lines.take(n - 1).push(line) =~= hunk.lines.take(n));
    assert(state.hunks =~= before.hunks.push(HunkModel { lines: hunk.lines.take(n), ..hunk }));
    let mark = "\\ No newline at end of file"@;
    reveal_strlit("\\ No newline at end of file");
    reveal_strlit("\\ ");
    assert(mark[0] == '\\');
    assert(mark.take(2) =~= "\\ "@);
    lemma_prefixes(mark);
}

proof fn lemma_body(
    st: ParserModel,
    lines: Seq<Seq<char>>,
    before: ParserModel,
    hunk: HunkModel,
    marks: Seq<bool>,
    n: int,
)
    requires
        can_be_written(hunk),
        0 <= n <= hunk.lines.len(),
        state_after(st, lines) matches Some(at) && in_hunk(at, before, hunk, marks, 0),
    ensures
        state_after(st, lines + body_text(hunk.lines, marks, n)) matches Some(at) && in_hunk(
            at,
            before,
            hunk,
            marks,
            n,
        ),
    decreases n,
{
    if n == 0 {
        assert(lines + body_text(hunk.lines, marks, n) =~= lines);
    } else {
        lemma_body(st, lines, before, hunk, marks, n - 1);
        let said = lines + body_text(hunk.lines, marks, n - 1);
        let line = hunk.lines[n - 1];
        let text = seq![sign(line.kind)] + line.content;
        let mark = "\\ No newline at end of file"@;
        let at = state_after(st, said)->0;
        lemma_said_line(at, before, hunk, marks, n);
        lemma_one_more(st, said, text);
        lemma_one_more(st, said.push(text), mark);
        if marks[n - 1] {
            assert(lines + body_text(hunk.lines, marks, n) =~= said.push(text).push(mark));
        } else {
            assert(lines + body_text(hunk.lines, marks, n) =~= said.push(text));
        }
    }
}

proof fn lemma_patch(
    st: ParserModel,
    hunks: Seq<HunkModel>,
    marks: Seq<Seq<bool>>,
    short: bool,
    n: int,
)
    requires
        0 <= n <= hunks.len(),
        st.in_header,
        st.hunks.len() == 0,
        !st.old_missing,
        !st.new_missing,
        forall|h: int| 0 <= h < hunks.len() ==> can_be_written(#[trigger] hunks[h]),
    ensures
        state_after(st, patch_text(hunks, marks, short, n)) matches Some(at) && {
            &&& at.seen_boundary == st.seen_boundary
            &&& at.hunks == hunks.take(n)
            &&& at.old_missing == some_hunk_marked(hunks, marks, n, true)
            &&& at.new_missing == some_hunk_marked(hunks, marks, n, false)
            &&& n > 0 ==> !at.in_header && ends_hunk(at, hunks[n - 1])
        },
    decreases n,
{
    if n == 0 {
        assert(st.hunks =~= hunks.take(0));
    } else {
        lemma_patch(st, hunks, marks, short, n - 1);
        let said = patch_text(hunks, marks, short, n - 1);
        let before = state_after(st, said)->0;
        let hunk = hunks[n - 1];
        let line = heading(
            hunk.old_start as nat,
            hunk.old_len as nat,
            hunk.new_start as nat,
            hunk.new_len as nat,
            hunk.context,
            short,
        );
        headings_say_their_numbers(
            hunk.old_start as nat,
            hunk.old_len as nat,
            hunk.new_start as nat,
            hunk.new_len as nat,
            hunk.context,
            short,
        );
        lemma_heading_start(
            hunk.old_start as nat,
            hunk.old_len as nat,
            hunk.new_start as nat,
            hunk.new_len as nat,
            hunk.context,
            short,
        );
        lemma_prefixes(line);
        lemma_one_more(st, said, line);
        let at = line_step(before, line)->state;
        assert(hunk.lines.take(0) =~= Seq::empty());
        assert(in_hunk(at, before, hunk, marks[n - 1], 0));
        let full = hunk.lines.len() as int;
        lemma_body(st, said.push(line), before, hunk, marks[n - 1], full);
        assert(hunk.lines.take(full) =~= hunk.lines);
        assert(hunks.take(n) =~= hunks.take(n - 1).push(hunk));
        lemma_one_more_hunk(hunks, marks, n, true);
        lemma_one_more_hunk(hunks, marks, n, false);
    }
}

proof fn lemma_one_more_hunk(hunks: Seq<HunkModel>, marks: Seq<Seq<bool>>, n: int, old: bool)
    requires
        0 < n <= hunks.len(),
    ensures
        some_hunk_marked(hunks, marks, n, old) <==> some_hunk_marked(hunks, marks, n - 1, old)
            || some_marked(
            hunks[n - 1].lines,
            marks[n - 1],
            hunks[n - 1].lines.len() as int,
            old,
        ),
{
    if some_hunk_marked(hunks, marks, n, old) {
        let h = choose|h: int|
            0 <= h < n && some_marked(
                #[trigger] hunks[h].lines,
                marks[h],
                hunks[h].lines.len() as int,
                old,
            );
        assert(some_marked(hunks[h].lines, marks[h], hunks[h].lines.len() as int, old));
    }
}

} // verus!
