//! Unified-diff parser: raw `git diff` output for a single file into the
//! structured [`FileDiff`] model.
//!
//! Tolerance rules: unknown prefixes render as context, header noise is
//! skipped, overlong lines are truncated with a marker, and malformed input
//! never fails except for hunk headers whose numbers cannot be used.

use vstd::prelude::*;
use vstd::slice::slice_subrange;

use crate::model::{
    bare_diff, lines_of_kind, newline_free, DiffLine, DiffLineModel, FileDiff, FileDiffKind,
    FileDiffKindModel, FileDiffModel, Hunk, HunkModel, LineKind,
};
use crate::text::{
    all_digits, byte_len, char_seqs, chars_of, copy_of, debug_text, decimal_value, digits_only,
    ends_with, find_char, find_text, find_text_from, index_from, lemma_byte_len_take,
    lemma_find_text_from, lemma_pieces_lack_separator, lines_of, parse_u32, push_text, quoted,
    same_chars, split_lines, split_on, starts_with, string_of, text_of_two, trim, trimmed, width,
};

verus! {

/// Maximum accepted content-line length in bytes; longer lines are truncated
/// at a char boundary and suffixed with a marker.
pub const MAX_LINE_BYTES: usize = 1_048_576;

/// Marker appended to a truncated overlong line.
pub const TRUNCATION_MARKER: &'static str = " [line truncated]";

/// Typed parse failure. The parser is tolerant by design; only structurally
/// unusable hunk headers are errors.
#[derive(Debug, Clone, PartialEq, Eq)]
pub enum ParseError {
    HunkHeader { header: String },
    /// A hunk header is numerically well-formed but its start+len extent
    /// exceeds 2^32, which would overflow every downstream u32 line number.
    Extent { header: String },
}

#[verifier::ext_equal]
pub enum ParseErrorModel {
    HunkHeader { header: Seq<char> },
    Extent { header: Seq<char> },
}

impl DeepView for ParseError {
    type V = ParseErrorModel;

    open spec fn deep_view(&self) -> ParseErrorModel {
        match *self {
            ParseError::HunkHeader { header } => ParseErrorModel::HunkHeader { header: header@ },
            ParseError::Extent { header } => ParseErrorModel::Extent { header: header@ },
        }
    }
}

impl ParseErrorModel {
    /// The error in words.
    pub open spec fn text(self) -> Seq<char> {
        match self {
            ParseErrorModel::HunkHeader { header } => "unparseable hunk header: "@ + debug_text(
                header,
            ),
            ParseErrorModel::Extent { header } => "hunk header extent overflows u32: "@
                + debug_text(header),
        }
    }
}

impl ParseError {
    pub fn message(&self) -> (r: String)
        ensures
            r@ == self.deep_view().text(),
    {
        match self {
            ParseError::HunkHeader { header } => text_of_two(
                "unparseable hunk header: ",
                quoted(header.as_str()).as_str(),
            ),
            ParseError::Extent { header } => text_of_two(
                "hunk header extent overflows u32: ",
                quoted(header.as_str()).as_str(),
            ),
        }
    }
}

// -------------------------------------------------------------- hunk headers

/// One side of a hunk header, `start[,len]`.
pub enum PairModel {
    NotPair,
    Overflow,
    Pair { start: u32, len: u32 },
}

/// What a text says when it is read as `start[,len]`; an omitted length
/// means one.
pub open spec fn read_pair(part: Seq<char>) -> PairModel {
    let comma = index_from(part, ',', 0);
    let start = part.take(comma);
    if start.len() == 0 || !all_digits(start) {
        PairModel::NotPair
    } else if decimal_value(start) > u32::MAX {
        PairModel::Overflow
    } else if comma == part.len() {
        PairModel::Pair { start: decimal_value(start) as u32, len: 1 }
    } else {
        let len = part.skip(comma + 1);
        if len.len() == 0 || !all_digits(len) {
            PairModel::NotPair
        } else if decimal_value(len) > u32::MAX {
            PairModel::Overflow
        } else {
            PairModel::Pair {
                start: decimal_value(start) as u32,
                len: decimal_value(len) as u32,
            }
        }
    }
}

/// A line read as `@@ -a[,b] +c[,d] @@[ context]`.
#[verifier::ext_equal]
pub enum HeaderModel {
    /// Not shaped like a hunk header.
    NotHeader,
    /// A number does not fit 32 bits.
    Overflow,
    /// A start and its length together pass the 32-bit range.
    Extent,
    Header { old_start: u32, old_len: u32, new_start: u32, new_len: u32, context: Seq<char> },
}

/// Whether line numbers from `start` on stay in the 32-bit range.
pub open spec fn extent_fits(start: u32, len: u32) -> bool {
    start + len <= 0x1_0000_0000
}

/// The two sides of a header and the text after them, taken together.
pub open spec fn join_pairs(old: PairModel, new: PairModel, context: Seq<char>) -> HeaderModel {
    match old {
        PairModel::NotPair => HeaderModel::NotHeader,
        PairModel::Overflow => HeaderModel::Overflow,
        PairModel::Pair { start: old_start, len: old_len } => match new {
            PairModel::NotPair => HeaderModel::NotHeader,
            PairModel::Overflow => HeaderModel::Overflow,
            PairModel::Pair { start: new_start, len: new_len } => if extent_fits(old_start, old_len)
                && extent_fits(new_start, new_len) {
                HeaderModel::Header { old_start, old_len, new_start, new_len, context }
            } else {
                HeaderModel::Extent
            },
        },
    }
}

/// What a line says when it is read as a hunk header.
pub open spec fn read_header(line: Seq<char>) -> HeaderModel {
    let rest = line.skip(4);
    let space = index_from(rest, ' ', 0);
    let tail = rest.skip(space + 2);
    if !"@@ -"@.is_prefix_of(line) || space == rest.len() || !" +"@.is_prefix_of(
        rest.skip(space),
    ) {
        HeaderModel::NotHeader
    } else {
        match find_text_from(tail, " @@"@, 0) {
            None => HeaderModel::NotHeader,
            Some(at) => join_pairs(
                read_pair(rest.take(space)),
                read_pair(tail.take(at)),
                trim(tail.skip(at + 3)),
            ),
        }
    }
}

/// Parsed `@@ -a[,b] +c[,d] @@[ context]` header.
struct HunkHeader {
    old_start: u32,
    old_len: u32,
    new_start: u32,
    new_len: u32,
    context: String,
}

enum Pair {
    NotPair,
    Overflow,
    Pair(u32, u32),
}

spec fn pair_model(p: Pair) -> PairModel {
    match p {
        Pair::NotPair => PairModel::NotPair,
        Pair::Overflow => PairModel::Overflow,
        Pair::Pair(start, len) => PairModel::Pair { start, len },
    }
}

/// Reads `start[,len]`.
fn parse_pair(part: &[char]) -> (r: Pair)
    ensures
        pair_model(r) == read_pair(part@),
{
    let comma: usize = find_char(part, ',', 0);
    let start_text: &[char] = slice_subrange(part, 0, comma);
    assert(start_text@ =~= part@.take(comma as int));
    if start_text.len() == 0 || !digits_only(start_text) {
        return Pair::NotPair;
    }
    let start: u32 = match parse_u32(start_text) {
        Some(v) => v,
        None => {
            return Pair::Overflow;
        },
    };
    if comma == part.len() {
        return Pair::Pair(start, 1);
    }
    let len_text: &[char] = slice_subrange(part, comma + 1, part.len());
    assert(len_text@ =~= part@.skip(comma + 1));
    if len_text.len() == 0 || !digits_only(len_text) {
        return Pair::NotPair;
    }
    match parse_u32(len_text) {
        Some(len) => Pair::Pair(start, len),
        None => Pair::Overflow,
    }
}

/// Parse a hunk header line. Returns None when the line is not shaped like a
/// hunk header at all; Err when it is shaped like one but the numbers are
/// unusable.
fn parse_hunk_header(line: &[char]) -> (r: Result<Option<HunkHeader>, ParseError>)
    ensures
        match read_header(line@) {
            HeaderModel::NotHeader => r == Ok::<Option<HunkHeader>, ParseError>(None),
            HeaderModel::Overflow => r matches Err(e) && e.deep_view()
                == (ParseErrorModel::HunkHeader { header: line@ }),
            HeaderModel::Extent => r matches Err(e) && e.deep_view() == (ParseErrorModel::Extent {
                header: line@,
            }),
            HeaderModel::Header { old_start, old_len, new_start, new_len, context } => r matches Ok(
                Some(h),
            ) && h.old_start == old_start && h.old_len == old_len && h.new_start == new_start
                && h.new_len == new_len && h.context@ == context,
        },
{
    proof {
        reveal_strlit("@@ -");
        reveal_strlit(" +");
        reveal_strlit(" @@");
    }
    if !starts_with(line, "@@ -") {
        return Ok(None);
    }
    let rest: &[char] = slice_subrange(line, 4, line.len());
    assert(rest@ =~= line@.skip(4));
    let space: usize = find_char(rest, ' ', 0);
    if space == rest.len() {
        return Ok(None);
    }
    let old_part: &[char] = slice_subrange(rest, 0, space);
    assert(old_part@ =~= rest@.take(space as int));
    let after_old: &[char] = slice_subrange(rest, space, rest.len());
    assert(after_old@ =~= rest@.skip(space as int));
    if !starts_with(after_old, " +") {
        return Ok(None);
    }
    let tail: &[char] = slice_subrange(rest, space + 2, rest.len());
    assert(tail@ =~= rest@.skip(space + 2));
    let closing: Vec<char> = chars_of(" @@");
    let at: usize = match find_text(tail, closing.as_slice(), 0) {
        Some(at) => at,
        None => {
            return Ok(None);
        },
    };
    proof {
        lemma_find_text_from(tail@, " @@"@, 0);
    }
    let new_part: &[char] = slice_subrange(tail, 0, at);
    assert(new_part@ =~= tail@.take(at as int));
    let after_new: &[char] = slice_subrange(tail, at + 3, tail.len());
    assert(after_new@ =~= tail@.skip(at + 3));
    let context: String = string_of(trimmed(after_new).as_slice());

    let (old_start, old_len): (u32, u32) = match parse_pair(old_part) {
        Pair::NotPair => {
            return Ok(None);
        },
        Pair::Overflow => {
            return Err(ParseError::HunkHeader { header: string_of(line) });
        },
        Pair::Pair(start, len) => (start, len),
    };
    let (new_start, new_len): (u32, u32) = match parse_pair(new_part) {
        Pair::NotPair => {
            return Ok(None);
        },
        Pair::Overflow => {
            return Err(ParseError::HunkHeader { header: string_of(line) });
        },
        Pair::Pair(start, len) => (start, len),
    };
    let limit: u64 = 0x1_0000_0000;
    if old_start as u64 + old_len as u64 > limit || new_start as u64 + new_len as u64 > limit {
        return Err(ParseError::Extent { header: string_of(line) });
    }
    Ok(Some(HunkHeader { old_start, old_len, new_start, new_len, context }))
}

// -------------------------------------------------------------- line content

/// True for git's "Binary files X and Y differ" marker.
pub open spec fn binary_marker(line: Seq<char>) -> bool {
    "Binary files "@.is_prefix_of(line) && " differ"@.is_suffix_of(line)
}

fn is_binary_marker(line: &[char]) -> (r: bool)
    ensures
        r == binary_marker(line@),
{
    starts_with(line, "Binary files ") && ends_with(line, " differ")
}

/// The longest prefix whose encoding takes at most `limit` bytes.
pub open spec fn prefix_within(s: Seq<char>, limit: nat) -> Seq<char>
    decreases s.len(),
{
    if s.len() == 0 || byte_len(s) <= limit {
        s
    } else {
        prefix_within(s.drop_last(), limit)
    }
}

/// A content line as it is kept: whole where it fits, else cut at a character
/// boundary and marked.
pub open spec fn capped_line(content: Seq<char>) -> Seq<char> {
    if byte_len(content) <= MAX_LINE_BYTES {
        content
    } else {
        prefix_within(content, MAX_LINE_BYTES as nat) + TRUNCATION_MARKER@
    }
}

/// A prefix that fits, with one more character not fitting, is the longest.
proof fn lemma_prefix_within(s: Seq<char>, limit: nat, k: int)
    requires
        0 <= k < s.len(),
        byte_len(s.take(k)) <= limit,
        byte_len(s.take(k + 1)) > limit,
    ensures
        prefix_within(s, limit) == s.take(k),
    decreases s.len(),
{
    crate::text::lemma_byte_len_take_grows(s, k + 1, s.len() as int);
    assert(s.take(s.len() as int) =~= s);
    if s.len() == k + 1 {
        assert(s.drop_last() =~= s.take(k));
        assert(prefix_within(s.take(k), limit) == s.take(k));
    } else {
        assert(s.drop_last().take(k) =~= s.take(k));
        assert(s.drop_last().take(k + 1) =~= s.take(k + 1));
        lemma_prefix_within(s.drop_last(), limit, k);
    }
}

/// Truncate content to [`MAX_LINE_BYTES`] at a char boundary, appending
/// [`TRUNCATION_MARKER`] when truncation happened.
fn cap_line(content: &[char]) -> (r: String)
    ensures
        r@ == capped_line(content@),
{
    let mut used: usize = 0;
    let mut i: usize = 0;
    while i < content.len()
        invariant
            i <= content.len(),
            used == byte_len(content@.take(i as int)),
            used <= MAX_LINE_BYTES,
        decreases content.len() - i,
    {
        let w: usize = width(content[i]);
        proof {
            lemma_byte_len_take(content@, i as int);
        }
        if used + w > MAX_LINE_BYTES {
            proof {
                lemma_prefix_within(content@, MAX_LINE_BYTES as nat, i as int);
                crate::text::lemma_byte_len_take_grows(
                    content@,
                    i + 1,
                    content@.len() as int,
                );
                assert(content@.take(content@.len() as int) =~= content@);
            }
            let head: &[char] = slice_subrange(content, 0, i);
            assert(head@ =~= content@.take(i as int));
            let mut out: String = string_of(head);
            push_text(&mut out, TRUNCATION_MARKER);
            return out;
        }
        used += w;
        i += 1;
    }
    assert(content@.take(content@.len() as int) =~= content@);
    string_of(content)
}

// ------------------------------------------------------------ the line machine

/// What the parser knows after some lines.
#[verifier::ext_equal]
pub struct ParserModel {
    /// No hunk header has been seen yet.
    pub in_header: bool,
    /// A `diff --git` line has been seen.
    pub seen_boundary: bool,
    pub new_file: bool,
    pub deleted_file: bool,
    /// Numbers of the next line on either side of the current hunk.
    pub old_num: u32,
    pub new_num: u32,
    pub hunks: Seq<HunkModel>,
    pub old_missing: bool,
    pub new_missing: bool,
}

/// Where one more line leads.
#[verifier::ext_equal]
pub enum StepModel {
    Next { state: ParserModel },
    /// A second file section starts here.
    Stop,
    /// The content is binary.
    Binary,
    Fail { error: ParseErrorModel },
}

/// The parser before any line.
pub open spec fn start_state() -> ParserModel {
    ParserModel {
        in_header: true,
        seen_boundary: false,
        new_file: false,
        deleted_file: false,
        old_num: 0,
        new_num: 0,
        hunks: Seq::empty(),
        old_missing: false,
        new_missing: false,
    }
}

/// `n + 1`, staying at the largest number.
pub open spec fn following(n: u32) -> u32 {
    if n < u32::MAX {
        (n + 1) as u32
    } else {
        u32::MAX
    }
}

/// One more line in the last hunk; the side counters move on for the sides
/// that have the line.
pub open spec fn add_line(st: ParserModel, kind: LineKind, content: Seq<char>) -> ParserModel {
    let line = DiffLineModel {
        old_num: if kind == LineKind::Add {
            0
        } else {
            st.old_num
        },
        new_num: if kind == LineKind::Remove {
            0
        } else {
            st.new_num
        },
        kind,
        content,
    };
    let hunk = HunkModel { lines: st.hunks.last().lines.push(line), ..st.hunks.last() };
    ParserModel {
        old_num: if kind == LineKind::Add {
            st.old_num
        } else {
            following(st.old_num)
        },
        new_num: if kind == LineKind::Remove {
            st.new_num
        } else {
            following(st.new_num)
        },
        hunks: st.hunks.drop_last().push(hunk),
        ..st
    }
}

/// A "no newline" marker: it speaks of the sides that have the line above it.
pub open spec fn mark_missing_newline(st: ParserModel) -> ParserModel {
    let lines = st.hunks.last().lines;
    if lines.len() == 0 {
        st
    } else {
        ParserModel {
            old_missing: st.old_missing || lines.last().kind != LineKind::Add,
            new_missing: st.new_missing || lines.last().kind != LineKind::Remove,
            ..st
        }
    }
}

/// A line inside a hunk.
pub open spec fn content_step(st: ParserModel, line: Seq<char>) -> ParserModel {
    if st.hunks.len() == 0 {
        st
    } else if "\\ "@.is_prefix_of(line) {
        mark_missing_newline(st)
    } else if line.len() == 0 {
        add_line(st, LineKind::Context, line)
    } else if line[0] == '+' {
        add_line(st, LineKind::Add, capped_line(line.skip(1)))
    } else if line[0] == '-' {
        add_line(st, LineKind::Remove, capped_line(line.skip(1)))
    } else if line[0] == ' ' {
        add_line(st, LineKind::Context, capped_line(line.skip(1)))
    } else {
        add_line(st, LineKind::Context, capped_line(line))
    }
}

/// One more line.
pub open spec fn line_step(st: ParserModel, line: Seq<char>) -> StepModel {
    if "diff --git "@.is_prefix_of(line) {
        if st.seen_boundary {
            StepModel::Stop
        } else {
            StepModel::Next { state: ParserModel { seen_boundary: true, ..st } }
        }
    } else if st.in_header && "new file mode"@.is_prefix_of(line) {
        StepModel::Next { state: ParserModel { new_file: true, ..st } }
    } else if st.in_header && "deleted file mode"@.is_prefix_of(line) {
        StepModel::Next { state: ParserModel { deleted_file: true, ..st } }
    } else if st.in_header && (binary_marker(line) || line == "GIT binary patch"@) {
        StepModel::Binary
    } else {
        match read_header(line) {
            HeaderModel::Overflow => StepModel::Fail {
                error: ParseErrorModel::HunkHeader { header: line },
            },
            HeaderModel::Extent => StepModel::Fail {
                error: ParseErrorModel::Extent { header: line },
            },
            HeaderModel::Header { old_start, old_len, new_start, new_len, context } => {
                let hunk = HunkModel {
                    old_start,
                    old_len,
                    new_start,
                    new_len,
                    context,
                    lines: Seq::empty(),
                };
                StepModel::Next {
                    state: ParserModel {
                        in_header: false,
                        old_num: old_start,
                        new_num: new_start,
                        hunks: st.hunks.push(hunk),
                        ..st
                    },
                }
            },
            HeaderModel::NotHeader => StepModel::Next {
                state: if st.in_header {
                    st
                } else {
                    content_step(st, line)
                },
            },
        }
    }
}

/// The text diff that the lines so far make.
pub open spec fn text_diff(st: ParserModel) -> FileDiffModel {
    FileDiffModel {
        kind: FileDiffKindModel::Text,
        hunks: st.hunks,
        old_total_lines: None,
        old_missing_newline: st.old_missing,
        new_missing_newline: st.new_missing,
    }
}

/// The placeholder text of a binary file.
pub open spec fn binary_desc(st: ParserModel) -> Seq<char> {
    if st.new_file {
        "(new binary file)"@
    } else if st.deleted_file {
        "(deleted binary file)"@
    } else {
        "(binary file)"@
    }
}

/// What the remaining lines make of a state.
pub open spec fn run_lines(st: ParserModel, lines: Seq<Seq<char>>) -> Result<
    FileDiffModel,
    ParseErrorModel,
>
    decreases lines.len(),
{
    if lines.len() == 0 {
        Ok(text_diff(st))
    } else {
        match line_step(st, lines[0]) {
            StepModel::Next { state } => run_lines(state, lines.drop_first()),
            StepModel::Stop => Ok(text_diff(st)),
            StepModel::Binary => Ok(
                bare_diff(FileDiffKindModel::Binary { desc: binary_desc(st) }),
            ),
            StepModel::Fail { error } => Err(error),
        }
    }
}

/// The diff that a raw single-file `git diff` output says.
pub open spec fn parsed_diff(raw: Seq<char>) -> Result<FileDiffModel, ParseErrorModel> {
    run_lines(start_state(), lines_of(raw))
}

struct Parser {
    in_header: bool,
    seen_boundary: bool,
    new_file: bool,
    deleted_file: bool,
    old_num: u32,
    new_num: u32,
    hunks: Vec<Hunk>,
    old_missing: bool,
    new_missing: bool,
}

enum Flow {
    Next,
    Stop,
    Binary,
    Fail(ParseError),
}

impl Parser {
    spec fn model(self) -> ParserModel {
        ParserModel {
            in_header: self.in_header,
            seen_boundary: self.seen_boundary,
            new_file: self.new_file,
            deleted_file: self.deleted_file,
            old_num: self.old_num,
            new_num: self.new_num,
            hunks: self.hunks.deep_view(),
            old_missing: self.old_missing,
            new_missing: self.new_missing,
        }
    }

    fn push_line(&mut self, kind: LineKind, content: String)
        requires
            old(self).hunks.len() > 0,
        ensures
            final(self).model() == add_line(old(self).model(), kind, content@),
    {
        let ghost before = *self;
        let line = DiffLine {
            old_num: match kind {
                LineKind::Add => 0,
                _ => self.old_num,
            },
            new_num: match kind {
                LineKind::Remove => 0,
                _ => self.new_num,
            },
            kind,
            content,
        };
        let ghost line_model = line.deep_view();
        if let Some(mut hunk) = self.hunks.pop() {
            let ghost hunk_before = hunk;
            hunk.lines.push(line);
            assert(hunk.lines.deep_view() =~= hunk_before.lines.deep_view().push(line_model));
            let ghost hunk_model = hunk.deep_view();
            self.hunks.push(hunk);
            assert(self.hunks.deep_view() =~= before.hunks.deep_view().drop_last().push(
                hunk_model,
            ));
        }
        match kind {
            LineKind::Add => {
                self.new_num = self.new_num.saturating_add(1);
            },
            LineKind::Remove => {
                self.old_num = self.old_num.saturating_add(1);
            },
            LineKind::Context => {
                self.old_num = self.old_num.saturating_add(1);
                self.new_num = self.new_num.saturating_add(1);
            },
        }
        assert(self.model() =~= add_line(before.model(), kind, line_model.content));
    }

    /// A line inside a hunk.
    fn content_line(&mut self, line: &[char])
        ensures
            final(self).model() == content_step(old(self).model(), line@),
    {
        if self.hunks.len() == 0 {
            return ;
        }
        if starts_with(line, "\\ ") {
            let lines: &Vec<DiffLine> = &self.hunks[self.hunks.len() - 1].lines;
            if lines.len() > 0 {
                match lines[lines.len() - 1].kind {
                    LineKind::Remove => {
                        self.old_missing = true;
                    },
                    LineKind::Add => {
                        self.new_missing = true;
                    },
                    LineKind::Context => {
                        self.old_missing = true;
                        self.new_missing = true;
                    },
                }
            }
            return ;
        }
        if line.len() == 0 {
            let empty: String = String::new();
            assert(empty@ =~= line@);
            self.push_line(LineKind::Context, empty);
            return ;
        }
        let rest: &[char] = slice_subrange(line, 1, line.len());
        assert(rest@ =~= line@.skip(1));
        let first: char = line[0];
        if first == '+' {
            self.push_line(LineKind::Add, cap_line(rest));
        } else if first == '-' {
            self.push_line(LineKind::Remove, cap_line(rest));
        } else if first == ' ' {
            self.push_line(LineKind::Context, cap_line(rest));
        } else {
            self.push_line(LineKind::Context, cap_line(line));
        }
    }

    /// One more line.
    fn line(&mut self, line: &[char]) -> (r: Flow)
        ensures
            match line_step(old(self).model(), line@) {
                StepModel::Next { state } => r is Next && final(self).model() == state,
                StepModel::Stop => r is Stop && *final(self) == *old(self),
                StepModel::Binary => r is Binary && *final(self) == *old(self),
                StepModel::Fail { error } => r matches Flow::Fail(e) && e.deep_view() == error,
            },
    {
        if starts_with(line, "diff --git ") {
            if self.seen_boundary {
                return Flow::Stop;
            }
            self.seen_boundary = true;
            return Flow::Next;
        }
        if self.in_header {
            if starts_with(line, "new file mode") {
                self.new_file = true;
                return Flow::Next;
            }
            if starts_with(line, "deleted file mode") {
                self.deleted_file = true;
                return Flow::Next;
            }
            if is_binary_marker(line) || same_chars(
                line,
                chars_of("GIT binary patch").as_slice(),
            ) {
                return Flow::Binary;
            }
        }
        match parse_hunk_header(line) {
            Err(e) => Flow::Fail(e),
            Ok(Some(header)) => {
                let ghost before = self.hunks.deep_view();
                self.in_header = false;
                self.old_num = header.old_start;
                self.new_num = header.new_start;
                let hunk = Hunk {
                    old_start: header.old_start,
                    old_len: header.old_len,
                    new_start: header.new_start,
                    new_len: header.new_len,
                    context: header.context,
                    lines: Vec::new(),
                };
                let ghost hunk_model = hunk.deep_view();
                assert(hunk_model.lines =~= Seq::empty());
                self.hunks.push(hunk);
                assert(self.hunks.deep_view() =~= before.push(hunk_model));
                Flow::Next
            },
            Ok(None) => {
                if !self.in_header {
                    self.content_line(line);
                }
                Flow::Next
            },
        }
    }
}

/// Parse raw unified diff output for a single file.
///
/// Multi-file input is tolerated: parsing stops at the second `diff --git`
/// boundary and returns the first file's diff. Binary markers produce a
/// [`FileDiffKind::Binary`] placeholder whose description reflects whether
/// the file was added or deleted.
pub fn parse_file_diff(raw: &str) -> (r: Result<FileDiff, ParseError>)
    ensures
        match parsed_diff(raw@) {
            Ok(diff) => r matches Ok(d) && d.deep_view() == diff,
            Err(error) => r matches Err(e) && e.deep_view() == error,
        },
{
    let lines: Vec<Vec<char>> = split_lines(chars_of(raw).as_slice());
    let ghost all = char_seqs(lines@);
    let mut parser = Parser {
        in_header: true,
        seen_boundary: false,
        new_file: false,
        deleted_file: false,
        old_num: 0,
        new_num: 0,
        hunks: Vec::new(),
        old_missing: false,
        new_missing: false,
    };
    assert(parser.model() =~= start_state());
    assert(all.skip(0) =~= all);
    let mut i: usize = 0;
    let mut stopped: bool = false;
    while i < lines.len() && !stopped
        invariant
            i <= lines.len(),
            all == char_seqs(lines@),
            all == lines_of(raw@),
            !stopped ==> run_lines(parser.model(), all.skip(i as int)) == run_lines(
                start_state(),
                all,
            ),
            stopped ==> run_lines(start_state(), all)
                == Ok::<FileDiffModel, ParseErrorModel>(text_diff(parser.model())),
        decreases lines.len() - i,
    {
        assert(all.skip(i as int)[0] == lines@[i as int]@);
        assert(all.skip(i as int).drop_first() =~= all.skip(i + 1));
        match parser.line(lines[i].as_slice()) {
            Flow::Next => {},
            Flow::Stop => {
                stopped = true;
            },
            Flow::Binary => {
                let desc: &str = if parser.new_file {
                    "(new binary file)"
                } else if parser.deleted_file {
                    "(deleted binary file)"
                } else {
                    "(binary file)"
                };
                return Ok(FileDiff::placeholder(FileDiffKind::Binary { desc: copy_of(desc) }));
            },
            Flow::Fail(e) => {
                return Err(e);
            },
        }
        i += 1;
    }
    Ok(
        FileDiff {
            kind: FileDiffKind::Text,
            hunks: parser.hunks,
            old_total_lines: None,
            old_missing_newline: parser.old_missing,
            new_missing_newline: parser.new_missing,
        },
    )
}

// ----------------------------------------------------------------- numbering

/// `start + n`, staying at the largest number.
pub open spec fn number_after(start: u32, n: int) -> u32 {
    if start + n <= u32::MAX {
        (start + n) as u32
    } else {
        u32::MAX
    }
}

/// Number of lines that stand on the old side (all but the added ones).
pub open spec fn old_side_count(lines: Seq<DiffLineModel>) -> int {
    lines.len() - lines_of_kind(lines, LineKind::Add)
}

/// Number of lines that stand on the new side (all but the removed ones).
pub open spec fn new_side_count(lines: Seq<DiffLineModel>) -> int {
    lines.len() - lines_of_kind(lines, LineKind::Remove)
}

/// Each line carries its number on the sides that have it, counted up from
/// the hunk's start, and 0 on the side that has not.
pub open spec fn numbered(hunk: HunkModel) -> bool {
    forall|i: int|
        0 <= i < hunk.lines.len() ==> {
            let line = #[trigger] hunk.lines[i];
            let before = hunk.lines.take(i);
            &&& line.old_num == if line.kind == LineKind::Add {
                0
            } else {
                number_after(hunk.old_start, old_side_count(before))
            }
            &&& line.new_num == if line.kind == LineKind::Remove {
                0
            } else {
                number_after(hunk.new_start, new_side_count(before))
            }
        }
}

spec fn counters_follow(st: ParserModel) -> bool {
    &&& forall|h: int| 0 <= h < st.hunks.len() ==> numbered(#[trigger] st.hunks[h])
    &&& st.hunks.len() > 0 ==> {
        let last = st.hunks.last();
        &&& st.old_num == number_after(last.old_start, old_side_count(last.lines))
        &&& st.new_num == number_after(last.new_start, new_side_count(last.lines))
    }
}

proof fn lemma_kind_count_bound(lines: Seq<DiffLineModel>, kind: LineKind)
    ensures
        lines_of_kind(lines, kind) <= lines.len(),
    decreases lines.len(),
{
    if lines.len() > 0 {
        lemma_kind_count_bound(lines.drop_last(), kind);
    }
}

proof fn lemma_add_line_numbered(st: ParserModel, kind: LineKind, content: Seq<char>)
    requires
        counters_follow(st),
        st.hunks.len() > 0,
    ensures
        counters_follow(add_line(st, kind, content)),
{
    let next = add_line(st, kind, content);
    let before = st.hunks.last();
    let after = next.hunks.last();
    assert(after.lines.drop_last() =~= before.lines);
    lemma_kind_count_bound(before.lines, LineKind::Add);
    lemma_kind_count_bound(before.lines, LineKind::Remove);
    assert(numbered(after)) by {
        assert forall|i: int| 0 <= i < after.lines.len() implies {
            let line = #[trigger] after.lines[i];
            let prior = after.lines.take(i);
            &&& line.old_num == if line.kind == LineKind::Add {
                0
            } else {
                number_after(after.old_start, old_side_count(prior))
            }
            &&& line.new_num == if line.kind == LineKind::Remove {
                0
            } else {
                number_after(after.new_start, new_side_count(prior))
            }
        } by {
            if i < before.lines.len() {
                assert(numbered(st.hunks[st.hunks.len() - 1]));
                assert(after.lines[i] == before.lines[i]);
                assert(after.lines.take(i) =~= before.lines.take(i));
            } else {
                assert(after.lines.take(i) =~= before.lines);
            }
        }
    }
    assert forall|h: int| 0 <= h < next.hunks.len() implies numbered(#[trigger] next.hunks[h]) by {
        if h < st.hunks.len() - 1 {
            assert(numbered(st.hunks[h]));
        }
    }
}

proof fn lemma_step_numbered(st: ParserModel, line: Seq<char>)
    requires
        counters_follow(st),
    ensures
        line_step(st, line) matches StepModel::Next { state } ==> counters_follow(state),
{
    if let StepModel::Next { state } = line_step(st, line) {
        match read_header(line) {
            HeaderModel::Header { old_start, old_len, new_start, new_len, context } => {
                assert forall|h: int| 0 <= h < state.hunks.len() implies numbered(
                    #[trigger] state.hunks[h],
                ) by {
                    if h < st.hunks.len() {
                        assert(numbered(st.hunks[h]));
                    }
                }
            },
            _ => {
                if st.hunks.len() > 0 && !st.in_header && !"diff --git "@.is_prefix_of(line)
                    && !"\\ "@.is_prefix_of(line) {
                    if line.len() == 0 {
                        lemma_add_line_numbered(st, LineKind::Context, line);
                    } else {
                        lemma_add_line_numbered(st, LineKind::Add, capped_line(line.skip(1)));
                        lemma_add_line_numbered(st, LineKind::Remove, capped_line(line.skip(1)));
                        lemma_add_line_numbered(st, LineKind::Context, capped_line(line.skip(1)));
                        lemma_add_line_numbered(st, LineKind::Context, capped_line(line));
                    }
                }
            },
        }
    }
}

proof fn lemma_run_numbered(st: ParserModel, lines: Seq<Seq<char>>)
    requires
        counters_follow(st),
    ensures
        run_lines(st, lines) matches Ok(diff) ==> forall|h: int|
            0 <= h < diff.hunks.len() ==> numbered(#[trigger] diff.hunks[h]),
    decreases lines.len(),
{
    if lines.len() > 0 {
        lemma_step_numbered(st, lines[0]);
        if let StepModel::Next { state } = line_step(st, lines[0]) {
            lemma_run_numbered(state, lines.drop_first());
        }
    }
}

/// Every line of a parsed diff carries the numbers that its place in its hunk
/// gives it, and 0 on the side it does not stand on.
pub proof fn parsed_lines_are_numbered(raw: Seq<char>)
    ensures
        parsed_diff(raw) matches Ok(diff) ==> forall|h: int|
            0 <= h < diff.hunks.len() ==> numbered(#[trigger] diff.hunks[h]),
{
    lemma_run_numbered(start_state(), lines_of(raw));
}

proof fn lemma_run_placeholders(st: ParserModel, lines: Seq<Seq<char>>)
    ensures
        run_lines(st, lines) matches Ok(diff) ==> diff.kind is Text || diff.hunks.len() == 0,
    decreases lines.len(),
{
    if lines.len() > 0 {
        if let StepModel::Next { state } = line_step(st, lines[0]) {
            lemma_run_placeholders(state, lines.drop_first());
        }
    }
}

/// What is read as binary is a placeholder: it has no hunks.
pub proof fn parsed_placeholders_have_no_hunks(raw: Seq<char>)
    ensures
        parsed_diff(raw) matches Ok(diff) ==> diff.kind is Text || diff.hunks.len() == 0,
{
    lemma_run_placeholders(start_state(), lines_of(raw));
}

proof fn lemma_prefix_within_is_prefix(s: Seq<char>, limit: nat)
    ensures
        prefix_within(s, limit).is_prefix_of(s),
    decreases s.len(),
{
    if s.len() > 0 && byte_len(s) > limit {
        lemma_prefix_within_is_prefix(s.drop_last(), limit);
    }
}

proof fn lemma_capped_line_plain(content: Seq<char>)
    requires
        !content.contains('\n'),
    ensures
        !capped_line(content).contains('\n'),
{
    if byte_len(content) > MAX_LINE_BYTES {
        let head = prefix_within(content, MAX_LINE_BYTES as nat);
        lemma_prefix_within_is_prefix(content, MAX_LINE_BYTES as nat);
        reveal_strlit(" [line truncated]");
        let all = head + TRUNCATION_MARKER@;
        assert forall|i: int| 0 <= i < all.len() implies all[i] != '\n' by {
            if i < head.len() {
                assert(head[i] == content[i]);
            } else {
                assert(all[i] == TRUNCATION_MARKER@[i - head.len()]);
            }
        }
    }
}

proof fn lemma_add_line_plain(st: ParserModel, kind: LineKind, content: Seq<char>)
    requires
        st.hunks.len() > 0,
        newline_free(st.hunks),
        !content.contains('\n'),
    ensures
        newline_free(add_line(st, kind, content).hunks),
{
    let after = add_line(st, kind, content).hunks;
    assert forall|h: int, k: int|
        #![trigger after[h].lines[k]]
        0 <= h < after.len() && 0 <= k
            < after[h].lines.len() implies !after[h].lines[k].content.contains('\n') by {
        if h < st.hunks.len() - 1 {
            assert(after[h].lines[k] == st.hunks[h].lines[k]);
        } else if k < st.hunks[h].lines.len() {
            assert(after[h].lines[k] == st.hunks[h].lines[k]);
        }
    }
}

proof fn lemma_step_plain(st: ParserModel, line: Seq<char>)
    requires
        newline_free(st.hunks),
        !line.contains('\n'),
    ensures
        line_step(st, line) matches StepModel::Next { state } ==> newline_free(state.hunks),
{
    if let StepModel::Next { state } = line_step(st, line) {
        match read_header(line) {
            HeaderModel::Header { .. } => {
                assert forall|h: int, k: int|
                    #![trigger state.hunks[h].lines[k]]
                    0 <= h < state.hunks.len() && 0 <= k < state.hunks[h].lines.len()
                        implies !state.hunks[h].lines[k].content.contains('\n') by {
                    assert(state.hunks[h].lines[k] == st.hunks[h].lines[k]);
                }
            },
            _ => {
                if st.hunks.len() > 0 {
                    lemma_capped_line_plain(line);
                    lemma_add_line_plain(st, LineKind::Context, line);
                    lemma_add_line_plain(st, LineKind::Context, capped_line(line));
                    if line.len() > 0 {
                        let rest = line.skip(1);
                        assert(!rest.contains('\n')) by {
                            if rest.contains('\n') {
                                let k = choose|k: int| 0 <= k < rest.len() && rest[k] == '\n';
                                assert(line[k + 1] == '\n');
                            }
                        }
                        lemma_capped_line_plain(rest);
                        lemma_add_line_plain(st, LineKind::Add, capped_line(rest));
                        lemma_add_line_plain(st, LineKind::Remove, capped_line(rest));
                        lemma_add_line_plain(st, LineKind::Context, capped_line(rest));
                    }
                }
            },
        }
    }
}

proof fn lemma_run_plain(st: ParserModel, lines: Seq<Seq<char>>)
    requires
        newline_free(st.hunks),
        forall|i: int| 0 <= i < lines.len() ==> !(#[trigger] lines[i]).contains('\n'),
    ensures
        run_lines(st, lines) matches Ok(diff) ==> newline_free(diff.hunks),
    decreases lines.len(),
{
    if lines.len() > 0 {
        assert(!lines[0].contains('\n'));
        lemma_step_plain(st, lines[0]);
        if let StepModel::Next { state } = line_step(st, lines[0]) {
            let rest = lines.drop_first();
            assert forall|i: int| 0 <= i < rest.len() implies !(#[trigger] rest[i]).contains(
                '\n',
            ) by {
                assert(rest[i] == lines[i + 1]);
            }
            lemma_run_plain(state, rest);
        }
    }
}

/// No line of a parsed diff holds a newline.
pub proof fn parsed_lines_hold_no_newline(raw: Seq<char>)
    ensures
        parsed_diff(raw) matches Ok(diff) ==> newline_free(diff.hunks),
{
    let lines = lines_of(raw);
    lemma_pieces_lack_separator(raw, '\n');
    assert forall|i: int| 0 <= i < lines.len() implies !(#[trigger] lines[i]).contains('\n') by {
        assert(lines[i] == split_on(raw, '\n')[i]);
    }
    lemma_run_plain(start_state(), lines);
}

} // verus!
