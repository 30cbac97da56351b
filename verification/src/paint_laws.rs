//! Where highlighting goes: which bytes get which style, which text is
//! highlighted for a side, and which rows get the result.

use vstd::prelude::*;

use crate::content_laws::file_text;
use crate::highlight::{
    alias_of, extension_of, file_name_of, highlights, hunks_size, last_dot, lines_size, lower,
    named_in, painted, pieces_bytes, pseudo_file, same_but_case, spans_of, styled_line, with_lines,
    with_piece, without_newline, HighlightModel, HlSpan, PieceModel, PseudoModel, ThemeChoice,
};
use crate::model::{
    changes_of_kind, lines_of_kind, DiffLineModel, FileDiffKindModel, FileDiffModel, FileEntryModel,
    HunkModel, LineKind,
};
use crate::row_laws::{side_lines, side_lines_of, SeenModel};
use crate::rows::{diff_rows, BuildOptions, CellKind, CellModel, RowModel};
use crate::text::{byte_len, lemma_byte_len_concat};
use crate::view::{file_view, painted_row, view_rows, ViewOptions};

verus! {

// --------------------------------------------------------------------- spans

/// The text of a piece, a newline at its end aside.
pub open spec fn shown_text(piece: PieceModel) -> Seq<char> {
    if piece.text.len() > 0 && piece.text.last() == '\n' {
        piece.text.take(piece.text.len() - 1)
    } else {
        piece.text
    }
}

/// Where piece `k` starts, in bytes.
pub open spec fn piece_start(pieces: Seq<PieceModel>, k: int) -> nat
    decreases k,
{
    if k <= 0 {
        0
    } else {
        piece_start(pieces, k - 1) + byte_len(shown_text(pieces[k - 1]))
    }
}

/// Whether a byte of a line is in piece `k`.
pub open spec fn is_in_piece(pieces: Seq<PieceModel>, k: int, byte: int) -> bool {
    piece_start(pieces, k) <= byte < piece_start(pieces, k) + byte_len(shown_text(pieces[k]))
}

/// Whether a byte is in a span, and the span has the style of a piece.
pub open spec fn is_styled(span: HlSpan, piece: PieceModel, byte: int) -> bool {
    &&& span.start <= byte < span.end
    &&& span.fg == Some(piece.fg)
    &&& span.bold == piece.bold
    &&& span.italic == piece.italic
}

/// Every byte of a line gets the style of the piece that it is in, and no
/// byte gets another.
pub proof fn bytes_get_the_style_of_their_piece(pieces: Seq<PieceModel>)
    requires
        piece_start(pieces, pieces.len() as int) <= u32::MAX,
    ensures
        forall|k: int, byte: int| #[trigger]
            is_in_piece(pieces, k, byte) && 0 <= k < pieces.len() ==> exists|s: int|
                0 <= s < spans_of(pieces).len() && is_styled(
                    #[trigger] spans_of(pieces)[s],
                    pieces[k],
                    byte,
                ),
        forall|s: int, byte: int|
            #![trigger is_byte_of(spans_of(pieces)[s], byte)]
            0 <= s < spans_of(pieces).len() && is_byte_of(spans_of(pieces)[s], byte) ==> exists|
                k: int,
            |
                0 <= k < pieces.len() && #[trigger] is_in_piece(pieces, k, byte) && is_styled(
                    spans_of(pieces)[s],
                    pieces[k],
                    byte,
                ),
{
    lemma_spans(pieces, pieces.len() as int);
    assert(pieces.take(pieces.len() as int) =~= pieces);
}

/// Whether a byte is in a span.
pub open spec fn is_byte_of(span: HlSpan, byte: int) -> bool {
    span.start <= byte < span.end
}

proof fn lemma_bytes(pieces: Seq<PieceModel>, n: int)
    requires
        0 <= n <= pieces.len(),
    ensures
        pieces_bytes(pieces.take(n)) == piece_start(pieces, n),
    decreases n,
{
    if n > 0 {
        lemma_bytes(pieces, n - 1);
        assert(pieces.take(n).drop_last() =~= pieces.take(n - 1));
        lemma_shown(pieces[n - 1]);
    }
}

proof fn lemma_shown(piece: PieceModel)
    ensures
        shown_text(piece) == without_newline(piece.text),
{
    if piece.text.len() > 0 {
        assert(piece.text.take(piece.text.len() - 1) =~= piece.text.drop_last());
    }
}

proof fn lemma_starts_grow(pieces: Seq<PieceModel>, a: int, b: int)
    requires
        a <= b,
    ensures
        piece_start(pieces, a) <= piece_start(pieces, b),
    decreases b - a,
{
    if a < b {
        lemma_starts_grow(pieces, a, b - 1);
    }
}

proof fn lemma_spans(pieces: Seq<PieceModel>, n: int)
    requires
        0 <= n <= pieces.len(),
        piece_start(pieces, n) <= u32::MAX,
    ensures
        ({
            let spans = spans_of(pieces.take(n));
            &&& forall|s: int| 0 <= s < spans.len() ==> (#[trigger] spans[s]).start <= spans[s].end
            &&& forall|k: int, byte: int| #[trigger]
                is_in_piece(pieces, k, byte) && 0 <= k < n ==> exists|s: int|
                    0 <= s < spans.len() && is_styled(#[trigger] spans[s], pieces[k], byte)
            &&& forall|s: int, byte: int|
                #![trigger is_byte_of(spans[s], byte)]
                0 <= s < spans.len() && is_byte_of(spans[s], byte) ==> exists|k: int|
                    0 <= k < n && #[trigger] is_in_piece(pieces, k, byte) && is_styled(
                        spans[s],
                        pieces[k],
                        byte,
                    )
        }),
    decreases n,
{
    if n > 0 {
        lemma_starts_grow(pieces, n - 1, n);
        lemma_spans(pieces, n - 1);
        lemma_bytes(pieces, n - 1);
        lemma_shown(pieces[n - 1]);
        let front = pieces.take(n - 1);
        let piece = pieces[n - 1];
        assert(pieces.take(n).drop_last() =~= front);
        assert(pieces.take(n).last() == piece);
        let before = spans_of(front);
        let spans = spans_of(pieces.take(n));
        let offset = piece_start(pieces, n - 1);
        let len = byte_len(shown_text(piece));
        assert(spans == with_piece(before, piece, offset));
        assert forall|k: int, byte: int| #[trigger]
            is_in_piece(pieces, k, byte) && 0 <= k < n implies exists|s: int|
                0 <= s < spans.len() && is_styled(#[trigger] spans[s], pieces[k], byte) by {
            if k < n - 1 {
                let s = choose|s: int|
                    0 <= s < before.len() && is_styled(#[trigger] before[s], pieces[k], byte);
                assert(is_styled(spans[s], pieces[k], byte));
            } else {
                assert(is_styled(spans[spans.len() - 1], piece, byte));
            }
        }
        assert forall|s: int, byte: int|
            #![trigger is_byte_of(spans[s], byte)]
            0 <= s < spans.len() && is_byte_of(spans[s], byte) implies exists|k: int|
                0 <= k < n && #[trigger] is_in_piece(pieces, k, byte) && is_styled(
                    spans[s],
                    pieces[k],
                    byte,
                ) by {
            if s < before.len() && is_byte_of(before[s], byte) {
                let k = choose|k: int|
                    0 <= k < n - 1 && #[trigger] is_in_piece(pieces, k, byte) && is_styled(
                        before[s],
                        pieces[k],
                        byte,
                    );
                assert(is_in_piece(pieces, k, byte) && is_styled(spans[s], pieces[k], byte));
            } else {
                assert(is_in_piece(pieces, n - 1, byte) && is_styled(spans[s], piece, byte));
            }
        }
    }
}

// ---------------------------------------------------------------- extensions

/// Whether a text lacks a character.
pub open spec fn is_without(s: Seq<char>, c: char) -> bool {
    forall|k: int| 0 <= k < s.len() ==> #[trigger] s[k] != c
}

/// The extension of a path is what stands behind the last dot of its name,
/// wherever the file stands; a name with no dot, or with none but at its
/// start, stands for itself.
pub proof fn extensions_stand_behind_the_last_dot(
    dir: Seq<char>,
    stem: Seq<char>,
    ext: Seq<char>,
)
    requires
        dir.len() > 0 ==> dir.last() == '/',
        stem.len() > 0,
        is_without(stem, '/'),
        is_without(ext, '/'),
        is_without(ext, '.'),
    ensures
        extension_of(dir + stem + seq!['.'] + ext) == ext,
        extension_of(dir + ext) == ext,
        extension_of(dir + seq!['.'] + ext) == seq!['.'] + ext,
{
    let name = stem + seq!['.'] + ext;
    let path = dir + stem + seq!['.'] + ext;
    assert(path =~= dir + name);
    assert(is_without(name, '/')) by {
        assert forall|k: int| 0 <= k < name.len() implies #[trigger] name[k] != '/' by {
            if k < stem.len() {
                assert(name[k] == stem[k]);
            } else if k > stem.len() {
                assert(name[k] == ext[k - stem.len() - 1]);
            }
        }
    }
    lemma_name(dir, name);
    lemma_dot(stem, ext);
    assert(name.skip(stem.len() as int + 1) =~= ext);
    lemma_name(dir, ext);
    lemma_no_dot(ext);
    let hidden = seq!['.'] + ext;
    assert(is_without(hidden, '/')) by {
        assert forall|k: int| 0 <= k < hidden.len() implies #[trigger] hidden[k] != '/' by {
            if k > 0 {
                assert(hidden[k] == ext[k - 1]);
            }
        }
    }
    assert(dir + seq!['.'] + ext =~= dir + hidden);
    lemma_name(dir, hidden);
    let none = Seq::<char>::empty();
    assert(none + seq!['.'] + ext =~= hidden);
    lemma_dot(none, ext);
}

proof fn lemma_name(dir: Seq<char>, name: Seq<char>)
    requires
        dir.len() > 0 ==> dir.last() == '/',
        is_without(name, '/'),
    ensures
        file_name_of(dir + name) == name,
    decreases name.len(),
{
    let path = dir + name;
    if name.len() == 0 {
        assert(path =~= dir);
        assert(file_name_of(path) =~= name);
    } else {
        let front = name.drop_last();
        assert forall|k: int| 0 <= k < front.len() implies #[trigger] front[k] != '/' by {
            assert(name[k] != '/');
        }
        lemma_name(dir, front);
        assert(name[name.len() - 1] != '/');
        assert(path.drop_last() =~= dir + front);
        assert(front.push(name.last()) =~= name);
    }
}

proof fn lemma_dot(stem: Seq<char>, ext: Seq<char>)
    requires
        is_without(ext, '.'),
    ensures
        last_dot(stem + seq!['.'] + ext) == stem.len(),
    decreases ext.len(),
{
    let name = stem + seq!['.'] + ext;
    if ext.len() > 0 {
        let front = ext.drop_last();
        assert forall|k: int| 0 <= k < front.len() implies #[trigger] front[k] != '.' by {
            assert(ext[k] != '.');
        }
        lemma_dot(stem, front);
        assert(ext[ext.len() - 1] != '.');
        assert(name.drop_last() =~= stem + seq!['.'] + front);
    }
}

proof fn lemma_no_dot(name: Seq<char>)
    requires
        is_without(name, '.'),
    ensures
        last_dot(name) == -1,
    decreases name.len(),
{
    if name.len() > 0 {
        let front = name.drop_last();
        assert forall|k: int| 0 <= k < front.len() implies #[trigger] front[k] != '.' by {
            assert(name[k] != '.');
        }
        lemma_no_dot(front);
        assert(name[name.len() - 1] != '.');
    }
}

// --------------------------------------------------------------- pseudo files

/// The texts of lines as they are seen.
pub open spec fn seen_texts(lines: Seq<SeenModel>) -> Seq<Seq<char>> {
    Seq::new(lines.len(), |k: int| lines[k].text)
}

/// What is highlighted for a side is the lines of the side, in order, and
/// each is known by its number there.
pub proof fn sides_are_highlighted_whole(hunks: Seq<HunkModel>, old: bool, n: int)
    requires
        0 <= n <= hunks.len(),
    ensures
        ({
            let file = pseudo_file(hunks, n, old);
            let lines = side_lines_of(hunks, n, old);
            &&& file.text == file_text(seen_texts(lines), false, lines.len() as int)
            &&& file.nums.len() == lines.len()
            &&& forall|k: int| 0 <= k < lines.len() ==> #[trigger] file.nums[k] == lines[k].number
        }),
    decreases n,
{
    if n > 0 {
        sides_are_highlighted_whole(hunks, old, n - 1);
        lemma_with_lines(
            pseudo_file(hunks, n - 1, old),
            side_lines_of(hunks, n - 1, old),
            hunks[n - 1].lines,
            old,
        );
    }
}

proof fn lemma_with_lines(
    file: PseudoModel,
    before: Seq<SeenModel>,
    lines: Seq<DiffLineModel>,
    old: bool,
)
    requires
        file.text == file_text(seen_texts(before), false, before.len() as int),
        file.nums.len() == before.len(),
        forall|k: int| 0 <= k < before.len() ==> #[trigger] file.nums[k] == before[k].number,
    ensures
        ({
            let after = with_lines(file, lines, old);
            let all = before + side_lines(lines, old);
            &&& after.text == file_text(seen_texts(all), false, all.len() as int)
            &&& after.nums.len() == all.len()
            &&& forall|k: int| 0 <= k < all.len() ==> #[trigger] after.nums[k] == all[k].number
        }),
    decreases lines.len(),
{
    if lines.len() == 0 {
        assert(before + side_lines(lines, old) =~= before);
    } else {
        let front = lines.drop_last();
        lemma_with_lines(file, before, front, old);
        let mid = before + side_lines(front, old);
        let all = before + side_lines(lines, old);
        if all.len() > mid.len() {
            let last = all.last();
            assert(all =~= mid.push(last));
            lemma_text_prefix(seen_texts(all), seen_texts(mid), mid.len() as int);
            let after = with_lines(file, lines, old);
            assert(file_text(seen_texts(all), false, all.len() as int) =~= file_text(
                seen_texts(mid),
                false,
                mid.len() as int,
            ) + last.text.push('\n'));
        } else {
            assert(all =~= mid);
        }
    }
}

proof fn lemma_text_prefix(a: Seq<Seq<char>>, b: Seq<Seq<char>>, n: int)
    requires
        0 <= n <= a.len(),
        n <= b.len(),
        forall|k: int| 0 <= k < n ==> a[k] == b[k],
    ensures
        file_text(a, false, n) == file_text(b, false, n),
    decreases n,
{
    if n > 0 {
        lemma_text_prefix(a, b, n - 1);
    }
}

/// The size that decides whether a diff is highlighted is that of the texts
/// of its two sides.
pub proof fn sizes_are_those_of_both_sides(hunks: Seq<HunkModel>, n: int)
    requires
        0 <= n <= hunks.len(),
    ensures
        hunks_size(hunks, n) == byte_len(pseudo_file(hunks, n, true).text) + byte_len(
            pseudo_file(hunks, n, false).text,
        ),
    decreases n,
{
    if n > 0 {
        sizes_are_those_of_both_sides(hunks, n - 1);
        lemma_sizes(
            pseudo_file(hunks, n - 1, true),
            pseudo_file(hunks, n - 1, false),
            hunks[n - 1].lines,
        );
    }
}

proof fn lemma_sizes(old: PseudoModel, new: PseudoModel, lines: Seq<DiffLineModel>)
    ensures
        byte_len(with_lines(old, lines, true).text) + byte_len(with_lines(new, lines, false).text)
            == byte_len(old.text) + byte_len(new.text) + lines_size(lines),
    decreases lines.len(),
{
    if lines.len() > 0 {
        let front = lines.drop_last();
        lemma_sizes(old, new, front);
        let line = lines.last().content.push('\n');
        assert(line.drop_last() =~= lines.last().content);
        lemma_byte_len_concat(with_lines(old, front, true).text, line);
        lemma_byte_len_concat(with_lines(new, front, false).text, line);
    }
}

/// What is no text, or takes more than half a mebibyte on its two sides, is
/// not highlighted.
pub proof fn large_diffs_are_left_plain(path: Seq<char>, diff: FileDiffModel, theme: ThemeChoice)
    requires
        !(diff.kind is Text) || byte_len(
            pseudo_file(diff.hunks, diff.hunks.len() as int, true).text,
        ) + byte_len(pseudo_file(diff.hunks, diff.hunks.len() as int, false).text) > 524_288,
    ensures
        forall|line: u32|
            !(#[trigger] highlights(path, diff, theme).old.contains_key(line)) && !highlights(
                path,
                diff,
                theme,
            ).new.contains_key(line),
{
    sizes_are_those_of_both_sides(diff.hunks, diff.hunks.len() as int);
}

/// Whether a line is short enough to be highlighted.
pub open spec fn is_short(line: Seq<char>) -> bool {
    byte_len(line.push('\n')) <= 2000
}

/// The short ones among the first `n` lines, each with its newline.
pub open spec fn short_lines(lines: Seq<Seq<char>>, n: int) -> Seq<Seq<char>>
    decreases n,
{
    if n <= 0 {
        Seq::empty()
    } else if is_short(lines[n - 1]) {
        short_lines(lines, n - 1).push(lines[n - 1].push('\n'))
    } else {
        short_lines(lines, n - 1)
    }
}

/// The spans of line `k`: what it is styled as behind the short lines before
/// it. A line that is too long, or cannot be styled, has none.
pub open spec fn line_spans(
    lines: Seq<Seq<char>>,
    syntax: Seq<char>,
    theme: Seq<char>,
    k: int,
) -> Seq<HlSpan> {
    if !is_short(lines[k]) {
        Seq::empty()
    } else {
        match styled_line(syntax, theme, short_lines(lines, k), lines[k].push('\n')) {
            Some(pieces) => spans_of(pieces),
            None => Seq::empty(),
        }
    }
}

/// Lines are styled in turn, and each gets its spans under its own number.
pub proof fn lines_are_styled_in_turn(
    lines: Seq<Seq<char>>,
    nums: Seq<u32>,
    syntax: Seq<char>,
    theme: Seq<char>,
    n: int,
)
    requires
        0 <= n <= lines.len(),
        n <= nums.len(),
        forall|j: int, k: int| 0 <= j < k < n ==> #[trigger] nums[j] != #[trigger] nums[k],
    ensures
        ({
            let spans = painted(lines, nums, syntax, theme, n).spans;
            &&& forall|k: int|
                0 <= k < n ==> if line_spans(lines, syntax, theme, k).len() > 0 {
                    spans.contains_key(#[trigger] nums[k]) && spans[nums[k]] == line_spans(
                        lines,
                        syntax,
                        theme,
                        k,
                    )
                } else {
                    !spans.contains_key(nums[k])
                }
            &&& forall|line: u32| #[trigger]
                spans.contains_key(line) ==> exists|k: int| 0 <= k < n && #[trigger] nums[k] == line
        }),
{
    lemma_painted(lines, nums, syntax, theme, n);
}

proof fn lemma_painted(
    lines: Seq<Seq<char>>,
    nums: Seq<u32>,
    syntax: Seq<char>,
    theme: Seq<char>,
    n: int,
)
    requires
        0 <= n <= lines.len(),
        n <= nums.len(),
        forall|j: int, k: int| 0 <= j < k < n ==> #[trigger] nums[j] != #[trigger] nums[k],
    ensures
        ({
            let done = painted(lines, nums, syntax, theme, n);
            let spans = done.spans;
            &&& done.fed == short_lines(lines, n)
            &&& forall|k: int|
                0 <= k < n ==> if line_spans(lines, syntax, theme, k).len() > 0 {
                    spans.contains_key(#[trigger] nums[k]) && spans[nums[k]] == line_spans(
                        lines,
                        syntax,
                        theme,
                        k,
                    )
                } else {
                    !spans.contains_key(nums[k])
                }
            &&& forall|line: u32| #[trigger]
                spans.contains_key(line) ==> exists|k: int| 0 <= k < n && #[trigger] nums[k] == line
        }),
    decreases n,
{
    if n > 0 {
        lemma_painted(lines, nums, syntax, theme, n - 1);
        let before = painted(lines, nums, syntax, theme, n - 1).spans;
        let spans = painted(lines, nums, syntax, theme, n).spans;
        let own = nums[n - 1];
        assert(!before.contains_key(own)) by {
            if before.contains_key(own) {
                let k = choose|k: int| 0 <= k < n - 1 && #[trigger] nums[k] == own;
                assert(nums[k] != nums[n - 1]);
            }
        }
        assert forall|k: int| 0 <= k < n implies if line_spans(lines, syntax, theme, k).len() > 0 {
            spans.contains_key(#[trigger] nums[k]) && spans[nums[k]] == line_spans(
                lines,
                syntax,
                theme,
                k,
            )
        } else {
            !spans.contains_key(nums[k])
        } by {
            if k < n - 1 {
                assert(nums[k] != nums[n - 1]);
            }
        }
        assert forall|line: u32| #[trigger] spans.contains_key(line) implies exists|k: int|
            0 <= k < n && #[trigger] nums[k] == line by {
            if before.contains_key(line) {
                let k = choose|k: int| 0 <= k < n - 1 && #[trigger] nums[k] == line;
                assert(nums[k] == line);
            } else {
                assert(nums[n - 1] == line);
            }
        }
    }
}

// ---------------------------------------------------------------------- rows

/// Whether a cell is another with the spans that a map has for a line: those
/// of the line where there are any, and its own otherwise.
pub open spec fn takes_spans(
    after: CellModel,
    cell: CellModel,
    map: Map<u32, Seq<HlSpan>>,
    line: Option<u32>,
) -> bool {
    &&& after.kind == cell.kind
    &&& after.line == cell.line
    &&& after.text == cell.text
    &&& after.word_ranges == cell.word_ranges
    &&& after.hl == if cell.kind != CellKind::Empty && line is Some && map.contains_key(line->0) {
        map[line->0]
    } else {
        cell.hl
    }
}

/// The left of a split row is painted as its line of the old side, the right
/// as its line of the new one. A unified row is painted as the old side has
/// it where its line was removed, and as the new side has it otherwise.
pub proof fn rows_are_painted_by_side(row: RowModel, map: HighlightModel)
    ensures
        row matches RowModel::Split { left, right, .. } ==> (painted_row(
            row,
            map,
        ) matches RowModel::Split { left: l, right: r, .. } && takes_spans(
            l,
            left,
            map.old,
            left.line,
        ) && takes_spans(r, right, map.new, right.line)),
        row matches RowModel::Unified { cell, .. } ==> (painted_row(
            row,
            map,
        ) matches RowModel::Unified { cell: c, .. } && if cell.kind == CellKind::Remove {
            takes_spans(c, cell, map.old, cell.line)
        } else {
            takes_spans(c, cell, map.new, cell.line)
        }),
        row is Gap || row is HunkHeader ==> painted_row(row, map) == row,
{
}

/// How many of the first `n` lines are of a kind.
pub open spec fn lines_like(lines: Seq<DiffLineModel>, kind: LineKind, n: int) -> int
    decreases n,
{
    if n <= 0 {
        0
    } else if lines[n - 1].kind == kind {
        lines_like(lines, kind, n - 1) + 1
    } else {
        lines_like(lines, kind, n - 1)
    }
}

/// How many lines of the first `n` hunks are of a kind.
pub open spec fn all_like(hunks: Seq<HunkModel>, kind: LineKind, n: int) -> int
    decreases n,
{
    if n <= 0 {
        0
    } else {
        all_like(hunks, kind, n - 1) + lines_like(
            hunks[n - 1].lines,
            kind,
            hunks[n - 1].lines.len() as int,
        )
    }
}

/// A view counts the added and the removed lines of its diff.
pub proof fn views_count_their_lines(
    entry: FileEntryModel,
    diff: FileDiffModel,
    opts: ViewOptions,
)
    requires
        !(diff.kind is TooLarge),
        all_like(diff.hunks, LineKind::Add, diff.hunks.len() as int) <= u64::MAX,
        all_like(diff.hunks, LineKind::Remove, diff.hunks.len() as int) <= u64::MAX,
    ensures
        file_view(entry, diff, opts).adds == all_like(
            diff.hunks,
            LineKind::Add,
            diff.hunks.len() as int,
        ),
        file_view(entry, diff, opts).dels == all_like(
            diff.hunks,
            LineKind::Remove,
            diff.hunks.len() as int,
        ),
{
    let n = diff.hunks.len() as int;
    lemma_all_like(diff.hunks, LineKind::Add, n);
    lemma_all_like(diff.hunks, LineKind::Remove, n);
    assert(diff.hunks.take(n) =~= diff.hunks);
}

proof fn lemma_lines_like(lines: Seq<DiffLineModel>, kind: LineKind, n: int)
    requires
        0 <= n <= lines.len(),
    ensures
        lines_of_kind(lines.take(n), kind) == lines_like(lines, kind, n),
    decreases n,
{
    if n > 0 {
        lemma_lines_like(lines, kind, n - 1);
        assert(lines.take(n).drop_last() =~= lines.take(n - 1));
    }
}

proof fn lemma_all_like(hunks: Seq<HunkModel>, kind: LineKind, n: int)
    requires
        0 <= n <= hunks.len(),
    ensures
        changes_of_kind(hunks.take(n), kind) == all_like(hunks, kind, n),
    decreases n,
{
    if n > 0 {
        lemma_all_like(hunks, kind, n - 1);
        assert(hunks.take(n).drop_last() =~= hunks.take(n - 1));
        let lines = hunks[n - 1].lines;
        lemma_lines_like(lines, kind, lines.len() as int);
        assert(lines.take(lines.len() as int) =~= lines);
    }
}

/// A view shows the rows of its diff in the layout that was asked for, with
/// words marked where that was asked for, and says of the file what its
/// entry says.
pub proof fn views_show_their_diff(
    entry: FileEntryModel,
    diff: FileDiffModel,
    opts: ViewOptions,
)
    ensures
        ({
            let view = file_view(entry, diff, opts);
            let rows = diff_rows(
                diff,
                BuildOptions { mode: opts.mode, word_diff: opts.word_diff },
            );
            &&& view.path == entry.path
            &&& view.old_path == entry.old_path
            &&& view.status == entry.status
            &&& view.kind == diff.kind
            &&& view.mode == opts.mode
            &&& view.old_missing_newline == diff.old_missing_newline
            &&& view.new_missing_newline == diff.new_missing_newline
            &&& diff.kind matches FileDiffKindModel::TooLarge { adds, dels } ==> view.adds == adds
                && view.dels == dels
            &&& view.rows.len() == rows.len()
            &&& opts.highlight is None ==> view.rows == rows
            &&& forall|k: int|
                0 <= k < rows.len() ==> (#[trigger] view.rows[k]).key() == rows[k].key()
        }),
{
    assert(view_rows(entry.path, diff, opts).len() == diff_rows(
        diff,
        BuildOptions { mode: opts.mode, word_diff: opts.word_diff },
    ).len());
}

/// The grammar that stands in for an extension does not depend on the case of
/// its letters.
pub proof fn stand_ins_ignore_case(a: Seq<char>, b: Seq<char>)
    requires
        a.len() == b.len(),
        forall|k: int|
            0 <= k < a.len() ==> #[trigger] a[k] == b[k] || ('A' <= a[k] && a[k] <= 'Z' && b[k]
                == (a[k] as u32 + 32) as char),
    ensures
        alias_of(a) == alias_of(b),
{
    assert forall|k: int| 0 <= k < a.len() implies lower(#[trigger] a[k]) == lower(b[k]) by {
        if a[k] != b[k] {
            assert(lower(a[k]) == b[k]);
            assert(b[k] > 'Z');
        }
    }
    assert forall|list: Seq<Seq<char>>| #[trigger] named_in(list, a) == named_in(list, b) by {
        if named_in(list, a) {
            let i = choose|i: int| 0 <= i < list.len() && same_but_case(#[trigger] list[i], a);
            assert(same_but_case(list[i], b)) by {
                assert forall|k: int| 0 <= k < b.len() implies lower(#[trigger] list[i][k])
                    == lower(b[k]) by {
                    assert(lower(list[i][k]) == lower(a[k]));
                }
            }
        }
        if named_in(list, b) {
            let i = choose|i: int| 0 <= i < list.len() && same_but_case(#[trigger] list[i], b);
            assert(same_but_case(list[i], a)) by {
                assert forall|k: int| 0 <= k < a.len() implies lower(#[trigger] list[i][k])
                    == lower(a[k]) by {
                    assert(lower(list[i][k]) == lower(b[k]));
                }
            }
        }
    }
}

} // verus!
