//! What is read of a file's content: its lines by number, and the object that
//! git keeps it in.

use vstd::prelude::*;
use vstd::utf8::*;

use crate::git_output::{non_empty, nul_fields, white_pieces, word_from, words_of};
use crate::git_source::{lines_between, oid_field, parsed_raw, RawDiffModel};
use crate::listing_laws::{fields_read_back, lacks, lemma_byte_index, terminated};
use crate::model::FileDiffKindModel;
use crate::parser::parsed_diff;
use crate::rows::{gap_lines, GapModel};
use crate::source::EndpointModel;
use crate::text::{lemma_split_on_nonempty, lines_of, split_on, white_space, without_cr};

verus! {

// --------------------------------------------------------------------- lines

/// Whether a text is one line: without a newline, and without a carriage
/// return at its end.
pub open spec fn is_one_line(line: Seq<char>) -> bool {
    &&& forall|k: int| 0 <= k < line.len() ==> #[trigger] line[k] != '\n'
    &&& line.len() > 0 ==> line.last() != '\r'
}

/// The end of a line as a file has it.
pub open spec fn line_end(crlf: bool) -> Seq<char> {
    if crlf {
        seq!['\r', '\n']
    } else {
        seq!['\n']
    }
}

/// The first `n` lines as a file has them, each with its end.
pub open spec fn file_text(lines: Seq<Seq<char>>, crlf: bool, n: int) -> Seq<char>
    decreases n,
{
    if n <= 0 {
        Seq::empty()
    } else {
        file_text(lines, crlf, n - 1) + lines[n - 1] + line_end(crlf)
    }
}

/// The lines from one number up to another, as far as there are any.
pub open spec fn numbered_lines(lines: Seq<Seq<char>>, first: int, last: int) -> Seq<Seq<char>> {
    let from = if first <= 1 {
        0
    } else {
        first - 1
    };
    let to = if last <= lines.len() {
        last
    } else {
        lines.len() as int
    };
    if from < to {
        lines.subrange(from, to)
    } else {
        Seq::empty()
    }
}

/// Lines are read by their number, counted from one, whichever way the file
/// ends its lines. A gap that is opened gets the lines of its range.
pub proof fn lines_are_read_by_number(
    lines: Seq<Seq<char>>,
    crlf: bool,
    first: u32,
    last: u32,
    gap: GapModel,
)
    requires
        forall|i: int| 0 <= i < lines.len() ==> is_one_line(#[trigger] lines[i]),
    ensures
        ({
            let content = file_text(lines, crlf, lines.len() as int);
            &&& lines_between(content, first, last) == numbered_lines(
                lines,
                first as int,
                last as int,
            )
            &&& lines.len() > 0 ==> gap_lines(gap, content) == numbered_lines(
                lines,
                gap.new_range.0 as int,
                gap.new_range.1 as int,
            )
        }),
{
    let n = lines.len() as int;
    let content = file_text(lines, crlf, n);
    if n == 0 {
        assert(lines_between(content, first, last) =~= numbered_lines(
            lines,
            first as int,
            last as int,
        ));
    } else {
        lemma_lines(lines, crlf, n);
        assert(content.last() == '\n');
        let all = lines_of(content);
        assert(all =~= split_on(content, '\n').drop_last());
        assert(all.len() == n);
        assert forall|i: int| 0 <= i < n implies without_cr(#[trigger] all[i]) == lines[i] by {
            assert(all[i] == split_on(content, '\n')[i]);
            assert(is_one_line(lines[i]));
            if crlf {
                assert(all[i] == lines[i].push('\r'));
                assert(all[i].drop_last() =~= lines[i]);
            }
        }
        assert(lines_between(content, first, last) =~= numbered_lines(
            lines,
            first as int,
            last as int,
        ));
        assert(gap_lines(gap, content) =~= numbered_lines(
            lines,
            gap.new_range.0 as int,
            gap.new_range.1 as int,
        ));
    }
}

proof fn lemma_more_text(s: Seq<char>, piece: Seq<char>)
    requires
        forall|k: int| 0 <= k < piece.len() ==> #[trigger] piece[k] != '\n',
    ensures
        split_on(s + piece, '\n') == split_on(s, '\n').drop_last().push(
            split_on(s, '\n').last() + piece,
        ),
    decreases piece.len(),
{
    lemma_split_on_nonempty(s, '\n');
    let before = split_on(s, '\n');
    if piece.len() == 0 {
        assert(s + piece =~= s);
        assert(before.last() + piece =~= before.last());
        assert(before.drop_last().push(before.last()) =~= before);
    } else {
        let front = piece.drop_last();
        assert forall|k: int| 0 <= k < front.len() implies #[trigger] front[k] != '\n' by {
            assert(piece[k] != '\n');
        }
        lemma_more_text(s, front);
        assert(piece[piece.len() - 1] != '\n');
        assert((s + piece).drop_last() =~= s + front);
        let mid = before.drop_last().push(before.last() + front);
        assert(mid.drop_last() =~= before.drop_last());
        assert((before.last() + front).push(piece.last()) =~= before.last() + piece);
    }
}

proof fn lemma_lines(lines: Seq<Seq<char>>, crlf: bool, n: int)
    requires
        0 <= n <= lines.len(),
        forall|i: int| 0 <= i < lines.len() ==> is_one_line(#[trigger] lines[i]),
    ensures
        ({
            let parts = split_on(file_text(lines, crlf, n), '\n');
            &&& parts.len() == n + 1
            &&& parts[n].len() == 0
            &&& forall|i: int|
                0 <= i < n ==> #[trigger] parts[i] == if crlf {
                    lines[i].push('\r')
                } else {
                    lines[i]
                }
        }),
    decreases n,
{
    if n > 0 {
        lemma_lines(lines, crlf, n - 1);
        let before = file_text(lines, crlf, n - 1);
        let line = if crlf {
            lines[n - 1].push('\r')
        } else {
            lines[n - 1]
        };
        let all = file_text(lines, crlf, n);
        assert(is_one_line(lines[n - 1]));
        assert(all =~= (before + line).push('\n'));
        lemma_more_text(before, line);
        assert(all.drop_last() =~= before + line);
        let parts = split_on(before + line, '\n');
        assert(split_on(before, '\n').last() + line =~= line);
        assert(split_on(all, '\n') =~= parts.push(Seq::empty()));
    }
}

// ------------------------------------------------------------------- objects

/// Whether a text is one word.
pub open spec fn is_word(s: Seq<char>) -> bool {
    s.len() > 0 && forall|k: int| 0 <= k < s.len() ==> !white_space(#[trigger] s[k]) && '\0' < s[k]
        <= '\u{7f}'
}

/// An entry as git lists it: the words before a tab and the path behind it.
pub open spec fn entry_record(words: Seq<char>, path: Seq<u8>) -> Seq<u8> {
    encode_utf8(words) + seq![9u8] + path
}

/// The object of a path is the word behind the mode and the type in a tree,
/// and the one behind the mode in the index.
pub proof fn objects_are_read_from_entries(
    mode: Seq<char>,
    kind: Seq<char>,
    oid: Seq<char>,
    stage: Seq<char>,
    path: Seq<u8>,
    commit: Seq<char>,
)
    requires
        is_word(mode),
        is_word(kind),
        is_word(oid),
        is_word(stage),
        lacks(path, 0),
    ensures
        word_from(
            nul_fields(
                terminated(
                    seq![entry_record(mode + seq![' '] + kind + seq![' '] + oid, path)],
                ),
            ),
            oid_field(EndpointModel::Commit { oid: commit }),
            0,
        ) == Some(oid),
        word_from(
            nul_fields(
                terminated(
                    seq![entry_record(mode + seq![' '] + oid + seq![' '] + stage, path)],
                ),
            ),
            oid_field(EndpointModel::Index),
            0,
        ) == Some(oid),
{
    lemma_word_of(mode, kind, oid, path, 2);
    lemma_word_of(mode, oid, stage, path, 1);
}

proof fn lemma_word_of(a: Seq<char>, b: Seq<char>, c: Seq<char>, path: Seq<u8>, index: int)
    requires
        is_word(a),
        is_word(b),
        is_word(c),
        lacks(path, 0),
        0 <= index < 3,
    ensures
        word_from(
            nul_fields(terminated(seq![entry_record(a + seq![' '] + b + seq![' '] + c, path)])),
            index,
            0,
        ) == Some(seq![a, b, c][index]),
{
    let words = a + seq![' '] + b + seq![' '] + c;
    let meta = encode_utf8(words);
    let record = entry_record(words, path);
    let fields = seq![record];
    assert forall|i: int| 0 <= i < words.len() implies '\0' < #[trigger] words[i] <= '\u{7f}'
        && words[i] != '\t' by {
        lemma_char_of(a, b, c, i);
    }
    assert(is_ascii_chars(words));
    is_ascii_chars_encode_utf8(words);
    encode_utf8_valid_utf8(words);
    encode_utf8_decode_utf8(words);
    assert forall|i: int| 0 <= i < meta.len() implies #[trigger] meta[i] != 0 && meta[i] != 9 by {
        assert(meta[i] == words[i] as u8);
    }
    assert(lacks(record, 0)) by {
        assert forall|i: int| 0 <= i < record.len() implies #[trigger] record[i] != 0 by {
            if i < meta.len() {
                assert(record[i] == meta[i]);
            } else if i > meta.len() {
                assert(record[i] == path[i - meta.len() - 1]);
            }
        }
    }
    fields_read_back(fields);
    assert forall|k: int| 0 <= k < meta.len() implies #[trigger] record[k] != 9 by {
        assert(record[k] == meta[k]);
    }
    lemma_byte_index(record, 9, 0, meta.len() as int);
    assert(record.take(meta.len() as int) =~= meta);
    lemma_words(a, b, c);
}

proof fn lemma_char_of(a: Seq<char>, b: Seq<char>, c: Seq<char>, i: int)
    requires
        is_word(a),
        is_word(b),
        is_word(c),
        0 <= i < a.len() + b.len() + c.len() + 2,
    ensures
        ({
            let ch = (a + seq![' '] + b + seq![' '] + c)[i];
            '\0' < ch <= '\u{7f}' && ch != '\t'
        }),
{
    let words = a + seq![' '] + b + seq![' '] + c;
    assert(white_space('\t'));
    if i < a.len() {
        assert(words[i] == a[i]);
    } else if i == a.len() {
        assert(words[i] == ' ');
    } else if i < a.len() + 1 + b.len() {
        assert(words[i] == b[i - a.len() - 1]);
    } else if i == a.len() + 1 + b.len() {
        assert(words[i] == ' ');
    } else {
        assert(words[i] == c[i - a.len() - b.len() - 2]);
    }
}

proof fn lemma_white_nonempty(s: Seq<char>)
    ensures
        white_pieces(s).len() >= 1,
    decreases s.len(),
{
    if s.len() > 0 {
        lemma_white_nonempty(s.drop_last());
    }
}

proof fn lemma_more_word(s: Seq<char>, word: Seq<char>)
    requires
        forall|k: int| 0 <= k < word.len() ==> !white_space(#[trigger] word[k]),
    ensures
        white_pieces(s + word) == white_pieces(s).drop_last().push(
            white_pieces(s).last() + word,
        ),
    decreases word.len(),
{
    lemma_white_nonempty(s);
    let before = white_pieces(s);
    if word.len() == 0 {
        assert(s + word =~= s);
        assert(before.last() + word =~= before.last());
        assert(before.drop_last().push(before.last()) =~= before);
    } else {
        let front = word.drop_last();
        assert forall|k: int| 0 <= k < front.len() implies !white_space(#[trigger] front[k]) by {
            assert(!white_space(word[k]));
        }
        lemma_more_word(s, front);
        assert(!white_space(word[word.len() - 1]));
        assert((s + word).drop_last() =~= s + front);
        let mid = before.drop_last().push(before.last() + front);
        assert(mid.drop_last() =~= before.drop_last());
        assert((before.last() + front).push(word.last()) =~= before.last() + word);
    }
}

proof fn lemma_words(a: Seq<char>, b: Seq<char>, c: Seq<char>)
    requires
        is_word(a),
        is_word(b),
        is_word(c),
    ensures
        words_of(a + seq![' '] + b + seq![' '] + c) == seq![a, b, c],
{
    let none = Seq::<char>::empty();
    let s1 = a;
    let s2 = a + seq![' '];
    let s3 = s2 + b;
    let s4 = s3 + seq![' '];
    let s5 = s4 + c;
    assert(white_space(' '));
    lemma_more_word(none, a);
    assert(none + a =~= a);
    assert(white_pieces(s1) =~= seq![a]);
    assert(s2.drop_last() =~= s1);
    assert(white_pieces(s2) =~= seq![a, none]);
    lemma_more_word(s2, b);
    assert(none + b =~= b);
    assert(white_pieces(s3) =~= seq![a, b]);
    assert(s4.drop_last() =~= s3);
    assert(white_pieces(s4) =~= seq![a, b, none]);
    lemma_more_word(s4, c);
    assert(none + c =~= c);
    assert(white_pieces(s5) =~= seq![a, b, c]);
    let pieces = seq![a, b, c];
    reveal_with_fuel(non_empty, 4);
    assert(pieces.drop_last() =~= seq![a, b]);
    assert(seq![a, b].drop_last() =~= seq![a]);
    assert(seq![a].drop_last() =~= Seq::<Seq<char>>::empty());
    assert(non_empty(pieces) =~= pieces);
}

// --------------------------------------------------------------------- diffs

/// What was given up as too large is a placeholder with its counts. What was
/// read is what it parses to; the length of the old file goes with a text
/// that has hunks, and with nothing else.
pub proof fn totals_go_with_hunks(raw: Seq<char>, total: Option<u32>, adds: u64, dels: u64)
    ensures
        parsed_raw(RawDiffModel::TooLarge { adds, dels }) matches Ok(diff) && diff.kind == (
        FileDiffKindModel::TooLarge { adds, dels }) && diff.hunks.len() == 0
            && diff.old_total_lines is None && !diff.old_missing_newline
            && !diff.new_missing_newline,
        parsed_diff(raw) is Ok <==> parsed_raw(
            RawDiffModel::Text { raw, old_total_lines: total },
        ) is Ok,
        parsed_diff(raw) matches Ok(said) ==> {
            let diff = parsed_raw(RawDiffModel::Text { raw, old_total_lines: total })->Ok_0;
            &&& diff.kind == said.kind
            &&& diff.hunks == said.hunks
            &&& diff.old_missing_newline == said.old_missing_newline
            &&& diff.new_missing_newline == said.new_missing_newline
            &&& said.kind is Text && said.hunks.len() > 0 ==> diff.old_total_lines == total
            &&& !(said.kind is Text && said.hunks.len() > 0) ==> diff.old_total_lines
                == said.old_total_lines
        },
{
}

} // verus!
