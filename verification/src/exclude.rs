//! The lines of `.git/info/exclude` that keep review state out of version
//! control.

use vstd::prelude::*;
use vstd::utf8::{encode_utf8, is_ascii_chars_encode_utf8};

use crate::git_output::{byte_pieces, slices, split_bytes};
use crate::text::same_bytes;

verus! {

/// A byte that is ASCII whitespace: space, tab, newline, form feed or carriage
/// return.
pub open spec fn ascii_space(b: u8) -> bool {
    b == 32 || b == 9 || b == 10 || b == 12 || b == 13
}

pub open spec fn trim_start(line: Seq<u8>) -> Seq<u8>
    decreases line.len(),
{
    if line.len() > 0 && ascii_space(line[0]) {
        trim_start(line.skip(1))
    } else {
        line
    }
}

pub open spec fn trim_end(line: Seq<u8>) -> Seq<u8>
    decreases line.len(),
{
    if line.len() > 0 && ascii_space(line.last()) {
        trim_end(line.drop_last())
    } else {
        line
    }
}

/// A line without ASCII whitespace at its ends.
pub open spec fn trimmed_line(line: Seq<u8>) -> Seq<u8> {
    trim_end(trim_start(line))
}

fn is_space(b: u8) -> (r: bool)
    ensures
        r == ascii_space(b),
{
    b == 32 || b == 9 || b == 10 || b == 12 || b == 13
}

/// A line without ASCII whitespace at its ends.
pub fn trim_bytes<'a>(line: &'a [u8]) -> (r: &'a [u8])
    ensures
        r@ == trimmed_line(line@),
{
    let mut start: usize = 0;
    assert(line@.skip(0) =~= line@);
    while start < line.len() && is_space(line[start])
        invariant
            start <= line.len(),
            trim_start(line@) == trim_start(line@.skip(start as int)),
        decreases line.len() - start,
    {
        assert(line@.skip(start as int).skip(1) =~= line@.skip(start + 1));
        start += 1;
    }
    let ghost rest = line@.skip(start as int);
    assert(trim_start(line@) == rest);
    let mut end: usize = line.len();
    assert(line@.subrange(start as int, end as int) =~= rest);
    while end > start && is_space(line[end - 1])
        invariant
            start <= end <= line.len(),
            trim_end(rest) == trim_end(line@.subrange(start as int, end as int)),
        decreases end,
    {
        assert(line@.subrange(start as int, end as int).drop_last() =~= line@.subrange(
            start as int,
            end - 1,
        ));
        end -= 1;
    }
    vstd::slice::slice_subrange(line, start, end)
}

/// The lines that should stand in the file: the review file and its sidecars.
pub open spec fn wanted_lines() -> Seq<Seq<u8>> {
    seq![
        encode_utf8(".ambidiff.json"@),
        encode_utf8(".ambidiff.json.lock"@),
        encode_utf8(".ambidiff.json.guard"@),
        encode_utf8(".ambidiff.json.tmp.*"@),
    ]
}

/// Whether a line stands in a content, whitespace at its ends aside.
pub open spec fn has_line(content: Seq<u8>, line: Seq<u8>) -> bool {
    exists|i: int|
        0 <= i < byte_pieces(content, 10).len() && trimmed_line(
            #[trigger] byte_pieces(content, 10)[i],
        ) == line
}

/// The lines that are missing, in order.
pub open spec fn missing_lines(content: Seq<u8>, lines: Seq<Seq<u8>>) -> Seq<Seq<u8>>
    decreases lines.len(),
{
    if lines.len() == 0 {
        Seq::empty()
    } else if has_line(content, lines.last()) {
        missing_lines(content, lines.drop_last())
    } else {
        missing_lines(content, lines.drop_last()).push(lines.last())
    }
}

/// A content with lines appended.
pub open spec fn with_lines(content: Seq<u8>, lines: Seq<Seq<u8>>) -> Seq<u8>
    decreases lines.len(),
{
    if lines.len() == 0 {
        content
    } else {
        with_lines(content, lines.drop_last()) + lines.last().push(10)
    }
}

/// A content that ends in a newline, or is empty.
pub open spec fn closed_content(content: Seq<u8>) -> Seq<u8> {
    if content.len() > 0 && content.last() != 10 {
        content.push(10)
    } else {
        content
    }
}

/// The content with what is missing appended; `None` where nothing is.
pub open spec fn excluded(content: Seq<u8>) -> Option<Seq<u8>> {
    let missing = missing_lines(content, wanted_lines());
    if missing.len() == 0 {
        None
    } else {
        Some(with_lines(closed_content(content), missing))
    }
}

fn line_stands_in(lines: &Vec<&[u8]>, wanted: &[u8], Ghost(content): Ghost<Seq<u8>>) -> (r: bool)
    requires
        slices(lines@) == byte_pieces(content, 10),
    ensures
        r == has_line(content, wanted@),
{
    let ghost pieces = slices(lines@);
    let mut i: usize = 0;
    while i < lines.len()
        invariant
            i <= lines.len(),
            pieces == slices(lines@),
            pieces == byte_pieces(content, 10),
            forall|k: int| 0 <= k < i ==> trimmed_line(#[trigger] pieces[k]) != wanted@,
        decreases lines.len() - i,
    {
        let line: &[u8] = trim_bytes(lines[i]);
        assert(pieces[i as int] == lines[i as int]@);
        if same_bytes(line, wanted) {
            assert(trimmed_line(byte_pieces(content, 10)[i as int]) == wanted@);
            return true;
        }
        i += 1;
    }
    false
}

fn append(out: &mut Vec<u8>, bytes: &[u8])
    ensures
        final(out)@ == old(out)@ + bytes@,
{
    let ghost start = out@;
    let mut i: usize = 0;
    while i < bytes.len()
        invariant
            i <= bytes.len(),
            out@ == start + bytes@.take(i as int),
        decreases bytes.len() - i,
    {
        out.push(bytes[i]);
        assert(out@ =~= start + bytes@.take(i + 1));
        i += 1;
    }
    assert(bytes@.take(i as int) =~= bytes@);
}

/// The content of an exclude file with the review file and its sidecars in it;
/// `None` where they are all there.
pub fn excluded_content(existing: &[u8]) -> (r: Option<Vec<u8>>)
    ensures
        r.deep_view() == excluded(existing@),
{
    let names: [&str; 4] = [
        ".ambidiff.json",
        ".ambidiff.json.lock",
        ".ambidiff.json.guard",
        ".ambidiff.json.tmp.*",
    ];
    let ghost wanted = wanted_lines();
    assert forall|k: int| 0 <= k < 4 implies encode_utf8(#[trigger] names@[k]@) == wanted[k] by {
    }
    let lines: Vec<&[u8]> = split_bytes(existing, 10);
    let mut out: Vec<u8> = Vec::new();
    append(&mut out, existing);
    if existing.len() > 0 && existing[existing.len() - 1] != 10 {
        out.push(10);
    }
    let ghost base = closed_content(existing@);
    assert(out@ =~= base);
    let mut changed: bool = false;
    let mut i: usize = 0;
    assert(wanted.take(0) =~= Seq::empty());
    while i < 4
        invariant
            i <= 4,
            wanted == wanted_lines(),
            wanted.len() == 4,
            forall|k: int| 0 <= k < 4 ==> encode_utf8(#[trigger] names@[k]@) == wanted[k],
            slices(lines@) == byte_pieces(existing@, 10),
            out@ == with_lines(base, missing_lines(existing@, wanted.take(i as int))),
            changed == (missing_lines(existing@, wanted.take(i as int)).len() > 0),
        decreases 4 - i,
    {
        let name: &str = names[i];
        let line: &[u8] = name.as_bytes();
        let ghost before = missing_lines(existing@, wanted.take(i as int));
        proof {
            assert(names@[i as int]@ == name@);
            assert(line@ == wanted[i as int]);
            assert(wanted.take(i + 1).drop_last() =~= wanted.take(i as int));
            assert(wanted.take(i + 1).last() == wanted[i as int]);
        }
        if !line_stands_in(&lines, line, Ghost(existing@)) {
            let ghost start = out@;
            append(&mut out, line);
            out.push(10);
            changed = true;
            proof {
                assert(before.push(line@).drop_last() =~= before);
                assert(out@ =~= start + line@.push(10));
            }
        }
        i += 1;
    }
    assert(wanted.take(4) =~= wanted);
    if changed {
        assert(Some(out).deep_view() == Some(out.deep_view()));
        assert(out.deep_view() =~= out@);
        Some(out)
    } else {
        None
    }
}

// --------------------------------------------------------------------- laws

proof fn lemma_pieces_concat(a: Seq<u8>, b: Seq<u8>)
    ensures
        byte_pieces(a.push(10) + b, 10) == byte_pieces(a, 10) + byte_pieces(b, 10),
    decreases b.len(),
{
    if b.len() == 0 {
        assert(a.push(10) + b =~= a.push(10));
        assert(a.push(10).drop_last() =~= a);
        assert(byte_pieces(a.push(10), 10) =~= byte_pieces(a, 10) + byte_pieces(b, 10));
    } else {
        let init = b.drop_last();
        let whole = a.push(10) + b;
        lemma_pieces_concat(a, init);
        assert(whole.drop_last() =~= a.push(10) + init);
        assert(whole.last() == b.last());
        crate::git_output::lemma_byte_pieces(init, 10);
        let head = byte_pieces(a, 10);
        let tail = byte_pieces(init, 10);
        if b.last() == 10 {
            assert((head + tail).push(Seq::<u8>::empty()) =~= head + tail.push(
                Seq::<u8>::empty(),
            ));
        } else {
            assert((head + tail).drop_last() =~= head + tail.drop_last());
            assert((head + tail).last() == tail.last());
            assert((head + tail.drop_last()).push(tail.last().push(b.last())) =~= head
                + tail.drop_last().push(tail.last().push(b.last())));
        }
    }
}

/// A line keeps standing in a content that grows behind a newline.
proof fn lemma_line_stays(a: Seq<u8>, b: Seq<u8>, line: Seq<u8>)
    requires
        has_line(a, line) || has_line(b, line),
    ensures
        has_line(a.push(10) + b, line),
{
    lemma_pieces_concat(a, b);
    let all = byte_pieces(a.push(10) + b, 10);
    if has_line(a, line) {
        let i = choose|i: int|
            0 <= i < byte_pieces(a, 10).len() && trimmed_line(#[trigger] byte_pieces(a, 10)[i])
                == line;
        assert(all[i] == byte_pieces(a, 10)[i]);
    } else {
        let i = choose|i: int|
            0 <= i < byte_pieces(b, 10).len() && trimmed_line(#[trigger] byte_pieces(b, 10)[i])
                == line;
        assert(all[byte_pieces(a, 10).len() + i] == byte_pieces(b, 10)[i]);
    }
}

/// A line of its own: no newline in it, and no whitespace at its ends.
spec fn plain_line(line: Seq<u8>) -> bool {
    &&& line.len() > 0
    &&& !ascii_space(line[0])
    &&& !ascii_space(line.last())
    &&& forall|i: int| 0 <= i < line.len() ==> line[i] != 10
}

proof fn lemma_one_piece(line: Seq<u8>)
    requires
        forall|i: int| 0 <= i < line.len() ==> line[i] != 10,
    ensures
        byte_pieces(line, 10) == seq![line],
    decreases line.len(),
{
    if line.len() > 0 {
        lemma_one_piece(line.drop_last());
        assert(line[line.len() - 1] != 10);
        assert(line.drop_last().push(line.last()) =~= line);
        assert(byte_pieces(line, 10) =~= seq![line]);
    } else {
        assert(line =~= Seq::<u8>::empty());
    }
}

proof fn lemma_plain_line(line: Seq<u8>)
    requires
        plain_line(line),
    ensures
        has_line(line, line),
{
    lemma_one_piece(line);
    assert(trimmed_line(byte_pieces(line, 10)[0]) == line);
}

/// A line that stands in a closed content, or one that is appended, stands in
/// the content with the lines appended.
proof fn lemma_appended(content: Seq<u8>, lines: Seq<Seq<u8>>, line: Seq<u8>)
    requires
        content.len() == 0 || content.last() == 10,
        forall|i: int| 0 <= i < lines.len() ==> plain_line(#[trigger] lines[i]),
        plain_line(line),
        lines.contains(line) || has_line(content, line),
    ensures
        has_line(with_lines(content, lines), line),
        with_lines(content, lines).len() == 0 || with_lines(content, lines).last() == 10,
    decreases lines.len(),
{
    if lines.len() == 0 {
        assert(!lines.contains(line));
    } else {
        let init = lines.drop_last();
        let last = lines.last();
        let before = with_lines(content, init);
        let after = with_lines(content, lines);
        assert forall|i: int| 0 <= i < init.len() implies plain_line(#[trigger] init[i]) by {
            assert(init[i] == lines[i]);
        }
        assert(plain_line(lines[lines.len() - 1]));
        lemma_appended_closed(content, init);
        // What stands there is either closed by its last newline or empty.
        if line == last {
            lemma_plain_line(last);
        } else if lines.contains(line) {
            let i = choose|i: int| 0 <= i < lines.len() && lines[i] == line;
            assert(init[i] == line);
            lemma_appended(content, init, line);
        } else {
            lemma_appended(content, init, line);
        }
        if before.len() == 0 {
            assert(before =~= Seq::<u8>::empty());
            assert(after =~= last.push(10) + Seq::<u8>::empty());
            if line != last {
                lemma_empty_has_no_line(line);
            }
            lemma_line_stays(last, Seq::empty(), line);
        } else {
            let body = before.drop_last();
            assert(body.push(10) =~= before);
            assert(after =~= body.push(10) + last.push(10));
            lemma_line_of_closed(body, line);
            lemma_line_of_closed(last, line);
            assert(last.push(10) + Seq::<u8>::empty() =~= last.push(10));
            if line == last {
                lemma_line_stays(last, Seq::empty(), line);
                lemma_line_stays(body, last.push(10), line);
            } else {
                lemma_line_stays(body, last.push(10), line);
            }
        }
    }
}

proof fn lemma_appended_closed(content: Seq<u8>, lines: Seq<Seq<u8>>)
    requires
        content.len() == 0 || content.last() == 10,
    ensures
        with_lines(content, lines).len() == 0 || with_lines(content, lines).last() == 10,
    decreases lines.len(),
{
    if lines.len() > 0 {
        lemma_appended_closed(content, lines.drop_last());
    }
}

proof fn lemma_empty_has_no_line(line: Seq<u8>)
    requires
        plain_line(line),
    ensures
        !has_line(Seq::empty(), line),
{
    let pieces = byte_pieces(Seq::<u8>::empty(), 10);
    assert(pieces == seq![Seq::<u8>::empty()]);
    assert(trimmed_line(Seq::<u8>::empty()) =~= Seq::<u8>::empty());
}

/// A plain line of a content with a last newline is one of it without.
proof fn lemma_line_of_closed(body: Seq<u8>, line: Seq<u8>)
    requires
        plain_line(line),
    ensures
        has_line(body.push(10), line) ==> has_line(body, line),
{
    if has_line(body.push(10), line) {
        lemma_pieces_concat(body, Seq::empty());
        assert(body.push(10) + Seq::<u8>::empty() =~= body.push(10));
        let all = byte_pieces(body.push(10), 10);
        let head = byte_pieces(body, 10);
        let i = choose|i: int| 0 <= i < all.len() && trimmed_line(#[trigger] all[i]) == line;
        if i < head.len() {
            assert(trimmed_line(byte_pieces(body, 10)[i]) == line);
        } else {
            assert(all[i] == Seq::<u8>::empty());
            assert(trimmed_line(Seq::<u8>::empty()) =~= Seq::<u8>::empty());
        }
    }
}

proof fn lemma_wanted_plain()
    ensures
        forall|i: int| 0 <= i < wanted_lines().len() ==> plain_line(#[trigger] wanted_lines()[i]),
{
    reveal_strlit(".ambidiff.json");
    reveal_strlit(".ambidiff.json.lock");
    reveal_strlit(".ambidiff.json.guard");
    reveal_strlit(".ambidiff.json.tmp.*");
    is_ascii_chars_encode_utf8(".ambidiff.json"@);
    is_ascii_chars_encode_utf8(".ambidiff.json.lock"@);
    is_ascii_chars_encode_utf8(".ambidiff.json.guard"@);
    is_ascii_chars_encode_utf8(".ambidiff.json.tmp.*"@);
    assert(plain_line(encode_utf8(".ambidiff.json"@)));
    assert(plain_line(encode_utf8(".ambidiff.json.lock"@)));
    assert(plain_line(encode_utf8(".ambidiff.json.guard"@)));
    assert(plain_line(encode_utf8(".ambidiff.json.tmp.*"@)));
}

proof fn lemma_missing(content: Seq<u8>, lines: Seq<Seq<u8>>, i: int)
    requires
        0 <= i < lines.len(),
    ensures
        has_line(content, lines[i]) || missing_lines(content, lines).contains(lines[i]),
        forall|k: int|
            0 <= k < missing_lines(content, lines).len() ==> lines.contains(
                #[trigger] missing_lines(content, lines)[k],
            ),
    decreases lines.len(),
{
    let missing = missing_lines(content, lines);
    let init = lines.drop_last();
    let before = missing_lines(content, init);
    if init.len() > 0 {
        let j = if i < init.len() {
            i
        } else {
            0
        };
        lemma_missing(content, init, j);
    }
    assert forall|k: int| 0 <= k < missing.len() implies lines.contains(#[trigger] missing[k]) by {
        if k < before.len() {
            assert(init.len() > 0);
            assert(init.contains(before[k]));
            let m = choose|m: int| 0 <= m < init.len() && init[m] == before[k];
            assert(lines[m] == missing[k]);
        } else {
            assert(lines[lines.len() - 1] == missing[k]);
        }
    }
    if !has_line(content, lines[i]) {
        if i < init.len() {
            assert(init[i] == lines[i]);
            let m = choose|m: int| 0 <= m < before.len() && before[m] == lines[i];
            assert(missing[m] == lines[i]);
        } else {
            assert(missing[missing.len() - 1] == lines[i]);
        }
    }
}

proof fn lemma_nothing_missing(content: Seq<u8>, lines: Seq<Seq<u8>>)
    requires
        forall|i: int| 0 <= i < lines.len() ==> has_line(content, #[trigger] lines[i]),
    ensures
        missing_lines(content, lines).len() == 0,
    decreases lines.len(),
{
    if lines.len() > 0 {
        let init = lines.drop_last();
        assert forall|i: int| 0 <= i < init.len() implies has_line(
            content,
            #[trigger] init[i],
        ) by {
            assert(init[i] == lines[i]);
        }
        lemma_nothing_missing(content, init);
        assert(has_line(content, lines[lines.len() - 1]));
    }
}

/// A content that has been completed needs nothing more.
pub proof fn excluding_is_idempotent(content: Seq<u8>)
    requires
        excluded(content) is Some,
    ensures
        excluded(excluded(content)->0) is None,
{
    let wanted = wanted_lines();
    let missing = missing_lines(content, wanted);
    let base = closed_content(content);
    let after = excluded(content)->0;
    lemma_wanted_plain();
    lemma_missing(content, wanted, 0);
    assert forall|k: int| 0 <= k < missing.len() implies plain_line(#[trigger] missing[k]) by {
        let m = choose|m: int| 0 <= m < wanted.len() && wanted[m] == missing[k];
        assert(plain_line(wanted[m]));
    }
    assert forall|i: int| 0 <= i < wanted.len() implies has_line(after, #[trigger] wanted[i]) by {
        lemma_missing(content, wanted, i);
        if has_line(content, wanted[i]) && content.len() > 0 && content.last() != 10 {
            lemma_line_stays(content, Seq::empty(), wanted[i]);
            assert(content.push(10) + Seq::<u8>::empty() =~= content.push(10));
        }
        lemma_appended(base, missing, wanted[i]);
    }
    lemma_nothing_missing(after, wanted);
}

proof fn lemma_appending_keeps(content: Seq<u8>, lines: Seq<Seq<u8>>)
    ensures
        content.is_prefix_of(with_lines(content, lines)),
    decreases lines.len(),
{
    if lines.len() > 0 {
        let before = with_lines(content, lines.drop_last());
        lemma_appending_keeps(content, lines.drop_last());
        assert(with_lines(content, lines).take(content.len() as int) =~= before.take(
            content.len() as int,
        ));
        assert(before.take(content.len() as int) =~= content);
        assert(with_lines(content, lines).subrange(0, content.len() as int) =~= content);
    }
}

/// Completing a content keeps every byte that stood there, in place.
pub proof fn excluding_keeps_what_is_there(content: Seq<u8>)
    requires
        excluded(content) is Some,
    ensures
        content.is_prefix_of(excluded(content)->0),
{
    let base = closed_content(content);
    let after = excluded(content)->0;
    lemma_appending_keeps(base, missing_lines(content, wanted_lines()));
    assert(after.subrange(0, base.len() as int) =~= base);
    assert(after.subrange(0, content.len() as int) =~= content) by {
        assert forall|i: int| 0 <= i < content.len() implies after[i] == content[i] by {
            assert(after.subrange(0, base.len() as int)[i] == base[i]);
        }
    }
}

} // verus!
