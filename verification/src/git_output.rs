//! What git's listings say: byte-level parsers.
//!
//! Paths come from `-z` NUL-terminated listings only, never from patch
//! headers, and a path that is not UTF-8 is reported rather than guessed at.

use vstd::prelude::*;
use vstd::utf8::{
    decode_first_scalar, decode_utf8, length_of_first_scalar, pop_first_scalar,
    valid_first_scalar, valid_utf8,
};

use crate::model::{capped, FileEntry, FileEntryModel, FileStatus};
use crate::source::{SkipReason, SkippedPath, SkippedPathModel};
use crate::text::{
    all_digits, chars_of, copy_of, decimal_value, digits_only, parse_u64, push_text, same_text,
    text_of_three, utf8_text, white_space,
};

verus! {

// ------------------------------------------------------------------- fields

/// The pieces of a byte sequence between separators.
pub open spec fn byte_pieces(bytes: Seq<u8>, sep: u8) -> Seq<Seq<u8>>
    decreases bytes.len(),
{
    if bytes.len() == 0 {
        seq![Seq::<u8>::empty()]
    } else {
        let before = byte_pieces(bytes.drop_last(), sep);
        if bytes.last() == sep {
            before.push(Seq::<u8>::empty())
        } else {
            before.drop_last().push(before.last().push(bytes.last()))
        }
    }
}

/// The NUL-terminated fields of a listing; a last terminator ends the last
/// field and starts no other.
pub open spec fn nul_fields(bytes: Seq<u8>) -> Seq<Seq<u8>> {
    let body = if bytes.len() > 0 && bytes.last() == 0 {
        bytes.drop_last()
    } else {
        bytes
    };
    if body.len() == 0 {
        Seq::empty()
    } else {
        byte_pieces(body, 0)
    }
}

/// The models of a list of byte slices.
pub open spec fn slices(v: Seq<&[u8]>) -> Seq<Seq<u8>> {
    Seq::new(v.len(), |i: int| v[i]@)
}

pub proof fn lemma_byte_pieces(bytes: Seq<u8>, sep: u8)
    ensures
        byte_pieces(bytes, sep).len() >= 1,
    decreases bytes.len(),
{
    if bytes.len() > 0 {
        lemma_byte_pieces(bytes.drop_last(), sep);
    }
}

/// The bytes from one position up to another.
fn cut<'a>(bytes: &'a [u8], from: usize, to: usize) -> (r: &'a [u8])
    requires
        from <= to <= bytes@.len(),
    ensures
        r@ == bytes@.subrange(from as int, to as int),
{
    vstd::slice::slice_subrange(bytes, from, to)
}

/// The pieces of a byte slice between separators.
pub(crate) fn split_bytes<'a>(bytes: &'a [u8], sep: u8) -> (r: Vec<&'a [u8]>)
    ensures
        slices(r@) == byte_pieces(bytes@, sep),
{
    let mut out: Vec<&'a [u8]> = Vec::new();
    let mut start: usize = 0;
    let mut i: usize = 0;
    proof {
        assert(bytes@.take(0) =~= Seq::empty());
        assert(bytes@.subrange(0, 0) =~= Seq::<u8>::empty());
        assert(slices(out@).push(bytes@.subrange(0, 0)) =~= seq![Seq::<u8>::empty()]);
    }
    while i < bytes.len()
        invariant
            start <= i <= bytes.len(),
            byte_pieces(bytes@.take(i as int), sep) == slices(out@).push(
                bytes@.subrange(start as int, i as int),
            ),
        decreases bytes.len() - i,
    {
        let ghost done = slices(out@);
        let ghost open = bytes@.subrange(start as int, i as int);
        proof {
            assert(bytes@.take(i + 1).drop_last() =~= bytes@.take(i as int));
            assert(bytes@.take(i + 1).last() == bytes@[i as int]);
            assert(done.push(open).drop_last() =~= done);
        }
        if bytes[i] == sep {
            let piece: &'a [u8] = cut(bytes, start, i);
            out.push(piece);
            start = i + 1;
            proof {
                assert(slices(out@) =~= done.push(open));
                assert(bytes@.subrange(i + 1, i + 1) =~= Seq::<u8>::empty());
            }
        } else {
            assert(bytes@.subrange(start as int, i + 1) =~= open.push(bytes@[i as int]));
        }
        i += 1;
    }
    let ghost done = slices(out@);
    let last: &'a [u8] = cut(bytes, start, bytes.len());
    out.push(last);
    proof {
        assert(bytes@.take(bytes.len() as int) =~= bytes@);
        assert(slices(out@) =~= done.push(last@));
    }
    out
}

/// The NUL-terminated fields of a listing.
pub fn split_nul<'a>(bytes: &'a [u8]) -> (r: Vec<&'a [u8]>)
    ensures
        slices(r@) == nul_fields(bytes@),
{
    let end: usize = if bytes.len() > 0 && bytes[bytes.len() - 1] == 0 {
        bytes.len() - 1
    } else {
        bytes.len()
    };
    let body: &'a [u8] = cut(bytes, 0, end);
    assert(body@ =~= if bytes@.len() > 0 && bytes@.last() == 0 {
        bytes@.drop_last()
    } else {
        bytes@
    });
    if end == 0 {
        let r: Vec<&'a [u8]> = Vec::new();
        assert(slices(r@) =~= Seq::empty());
        return r;
    }
    split_bytes(body, 0)
}

// ------------------------------------------------------------- display text

/// A byte as `\xNN`.
pub open spec fn escaped_byte(b: u8) -> Seq<char> {
    "\\x"@ + seq![upper_hex(b / 16), upper_hex(b % 16)]
}

/// An upper-case hexadecimal digit.
pub open spec fn upper_hex(d: u8) -> char {
    if d < 10 {
        (48 + d) as char
    } else {
        (55 + d) as char
    }
}

/// Bytes as display text: valid UTF-8 passes through, each other byte becomes
/// `\xNN`.
pub open spec fn display_text(bytes: Seq<u8>) -> Seq<char>
    decreases bytes.len(),
{
    if bytes.len() == 0 {
        Seq::empty()
    } else if valid_first_scalar(bytes) {
        if 0 < length_of_first_scalar(bytes) <= bytes.len() {
            seq![decode_first_scalar(bytes) as char] + display_text(
                bytes.skip(length_of_first_scalar(bytes)),
            )
        } else {
            Seq::empty()
        }
    } else {
        escaped_byte(bytes[0]) + display_text(bytes.skip(1))
    }
}

/// A prefix that holds the first scalar starts with the same one.
proof fn lemma_scalar_of_prefix(bytes: Seq<u8>, n: int)
    requires
        0 <= n <= bytes.len(),
        valid_first_scalar(bytes.take(n)),
    ensures
        valid_first_scalar(bytes),
        length_of_first_scalar(bytes) == length_of_first_scalar(bytes.take(n)),
        decode_first_scalar(bytes) == decode_first_scalar(bytes.take(n)),
        1 <= length_of_first_scalar(bytes) <= 4,
        length_of_first_scalar(bytes) <= n,
{
    let p = bytes.take(n);
    assert(forall|i: int| 0 <= i < n ==> p[i] == bytes[i]);
    assert(p.len() >= 1);
}

/// The bytes of the first scalar are valid by themselves.
proof fn lemma_first_scalar_alone(bytes: Seq<u8>)
    requires
        valid_first_scalar(bytes),
    ensures
        1 <= length_of_first_scalar(bytes) <= 4,
        length_of_first_scalar(bytes) <= bytes.len(),
        valid_utf8(bytes.take(length_of_first_scalar(bytes))),
        decode_utf8(bytes.take(length_of_first_scalar(bytes))) == seq![
            decode_first_scalar(bytes) as char,
        ],
{
    reveal_with_fuel(valid_utf8, 2);
    reveal_with_fuel(decode_utf8, 2);
    let n = length_of_first_scalar(bytes);
    let p = bytes.take(n);
    assert(1 <= n <= 4 && n <= bytes.len());
    assert(forall|i: int| 0 <= i < n ==> p[i] == bytes[i]);
    assert(valid_first_scalar(p));
    assert(length_of_first_scalar(p) == n);
    assert(pop_first_scalar(p) =~= Seq::<u8>::empty());
    assert(valid_utf8(p));
    assert(decode_utf8(Seq::<u8>::empty()) =~= Seq::<char>::empty());
    assert(decode_utf8(p) =~= seq![decode_first_scalar(bytes) as char]);
}

/// Whether the bytes are the encoding of one scalar.
proof fn lemma_one_scalar(bytes: Seq<u8>, n: int)
    requires
        1 <= n <= bytes.len(),
        valid_utf8(bytes.take(n)),
        forall|m: int| 1 <= m < n ==> !valid_utf8(#[trigger] bytes.take(m)),
    ensures
        valid_first_scalar(bytes),
        length_of_first_scalar(bytes) == n,
        decode_utf8(bytes.take(n)) == seq![decode_first_scalar(bytes) as char],
{
    let p = bytes.take(n);
    assert(valid_first_scalar(p));
    lemma_scalar_of_prefix(bytes, n);
    lemma_first_scalar_alone(bytes);
    let m = length_of_first_scalar(bytes);
    if m < n {
        assert(!valid_utf8(bytes.take(m)));
    }
}

/// The number of bytes of the first scalar, and its text; `None` where the
/// bytes start with none.
fn first_scalar<'a>(bytes: &'a [u8]) -> (r: Option<(usize, &'a str)>)
    ensures
        match r {
            Some((n, s)) => valid_first_scalar(bytes@) && n == length_of_first_scalar(bytes@) && 1
                <= n <= bytes@.len() && s@ == seq![decode_first_scalar(bytes@) as char],
            None => !valid_first_scalar(bytes@),
        },
{
    let mut n: usize = 1;
    while n <= 4 && n <= bytes.len()
        invariant
            1 <= n <= 5,
            n <= bytes.len() + 1,
            forall|m: int| 1 <= m < n ==> !valid_utf8(#[trigger] bytes@.take(m)),
        decreases 5 - n,
    {
        let head: &'a [u8] = cut(bytes, 0, n);
        assert(head@ =~= bytes@.take(n as int));
        if let Some(s) = utf8_text(head) {
            proof {
                lemma_one_scalar(bytes@, n as int);
            }
            return Some((n, s));
        }
        n += 1;
    }
    proof {
        if valid_first_scalar(bytes@) {
            lemma_first_scalar_alone(bytes@);
            assert(!valid_utf8(bytes@.take(length_of_first_scalar(bytes@))));
        }
    }
    None
}

fn upper_hex_char(d: u8) -> (r: char)
    requires
        d < 16,
    ensures
        r == upper_hex(d),
{
    if d < 10 {
        (48 + d) as char
    } else {
        (55 + d) as char
    }
}

/// Escape a raw path as display text: valid UTF-8 runs pass through, each
/// invalid byte becomes `\xNN`. Never guesses at a non-UTF-8 path's meaning.
pub fn escape_display(bytes: &[u8]) -> (r: String)
    ensures
        r@ == display_text(bytes@),
{
    let mut out: String = String::new();
    let mut i: usize = 0;
    assert(bytes@.skip(0) =~= bytes@);
    assert(out@ + display_text(bytes@) =~= display_text(bytes@));
    while i < bytes.len()
        invariant
            i <= bytes.len(),
            out@ + display_text(bytes@.skip(i as int)) == display_text(bytes@),
        decreases bytes.len() - i,
    {
        let ghost before = out@;
        let rest: &[u8] = cut(bytes, i, bytes.len());
        assert(rest@ =~= bytes@.skip(i as int));
        match first_scalar(rest) {
            Some((n, s)) => {
                push_text(&mut out, s);
                assert(rest@.skip(n as int) =~= bytes@.skip(i + n));
                assert(out@ + display_text(bytes@.skip(i + n)) =~= before + (seq![
                    decode_first_scalar(rest@) as char,
                ] + display_text(rest@.skip(n as int))));
                i += n;
            },
            None => {
                let b: u8 = bytes[i];
                push_text(&mut out, "\\x");
                out.push(upper_hex_char(b / 16));
                out.push(upper_hex_char(b % 16));
                assert(out@ =~= before + escaped_byte(b));
                assert(rest@.skip(1) =~= bytes@.skip(i + 1));
                assert(out@ + display_text(bytes@.skip(i + 1)) =~= before + (escaped_byte(b)
                    + display_text(rest@.skip(1))));
                i += 1;
            },
        }
    }
    assert(bytes@.skip(i as int) =~= Seq::empty());
    assert(out@ + display_text(bytes@.skip(i as int)) =~= out@);
    out
}

// -------------------------------------------------------------- name-status

/// One record of a name-status listing.
#[verifier::ext_equal]
pub enum RecordModel {
    Entry(FileEntryModel),
    Skipped(SkippedPathModel),
}

/// The status that a letter stands for.
pub open spec fn status_of_letter(letter: u8) -> FileStatus {
    if letter == 65 {
        FileStatus::Added
    } else if letter == 77 {
        FileStatus::Modified
    } else if letter == 68 {
        FileStatus::Deleted
    } else if letter == 82 {
        FileStatus::Renamed
    } else if letter == 67 {
        FileStatus::Copied
    } else {
        FileStatus::Other
    }
}

/// The record of a status letter and its path, and its origin for a rename or
/// a copy. Where either path is not UTF-8 the record is skipped, not guessed
/// at.
pub open spec fn record_of(letter: u8, path: Seq<u8>, origin: Option<Seq<u8>>) -> RecordModel {
    if valid_utf8(path) && (origin matches Some(o) ==> valid_utf8(o)) {
        RecordModel::Entry(
            FileEntryModel {
                path: decode_utf8(path),
                old_path: match origin {
                    Some(o) => Some(decode_utf8(o)),
                    None => None,
                },
                status: status_of_letter(letter),
                adds: None,
                dels: None,
            },
        )
    } else {
        RecordModel::Skipped(
            SkippedPathModel {
                display: match origin {
                    Some(o) => display_text(o) + " -> "@ + display_text(path),
                    None => display_text(path),
                },
                reason: SkipReason::NonUtf8,
            },
        )
    }
}

/// The records from a field on. A record is a status and a path; a rename
/// (`R`) or a copy (`C`) has two paths, origin then current. Empty fields
/// where a status should stand are passed over.
pub open spec fn records_from(fields: Seq<Seq<u8>>, i: int) -> Seq<RecordModel>
    decreases fields.len() - i,
{
    if i < 0 || i >= fields.len() {
        Seq::empty()
    } else if fields[i].len() == 0 {
        records_from(fields, i + 1)
    } else if i + 1 >= fields.len() {
        Seq::empty()
    } else if (fields[i][0] == 82 || fields[i][0] == 67) && i + 2 < fields.len() {
        seq![record_of(fields[i][0], fields[i + 2], Some(fields[i + 1]))] + records_from(
            fields,
            i + 3,
        )
    } else {
        seq![record_of(fields[i][0], fields[i + 1], None)] + records_from(fields, i + 2)
    }
}

/// The entries among records.
pub open spec fn entries_in(records: Seq<RecordModel>) -> Seq<FileEntryModel>
    decreases records.len(),
{
    if records.len() == 0 {
        Seq::empty()
    } else {
        let before = entries_in(records.drop_last());
        match records.last() {
            RecordModel::Entry(entry) => before.push(entry),
            RecordModel::Skipped(_) => before,
        }
    }
}

/// The skipped paths among records.
pub open spec fn skipped_in(records: Seq<RecordModel>) -> Seq<SkippedPathModel>
    decreases records.len(),
{
    if records.len() == 0 {
        Seq::empty()
    } else {
        let before = skipped_in(records.drop_last());
        match records.last() {
            RecordModel::Entry(_) => before,
            RecordModel::Skipped(path) => before.push(path),
        }
    }
}

/// The records of a name-status listing.
pub open spec fn name_status(bytes: Seq<u8>) -> Seq<RecordModel> {
    records_from(nul_fields(bytes), 0)
}

fn letter_status(letter: u8) -> (r: FileStatus)
    ensures
        r == status_of_letter(letter),
{
    if letter == 65 {
        FileStatus::Added
    } else if letter == 77 {
        FileStatus::Modified
    } else if letter == 68 {
        FileStatus::Deleted
    } else if letter == 82 {
        FileStatus::Renamed
    } else if letter == 67 {
        FileStatus::Copied
    } else {
        FileStatus::Other
    }
}

/// A path, and its origin where there is one, as text; `None` where either is
/// not UTF-8.
fn utf8_record(path: &[u8], origin: Option<&[u8]>) -> (r: Option<(String, Option<String>)>)
    ensures
        match r {
            Some((p, o)) => valid_utf8(path@) && p@ == decode_utf8(path@) && match origin {
                Some(b) => valid_utf8(b@) && o.deep_view() == Some(decode_utf8(b@)),
                None => o is None,
            },
            None => !valid_utf8(path@) || (origin matches Some(b) && !valid_utf8(b@)),
        },
{
    let text: &str = match utf8_text(path) {
        Some(text) => text,
        None => {
            return None;
        },
    };
    match origin {
        None => Some((copy_of(text), None)),
        Some(bytes) => match utf8_text(bytes) {
            Some(old) => Some((copy_of(text), Some(copy_of(old)))),
            None => None,
        },
    }
}

/// Adds the record of one file to the entries or to the skipped paths.
fn add_record(
    entries: &mut Vec<FileEntry>,
    skipped: &mut Vec<SkippedPath>,
    letter: u8,
    path: &[u8],
    origin: Option<&[u8]>,
)
    ensures
        ({
            let record = record_of(
                letter,
                path@,
                match origin {
                    Some(b) => Some(b@),
                    None => None,
                },
            );
            match record {
                RecordModel::Entry(entry) => final(entries).deep_view() == old(
                    entries,
                ).deep_view().push(entry) && final(skipped).deep_view() == old(
                    skipped,
                ).deep_view(),
                RecordModel::Skipped(skip) => final(entries).deep_view() == old(
                    entries,
                ).deep_view() && final(skipped).deep_view() == old(skipped).deep_view().push(skip),
            }
        }),
{
    let ghost entries_before = entries.deep_view();
    let ghost skipped_before = skipped.deep_view();
    match utf8_record(path, origin) {
        Some((path_text, old_path)) => {
            let entry = FileEntry {
                path: path_text,
                old_path,
                status: letter_status(letter),
                adds: None,
                dels: None,
            };
            entries.push(entry);
            assert(entries.deep_view() =~= entries_before.push(entry.deep_view()));
        },
        None => {
            let shown: String = escape_display(path);
            let display: String = match origin {
                Some(old) => text_of_three(escape_display(old).as_str(), " -> ", shown.as_str()),
                None => shown,
            };
            let skip = SkippedPath { display, reason: SkipReason::NonUtf8 };
            skipped.push(skip);
            assert(skipped.deep_view() =~= skipped_before.push(skip.deep_view()));
        },
    }
}

proof fn lemma_sorting_records(done: Seq<RecordModel>, record: RecordModel)
    ensures
        entries_in(done.push(record)) == (match record {
            RecordModel::Entry(entry) => entries_in(done).push(entry),
            RecordModel::Skipped(_) => entries_in(done),
        }),
        skipped_in(done.push(record)) == (match record {
            RecordModel::Entry(_) => skipped_in(done),
            RecordModel::Skipped(path) => skipped_in(done).push(path),
        }),
{
    assert(done.push(record).drop_last() =~= done);
}

/// Parse NUL-separated `git diff --name-status -z` output. Renames and copies
/// (`R<score>`, `C<score>`) consume two paths: origin then current. A record
/// with either path invalid as UTF-8 is skipped, not guessed at.
pub fn parse_name_status_bytes(bytes: &[u8]) -> (r: (Vec<FileEntry>, Vec<SkippedPath>))
    ensures
        r.0.deep_view() == entries_in(name_status(bytes@)),
        r.1.deep_view() == skipped_in(name_status(bytes@)),
{
    let fields: Vec<&[u8]> = split_nul(bytes);
    let ghost model = slices(fields@);
    let ghost all = name_status(bytes@);
    let ghost mut done: Seq<RecordModel> = Seq::empty();
    let mut entries: Vec<FileEntry> = Vec::new();
    let mut skipped: Vec<SkippedPath> = Vec::new();
    let mut i: usize = 0;
    assert(entries.deep_view() =~= Seq::empty());
    assert(skipped.deep_view() =~= Seq::empty());
    assert(done + all =~= all);
    while i < fields.len()
        invariant
            i <= fields.len(),
            model == slices(fields@),
            all == done + records_from(model, i as int),
            entries.deep_view() == entries_in(done),
            skipped.deep_view() == skipped_in(done),
        decreases fields.len() - i,
    {
        let status: &[u8] = fields[i];
        assert(model[i as int] == status@);
        if status.len() == 0 {
            i += 1;
        } else if fields.len() - i <= 1 {
            i = fields.len();
        } else {
            let letter: u8 = status[0];
            assert(model[i + 1] == fields[i + 1]@);
            if (letter == 82 || letter == 67) && fields.len() - i > 2 {
                assert(model[i + 2] == fields[i + 2]@);
                let ghost record = record_of(letter, model[i + 2], Some(model[i + 1]));
                proof {
                    lemma_sorting_records(done, record);
                    assert(done + (seq![record] + records_from(model, i + 3)) =~= done.push(record)
                        + records_from(model, i + 3));
                    done = done.push(record);
                }
                add_record(
                    &mut entries,
                    &mut skipped,
                    letter,
                    fields[i + 2],
                    Some(fields[i + 1]),
                );
                i += 3;
            } else {
                let ghost record = record_of(letter, model[i + 1], None);
                proof {
                    lemma_sorting_records(done, record);
                    assert(done + (seq![record] + records_from(model, i + 2)) =~= done.push(record)
                        + records_from(model, i + 2));
                    done = done.push(record);
                }
                add_record(&mut entries, &mut skipped, letter, fields[i + 1], None);
                i += 2;
            }
        }
    }
    assert(all =~= done);
    (entries, skipped)
}

// ------------------------------------------------------------------ numstat

/// The added and removed lines of a file; a binary file has neither.
#[derive(Debug, Clone, Copy, PartialEq, Eq, Structural)]
pub struct LineCounts {
    pub adds: Option<u64>,
    pub dels: Option<u64>,
}

/// A decimal number in the form that std parses: digits, with a plus sign
/// before them or not.
pub open spec fn number_in(s: Seq<char>) -> Option<u64> {
    let digits = if s.len() > 0 && s[0] == '+' {
        s.skip(1)
    } else {
        s
    };
    if digits.len() > 0 && all_digits(digits) && decimal_value(digits) <= u64::MAX {
        Some(decimal_value(digits) as u64)
    } else {
        None
    }
}

/// The number that bytes write.
pub open spec fn number_in_bytes(bytes: Seq<u8>) -> Option<u64> {
    if valid_utf8(bytes) {
        number_in(decode_utf8(bytes))
    } else {
        None
    }
}

/// Position of the first byte of this value from a position on; the length
/// where there is none.
pub open spec fn byte_index_from(bytes: Seq<u8>, b: u8, from: int) -> int
    decreases bytes.len() - from,
{
    if from < 0 || from >= bytes.len() {
        bytes.len() as int
    } else if bytes[from] == b {
        from
    } else {
        byte_index_from(bytes, b, from + 1)
    }
}

/// A record's counts and path: what stands before the first tab, between the
/// first two and behind the second.
pub open spec fn numstat_parts(record: Seq<u8>) -> (Seq<u8>, Seq<u8>, Seq<u8>) {
    let first = byte_index_from(record, 9, 0);
    if first >= record.len() {
        (record, Seq::empty(), Seq::empty())
    } else {
        let second = byte_index_from(record, 9, first + 1);
        if second >= record.len() {
            (record.take(first), record.skip(first + 1), Seq::empty())
        } else {
            (record.take(first), record.subrange(first + 1, second), record.skip(second + 1))
        }
    }
}

pub open spec fn numstat_counts(record: Seq<u8>) -> LineCounts {
    let parts = numstat_parts(record);
    LineCounts { adds: number_in_bytes(parts.0), dels: number_in_bytes(parts.1) }
}

/// The counts by path, with those of one more path where it is UTF-8.
pub open spec fn with_counts(
    map: Map<Seq<char>, LineCounts>,
    path: Seq<u8>,
    counts: LineCounts,
) -> Map<Seq<char>, LineCounts> {
    if valid_utf8(path) {
        map.insert(decode_utf8(path), counts)
    } else {
        map
    }
}

/// The counts by path, with those of the records from a field on. A record
/// without a path is a rename: origin and current path are fields of their
/// own. Such a record without both ends the listing.
pub open spec fn counts_from(
    fields: Seq<Seq<u8>>,
    i: int,
    map: Map<Seq<char>, LineCounts>,
) -> Map<Seq<char>, LineCounts>
    decreases fields.len() - i,
{
    if i < 0 || i >= fields.len() {
        map
    } else if fields[i].len() == 0 {
        counts_from(fields, i + 1, map)
    } else if numstat_parts(fields[i]).2.len() > 0 {
        counts_from(
            fields,
            i + 1,
            with_counts(map, numstat_parts(fields[i]).2, numstat_counts(fields[i])),
        )
    } else if i + 2 < fields.len() {
        counts_from(fields, i + 3, with_counts(map, fields[i + 2], numstat_counts(fields[i])))
    } else {
        map
    }
}

/// The counts of a numstat listing, by current path.
pub open spec fn numstat(bytes: Seq<u8>) -> Map<Seq<char>, LineCounts> {
    counts_from(nul_fields(bytes), 0, Map::empty())
}

/// The counts of one path.
#[derive(Debug, Clone, PartialEq, Eq)]
pub struct PathNumbers {
    pub path: String,
    pub counts: LineCounts,
}

/// The counts of a numstat listing, by current path.
#[derive(Debug, Clone, PartialEq, Eq)]
pub struct Numstat {
    paths: Vec<PathNumbers>,
}

/// The counts by path; a later entry wins.
spec fn numbers_map(paths: Seq<PathNumbers>) -> Map<Seq<char>, LineCounts>
    decreases paths.len(),
{
    if paths.len() == 0 {
        Map::empty()
    } else {
        numbers_map(paths.drop_last()).insert(paths.last().path@, paths.last().counts)
    }
}

impl View for Numstat {
    type V = Map<Seq<char>, LineCounts>;

    closed spec fn view(&self) -> Map<Seq<char>, LineCounts> {
        numbers_map(self.paths@)
    }
}

impl Numstat {
    /// The counts of a path.
    pub fn get(&self, path: &str) -> (r: Option<LineCounts>)
        ensures
            r == (if self@.contains_key(path@) {
                Some(self@[path@])
            } else {
                None
            }),
    {
        let mut i: usize = self.paths.len();
        assert(self.paths@.take(i as int) =~= self.paths@);
        while i > 0
            invariant
                i <= self.paths.len(),
                numbers_map(self.paths@).contains_key(path@) == numbers_map(
                    self.paths@.take(i as int),
                ).contains_key(path@),
                numbers_map(self.paths@).contains_key(path@) ==> numbers_map(self.paths@)[path@]
                    == numbers_map(self.paths@.take(i as int))[path@],
            decreases i,
        {
            assert(self.paths@.take(i as int).drop_last() =~= self.paths@.take(i - 1));
            assert(self.paths@.take(i as int).last() == self.paths@[i - 1]);
            if same_text(self.paths[i - 1].path.as_str(), path) {
                return Some(self.paths[i - 1].counts);
            }
            i -= 1;
        }
        None
    }

    fn put(&mut self, path: &[u8], counts: LineCounts)
        ensures
            final(self)@ == with_counts(old(self)@, path@, counts),
    {
        let ghost before = self.paths@;
        if let Some(text) = utf8_text(path) {
            self.paths.push(PathNumbers { path: copy_of(text), counts });
            assert(self.paths@.drop_last() =~= before);
        }
    }
}

fn parse_number(bytes: &[u8]) -> (r: Option<u64>)
    ensures
        r == number_in_bytes(bytes@),
{
    let text: &str = match utf8_text(bytes) {
        Some(text) => text,
        None => {
            return None;
        },
    };
    let cs: Vec<char> = chars_of(text);
    let from: usize = if cs.len() > 0 && cs[0] == '+' {
        1
    } else {
        0
    };
    let digits: &[char] = vstd::slice::slice_subrange(cs.as_slice(), from, cs.len());
    assert(digits@ =~= if cs@.len() > 0 && cs@[0] == '+' {
        cs@.skip(1)
    } else {
        cs@
    });
    if digits.len() > 0 && digits_only(digits) {
        parse_u64(digits)
    } else {
        None
    }
}

fn find_byte(bytes: &[u8], b: u8, from: usize) -> (r: usize)
    requires
        from <= bytes@.len(),
    ensures
        r == byte_index_from(bytes@, b, from as int),
        from <= r <= bytes@.len(),
{
    let mut i: usize = from;
    while i < bytes.len() && bytes[i] != b
        invariant
            from <= i <= bytes.len(),
            byte_index_from(bytes@, b, from as int) == byte_index_from(bytes@, b, i as int),
        decreases bytes.len() - i,
    {
        i += 1;
    }
    i
}

fn split_numstat<'a>(record: &'a [u8]) -> (r: (&'a [u8], &'a [u8], &'a [u8]))
    ensures
        (r.0@, r.1@, r.2@) == numstat_parts(record@),
{
    let n: usize = record.len();
    let first: usize = find_byte(record, 9, 0);
    if first >= n {
        let none: &'a [u8] = cut(record, n, n);
        assert(none@ =~= Seq::<u8>::empty());
        return (record, none, none);
    }
    let second: usize = find_byte(record, 9, first + 1);
    let adds: &'a [u8] = cut(record, 0, first);
    let dels: &'a [u8] = cut(record, first + 1, second);
    assert(adds@ =~= record@.take(first as int));
    if second >= n {
        let none: &'a [u8] = cut(record, n, n);
        assert(none@ =~= Seq::<u8>::empty());
        assert(dels@ =~= record@.skip(first + 1));
        return (adds, dels, none);
    }
    let path: &'a [u8] = cut(record, second + 1, n);
    assert(path@ =~= record@.skip(second + 1));
    (adds, dels, path)
}

/// Parse NUL-separated `git diff --numstat -z` output into per-path counts,
/// keyed by current path. Binary files report `-` counts, mapped to `None`.
/// With `-z`, renames emit `adds\tdels\t` then origin and current path as two
/// NUL fields. A non-UTF-8 path is silently absent; its name-status record
/// already carries the reported skip.
pub fn parse_numstat_bytes(bytes: &[u8]) -> (r: Numstat)
    ensures
        r@ == numstat(bytes@),
{
    let fields: Vec<&[u8]> = split_nul(bytes);
    let ghost model = slices(fields@);
    let ghost goal = numstat(bytes@);
    let mut out: Numstat = Numstat { paths: Vec::new() };
    let mut i: usize = 0;
    assert(out@ =~= Map::empty());
    while i < fields.len()
        invariant
            i <= fields.len(),
            model == slices(fields@),
            counts_from(model, i as int, out@) == goal,
        decreases fields.len() - i,
    {
        let record: &[u8] = fields[i];
        assert(model[i as int] == record@);
        if record.len() == 0 {
            i += 1;
        } else {
            let (adds, dels, path): (&[u8], &[u8], &[u8]) = split_numstat(record);
            let counts = LineCounts { adds: parse_number(adds), dels: parse_number(dels) };
            assert(counts == numstat_counts(record@));
            if path.len() > 0 {
                out.put(path, counts);
                i += 1;
            } else if fields.len() - i > 2 {
                assert(model[i + 2] == fields[i + 2]@);
                out.put(fields[i + 2], counts);
                i += 3;
            } else {
                i = fields.len();
            }
        }
    }
    out
}

// ------------------------------------------------------------ object records

/// The pieces of a text between whitespace characters.
pub open spec fn white_pieces(s: Seq<char>) -> Seq<Seq<char>>
    decreases s.len(),
{
    if s.len() == 0 {
        seq![Seq::<char>::empty()]
    } else {
        let before = white_pieces(s.drop_last());
        if white_space(s.last()) {
            before.push(Seq::<char>::empty())
        } else {
            before.drop_last().push(before.last().push(s.last()))
        }
    }
}

/// The pieces that are not empty.
pub open spec fn non_empty(pieces: Seq<Seq<char>>) -> Seq<Seq<char>>
    decreases pieces.len(),
{
    if pieces.len() == 0 {
        Seq::empty()
    } else if pieces.last().len() == 0 {
        non_empty(pieces.drop_last())
    } else {
        non_empty(pieces.drop_last()).push(pieces.last())
    }
}

/// The words of a text.
pub open spec fn words_of(s: Seq<char>) -> Seq<Seq<char>> {
    non_empty(white_pieces(s))
}

/// The numbered word of the first record that has one, from a record on. A
/// record without a tab, or with other than UTF-8 before it, ends the search.
pub open spec fn word_from(records: Seq<Seq<u8>>, index: int, i: int) -> Option<Seq<char>>
    decreases records.len() - i,
{
    if i < 0 || i >= records.len() {
        None
    } else {
        let tab = byte_index_from(records[i], 9, 0);
        let meta = records[i].take(tab);
        if tab >= records[i].len() || !valid_utf8(meta) {
            None
        } else if index < words_of(decode_utf8(meta)).len() {
            Some(words_of(decode_utf8(meta))[index])
        } else {
            word_from(records, index, i + 1)
        }
    }
}

proof fn lemma_white_pieces(s: Seq<char>)
    ensures
        white_pieces(s).len() >= 1,
    decreases s.len(),
{
    if s.len() > 0 {
        lemma_white_pieces(s.drop_last());
    }
}

proof fn lemma_non_empty_push(pieces: Seq<Seq<char>>, piece: Seq<char>)
    ensures
        non_empty(pieces.push(piece)) == (if piece.len() == 0 {
            non_empty(pieces)
        } else {
            non_empty(pieces).push(piece)
        }),
{
    assert(pieces.push(piece).drop_last() =~= pieces);
}

/// The numbered word of a text.
fn nth_word(s: &str, index: usize) -> (r: Option<String>)
    ensures
        r.deep_view() == (if index < words_of(s@).len() {
            Some(words_of(s@)[index as int])
        } else {
            None
        }),
{
    let cs: Vec<char> = chars_of(s);
    let mut words: Vec<String> = Vec::new();
    let mut word: String = String::new();
    let ghost mut done: Seq<Seq<char>> = Seq::empty();
    let mut i: usize = 0;
    proof {
        assert(cs@.take(0) =~= Seq::empty());
        assert(words.deep_view() =~= Seq::empty());
        assert(done.push(word@) =~= seq![Seq::<char>::empty()]);
    }
    while i < cs.len()
        invariant
            i <= cs.len(),
            white_pieces(cs@.take(i as int)) == done.push(word@),
            words.deep_view() == non_empty(done),
        decreases cs.len() - i,
    {
        let ghost before = words.deep_view();
        let ghost open = word@;
        proof {
            assert(cs@.take(i + 1).drop_last() =~= cs@.take(i as int));
            assert(cs@.take(i + 1).last() == cs@[i as int]);
            assert(done.push(open).drop_last() =~= done);
        }
        if cs[i].is_whitespace() {
            proof {
                lemma_non_empty_push(done, open);
                done = done.push(open);
            }
            let piece: Vec<char> = chars_of(word.as_str());
            if piece.len() > 0 {
                words.push(word);
                assert(words.deep_view() =~= before.push(open));
            }
            word = String::new();
            assert(done.push(word@) =~= done.push(Seq::<char>::empty()));
        } else {
            word.push(cs[i]);
        }
        i += 1;
    }
    assert(cs@.take(i as int) =~= cs@);
    let ghost before = words.deep_view();
    let ghost open = word@;
    proof {
        lemma_non_empty_push(done, open);
    }
    let piece: Vec<char> = chars_of(word.as_str());
    if piece.len() > 0 {
        words.push(word);
        assert(words.deep_view() =~= before.push(open));
    }
    if index < words.len() {
        assert(words.deep_view()[index as int] == words[index as int]@);
        Some(copy_of(words[index].as_str()))
    } else {
        None
    }
}

/// Pull the `field_index`-th whitespace-separated token before the first tab
/// of each `-z` record (`<mode> <oid> <stage>\t<path>` for `ls-files
/// --stage`, `<mode> <type> <oid>\t<path>` for `ls-tree`), returning the first
/// record found (there is at most one for an exact pathspec).
pub fn first_field_after_tab(bytes: &[u8], field_index: usize) -> (r: Option<String>)
    ensures
        r.deep_view() == word_from(nul_fields(bytes@), field_index as int, 0),
{
    let records: Vec<&[u8]> = split_nul(bytes);
    let ghost model = slices(records@);
    let mut i: usize = 0;
    while i < records.len()
        invariant
            i <= records.len(),
            model == slices(records@),
            model == nul_fields(bytes@),
            word_from(model, field_index as int, 0) == word_from(
                model,
                field_index as int,
                i as int,
            ),
        decreases records.len() - i,
    {
        let record: &[u8] = records[i];
        assert(model[i as int] == record@);
        let tab: usize = find_byte(record, 9, 0);
        if tab >= record.len() {
            return None;
        }
        let meta: &[u8] = cut(record, 0, tab);
        assert(meta@ =~= record@.take(tab as int));
        match utf8_text(meta) {
            None => {
                return None;
            },
            Some(text) => {
                let word: Option<String> = nth_word(text, field_index);
                if word.is_some() {
                    return word;
                }
            },
        }
        i += 1;
    }
    None
}

// ------------------------------------------------------------------ counting

/// Number of newlines.
pub open spec fn newlines(bytes: Seq<u8>) -> nat
    decreases bytes.len(),
{
    if bytes.len() == 0 {
        0
    } else {
        newlines(bytes.drop_last()) + if bytes.last() == 10 {
            1nat
        } else {
            0
        }
    }
}

/// Number of lines of a content; a last line needs no newline.
pub open spec fn line_total(bytes: Seq<u8>) -> nat {
    if bytes.len() == 0 || bytes.last() == 10 {
        newlines(bytes)
    } else {
        newlines(bytes) + 1
    }
}

/// Counts lines of a content that comes in chunks.
#[derive(Debug, Clone, Copy)]
pub struct LineCounter {
    newline_count: u64,
    saw_any: bool,
    ended_with_newline: bool,
}

impl Default for LineCounter {
    fn default() -> (r: Self)
        ensures
            r.counts(Seq::empty()),
    {
        LineCounter { newline_count: 0, saw_any: false, ended_with_newline: false }
    }
}

proof fn lemma_newlines_concat(a: Seq<u8>, b: Seq<u8>)
    ensures
        newlines(a + b) == newlines(a) + newlines(b),
    decreases b.len(),
{
    if b.len() > 0 {
        assert((a + b).drop_last() =~= a + b.drop_last());
        lemma_newlines_concat(a, b.drop_last());
    } else {
        assert(a + b =~= a);
    }
}

impl LineCounter {
    /// Whether this is what a counter has come to after the content.
    pub closed spec fn counts(self, content: Seq<u8>) -> bool {
        &&& self.newline_count == capped(newlines(content))
        &&& self.saw_any == (content.len() > 0)
        &&& content.len() > 0 ==> self.ended_with_newline == (content.last() == 10)
    }

    /// Takes one more chunk. The count stops at the largest 64-bit number.
    pub fn feed(&mut self, chunk: &[u8])
        ensures
            forall|content: Seq<u8>| #[trigger]
                old(self).counts(content) ==> final(self).counts(content + chunk@),
    {
        let ghost start = *self;
        if chunk.len() == 0 {
            assert(forall|content: Seq<u8>| content + chunk@ =~= content);
            return ;
        }
        let mut found: u64 = 0;
        let mut i: usize = 0;
        assert(chunk@.take(0) =~= Seq::empty());
        while i < chunk.len()
            invariant
                i <= chunk.len(),
                found == newlines(chunk@.take(i as int)),
                found <= i,
            decreases chunk.len() - i,
        {
            assert(chunk@.take(i + 1).drop_last() =~= chunk@.take(i as int));
            if chunk[i] == 10 {
                found += 1;
            }
            i += 1;
        }
        assert(chunk@.take(i as int) =~= chunk@);
        self.saw_any = true;
        self.newline_count = self.newline_count.saturating_add(found);
        self.ended_with_newline = chunk[chunk.len() - 1] == 10;
        proof {
            assert forall|content: Seq<u8>| #[trigger] start.counts(content) implies self.counts(
                content + chunk@,
            ) by {
                lemma_newlines_concat(content, chunk@);
            }
        }
    }

    /// The number of lines so far.
    pub fn total(&self) -> (r: u64)
        ensures
            forall|content: Seq<u8>| #[trigger]
                self.counts(content) ==> r == capped(line_total(content)),
    {
        if !self.saw_any || self.ended_with_newline {
            self.newline_count
        } else {
            self.newline_count.saturating_add(1)
        }
    }
}

// ---------------------------------------------------------------------- laws

/// No record of a listing is lost: each is an entry or a skipped path.
pub proof fn every_record_is_reported(records: Seq<RecordModel>)
    ensures
        entries_in(records).len() + skipped_in(records).len() == records.len(),
    decreases records.len(),
{
    if records.len() > 0 {
        every_record_is_reported(records.drop_last());
    }
}

/// Display text of valid UTF-8 is the text itself.
pub proof fn valid_text_is_shown_as_it_is(bytes: Seq<u8>)
    requires
        valid_utf8(bytes),
    ensures
        display_text(bytes) == decode_utf8(bytes),
    decreases bytes.len(),
{
    if bytes.len() > 0 {
        lemma_first_scalar_alone(bytes);
        assert(pop_first_scalar(bytes) =~= bytes.skip(length_of_first_scalar(bytes)));
        valid_text_is_shown_as_it_is(pop_first_scalar(bytes));
    }
}

} // verus!
