//! What git's listings say, told by writing them out: what is written is what
//! is read.

use vstd::prelude::*;
use vstd::utf8::*;

use crate::git_output::{
    byte_index_from, byte_pieces, counts_from, display_text, lemma_byte_pieces, line_total,
    name_status, newlines, nul_fields, number_in_bytes, numstat, numstat_counts, numstat_parts,
    record_of, records_from, with_counts, LineCounts, RecordModel,
};
use crate::git_source::{counted_entry, with_untracked, ListingModel};
use crate::model::{FileEntryModel, FileStatus};
use crate::source::SkipReason;
use crate::text::{decimal_round_trip, decimal_text, is_digit};

verus! {

// -------------------------------------------------------------------- fields

/// Fields, each with a terminator behind it.
pub open spec fn terminated(fields: Seq<Seq<u8>>) -> Seq<u8>
    decreases fields.len(),
{
    if fields.len() == 0 {
        Seq::empty()
    } else {
        (terminated(fields.drop_last()) + fields.last()).push(0)
    }
}

/// Whether bytes hold none of this value.
pub open spec fn lacks(bytes: Seq<u8>, b: u8) -> bool {
    forall|i: int| 0 <= i < bytes.len() ==> #[trigger] bytes[i] != b
}

/// Fields without a terminator in them are read back, the first not being
/// empty.
pub proof fn fields_read_back(fields: Seq<Seq<u8>>)
    requires
        forall|i: int| 0 <= i < fields.len() ==> lacks(#[trigger] fields[i], 0),
        fields.len() > 0 ==> fields[0].len() > 0,
    ensures
        nul_fields(terminated(fields)) == fields,
{
    if fields.len() > 0 {
        let front = fields.drop_last();
        let body = terminated(front) + fields.last();
        assert(terminated(fields).drop_last() =~= body);
        lemma_terminated_len(fields, 0);
        lemma_pieces(front);
        lemma_more(terminated(front), fields.last());
        assert(front.push(Seq::empty()).drop_last() =~= front);
        assert(Seq::<u8>::empty() + fields.last() =~= fields.last());
        assert(front.push(fields.last()) =~= fields);
    } else {
        assert(nul_fields(terminated(fields)) =~= fields);
    }
}

proof fn lemma_terminated_len(fields: Seq<Seq<u8>>, i: int)
    requires
        0 <= i < fields.len(),
    ensures
        terminated(fields).len() > fields[i].len(),
    decreases fields.len(),
{
    if i < fields.len() - 1 {
        lemma_terminated_len(fields.drop_last(), i);
    }
}

proof fn lemma_more(bytes: Seq<u8>, piece: Seq<u8>)
    requires
        lacks(piece, 0),
    ensures
        byte_pieces(bytes + piece, 0) == byte_pieces(bytes, 0).drop_last().push(
            byte_pieces(bytes, 0).last() + piece,
        ),
    decreases piece.len(),
{
    lemma_byte_pieces(bytes, 0);
    let before = byte_pieces(bytes, 0);
    if piece.len() == 0 {
        assert(bytes + piece =~= bytes);
        assert(before.last() + piece =~= before.last());
        assert(before.drop_last().push(before.last()) =~= before);
    } else {
        let front = piece.drop_last();
        assert forall|i: int| 0 <= i < front.len() implies #[trigger] front[i] != 0 by {
            assert(piece[i] != 0);
        }
        lemma_more(bytes, front);
        assert(piece[piece.len() - 1] != 0);
        assert((bytes + piece).drop_last() =~= bytes + front);
        let mid = before.drop_last().push(before.last() + front);
        assert(mid.drop_last() =~= before.drop_last());
        assert((before.last() + front).push(piece.last()) =~= before.last() + piece);
    }
}

proof fn lemma_pieces(fields: Seq<Seq<u8>>)
    requires
        forall|i: int| 0 <= i < fields.len() ==> lacks(#[trigger] fields[i], 0),
    ensures
        byte_pieces(terminated(fields), 0) == fields.push(Seq::empty()),
    decreases fields.len(),
{
    if fields.len() == 0 {
        assert(byte_pieces(terminated(fields), 0) =~= fields.push(Seq::empty()));
    } else {
        let front = fields.drop_last();
        let last = fields.last();
        assert forall|i: int| 0 <= i < front.len() implies lacks(#[trigger] front[i], 0) by {
            assert(lacks(fields[i], 0));
        }
        assert(lacks(fields[fields.len() - 1], 0));
        lemma_pieces(front);
        lemma_more(terminated(front), last);
        let body = terminated(front) + last;
        assert(terminated(fields).drop_last() =~= body);
        assert(front.push(Seq::empty()).drop_last() =~= front);
        assert(Seq::<u8>::empty() + last =~= last);
        assert(byte_pieces(body, 0) =~= fields);
    }
}

// -------------------------------------------------------------- name-status

/// A record of a name-status listing: its letter, what follows the letter,
/// the path, and the path that it had for a rename or a copy.
pub struct ChangeText {
    pub letter: u8,
    pub score: Seq<u8>,
    pub path: Seq<u8>,
    pub origin: Option<Seq<u8>>,
}

/// Whether git writes such a record: no terminator in its fields, and an
/// origin for the letters `R` and `C` alone.
pub open spec fn is_change(c: ChangeText) -> bool {
    &&& c.letter != 0
    &&& lacks(c.score, 0)
    &&& lacks(c.path, 0)
    &&& c.origin matches Some(o) ==> lacks(o, 0)
    &&& c.origin is Some <==> c.letter == 82 || c.letter == 67
}

/// The fields of a record.
pub open spec fn change_fields(c: ChangeText) -> Seq<Seq<u8>> {
    match c.origin {
        Some(origin) => seq![seq![c.letter] + c.score, origin, c.path],
        None => seq![seq![c.letter] + c.score, c.path],
    }
}

/// The fields of records.
pub open spec fn changes_fields(changes: Seq<ChangeText>) -> Seq<Seq<u8>>
    decreases changes.len(),
{
    if changes.len() == 0 {
        Seq::empty()
    } else {
        change_fields(changes[0]) + changes_fields(changes.drop_first())
    }
}

/// The letter that a status is written as.
pub open spec fn stands_for(letter: u8, status: FileStatus) -> bool {
    match status {
        FileStatus::Added => letter == 65,
        FileStatus::Modified => letter == 77,
        FileStatus::Deleted => letter == 68,
        FileStatus::Renamed => letter == 82,
        FileStatus::Copied => letter == 67,
        FileStatus::Untracked => false,
        FileStatus::Other => letter != 65 && letter != 77 && letter != 68 && letter != 82 && letter
            != 67,
    }
}

/// Whether a record is what a change says: an entry with its paths and its
/// status, or a path that is skipped because one of the two is no text.
pub open spec fn says(record: RecordModel, c: ChangeText) -> bool {
    let is_text = valid_utf8(c.path) && (c.origin matches Some(o) ==> valid_utf8(o));
    match record {
        RecordModel::Entry(entry) => {
            &&& is_text
            &&& encode_utf8(entry.path) == c.path
            &&& entry.old_path is Some <==> c.origin is Some
            &&& entry.old_path matches Some(old) ==> encode_utf8(old) == c.origin->0
            &&& stands_for(c.letter, entry.status)
            &&& entry.adds is None
            &&& entry.dels is None
        },
        RecordModel::Skipped(skipped) => {
            &&& !is_text
            &&& skipped.reason == SkipReason::NonUtf8
            &&& skipped.display == match c.origin {
                Some(o) => display_text(o) + " -> "@ + display_text(c.path),
                None => display_text(c.path),
            }
        },
    }
}

/// A name-status listing says its records, each once and in order.
pub proof fn changes_read_back(changes: Seq<ChangeText>)
    requires
        forall|i: int| 0 <= i < changes.len() ==> is_change(#[trigger] changes[i]),
    ensures
        ({
            let records = name_status(terminated(changes_fields(changes)));
            &&& records.len() == changes.len()
            &&& forall|i: int| 0 <= i < changes.len() ==> says(#[trigger] records[i], changes[i])
        }),
{
    let fields = changes_fields(changes);
    lemma_changes_plain(changes);
    fields_read_back(fields);
    let none = Seq::<Seq<u8>>::empty();
    lemma_changes(none, changes);
    assert(none + fields =~= fields);
}

proof fn lemma_changes_plain(changes: Seq<ChangeText>)
    requires
        forall|i: int| 0 <= i < changes.len() ==> is_change(#[trigger] changes[i]),
    ensures
        forall|i: int|
            0 <= i < changes_fields(changes).len() ==> lacks(
                #[trigger] changes_fields(changes)[i],
                0,
            ),
        changes_fields(changes).len() > 0 ==> changes_fields(changes)[0].len() > 0,
    decreases changes.len(),
{
    if changes.len() > 0 {
        let rest = changes.drop_first();
        assert forall|i: int| 0 <= i < rest.len() implies is_change(#[trigger] rest[i]) by {
            assert(rest[i] == changes[i + 1]);
        }
        lemma_changes_plain(rest);
        assert(is_change(changes[0]));
        let head = change_fields(changes[0]);
        let all = changes_fields(changes);
        assert forall|i: int| 0 <= i < all.len() implies lacks(#[trigger] all[i], 0) by {
            if i < head.len() {
                assert(all[i] == head[i]);
            } else {
                assert(all[i] == changes_fields(rest)[i - head.len()]);
            }
        }
    }
}

proof fn lemma_changes(before: Seq<Seq<u8>>, changes: Seq<ChangeText>)
    requires
        forall|i: int| 0 <= i < changes.len() ==> is_change(#[trigger] changes[i]),
    ensures
        ({
            let records = records_from(before + changes_fields(changes), before.len() as int);
            &&& records.len() == changes.len()
            &&& forall|i: int| 0 <= i < changes.len() ==> says(#[trigger] records[i], changes[i])
        }),
    decreases changes.len(),
{
    let fields = before + changes_fields(changes);
    let n = before.len() as int;
    if changes.len() > 0 {
        let c = changes[0];
        let rest = changes.drop_first();
        let head = change_fields(c);
        assert forall|i: int| 0 <= i < rest.len() implies is_change(#[trigger] rest[i]) by {
            assert(rest[i] == changes[i + 1]);
        }
        lemma_changes(before + head, rest);
        assert((before + head) + changes_fields(rest) =~= fields);
        assert(is_change(c));
        assert(fields[n] == head[0]);
        assert(fields[n + 1] == head[1]);
        assert(fields[n][0] == c.letter);
        if c.origin is Some {
            assert(fields[n + 2] == head[2]);
        }
        lemma_record(c);
        let records = records_from(fields, n);
        let later = records_from(fields, n + head.len());
        assert(records =~= seq![record_of(c.letter, c.path, c.origin)] + later);
        assert forall|i: int| 0 <= i < changes.len() implies says(
            #[trigger] records[i],
            changes[i],
        ) by {
            if i > 0 {
                assert(records[i] == later[i - 1]);
                assert(changes[i] == rest[i - 1]);
            }
        }
    }
}

proof fn lemma_record(c: ChangeText)
    ensures
        says(record_of(c.letter, c.path, c.origin), c),
{
    if valid_utf8(c.path) {
        decode_utf8_encode_utf8(c.path);
    }
    if let Some(o) = c.origin {
        if valid_utf8(o) {
            decode_utf8_encode_utf8(o);
        }
    }
}

/// Whether a character is the upper-case hexadecimal digit of a number.
pub open spec fn is_hex_of(c: char, n: int) -> bool {
    if n < 10 {
        c as u32 == 48 + n
    } else {
        c as u32 == 65 + (n - 10)
    }
}

/// A byte that starts no character is shown as a backslash, an `x` and its
/// two digits; what follows is shown as it would be alone.
pub proof fn odd_bytes_are_shown_by_number(b: u8, rest: Seq<u8>)
    requires
        !valid_first_scalar(seq![b] + rest),
    ensures
        ({
            let shown = display_text(seq![b] + rest);
            &&& shown.len() == 4 + display_text(rest).len()
            &&& shown[0] == '\\'
            &&& shown[1] == 'x'
            &&& is_hex_of(shown[2], b as int / 16)
            &&& is_hex_of(shown[3], b as int % 16)
            &&& shown.skip(4) == display_text(rest)
        }),
{
    let all = seq![b] + rest;
    reveal_strlit("\\x");
    assert(all[0] == b);
    assert(all.skip(1) =~= rest);
    let shown = display_text(all);
    assert(shown.skip(4) =~= display_text(rest));
}

// ------------------------------------------------------------------ numstat

/// A record of a numstat listing: its counts, none for a binary file, its
/// path, and the path that it had for a rename.
pub struct CountsText {
    pub adds: Option<u64>,
    pub dels: Option<u64>,
    pub path: Seq<u8>,
    pub origin: Option<Seq<u8>>,
}

/// A count as a listing has it.
pub open spec fn count_text(count: Option<u64>) -> Seq<u8> {
    match count {
        Some(n) => encode_utf8(decimal_text(n as nat)),
        None => seq![45u8],
    }
}

/// Whether git writes such a record.
pub open spec fn is_counts(c: CountsText) -> bool {
    &&& c.path.len() > 0
    &&& lacks(c.path, 0)
    &&& c.origin matches Some(o) ==> lacks(o, 0)
}

/// The fields of a record.
pub open spec fn counts_fields(c: CountsText) -> Seq<Seq<u8>> {
    let numbers = count_text(c.adds) + seq![9u8] + count_text(c.dels) + seq![9u8];
    match c.origin {
        Some(origin) => seq![numbers, origin, c.path],
        None => seq![numbers + c.path],
    }
}

/// The fields of records.
pub open spec fn all_counts_fields(all: Seq<CountsText>) -> Seq<Seq<u8>>
    decreases all.len(),
{
    if all.len() == 0 {
        Seq::empty()
    } else {
        counts_fields(all[0]) + all_counts_fields(all.drop_first())
    }
}

/// Whether a record is the last one of its path.
pub open spec fn is_last_of_path(all: Seq<CountsText>, i: int) -> bool {
    forall|j: int| i < j < all.len() ==> (#[trigger] all[j]).path != all[i].path
}

/// A numstat listing says the counts of its paths: of a path that is listed
/// more than once the last, and of no path that is not listed.
pub proof fn counts_read_back(all: Seq<CountsText>)
    requires
        forall|i: int| 0 <= i < all.len() ==> is_counts(#[trigger] all[i]),
    ensures
        ({
            let map = numstat(terminated(all_counts_fields(all)));
            &&& forall|i: int|
                #![trigger all[i]]
                0 <= i < all.len() && valid_utf8(all[i].path) && is_last_of_path(all, i)
                    ==> map.contains_key(decode_utf8(all[i].path)) && map[decode_utf8(all[i].path)]
                    == (LineCounts { adds: all[i].adds, dels: all[i].dels })
            &&& forall|path: Seq<char>| #[trigger]
                map.contains_key(path) ==> exists|i: int|
                    0 <= i < all.len() && (#[trigger] all[i]).path == encode_utf8(path)
        }),
{
    let fields = all_counts_fields(all);
    lemma_counts_plain(all);
    fields_read_back(fields);
    let none = Seq::<Seq<u8>>::empty();
    lemma_counts(none, all, Map::empty());
    assert(none + fields =~= fields);
}

proof fn lemma_count_text(count: Option<u64>)
    ensures
        count_text(count).len() > 0,
        lacks(count_text(count), 0),
        lacks(count_text(count), 9),
        number_in_bytes(count_text(count)) == count,
{
    match count {
        Some(n) => {
            let text = decimal_text(n as nat);
            decimal_round_trip(n as nat);
            assert forall|i: int| 0 <= i < text.len() implies '\0' <= #[trigger] text[i]
                <= '\u{7f}' by {
                assert(is_digit(text[i]));
            }
            assert(is_ascii_chars(text));
            is_ascii_chars_encode_utf8(text);
            encode_utf8_valid_utf8(text);
            encode_utf8_decode_utf8(text);
            assert(is_digit(text[0]));
            assert forall|i: int| 0 <= i < count_text(count).len() implies
                #[trigger] count_text(count)[i] != 0 && count_text(count)[i] != 9 by {
                assert(is_digit(text[i]));
            }
        },
        None => {
            let text = seq!['-'];
            assert(is_ascii_chars(text));
            is_ascii_chars_encode_utf8(text);
            encode_utf8_valid_utf8(text);
            encode_utf8_decode_utf8(text);
            assert(encode_utf8(text) =~= seq![45u8]);
            assert(!is_digit(text[0]));
        },
    }
}

pub proof fn lemma_byte_index(bytes: Seq<u8>, b: u8, from: int, at: int)
    requires
        0 <= from <= at < bytes.len(),
        bytes[at] == b,
        forall|k: int| from <= k < at ==> #[trigger] bytes[k] != b,
    ensures
        byte_index_from(bytes, b, from) == at,
    decreases at - from,
{
    if from < at {
        assert(bytes[from] != b);
        lemma_byte_index(bytes, b, from + 1, at);
    }
}

proof fn lemma_parts(c: CountsText, path: Seq<u8>)
    ensures
        ({
            let record = count_text(c.adds) + seq![9u8] + count_text(c.dels) + seq![9u8] + path;
            &&& numstat_parts(record) == (count_text(c.adds), count_text(c.dels), path)
            &&& numstat_counts(record) == (LineCounts { adds: c.adds, dels: c.dels })
            &&& record.len() > 0
        }),
{
    let a = count_text(c.adds);
    let d = count_text(c.dels);
    let record = a + seq![9u8] + d + seq![9u8] + path;
    lemma_count_text(c.adds);
    lemma_count_text(c.dels);
    let first = a.len() as int;
    let second = first + 1 + d.len();
    assert forall|k: int| 0 <= k < first implies #[trigger] record[k] != 9 by {
        assert(record[k] == a[k]);
    }
    lemma_byte_index(record, 9, 0, first);
    assert forall|k: int| first + 1 <= k < second implies #[trigger] record[k] != 9 by {
        assert(record[k] == d[k - first - 1]);
    }
    lemma_byte_index(record, 9, first + 1, second);
    assert(record.take(first) =~= a);
    assert(record.subrange(first + 1, second) =~= d);
    assert(record.skip(second + 1) =~= path);
}

proof fn lemma_counts_plain(all: Seq<CountsText>)
    requires
        forall|i: int| 0 <= i < all.len() ==> is_counts(#[trigger] all[i]),
    ensures
        forall|i: int|
            0 <= i < all_counts_fields(all).len() ==> lacks(
                #[trigger] all_counts_fields(all)[i],
                0,
            ),
        all_counts_fields(all).len() > 0 ==> all_counts_fields(all)[0].len() > 0,
    decreases all.len(),
{
    if all.len() > 0 {
        let rest = all.drop_first();
        assert forall|i: int| 0 <= i < rest.len() implies is_counts(#[trigger] rest[i]) by {
            assert(rest[i] == all[i + 1]);
        }
        lemma_counts_plain(rest);
        let c = all[0];
        assert(is_counts(c));
        lemma_count_text(c.adds);
        lemma_count_text(c.dels);
        let head = counts_fields(c);
        let fields = all_counts_fields(all);
        assert forall|i: int| 0 <= i < fields.len() implies lacks(#[trigger] fields[i], 0) by {
            if i < head.len() {
                assert(fields[i] == head[i]);
            } else {
                assert(fields[i] == all_counts_fields(rest)[i - head.len()]);
            }
        }
    }
}

/// Whether a map says the counts of these records on top of another.
spec fn says_counts(
    map: Map<Seq<char>, LineCounts>,
    under: Map<Seq<char>, LineCounts>,
    all: Seq<CountsText>,
) -> bool {
    &&& forall|i: int|
        #![trigger all[i]]
        0 <= i < all.len() && valid_utf8(all[i].path) && is_last_of_path(all, i)
            ==> map.contains_key(decode_utf8(all[i].path)) && map[decode_utf8(all[i].path)] == (
        LineCounts { adds: all[i].adds, dels: all[i].dels })
    &&& forall|path: Seq<char>| #[trigger]
        map.contains_key(path) ==> under.contains_key(path) || exists|i: int|
            0 <= i < all.len() && (#[trigger] all[i]).path == encode_utf8(path)
    &&& forall|path: Seq<char>| #[trigger]
        under.contains_key(path) && (forall|i: int|
            0 <= i < all.len() ==> (#[trigger] all[i]).path != encode_utf8(path))
            ==> map.contains_key(path) && map[path] == under[path]
}

proof fn lemma_counts(
    before: Seq<Seq<u8>>,
    all: Seq<CountsText>,
    under: Map<Seq<char>, LineCounts>,
)
    requires
        forall|i: int| 0 <= i < all.len() ==> is_counts(#[trigger] all[i]),
    ensures
        says_counts(
            counts_from(before + all_counts_fields(all), before.len() as int, under),
            under,
            all,
        ),
    decreases all.len(),
{
    let fields = before + all_counts_fields(all);
    let n = before.len() as int;
    if all.len() > 0 {
        let c = all[0];
        let rest = all.drop_first();
        let head = counts_fields(c);
        assert forall|i: int| 0 <= i < rest.len() implies is_counts(#[trigger] rest[i]) by {
            assert(rest[i] == all[i + 1]);
        }
        assert(is_counts(c));
        let counts = LineCounts { adds: c.adds, dels: c.dels };
        let next = with_counts(under, c.path, counts);
        lemma_counts(before + head, rest, next);
        assert((before + head) + all_counts_fields(rest) =~= fields);
        assert(fields[n] == head[0]);
        if c.origin is Some {
            let none = Seq::<u8>::empty();
            lemma_parts(c, none);
            assert(head[0] + none =~= head[0]);
            assert(fields[n + 2] == head[2]);
        } else {
            lemma_parts(c, c.path);
        }
        let map = counts_from(fields, n, under);
        assert(map == counts_from(fields, n + head.len(), next));
        lemma_says_one_more(map, under, all);
    }
}

proof fn lemma_says_one_more(
    map: Map<Seq<char>, LineCounts>,
    under: Map<Seq<char>, LineCounts>,
    all: Seq<CountsText>,
)
    requires
        all.len() > 0,
        says_counts(
            map,
            with_counts(under, all[0].path, LineCounts { adds: all[0].adds, dels: all[0].dels }),
            all.drop_first(),
        ),
    ensures
        says_counts(map, under, all),
{
    let c = all[0];
    let counts = LineCounts { adds: c.adds, dels: c.dels };
    let next = with_counts(under, c.path, counts);
    let rest = all.drop_first();
    if valid_utf8(c.path) {
        decode_utf8_encode_utf8(c.path);
    }
    assert forall|i: int|
        #![trigger all[i]]
        0 <= i < all.len() && valid_utf8(all[i].path) && is_last_of_path(all, i) implies
        map.contains_key(decode_utf8(all[i].path)) && map[decode_utf8(all[i].path)] == (
    LineCounts { adds: all[i].adds, dels: all[i].dels }) by {
        if i > 0 {
            assert(all[i] == rest[i - 1]);
            assert(is_last_of_path(rest, i - 1)) by {
                assert forall|j: int| i - 1 < j < rest.len() implies (#[trigger] rest[j]).path
                    != rest[i - 1].path by {
                    assert(rest[j] == all[j + 1]);
                }
            }
        } else {
            let text = decode_utf8(c.path);
            assert(next.contains_key(text) && next[text] == counts);
            assert forall|j: int| 0 <= j < rest.len() implies (#[trigger] rest[j]).path
                != encode_utf8(text) by {
                assert(rest[j] == all[j + 1]);
            }
        }
    }
    assert forall|path: Seq<char>| #[trigger] map.contains_key(path) implies under.contains_key(
        path,
    ) || exists|i: int| 0 <= i < all.len() && (#[trigger] all[i]).path == encode_utf8(path) by {
        if next.contains_key(path) {
            if !under.contains_key(path) {
                assert(all[0].path == encode_utf8(path));
            }
        } else {
            let i = choose|i: int|
                0 <= i < rest.len() && (#[trigger] rest[i]).path == encode_utf8(path);
            assert(all[i + 1].path == encode_utf8(path));
        }
    }
    assert forall|path: Seq<char>| #[trigger]
        under.contains_key(path) && (forall|i: int|
            0 <= i < all.len() ==> (#[trigger] all[i]).path != encode_utf8(path)) implies
        map.contains_key(path) && map[path] == under[path] by {
        assert(all[0].path != encode_utf8(path));
        assert(next.contains_key(path) && next[path] == under[path]);
        assert forall|i: int| 0 <= i < rest.len() implies (#[trigger] rest[i]).path != encode_utf8(
            path,
        ) by {
            assert(rest[i] == all[i + 1]);
        }
    }
}

/// An entry gets the counts that are listed under its path, and keeps its own
/// where there are none; the rest of it stays.
pub proof fn entries_get_the_counts_of_their_path(
    entry: FileEntryModel,
    counts: Map<Seq<char>, LineCounts>,
)
    ensures
        ({
            let after = counted_entry(entry, counts);
            &&& after.path == entry.path
            &&& after.old_path == entry.old_path
            &&& after.status == entry.status
            &&& counts.contains_key(entry.path) ==> after.adds == counts[entry.path].adds
                && after.dels == counts[entry.path].dels
            &&& !counts.contains_key(entry.path) ==> after.adds == entry.adds && after.dels
                == entry.dels
        }),
{
}

/// An untracked file joins a listing at its end: as a file that is all new,
/// or, where its path is no text, as one that is skipped.
pub proof fn untracked_files_are_all_new(listing: ListingModel, path: Seq<u8>, adds: Option<u64>)
    ensures
        ({
            let after = with_untracked(listing, path, adds);
            &&& valid_utf8(path) ==> {
                let entry = after.entries.last();
                &&& after.skipped == listing.skipped
                &&& after.entries.len() == listing.entries.len() + 1
                &&& after.entries.drop_last() == listing.entries
                &&& encode_utf8(entry.path) == path
                &&& entry.old_path is None
                &&& entry.status == FileStatus::Untracked
                &&& entry.adds == adds
                &&& entry.dels == Some(0u64)
            }
            &&& !valid_utf8(path) ==> {
                let skipped = after.skipped.last();
                &&& after.entries == listing.entries
                &&& after.skipped.len() == listing.skipped.len() + 1
                &&& after.skipped.drop_last() == listing.skipped
                &&& skipped.display == display_text(path)
                &&& skipped.reason == SkipReason::NonUtf8
            }
        }),
{
    let after = with_untracked(listing, path, adds);
    if valid_utf8(path) {
        decode_utf8_encode_utf8(path);
        assert(after.entries.drop_last() =~= listing.entries);
    } else {
        assert(after.skipped.drop_last() =~= listing.skipped);
    }
}

// -------------------------------------------------------------------- lines

/// A content without bytes has no lines. A line that starts where a content
/// starts, or behind a newline, counts one, with its own newline or without.
pub proof fn lines_count_with_or_without_newline(before: Seq<u8>, line: Seq<u8>)
    requires
        before.len() == 0 || before.last() == 10,
        lacks(line, 10),
    ensures
        line_total(Seq::empty()) == 0,
        line_total((before + line).push(10)) == line_total(before) + 1,
        line_total(before + line) == line_total(before) + if line.len() > 0 {
            1int
        } else {
            0
        },
{
    lemma_newlines(before, line);
    let all = before + line;
    assert(all.push(10).drop_last() =~= all);
    if line.len() == 0 {
        assert(all =~= before);
    } else {
        assert(all.last() == line[line.len() - 1]);
    }
}

proof fn lemma_newlines(before: Seq<u8>, line: Seq<u8>)
    requires
        lacks(line, 10),
    ensures
        newlines(before + line) == newlines(before),
    decreases line.len(),
{
    if line.len() == 0 {
        assert(before + line =~= before);
    } else {
        let front = line.drop_last();
        assert forall|i: int| 0 <= i < front.len() implies #[trigger] front[i] != 10 by {
            assert(line[i] != 10);
        }
        lemma_newlines(before, front);
        assert((before + line).drop_last() =~= before + front);
        assert(line[line.len() - 1] != 10);
    }
}

} // verus!
