//! Text as a sequence of characters, and the measures the other modules take
//! of it: byte lengths, searches, splits, decimal and hexadecimal digits and
//! the byte-wise order of strings.

use vstd::prelude::*;
use vstd::utf8::*;

verus! {

// ------------------------------------------------------------ outside items

/// `char::is_alphanumeric`: the Unicode `Alphabetic` property or one of the
/// numeric general categories.
pub uninterp spec fn alphanumeric(c: char) -> bool;

/// The characters with the Unicode `White_Space` property.
pub open spec fn white_space(c: char) -> bool {
    ||| '\t' <= c && c <= '\r'
    ||| c == ' '
    ||| c == '\u{85}'
    ||| c == '\u{a0}'
    ||| c == '\u{1680}'
    ||| '\u{2000}' <= c && c <= '\u{200a}'
    ||| c == '\u{2028}'
    ||| c == '\u{2029}'
    ||| c == '\u{202f}'
    ||| c == '\u{205f}'
    ||| c == '\u{3000}'
}

/// `char::is_whitespace` tells the characters with the Unicode `White_Space`
/// property, which are the ones that `white_space` lists.
pub assume_specification[ char::is_whitespace ](c: char) -> (r: bool)
    ensures
        r == white_space(c),
;

/// `char::is_alphanumeric` answers from the Unicode tables alone.
pub assume_specification[ char::is_alphanumeric ](c: char) -> (r: bool)
    ensures
        r == alphanumeric(c),
;

/// `String::push` appends one character.
pub assume_specification[ String::push ](s: &mut String, c: char)
    ensures
        final(s)@ == old(s)@.push(c),
;

/// What the `Debug` of a string writes: the text in double quotes, with
/// escapes.
pub uninterp spec fn debug_text(s: Seq<char>) -> Seq<char>;

/// The `Debug` of a `str`.
#[verifier::external_body]
pub(crate) fn quoted(s: &str) -> (r: String)
    ensures
        r@ == debug_text(s@),
{
    format!("{s:?}")
}

/// `core::str::from_utf8`: the text of bytes that are valid UTF-8.
#[verifier::external_body]
pub(crate) fn utf8_text<'a>(bytes: &'a [u8]) -> (r: Option<&'a str>)
    ensures
        match r {
            Some(s) => valid_utf8(bytes@) && s@ == decode_utf8(bytes@),
            None => !valid_utf8(bytes@),
        },
{
    core::str::from_utf8(bytes).ok()
}

/// The text of any bytes: what is not valid UTF-8 in them is replaced.
pub uninterp spec fn lossy(bytes: Seq<u8>) -> Seq<char>;

/// `String::from_utf8_lossy`. Bytes that are valid UTF-8 come out as their
/// text; where the replacements go in others is left to the name.
#[verifier::external_body]
pub(crate) fn lossy_text(bytes: &[u8]) -> (r: String)
    ensures
        r@ == lossy(bytes@),
        valid_utf8(bytes@) ==> r@ == decode_utf8(bytes@),
{
    String::from_utf8_lossy(bytes).into_owned()
}

// ------------------------------------------------------------- byte lengths

/// Number of bytes the UTF-8 encoding of `c` takes.
pub open spec fn char_width(c: char) -> nat {
    if c as u32 <= 0x7f {
        1
    } else if c as u32 <= 0x7ff {
        2
    } else if c as u32 <= 0xffff {
        3
    } else {
        4
    }
}

/// Number of bytes the UTF-8 encoding of `s` takes.
pub open spec fn byte_len(s: Seq<char>) -> nat
    decreases s.len(),
{
    if s.len() == 0 {
        0
    } else {
        byte_len(s.drop_last()) + char_width(s.last())
    }
}

pub proof fn lemma_encode_width(c: char)
    ensures
        encode_scalar(c as u32).len() == char_width(c),
{
    char_is_scalar(c);
}

pub proof fn lemma_encode_concat(a: Seq<char>, b: Seq<char>)
    ensures
        encode_utf8(a + b) == encode_utf8(a) + encode_utf8(b),
    decreases a.len(),
{
    if a.len() == 0 {
        assert(a + b =~= b);
        assert(encode_utf8(a) + encode_utf8(b) =~= encode_utf8(b));
    } else {
        lemma_encode_concat(a.drop_first(), b);
        assert((a + b).drop_first() =~= a.drop_first() + b);
        assert(encode_utf8(a + b) =~= encode_utf8(a) + encode_utf8(b));
    }
}

/// `byte_len` is the length of the encoding.
pub proof fn lemma_byte_len_is_encoded_len(s: Seq<char>)
    ensures
        byte_len(s) == encode_utf8(s).len(),
    decreases s.len(),
{
    if s.len() > 0 {
        let last = seq![s.last()];
        lemma_byte_len_is_encoded_len(s.drop_last());
        lemma_encode_concat(s.drop_last(), last);
        assert(s.drop_last() + last =~= s);
        assert(last.drop_first() =~= Seq::<char>::empty());
        assert(encode_utf8(last) =~= encode_scalar(s.last() as u32)) by {
            assert(encode_utf8(Seq::<char>::empty()) =~= Seq::<u8>::empty());
        }
        lemma_encode_width(s.last());
    }
}

pub proof fn lemma_byte_len_concat(a: Seq<char>, b: Seq<char>)
    ensures
        byte_len(a + b) == byte_len(a) + byte_len(b),
    decreases b.len(),
{
    if b.len() == 0 {
        assert(a + b =~= a);
    } else {
        assert((a + b).drop_last() =~= a + b.drop_last());
        lemma_byte_len_concat(a, b.drop_last());
    }
}

pub proof fn lemma_byte_len_take(s: Seq<char>, i: int)
    requires
        0 <= i < s.len(),
    ensures
        byte_len(s.take(i + 1)) == byte_len(s.take(i)) + char_width(s[i]),
{
    assert(s.take(i + 1).drop_last() =~= s.take(i));
}

/// Prefixes grow: each further character adds at least one byte.
pub proof fn lemma_byte_len_take_grows(s: Seq<char>, i: int, j: int)
    requires
        0 <= i <= j <= s.len(),
    ensures
        byte_len(s.take(i)) + (j - i) <= byte_len(s.take(j)),
        byte_len(s.take(i)) + byte_len(s.subrange(i, j)) == byte_len(s.take(j)),
    decreases j - i,
{
    if i < j {
        lemma_byte_len_take_grows(s, i, j - 1);
        lemma_byte_len_take(s, j - 1);
        assert(s.subrange(i, j).drop_last() =~= s.subrange(i, j - 1));
    } else {
        assert(s.subrange(i, j) =~= Seq::<char>::empty());
    }
}

/// Number of bytes of one encoded character.
pub fn width(c: char) -> (r: usize)
    ensures
        r == char_width(c),
        1 <= r <= 4,
{
    let code: u32 = c as u32;
    if code <= 0x7f {
        1
    } else if code <= 0x7ff {
        2
    } else if code <= 0xffff {
        3
    } else {
        4
    }
}

/// Number of bytes of the string.
pub fn bytes_in(s: &str) -> (r: usize)
    ensures
        r == byte_len(s@),
{
    proof {
        lemma_byte_len_is_encoded_len(s@);
    }
    s.as_bytes().len()
}

// --------------------------------------------------------------- conversion

/// The characters of a string, in order.
pub fn chars_of(s: &str) -> (r: Vec<char>)
    ensures
        r@ == s@,
{
    let mut out: Vec<char> = Vec::new();
    for c in it: s.chars()
        invariant
            out@ == s@.take(it.index()),
            it.seq() == s@,
    {
        out.push(c);
        assert(s@.take(it.index() + 1) =~= s@.take(it.index()).push(c));
    }
    assert(s@.take(s@.len() as int) =~= s@);
    out
}

/// The string of these characters.
pub fn string_of(cs: &[char]) -> (r: String)
    ensures
        r@ == cs@,
{
    let mut out: String = String::new();
    let mut i: usize = 0;
    while i < cs.len()
        invariant
            i <= cs.len(),
            out@ == cs@.take(i as int),
        decreases cs.len() - i,
    {
        out.push(cs[i]);
        assert(cs@.take(i + 1) =~= cs@.take(i as int).push(cs@[i as int]));
        i += 1;
    }
    assert(cs@.take(cs@.len() as int) =~= cs@);
    out
}

/// A copy of the string.
pub fn copy_of(s: &str) -> (r: String)
    ensures
        r@ == s@,
{
    s.to_owned()
}

/// Appends the characters of `tail`.
pub fn push_chars(s: &mut String, tail: &[char])
    ensures
        final(s)@ == old(s)@ + tail@,
{
    let ghost start: Seq<char> = s@;
    let mut i: usize = 0;
    while i < tail.len()
        invariant
            i <= tail.len(),
            s@ == start + tail@.take(i as int),
        decreases tail.len() - i,
    {
        s.push(tail[i]);
        assert(start + tail@.take(i + 1) =~= (start + tail@.take(i as int)).push(tail@[i as int]));
        i += 1;
    }
    assert(tail@.take(tail@.len() as int) =~= tail@);
}

/// Appends a string.
pub fn push_text(s: &mut String, tail: &str)
    ensures
        final(s)@ == old(s)@ + tail@,
{
    s.append(tail);
}

/// Two texts after each other.
pub fn text_of_two(a: &str, b: &str) -> (r: String)
    ensures
        r@ == a@ + b@,
{
    let mut out: String = copy_of(a);
    push_text(&mut out, b);
    out
}

/// Three texts after each other.
pub fn text_of_three(a: &str, b: &str, c: &str) -> (r: String)
    ensures
        r@ == a@ + b@ + c@,
{
    let mut out: String = copy_of(a);
    push_text(&mut out, b);
    push_text(&mut out, c);
    out
}

// ------------------------------------------------------ equality and order

/// Whether two byte sequences stand in lexicographic order (equal included).
pub open spec fn bytes_le(a: Seq<u8>, b: Seq<u8>) -> bool
    decreases a.len(),
{
    if a.len() == 0 {
        true
    } else if b.len() == 0 {
        false
    } else if a[0] != b[0] {
        a[0] < b[0]
    } else {
        bytes_le(a.drop_first(), b.drop_first())
    }
}

/// The order of strings: lexicographic on their encodings.
pub open spec fn text_le(a: Seq<char>, b: Seq<char>) -> bool {
    bytes_le(encode_utf8(a), encode_utf8(b))
}

pub proof fn lemma_bytes_le_total(a: Seq<u8>, b: Seq<u8>)
    ensures
        bytes_le(a, b) || bytes_le(b, a),
        bytes_le(a, b) && bytes_le(b, a) ==> a == b,
        bytes_le(a, a),
    decreases a.len(),
{
    if a.len() > 0 {
        lemma_bytes_le_total(a.drop_first(), a.drop_first());
        if b.len() > 0 && a[0] == b[0] {
            lemma_bytes_le_total(a.drop_first(), b.drop_first());
            if bytes_le(a, b) && bytes_le(b, a) {
                assert(a =~= seq![a[0]] + a.drop_first());
                assert(b =~= seq![b[0]] + b.drop_first());
            }
        }
    } else if b.len() == 0 {
        assert(a =~= b);
    }
}

pub proof fn lemma_bytes_le_trans(a: Seq<u8>, b: Seq<u8>, c: Seq<u8>)
    requires
        bytes_le(a, b),
        bytes_le(b, c),
    ensures
        bytes_le(a, c),
    decreases a.len(),
{
    if a.len() > 0 && b.len() > 0 && c.len() > 0 && a[0] == b[0] && b[0] == c[0] {
        lemma_bytes_le_trans(a.drop_first(), b.drop_first(), c.drop_first());
    }
}

/// The order of strings is total, antisymmetric and reflexive.
pub proof fn lemma_text_le_total(a: Seq<char>, b: Seq<char>)
    ensures
        text_le(a, b) || text_le(b, a),
        text_le(a, b) && text_le(b, a) ==> a == b,
        text_le(a, a),
{
    lemma_bytes_le_total(encode_utf8(a), encode_utf8(b));
    lemma_encode_injective(a, b);
}

/// The order of strings is transitive.
pub proof fn lemma_text_le_trans(a: Seq<char>, b: Seq<char>, c: Seq<char>)
    requires
        text_le(a, b),
        text_le(b, c),
    ensures
        text_le(a, c),
{
    lemma_bytes_le_trans(encode_utf8(a), encode_utf8(b), encode_utf8(c));
}

/// Different strings have different encodings.
pub proof fn lemma_encode_injective(a: Seq<char>, b: Seq<char>)
    ensures
        encode_utf8(a) == encode_utf8(b) ==> a == b,
{
    encode_utf8_decode_utf8(a);
    encode_utf8_decode_utf8(b);
}

/// Whether two byte slices hold the same bytes.
pub fn same_bytes(a: &[u8], b: &[u8]) -> (r: bool)
    ensures
        r == (a@ == b@),
{
    if a.len() != b.len() {
        return false;
    }
    let mut i: usize = 0;
    while i < a.len()
        invariant
            i <= a.len(),
            a.len() == b.len(),
            a@.take(i as int) == b@.take(i as int),
        decreases a.len() - i,
    {
        if a[i] != b[i] {
            return false;
        }
        assert(a@.take(i + 1) =~= a@.take(i as int).push(a@[i as int]));
        assert(b@.take(i + 1) =~= b@.take(i as int).push(b@[i as int]));
        i += 1;
    }
    assert(a@.take(a@.len() as int) =~= a@);
    assert(b@.take(b@.len() as int) =~= b@);
    true
}

/// Whether two character slices hold the same characters.
pub fn same_chars(a: &[char], b: &[char]) -> (r: bool)
    ensures
        r == (a@ == b@),
{
    if a.len() != b.len() {
        return false;
    }
    let mut i: usize = 0;
    while i < a.len()
        invariant
            i <= a.len(),
            a.len() == b.len(),
            a@.take(i as int) == b@.take(i as int),
        decreases a.len() - i,
    {
        if a[i] != b[i] {
            return false;
        }
        assert(a@.take(i + 1) =~= a@.take(i as int).push(a@[i as int]));
        assert(b@.take(i + 1) =~= b@.take(i as int).push(b@[i as int]));
        i += 1;
    }
    assert(a@.take(a@.len() as int) =~= a@);
    assert(b@.take(b@.len() as int) =~= b@);
    true
}

/// Whether two strings are equal.
pub fn same_text(a: &str, b: &str) -> (r: bool)
    ensures
        r == (a@ == b@),
{
    proof {
        lemma_encode_injective(a@, b@);
    }
    same_bytes(a.as_bytes(), b.as_bytes())
}

/// Whether two optional strings are equal.
pub fn same_text_option(a: &Option<String>, b: &Option<String>) -> (r: bool)
    ensures
        r == (a.deep_view() == b.deep_view()),
{
    match (a, b) {
        (Some(x), Some(y)) => same_text(x.as_str(), y.as_str()),
        (None, None) => true,
        _ => false,
    }
}

/// Whether `a` comes before or equals `b` in the order of strings.
pub fn in_order(a: &str, b: &str) -> (r: bool)
    ensures
        r == text_le(a@, b@),
{
    bytes_in_order(a.as_bytes(), b.as_bytes())
}

/// Whether `a` comes before or equals `b` lexicographically.
pub fn bytes_in_order(a: &[u8], b: &[u8]) -> (r: bool)
    ensures
        r == bytes_le(a@, b@),
{
    let mut i: usize = 0;
    assert(a@.skip(0) =~= a@);
    assert(b@.skip(0) =~= b@);
    while i < a.len() && i < b.len() && a[i] == b[i]
        invariant
            i <= a.len(),
            i <= b.len(),
            bytes_le(a@, b@) == bytes_le(a@.skip(i as int), b@.skip(i as int)),
        decreases a.len() - i,
    {
        assert(a@.skip(i as int).drop_first() =~= a@.skip(i + 1));
        assert(b@.skip(i as int).drop_first() =~= b@.skip(i + 1));
        i += 1;
    }
    if i >= a.len() {
        true
    } else if i >= b.len() {
        false
    } else {
        a[i] < b[i]
    }
}

// ------------------------------------------------------------------ searches

/// First position at or after `from` that holds `c`; the length when none does.
pub open spec fn index_from(s: Seq<char>, c: char, from: int) -> int
    decreases s.len() - from,
{
    if from >= s.len() || from < 0 {
        s.len() as int
    } else if s[from] == c {
        from
    } else {
        index_from(s, c, from + 1)
    }
}

/// What `index_from` means, without recursion.
pub proof fn lemma_index_from(s: Seq<char>, c: char, from: int)
    requires
        0 <= from <= s.len(),
    ensures
        from <= index_from(s, c, from) <= s.len(),
        index_from(s, c, from) < s.len() ==> s[index_from(s, c, from)] == c,
        forall|k: int| from <= k < index_from(s, c, from) ==> s[k] != c,
    decreases s.len() - from,
{
    if from < s.len() && s[from] != c {
        lemma_index_from(s, c, from + 1);
    }
}

/// Position of the first `c` at or after `from`, or the length.
pub fn find_char(s: &[char], c: char, from: usize) -> (r: usize)
    requires
        from <= s.len(),
    ensures
        r == index_from(s@, c, from as int),
        from <= r <= s.len(),
{
    proof {
        lemma_index_from(s@, c, from as int);
    }
    let mut i: usize = from;
    while i < s.len() && s[i] != c
        invariant
            from <= i <= s.len(),
            index_from(s@, c, from as int) == index_from(s@, c, i as int),
        decreases s.len() - i,
    {
        i += 1;
    }
    i
}

/// Whether `p` stands in `s` at position `i`.
pub open spec fn occurs_at(s: Seq<char>, p: Seq<char>, i: int) -> bool {
    0 <= i && i + p.len() <= s.len() && s.subrange(i, i + p.len()) == p
}

/// First position at or after `from` where `p` occurs in `s`.
pub open spec fn find_text_from(s: Seq<char>, p: Seq<char>, from: int) -> Option<int>
    decreases s.len() + 1 - from,
{
    if from < 0 || from + p.len() > s.len() {
        None
    } else if occurs_at(s, p, from) {
        Some(from)
    } else {
        find_text_from(s, p, from + 1)
    }
}

pub proof fn lemma_find_text_from(s: Seq<char>, p: Seq<char>, from: int)
    requires
        0 <= from,
    ensures
        find_text_from(s, p, from) matches Some(i) ==> from <= i && occurs_at(s, p, i) && forall|
            k: int,
        |
            from <= k < i ==> !occurs_at(s, p, k),
        find_text_from(s, p, from) is None ==> forall|k: int| from <= k ==> !occurs_at(s, p, k),
    decreases s.len() + 1 - from,
{
    if from + p.len() <= s.len() && !occurs_at(s, p, from) {
        lemma_find_text_from(s, p, from + 1);
    }
}

/// Whether `p` occurs at position `i`.
pub fn stands_at(s: &[char], p: &[char], i: usize) -> (r: bool)
    ensures
        r == occurs_at(s@, p@, i as int),
{
    if i > s.len() || p.len() > s.len() - i {
        return false;
    }
    same_chars(vstd::slice::slice_subrange(s, i, i + p.len()), p)
}

/// Position of the first occurrence of `p` at or after `from`.
pub fn find_text(s: &[char], p: &[char], from: usize) -> (r: Option<usize>)
    ensures
        r matches Some(i) ==> find_text_from(s@, p@, from as int) == Some(i as int),
        r is None ==> find_text_from(s@, p@, from as int) is None,
{
    let mut i: usize = from;
    while i <= s.len() && p.len() <= s.len() - i
        invariant
            from <= i,
            find_text_from(s@, p@, from as int) == find_text_from(s@, p@, i as int),
        decreases s.len() + 1 - i,
    {
        if stands_at(s, p, i) {
            return Some(i);
        }
        if i == s.len() {
            assert(find_text_from(s@, p@, i + 1) is None);
            return None;
        }
        i += 1;
    }
    None
}

/// Whether `s` begins with `p`.
pub fn starts_with(s: &[char], p: &str) -> (r: bool)
    ensures
        r == p@.is_prefix_of(s@),
{
    let pat: Vec<char> = chars_of(p);
    proof {
        if p@.len() <= s@.len() {
            assert(s@.subrange(0, p@.len() as int) =~= s@.take(p@.len() as int));
            if occurs_at(s@, p@, 0) {
                assert(p@.is_prefix_of(s@));
            }
        }
    }
    stands_at(s, pat.as_slice(), 0)
}

/// Whether `s` ends with `p`.
pub fn ends_with(s: &[char], p: &str) -> (r: bool)
    ensures
        r == p@.is_suffix_of(s@),
{
    let pat: Vec<char> = chars_of(p);
    if pat.len() > s.len() {
        return false;
    }
    stands_at(s, pat.as_slice(), s.len() - pat.len())
}

/// Whether `c` occurs in `s`.
pub fn contains_char(s: &[char], c: char) -> (r: bool)
    ensures
        r == s@.contains(c),
{
    proof {
        lemma_index_from(s@, c, 0);
    }
    find_char(s, c, 0) < s.len()
}

// -------------------------------------------------------------------- splits

/// The pieces of `s` between separators: one more than there are separators.
pub open spec fn split_on(s: Seq<char>, sep: char) -> Seq<Seq<char>>
    decreases s.len(),
{
    if s.len() == 0 {
        seq![Seq::<char>::empty()]
    } else {
        let before = split_on(s.drop_last(), sep);
        if s.last() == sep {
            before.push(Seq::<char>::empty())
        } else {
            before.drop_last().push(before.last().push(s.last()))
        }
    }
}

/// The lines of `s`: its pieces between newlines, without the empty piece
/// after a final newline.
pub open spec fn lines_of(s: Seq<char>) -> Seq<Seq<char>> {
    if s.len() > 0 && s.last() == '\n' {
        split_on(s, '\n').drop_last()
    } else {
        split_on(s, '\n')
    }
}

pub proof fn lemma_split_on_nonempty(s: Seq<char>, sep: char)
    ensures
        split_on(s, sep).len() >= 1,
    decreases s.len(),
{
    if s.len() > 0 {
        lemma_split_on_nonempty(s.drop_last(), sep);
    }
}

/// The models of a list of character vectors.
pub open spec fn char_seqs(v: Seq<Vec<char>>) -> Seq<Seq<char>> {
    Seq::new(v.len(), |i: int| v[i]@)
}

/// Splits at every separator.
pub fn split_chars(s: &[char], sep: char) -> (r: Vec<Vec<char>>)
    ensures
        char_seqs(r@) == split_on(s@, sep),
        r@.len() >= 1,
{
    let mut done: Vec<Vec<char>> = Vec::new();
    let mut cur: Vec<char> = Vec::new();
    let mut i: usize = 0;
    assert(char_seqs(done@).push(cur@) =~= split_on(s@.take(0), sep));
    while i < s.len()
        invariant
            i <= s.len(),
            char_seqs(done@).push(cur@) == split_on(s@.take(i as int), sep),
        decreases s.len() - i,
    {
        let ghost before = char_seqs(done@).push(cur@);
        assert(s@.take(i + 1).drop_last() =~= s@.take(i as int));
        assert(before.drop_last() =~= char_seqs(done@));
        if s[i] == sep {
            let ghost prev = done@;
            done.push(cur);
            assert(char_seqs(done@) =~= before);
            cur = Vec::new();
        } else {
            cur.push(s[i]);
        }
        i += 1;
    }
    assert(s@.take(s@.len() as int) =~= s@);
    let ghost last = cur@;
    let ghost prev = char_seqs(done@);
    done.push(cur);
    assert(char_seqs(done@) =~= prev.push(last));
    done
}

/// The lines of a text.
pub fn split_lines(s: &[char]) -> (r: Vec<Vec<char>>)
    ensures
        char_seqs(r@) == lines_of(s@),
{
    let mut lines: Vec<Vec<char>> = split_chars(s, '\n');
    if s.len() > 0 && s[s.len() - 1] == '\n' {
        let ghost all = char_seqs(lines@);
        lines.pop();
        assert(char_seqs(lines@) =~= all.drop_last());
    }
    lines
}

/// The pieces put back together with `sep` between them.
pub open spec fn join_with(parts: Seq<Seq<char>>, sep: Seq<char>) -> Seq<char>
    decreases parts.len(),
{
    if parts.len() == 0 {
        Seq::empty()
    } else if parts.len() == 1 {
        parts[0]
    } else {
        join_with(parts.drop_last(), sep) + sep + parts.last()
    }
}

/// Splitting a text and joining the pieces gives the text back.
pub proof fn split_then_join_is_identity(s: Seq<char>, sep: char)
    ensures
        join_with(split_on(s, sep), seq![sep]) == s,
    decreases s.len(),
{
    if s.len() == 0 {
    } else {
        let before = split_on(s.drop_last(), sep);
        lemma_split_on_nonempty(s.drop_last(), sep);
        split_then_join_is_identity(s.drop_last(), sep);
        let whole = split_on(s, sep);
        if s.last() == sep {
            assert(whole.drop_last() =~= before);
            assert(join_with(whole, seq![sep]) =~= s);
        } else {
            assert(whole.drop_last() =~= before.drop_last());
            assert(whole.last() == before.last().push(s.last()));
            if before.len() == 1 {
                assert(whole[0] =~= s);
            } else {
                let head = join_with(before.drop_last(), seq![sep]) + seq![sep];
                assert(head + whole.last() =~= (head + before.last()).push(s.last()));
                assert(join_with(whole, seq![sep]) =~= s);
            }
        }
    }
}

/// The text with a carriage return put before every newline.
pub open spec fn with_crlf(s: Seq<char>) -> Seq<char>
    decreases s.len(),
{
    if s.len() == 0 {
        s
    } else if s.last() == '\n' {
        with_crlf(s.drop_last()).push('\r').push('\n')
    } else {
        with_crlf(s.drop_last()).push(s.last())
    }
}

/// The pieces between newlines, in a text with CRLF endings: each but the last
/// has a carriage return behind it.
proof fn lemma_crlf_pieces(s: Seq<char>)
    ensures
        split_on(with_crlf(s), '\n').len() == split_on(s, '\n').len(),
        forall|i: int|
            0 <= i < split_on(s, '\n').len() - 1 ==> #[trigger] split_on(with_crlf(s), '\n')[i]
                == split_on(s, '\n')[i].push('\r'),
        split_on(with_crlf(s), '\n').last() == split_on(s, '\n').last(),
    decreases s.len(),
{
    lemma_split_on_nonempty(s, '\n');
    if s.len() > 0 {
        let init = s.drop_last();
        lemma_crlf_pieces(init);
        lemma_split_on_nonempty(init, '\n');
        let cut = split_on(with_crlf(init), '\n');
        let all = with_crlf(s);
        if s.last() == '\n' {
            let half = with_crlf(init).push('\r');
            assert(half.drop_last() =~= with_crlf(init));
            assert(all.drop_last() =~= half);
            assert(split_on(half, '\n') == cut.drop_last().push(cut.last().push('\r')));
        } else {
            assert(all.drop_last() =~= with_crlf(init));
        }
    }
}

/// The pieces of a text hold its characters only.
proof fn lemma_pieces_lack(s: Seq<char>, sep: char, c: char)
    requires
        !s.contains(c),
    ensures
        forall|i: int|
            0 <= i < split_on(s, sep).len() ==> !(#[trigger] split_on(s, sep)[i]).contains(c),
    decreases s.len(),
{
    if s.len() > 0 {
        let init = s.drop_last();
        assert(!init.contains(c)) by {
            if init.contains(c) {
                let k = choose|k: int| 0 <= k < init.len() && init[k] == c;
                assert(s[k] == c);
            }
        }
        lemma_pieces_lack(init, sep, c);
        lemma_split_on_nonempty(init, sep);
        let before = split_on(init, sep);
        let after = split_on(s, sep);
        assert(s[s.len() - 1] != c);
        assert forall|i: int| 0 <= i < after.len() implies !(#[trigger] after[i]).contains(c) by {
            if i < before.len() - 1 {
                assert(after[i] == before[i]);
            } else if i == before.len() - 1 {
                assert(!before[i].contains(c));
                if s.last() != sep {
                    assert(after[i] == before[i].push(s.last()));
                    if after[i].contains(c) {
                        let k = choose|k: int| 0 <= k < after[i].len() && after[i][k] == c;
                        assert(before[i][k] == c);
                    }
                }
            }
        }
    }
}

/// No piece holds the separator.
pub proof fn lemma_pieces_lack_separator(s: Seq<char>, sep: char)
    ensures
        forall|i: int|
            0 <= i < split_on(s, sep).len() ==> !(#[trigger] split_on(s, sep)[i]).contains(sep),
    decreases s.len(),
{
    let after = split_on(s, sep);
    if s.len() == 0 {
        assert(after[0].len() == 0);
    } else {
        let before = split_on(s.drop_last(), sep);
        lemma_pieces_lack_separator(s.drop_last(), sep);
        lemma_split_on_nonempty(s.drop_last(), sep);
        assert forall|i: int| 0 <= i < after.len() implies !(#[trigger] after[i]).contains(sep) by {
            if i < before.len() - 1 {
                assert(after[i] == before[i]);
            } else if i == before.len() - 1 {
                assert(!before[i].contains(sep));
                if s.last() != sep && after[i].contains(sep) {
                    let k = choose|k: int| 0 <= k < after[i].len() && after[i][k] == sep;
                    assert(before[i][k] == sep);
                }
            }
        }
    }
}

/// A final newline adds no line.
pub proof fn lemma_final_newline_adds_no_line(s: Seq<char>)
    requires
        s.len() > 0 ==> s.last() != '\n',
    ensures
        lines_of(s.push('\n')) == lines_of(s),
{
    let all = s.push('\n');
    assert(all.drop_last() =~= s);
    assert(split_on(all, '\n').drop_last() =~= split_on(s, '\n'));
}

/// With CRLF endings a text has the same lines, but for a carriage return at
/// the end of each.
pub proof fn lemma_crlf_keeps_the_lines(s: Seq<char>)
    requires
        !s.contains('\r'),
    ensures
        lines_of(with_crlf(s)).len() == lines_of(s).len(),
        forall|i: int|
            0 <= i < lines_of(s).len() ==> without_cr(#[trigger] lines_of(with_crlf(s))[i])
                == without_cr(lines_of(s)[i]),
{
    lemma_crlf_pieces(s);
    lemma_split_on_nonempty(s, '\n');
    lemma_pieces_lack(s, '\n', '\r');
    let plain = split_on(s, '\n');
    let ended = split_on(with_crlf(s), '\n');
    assert forall|i: int| 0 <= i < plain.len() implies without_cr(#[trigger] ended[i])
        == without_cr(plain[i]) by {
        assert(!plain[i].contains('\r'));
        if plain[i].len() > 0 {
            assert(plain[i][plain[i].len() - 1] != '\r');
        }
        if i < plain.len() - 1 {
            assert(ended[i].drop_last() =~= plain[i]);
        }
    }
}

// ---------------------------------------------------------------------- trim

/// `s` without leading whitespace.
pub open spec fn trim_start(s: Seq<char>) -> Seq<char>
    decreases s.len(),
{
    if s.len() > 0 && white_space(s[0]) {
        trim_start(s.drop_first())
    } else {
        s
    }
}

/// `s` without trailing whitespace.
pub open spec fn trim_end(s: Seq<char>) -> Seq<char>
    decreases s.len(),
{
    if s.len() > 0 && white_space(s.last()) {
        trim_end(s.drop_last())
    } else {
        s
    }
}

/// `s` without whitespace at either end.
pub open spec fn trim(s: Seq<char>) -> Seq<char> {
    trim_end(trim_start(s))
}

/// Whether every character is whitespace.
pub open spec fn blank(s: Seq<char>) -> bool {
    forall|i: int| 0 <= i < s.len() ==> white_space(#[trigger] s[i])
}

/// Blank text is what trims to nothing.
pub proof fn lemma_blank_is_empty_trim(s: Seq<char>)
    ensures
        blank(s) <==> trim(s).len() == 0,
    decreases s.len(),
{
    if s.len() > 0 {
        if white_space(s[0]) {
            lemma_blank_is_empty_trim(s.drop_first());
            assert(blank(s.drop_first()) ==> blank(s)) by {
                if blank(s.drop_first()) {
                    assert forall|i: int| 0 <= i < s.len() implies white_space(#[trigger] s[i]) by {
                        if i > 0 {
                            assert(s.drop_first()[i - 1] == s[i]);
                        }
                    }
                }
            }
            assert(blank(s) ==> blank(s.drop_first()));
        } else {
            lemma_trim_end_keeps_head(s);
        }
    }
}

proof fn lemma_trim_end_keeps_head(s: Seq<char>)
    requires
        s.len() > 0,
        !white_space(s[0]),
    ensures
        trim_end(s).len() > 0,
    decreases s.len(),
{
    if white_space(s.last()) {
        lemma_trim_end_keeps_head(s.drop_last());
    }
}

/// The part of `s` left after trimming whitespace from both ends.
pub fn trimmed(s: &[char]) -> (r: Vec<char>)
    ensures
        r@ == trim(s@),
{
    let mut from: usize = 0;
    assert(s@.skip(0) =~= s@);
    while from < s.len() && s[from].is_whitespace()
        invariant
            from <= s.len(),
            trim_start(s@) == trim_start(s@.skip(from as int)),
        decreases s.len() - from,
    {
        assert(s@.skip(from as int).drop_first() =~= s@.skip(from + 1));
        from += 1;
    }
    let mut to: usize = s.len();
    assert(s@.subrange(from as int, to as int) =~= s@.skip(from as int));
    while to > from && s[to - 1].is_whitespace()
        invariant
            from <= to <= s.len(),
            trim(s@) == trim_end(s@.subrange(from as int, to as int)),
        decreases to,
    {
        assert(s@.subrange(from as int, to as int).drop_last() =~= s@.subrange(
            from as int,
            to - 1,
        ));
        to -= 1;
    }
    vstd::slice::slice_to_vec(vstd::slice::slice_subrange(s, from, to))
}

/// Whether the text is empty or all whitespace.
pub fn is_blank(s: &str) -> (r: bool)
    ensures
        r == blank(s@),
{
    let cs: Vec<char> = chars_of(s);
    let mut i: usize = 0;
    while i < cs.len()
        invariant
            i <= cs.len(),
            cs@ == s@,
            forall|k: int| 0 <= k < i ==> white_space(#[trigger] s@[k]),
        decreases cs.len() - i,
    {
        if !cs[i].is_whitespace() {
            return false;
        }
        i += 1;
    }
    true
}

// -------------------------------------------------------------------- digits

/// The decimal digit of `d`.
pub open spec fn digit_char(d: nat) -> char {
    (48 + d) as char
}

/// Whether `c` is an ASCII decimal digit.
pub open spec fn is_digit(c: char) -> bool {
    '0' <= c && c <= '9'
}

/// Whether every character is an ASCII decimal digit.
pub open spec fn all_digits(s: Seq<char>) -> bool {
    forall|i: int| 0 <= i < s.len() ==> is_digit(#[trigger] s[i])
}

/// The number that a string of decimal digits writes.
pub open spec fn decimal_value(s: Seq<char>) -> nat
    decreases s.len(),
{
    if s.len() == 0 {
        0
    } else {
        decimal_value(s.drop_last()) * 10 + (s.last() as u32 - 48) as nat
    }
}

/// `n` written in decimal digits.
pub open spec fn decimal_text(n: nat) -> Seq<char>
    decreases n,
{
    if n < 10 {
        seq![digit_char(n)]
    } else {
        decimal_text(n / 10).push(digit_char(n % 10))
    }
}

/// Reading back what was written gives the number.
pub proof fn decimal_round_trip(n: nat)
    ensures
        all_digits(decimal_text(n)),
        decimal_text(n).len() > 0,
        decimal_value(decimal_text(n)) == n,
    decreases n,
{
    reveal_with_fuel(decimal_value, 2);
    if n < 10 {
        assert(decimal_text(n).drop_last() =~= Seq::<char>::empty());
        assert(decimal_text(n).last() as u32 == 48 + n);
    } else {
        decimal_round_trip(n / 10);
        assert(decimal_text(n).drop_last() =~= decimal_text(n / 10));
        assert(decimal_text(n).last() as u32 == 48 + n % 10);
    }
}

/// Prefixes of a digit string write numbers no larger than the whole.
proof fn lemma_decimal_prefix(s: Seq<char>, i: int)
    requires
        all_digits(s),
        0 <= i <= s.len(),
    ensures
        decimal_value(s.take(i)) <= decimal_value(s),
    decreases s.len(),
{
    if i == s.len() {
        assert(s.take(i) =~= s);
    } else {
        assert(s.drop_last().take(i) =~= s.take(i));
        lemma_decimal_prefix(s.drop_last(), i);
    }
}

/// Whether the slice is made of ASCII digits only.
pub fn digits_only(s: &[char]) -> (r: bool)
    ensures
        r == all_digits(s@),
{
    let mut i: usize = 0;
    while i < s.len()
        invariant
            i <= s.len(),
            forall|k: int| 0 <= k < i ==> is_digit(#[trigger] s@[k]),
        decreases s.len() - i,
    {
        if s[i] < '0' || s[i] > '9' {
            return false;
        }
        i += 1;
    }
    true
}

/// The number a digit string writes, where it fits 64 bits.
pub fn parse_u64(s: &[char]) -> (r: Option<u64>)
    requires
        all_digits(s@),
    ensures
        r matches Some(v) ==> v == decimal_value(s@),
        r is None ==> decimal_value(s@) > u64::MAX,
{
    let mut value: u64 = 0;
    let mut i: usize = 0;
    while i < s.len()
        invariant
            i <= s.len(),
            all_digits(s@),
            value == decimal_value(s@.take(i as int)),
        decreases s.len() - i,
    {
        let digit: u64 = (s[i] as u32 - 48) as u64;
        proof {
            assert(s@.take(i + 1).drop_last() =~= s@.take(i as int));
            lemma_decimal_prefix(s@, i + 1);
        }
        if value > (u64::MAX - digit) / 10 {
            return None;
        }
        value = value * 10 + digit;
        i += 1;
    }
    assert(s@.take(s@.len() as int) =~= s@);
    Some(value)
}

/// The number a digit string writes, where it fits 32 bits.
pub fn parse_u32(s: &[char]) -> (r: Option<u32>)
    requires
        all_digits(s@),
    ensures
        r matches Some(v) ==> v == decimal_value(s@),
        r is None ==> decimal_value(s@) > u32::MAX,
{
    match parse_u64(s) {
        Some(v) => if v <= u32::MAX as u64 {
            Some(v as u32)
        } else {
            None
        },
        None => None,
    }
}

/// The character of a digit below ten.
fn digit(d: u64) -> (r: char)
    requires
        d < 10,
    ensures
        r == digit_char(d as nat),
{
    (48 + d as u8) as char
}

/// Appends `n` in decimal.
pub fn push_decimal(s: &mut String, n: u64)
    ensures
        final(s)@ == old(s)@ + decimal_text(n as nat),
    decreases n,
{
    if n >= 10 {
        push_decimal(s, n / 10);
    }
    s.push(digit(n % 10));
    assert(s@ =~= old(s)@ + decimal_text(n as nat));
}

/// `n` in decimal.
pub fn decimal(n: u64) -> (r: String)
    ensures
        r@ == decimal_text(n as nat),
{
    let mut s: String = String::new();
    push_decimal(&mut s, n);
    assert(s@ =~= decimal_text(n as nat));
    s
}

/// `n` in decimal with zeros in front, at least `width` characters long.
pub open spec fn zero_padded(n: nat, width: int) -> Seq<char> {
    let digits = decimal_text(n);
    if digits.len() < width {
        Seq::new((width - digits.len()) as nat, |i: int| '0') + digits
    } else {
        digits
    }
}

/// Appends `n` in decimal with zeros in front up to `width` characters.
pub fn push_zero_padded(s: &mut String, n: u64, width: usize)
    ensures
        final(s)@ == old(s)@ + zero_padded(n as nat, width as int),
{
    let digits: Vec<char> = chars_of(decimal(n).as_str());
    let ghost start = s@;
    let mut i: usize = digits.len();
    while i < width
        invariant
            digits.len() <= i,
            i <= width || i == digits.len(),
            s@ == start + Seq::new((i - digits.len()) as nat, |k: int| '0'),
        decreases width - i,
    {
        s.push('0');
        assert(Seq::new((i + 1 - digits.len()) as nat, |k: int| '0') =~= Seq::new(
            (i - digits.len()) as nat,
            |k: int| '0',
        ).push('0'));
        i += 1;
    }
    push_chars(s, digits.as_slice());
    assert(s@ =~= start + zero_padded(n as nat, width as int));
}

/// The lower-case hexadecimal digit of `d`.
pub open spec fn hex_char(d: nat) -> char {
    if d < 10 {
        (48 + d) as char
    } else {
        (87 + d) as char
    }
}

/// The last `width` hexadecimal digits of `n`, zeros in front.
pub open spec fn hex_digits(n: nat, width: nat) -> Seq<char>
    decreases width,
{
    if width == 0 {
        Seq::empty()
    } else {
        hex_digits(n / 16, (width - 1) as nat).push(hex_char(n % 16))
    }
}

/// Appends the last `width` hexadecimal digits of `n`.
pub fn push_hex(s: &mut String, n: u64, width: usize)
    ensures
        final(s)@ == old(s)@ + hex_digits(n as nat, width as nat),
    decreases width,
{
    if width > 0 {
        push_hex(s, n / 16, width - 1);
        let d: u64 = n % 16;
        if d < 10 {
            s.push((48 + d as u8) as char);
        } else {
            s.push((87 + d as u8) as char);
        }
    }
    assert(s@ =~= old(s)@ + hex_digits(n as nat, width as nat));
}

// ----------------------------------------------------------- borrowed pieces

/// The byte offset after `k` characters is a character boundary.
pub proof fn lemma_boundary_at(s: Seq<char>, k: int)
    requires
        0 <= k <= s.len(),
    ensures
        valid_utf8(encode_utf8(s)),
        is_char_boundary(encode_utf8(s), byte_len(s.take(k)) as int),
        encode_utf8(s).subrange(0, byte_len(s.take(k)) as int) == encode_utf8(s.take(k)),
        encode_utf8(s).subrange(byte_len(s.take(k)) as int, encode_utf8(s).len() as int)
            == encode_utf8(s.skip(k)),
        byte_len(s.take(k)) <= encode_utf8(s).len(),
    decreases k,
{
    encode_utf8_valid_utf8(s);
    lemma_encode_concat(s.take(k), s.skip(k));
    assert(s.take(k) + s.skip(k) =~= s);
    lemma_byte_len_is_encoded_len(s.take(k));
    let n = byte_len(s.take(k)) as int;
    assert(encode_utf8(s).subrange(0, n) =~= encode_utf8(s.take(k)));
    assert(encode_utf8(s).subrange(n, encode_utf8(s).len() as int) =~= encode_utf8(s.skip(k)));
    if k == 0 {
        assert(s.take(0) =~= Seq::<char>::empty());
    } else {
        let rest = s.drop_first();
        lemma_boundary_at(rest, k - 1);
        encode_utf8_first_scalar(s);
        assert(pop_first_scalar(encode_utf8(s)) =~= encode_utf8(rest));
        assert(s.take(k) =~= seq![s[0]] + rest.take(k - 1));
        lemma_byte_len_concat(seq![s[0]], rest.take(k - 1));
        assert(byte_len(seq![s[0]]) == char_width(s[0])) by {
            reveal_with_fuel(byte_len, 2);
            assert(seq![s[0]].drop_last() =~= Seq::<char>::empty());
        }
        lemma_encode_width(s[0]);
    }
}

/// Cuts a string after `k` characters, which take `pos` bytes.
pub fn cut_str<'a>(s: &'a str, pos: usize, Ghost(k): Ghost<int>) -> (r: (&'a str, &'a str))
    requires
        0 <= k <= s@.len(),
        pos == byte_len(s@.take(k)),
    ensures
        r.0@ == s@.take(k),
        r.1@ == s@.skip(k),
{
    proof {
        lemma_boundary_at(s@, k);
    }
    let r: (&'a str, &'a str) = s.split_at(pos);
    proof {
        lemma_encode_injective(r.0@, s@.take(k));
        lemma_encode_injective(r.1@, s@.skip(k));
    }
    r
}

/// The models of a list of strings.
pub open spec fn strs(v: Seq<&str>) -> Seq<Seq<char>> {
    Seq::new(v.len(), |i: int| v[i]@)
}

/// The pieces of `s` from its first separator on: the first piece, and the
/// pieces of what follows it.
pub proof fn lemma_split_first(s: Seq<char>, sep: char)
    ensures
        ({
            let k = index_from(s, sep, 0);
            if k == s.len() {
                split_on(s, sep) == seq![s]
            } else {
                split_on(s, sep) == seq![s.take(k)] + split_on(s.skip(k + 1), sep)
            }
        }),
    decreases s.len(),
{
    lemma_index_from(s, sep, 0);
    let k = index_from(s, sep, 0);
    if s.len() == 0 {
        assert(s =~= Seq::<char>::empty());
        assert(split_on(s, sep) =~= seq![s]);
    } else {
        let init = s.drop_last();
        lemma_split_first(init, sep);
        lemma_index_from(init, sep, 0);
        let k0 = index_from(init, sep, 0);
        if k == s.len() {
            if k0 < init.len() {
                assert(s[k0] == sep);
            }
            assert(init.push(s.last()) =~= s);
            assert(s[s.len() - 1] != sep);
            assert(split_on(s, sep) =~= seq![s]);
        } else if k == s.len() - 1 {
            if k0 < init.len() {
                assert(s[k0] == sep);
            }
            assert(init =~= s.take(k));
            assert(s.skip(k + 1) =~= Seq::<char>::empty());
            assert(split_on(s, sep) =~= seq![s.take(k)] + split_on(s.skip(k + 1), sep));
        } else {
            assert(init[k] == sep);
            if k0 < k {
                assert(s[k0] == sep);
            }
            assert(k0 == k);
            let tail = s.skip(k + 1);
            assert(tail.drop_last() =~= init.skip(k + 1));
            assert(init.take(k) =~= s.take(k));
            lemma_split_on_nonempty(tail.drop_last(), sep);
            let before = split_on(init, sep);
            let inner = split_on(tail.drop_last(), sep);
            assert(before == seq![s.take(k)] + inner);
            assert(before.last() == inner.last());
            assert(split_on(s, sep) =~= seq![s.take(k)] + split_on(tail, sep));
        }
    }
}

/// Splits a string at every separator; the pieces borrow from it. The
/// separator takes one byte.
pub fn split_str<'a>(s: &'a str, sep: char) -> (r: Vec<&'a str>)
    requires
        char_width(sep) == 1,
    ensures
        strs(r@) == split_on(s@, sep),
        r@.len() >= 1,
{
    let mut out: Vec<&'a str> = Vec::new();
    let mut rest: &'a str = s;
    assert(strs(out@) + split_on(rest@, sep) =~= split_on(s@, sep));
    loop
        invariant
            char_width(sep) == 1,
            strs(out@) + split_on(rest@, sep) == split_on(s@, sep),
        decreases rest@.len(),
    {
        let cs: Vec<char> = chars_of(rest);
        let mut k: usize = 0;
        let mut pos: usize = 0;
        proof {
            lemma_split_first(rest@, sep);
            lemma_byte_len_is_encoded_len(rest@);
        }
        let total: usize = bytes_in(rest);
        assert(rest@.take(0) =~= Seq::<char>::empty());
        while k < cs.len() && cs[k] != sep
            invariant
                k <= cs.len(),
                cs@ == rest@,
                total == byte_len(rest@),
                pos == byte_len(rest@.take(k as int)),
                index_from(rest@, sep, 0) == index_from(rest@, sep, k as int),
            decreases cs.len() - k,
        {
            proof {
                lemma_byte_len_take(rest@, k as int);
                lemma_byte_len_take_grows(rest@, k + 1, rest@.len() as int);
                assert(rest@.take(rest@.len() as int) =~= rest@);
            }
            pos += width(cs[k]);
            k += 1;
        }
        let ghost before = strs(out@);
        if k == cs.len() {
            out.push(rest);
            assert(strs(out@) =~= before + split_on(rest@, sep));
            return out;
        }
        let (head, tail): (&'a str, &'a str) = cut_str(rest, pos, Ghost(k as int));
        proof {
            let one = tail@.take(1);
            assert(one =~= seq![sep]);
            assert(byte_len(one) == 1) by {
                reveal_with_fuel(byte_len, 2);
                assert(one.drop_last() =~= Seq::<char>::empty());
            }
            assert(tail@.skip(1) =~= rest@.skip(k + 1));
        }
        let (_sep, after): (&'a str, &'a str) = cut_str(tail, 1, Ghost(1));
        out.push(head);
        proof {
            assert(strs(out@) =~= before.push(head@));
            assert(strs(out@) + split_on(after@, sep) =~= before + (seq![head@] + split_on(
                after@,
                sep,
            )));
        }
        rest = after;
    }
}

/// The lines of a string, borrowed from it.
pub fn str_lines<'a>(s: &'a str) -> (r: Vec<&'a str>)
    ensures
        strs(r@) == lines_of(s@),
{
    let cs: Vec<char> = chars_of(s);
    let mut lines: Vec<&'a str> = split_str(s, '\n');
    if cs.len() > 0 && cs[cs.len() - 1] == '\n' {
        let ghost all = strs(lines@);
        lines.pop();
        assert(strs(lines@) =~= all.drop_last());
    }
    lines
}

/// `s` without one carriage return at its end.
pub open spec fn without_cr(s: Seq<char>) -> Seq<char> {
    if s.len() > 0 && s.last() == '\r' {
        s.drop_last()
    } else {
        s
    }
}

/// Drops one carriage return at the end.
pub fn strip_cr<'a>(s: &'a str) -> (r: &'a str)
    ensures
        r@ == without_cr(s@),
{
    let cs: Vec<char> = chars_of(s);
    if cs.len() > 0 && cs[cs.len() - 1] == '\r' {
        proof {
            lemma_byte_len_take(s@, s@.len() - 1);
            assert(s@.take(s@.len() as int) =~= s@);
            assert(s@.take(s@.len() - 1) =~= s@.drop_last());
        }
        let total: usize = bytes_in(s);
        let (head, _cr): (&'a str, &'a str) = cut_str(s, total - 1, Ghost(s@.len() - 1));
        head
    } else {
        s
    }
}

/// `s` without its whitespace.
pub open spec fn squeezed(s: Seq<char>) -> Seq<char>
    decreases s.len(),
{
    if s.len() == 0 {
        s
    } else if white_space(s.last()) {
        squeezed(s.drop_last())
    } else {
        squeezed(s.drop_last()).push(s.last())
    }
}

/// The characters that are not whitespace.
pub fn squeeze(s: &str) -> (r: Vec<char>)
    ensures
        r@ == squeezed(s@),
{
    let cs: Vec<char> = chars_of(s);
    let mut out: Vec<char> = Vec::new();
    let mut i: usize = 0;
    assert(out@ =~= squeezed(s@.take(0)));
    while i < cs.len()
        invariant
            i <= cs.len(),
            cs@ == s@,
            out@ == squeezed(s@.take(i as int)),
        decreases cs.len() - i,
    {
        assert(s@.take(i + 1).drop_last() =~= s@.take(i as int));
        if !cs[i].is_whitespace() {
            out.push(cs[i]);
        }
        i += 1;
    }
    assert(s@.take(s@.len() as int) =~= s@);
    out
}

} // verus!
