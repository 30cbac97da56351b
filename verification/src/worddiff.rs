//! Intra-line word-diff: tokenization, token-level longest common
//! subsequence, changed-range building, similarity gating, and remove/add
//! line pairing.
//!
//! A line splits into maximal runs of word chars (Unicode letters, digits and
//! underscore), whitespace, or punctuation. Offsets are byte offsets into the
//! original line.

use vstd::prelude::*;
use vstd::utf8::encode_utf8;

use crate::text::{
    alphanumeric, byte_len, bytes_in, char_width, chars_of, lemma_byte_len_take,
    lemma_byte_len_take_grows, same_chars, width,
};

verus! {

/// A changed byte-offset range within a line. `end` is exclusive.
#[derive(Debug, Clone, Copy, PartialEq, Eq, Structural)]
pub struct Range {
    pub start: u32,
    pub end: u32,
}

/// Intra-line diff is skipped for lines longer than this many bytes, which
/// bounds the quadratic work on pathological input.
pub const MAX_LINE_LEN_FOR_DIFF: usize = 500;

/// Minimum percentage of common non-whitespace tokens for highlighting; pairs
/// below this get no intra-line overlay.
pub const SIMILARITY_THRESHOLD: u32 = 30;

/// Greedy pairing is skipped for change blocks where removes*adds exceeds
/// this product; such blocks fall back to positional 1:1 pairing.
pub const MAX_GREEDY_PAIR_PRODUCT: usize = 250_000;

#[derive(Debug, Clone, Copy, PartialEq, Eq, Structural)]
pub enum TokenClass {
    Word,
    Whitespace,
    Punct,
}

// ------------------------------------------------------------------- tokens

/// The class of a character.
pub open spec fn class_of(c: char) -> TokenClass {
    if alphanumeric(c) || c == '_' {
        TokenClass::Word
    } else if c == ' ' || c == '\t' || c == '\n' || c == '\x0c' || c == '\r' {
        TokenClass::Whitespace
    } else {
        TokenClass::Punct
    }
}

/// A maximal run of characters of one class, with its byte offsets.
#[verifier::ext_equal]
pub struct TokenModel {
    pub text: Seq<char>,
    pub start: nat,
    pub end: nat,
    pub class: TokenClass,
}

/// The maximal runs of a line.
pub open spec fn tokens_of(line: Seq<char>) -> Seq<TokenModel>
    decreases line.len(),
{
    if line.len() == 0 {
        Seq::empty()
    } else {
        let before = tokens_of(line.drop_last());
        let c = line.last();
        if before.len() > 0 && before.last().class == class_of(c) {
            before.drop_last().push(
                TokenModel {
                    text: before.last().text.push(c),
                    end: byte_len(line),
                    ..before.last()
                },
            )
        } else {
            before.push(
                TokenModel {
                    text: seq![c],
                    start: byte_len(line.drop_last()),
                    end: byte_len(line),
                    class: class_of(c),
                },
            )
        }
    }
}

/// The texts of tokens.
pub open spec fn token_texts(tokens: Seq<TokenModel>) -> Seq<Seq<char>> {
    Seq::new(tokens.len(), |i: int| tokens[i].text)
}

/// Tokens tile the line: they start where the one before ends, none is empty,
/// and the last ends at the end of the line.
pub open spec fn tiles(tokens: Seq<TokenModel>, line: Seq<char>) -> bool {
    &&& tokens.len() <= line.len()
    &&& tokens.len() == 0 <==> line.len() == 0
    &&& tokens.len() > 0 ==> tokens[0].start == 0 && tokens.last().end == byte_len(line)
    &&& forall|i: int| 0 <= i < tokens.len() ==> (#[trigger] tokens[i]).start < tokens[i].end
    &&& forall|i: int, j: int|
        0 <= i && j == i + 1 && j < tokens.len() ==> (#[trigger] tokens[i]).end == (
        #[trigger] tokens[j]).start
}

/// Whether a byte offset stands between two characters of the line.
pub open spec fn at_boundary(line: Seq<char>, offset: nat) -> bool {
    exists|k: int| 0 <= k <= line.len() && byte_len(#[trigger] line.take(k)) == offset
}

pub proof fn lemma_tokens_tile(line: Seq<char>)
    ensures
        tiles(tokens_of(line), line),
    decreases line.len(),
{
    if line.len() > 0 {
        lemma_tokens_tile(line.drop_last());
        let before = tokens_of(line.drop_last());
        let after = tokens_of(line);
        assert(byte_len(line) == byte_len(line.drop_last()) + char_width(line.last()));
        if before.len() == 0 {
            assert(line.drop_last().len() == 0);
            assert(byte_len(line.drop_last()) == 0);
        }
        assert forall|i: int, j: int| 0 <= i && j == i + 1 && j < after.len() implies (
        #[trigger] after[i]).end == (#[trigger] after[j]).start by {
            if j < before.len() {
                assert(before[i].end == before[j].start);
            }
        }
    }
}

/// Tokens start and end between characters.
pub proof fn lemma_tokens_at_boundaries(line: Seq<char>)
    ensures
        forall|i: int|
            0 <= i < tokens_of(line).len() ==> at_boundary(
                line,
                (#[trigger] tokens_of(line)[i]).start,
            ) && at_boundary(line, tokens_of(line)[i].end),
    decreases line.len(),
{
    if line.len() > 0 {
        let before = tokens_of(line.drop_last());
        lemma_tokens_at_boundaries(line.drop_last());
        assert forall|o: nat| at_boundary(line.drop_last(), o) implies at_boundary(line, o) by {
            let k = choose|k: int|
                0 <= k <= line.drop_last().len() && byte_len(
                    #[trigger] line.drop_last().take(k),
                ) == o;
            assert(line.take(k) =~= line.drop_last().take(k));
        }
        assert(line.take(line.len() as int) =~= line);
        assert(line.take(line.len() - 1) =~= line.drop_last());
        assert(at_boundary(line, byte_len(line)));
        assert(at_boundary(line, byte_len(line.drop_last())));
        assert forall|i: int| 0 <= i < tokens_of(line).len() implies at_boundary(
            line,
            (#[trigger] tokens_of(line)[i]).start,
        ) && at_boundary(line, tokens_of(line)[i].end) by {
            if i < before.len() {
                assert(at_boundary(line.drop_last(), before[i].start));
                assert(at_boundary(line.drop_last(), before[i].end));
            }
        }
    }
}

pub struct Token {
    pub text: Vec<char>,
    pub start: u32,
    pub end: u32,
    pub class: TokenClass,
}

impl DeepView for Token {
    type V = TokenModel;

    open spec fn deep_view(&self) -> TokenModel {
        TokenModel {
            text: self.text@,
            start: self.start as nat,
            end: self.end as nat,
            class: self.class,
        }
    }
}

/// The class of a character: ASCII whitespace counts as whitespace, every
/// other character that is not a word character as punctuation.
fn char_class(c: char) -> (r: TokenClass)
    ensures
        r == class_of(c),
{
    if c.is_alphanumeric() || c == '_' {
        TokenClass::Word
    } else if c == ' ' || c == '\t' || c == '\n' || c == '\x0c' || c == '\r' {
        TokenClass::Whitespace
    } else {
        TokenClass::Punct
    }
}

/// Split a line into maximal runs of word, whitespace, and punctuation chars.
pub fn tokenize(line: &[char]) -> (r: Vec<Token>)
    requires
        byte_len(line@) <= u32::MAX,
    ensures
        r.deep_view() == tokens_of(line@),
{
    let mut done: Vec<Token> = Vec::new();
    if line.len() == 0 {
        assert(done.deep_view() =~= tokens_of(line@));
        return done;
    }
    let mut text: Vec<char> = Vec::new();
    text.push(line[0]);
    let mut start: u32 = 0;
    let mut pos: u32 = width(line[0]) as u32;
    let mut class: TokenClass = char_class(line[0]);
    let mut i: usize = 1;
    proof {
        assert(line@.take(1).drop_last() =~= Seq::<char>::empty());
        assert(byte_len(line@.take(1)) == char_width(line@[0])) by {
            reveal_with_fuel(byte_len, 2);
        }
        reveal_with_fuel(tokens_of, 2);
        assert(done.deep_view().push(
            TokenModel { text: text@, start: start as nat, end: pos as nat, class },
        ) =~= tokens_of(line@.take(1)));
    }
    while i < line.len()
        invariant
            1 <= i <= line.len(),
            byte_len(line@) <= u32::MAX,
            pos == byte_len(line@.take(i as int)),
            done.deep_view().push(
                TokenModel { text: text@, start: start as nat, end: pos as nat, class },
            ) == tokens_of(line@.take(i as int)),
        decreases line.len() - i,
    {
        let c: char = line[i];
        let next: TokenClass = char_class(c);
        let ghost current = TokenModel { text: text@, start: start as nat, end: pos as nat, class };
        let ghost before = done.deep_view().push(current);
        proof {
            assert(line@.take(i + 1).drop_last() =~= line@.take(i as int));
            lemma_byte_len_take(line@, i as int);
            lemma_byte_len_take_grows(line@, i + 1, line@.len() as int);
            assert(line@.take(line@.len() as int) =~= line@);
            assert(before.drop_last() =~= done.deep_view());
        }
        if next != class {
            let token = Token { text, start, end: pos, class };
            assert(token.deep_view() == current);
            done.push(token);
            assert(done.deep_view() =~= before);
            text = Vec::new();
            start = pos;
            class = next;
        }
        text.push(c);
        pos = pos + width(c) as u32;
        assert(next != current.class ==> text@ =~= seq![c]);
        i += 1;
        assert(done.deep_view().push(
            TokenModel { text: text@, start: start as nat, end: pos as nat, class },
        ) =~= tokens_of(line@.take(i as int)));
    }
    let token = Token { text, start, end: pos, class };
    let ghost model = token.deep_view();
    let ghost before = done.deep_view();
    done.push(token);
    assert(done.deep_view() =~= before.push(model));
    assert(line@.take(line@.len() as int) =~= line@);
    done
}

// ---------------------------------------------- longest common subsequence

/// Length of the longest common subsequence of the first `i` items of `a` and
/// the first `j` of `b`.
pub open spec fn lcs_len(a: Seq<Seq<char>>, b: Seq<Seq<char>>, i: int, j: int) -> nat
    decreases i, j,
{
    if i <= 0 || j <= 0 {
        0
    } else if a[i - 1] == b[j - 1] {
        lcs_len(a, b, i - 1, j - 1) + 1
    } else if lcs_len(a, b, i - 1, j) >= lcs_len(a, b, i, j - 1) {
        lcs_len(a, b, i - 1, j)
    } else {
        lcs_len(a, b, i, j - 1)
    }
}

/// The common subsequence that is kept, as pairs of positions in `a` and `b`:
/// equal ends are matched, and between two equally good ways on the left side
/// gives up its item first.
pub open spec fn lcs_pairs(a: Seq<Seq<char>>, b: Seq<Seq<char>>, i: int, j: int) -> Seq<(int, int)>
    decreases i, j,
{
    if i <= 0 || j <= 0 {
        Seq::empty()
    } else if a[i - 1] == b[j - 1] {
        lcs_pairs(a, b, i - 1, j - 1).push((i - 1, j - 1))
    } else if lcs_len(a, b, i - 1, j) >= lcs_len(a, b, i, j - 1) {
        lcs_pairs(a, b, i - 1, j)
    } else {
        lcs_pairs(a, b, i, j - 1)
    }
}

/// Whether position `k` of the left side is in a pair.
pub open spec fn kept_left(pairs: Seq<(int, int)>, k: int) -> bool {
    exists|p: int| 0 <= p < pairs.len() && (#[trigger] pairs[p]).0 == k
}

/// Whether position `k` of the right side is in a pair.
pub open spec fn kept_right(pairs: Seq<(int, int)>, k: int) -> bool {
    exists|p: int| 0 <= p < pairs.len() && (#[trigger] pairs[p]).1 == k
}

/// Whether the pairs name a common subsequence of the first `i` items of `a`
/// and the first `j` of `b`.
pub open spec fn common_subsequence(
    a: Seq<Seq<char>>,
    b: Seq<Seq<char>>,
    i: int,
    j: int,
    pairs: Seq<(int, int)>,
) -> bool {
    &&& forall|p: int|
        0 <= p < pairs.len() ==> 0 <= (#[trigger] pairs[p]).0 < i && 0 <= pairs[p].1 < j
            && a[pairs[p].0] == b[pairs[p].1]
    &&& forall|p: int, q: int|
        0 <= p < q < pairs.len() ==> (#[trigger] pairs[p]).0 < (#[trigger] pairs[q]).0
            && pairs[p].1 < pairs[q].1
}

/// The kept pairs are a common subsequence, of the length that `lcs_len` says.
pub proof fn kept_pairs_are_common(a: Seq<Seq<char>>, b: Seq<Seq<char>>, i: int, j: int)
    requires
        0 <= i <= a.len(),
        0 <= j <= b.len(),
    ensures
        common_subsequence(a, b, i, j, lcs_pairs(a, b, i, j)),
        lcs_pairs(a, b, i, j).len() == lcs_len(a, b, i, j),
        lcs_len(a, b, i, j) <= i,
        lcs_len(a, b, i, j) <= j,
    decreases i, j,
{
    if i > 0 && j > 0 {
        if a[i - 1] == b[j - 1] {
            kept_pairs_are_common(a, b, i - 1, j - 1);
        } else {
            kept_pairs_are_common(a, b, i - 1, j);
            kept_pairs_are_common(a, b, i, j - 1);
        }
    }
}

/// No common subsequence is longer than the kept one.
pub proof fn kept_pairs_are_longest(
    a: Seq<Seq<char>>,
    b: Seq<Seq<char>>,
    i: int,
    j: int,
    pairs: Seq<(int, int)>,
)
    requires
        0 <= i <= a.len(),
        0 <= j <= b.len(),
        common_subsequence(a, b, i, j, pairs),
    ensures
        pairs.len() <= lcs_len(a, b, i, j),
    decreases i, j,
{
    if pairs.len() > 0 {
        let last = pairs.last();
        let init = pairs.drop_last();
        assert(0 <= pairs[pairs.len() - 1].0 < i);
        assert forall|p: int| 0 <= p < init.len() implies init[p].0 < last.0 && init[p].1
            < last.1 by {
            assert(pairs[p].0 < pairs[pairs.len() - 1].0);
        }
        if a[i - 1] == b[j - 1] {
            assert(common_subsequence(a, b, i - 1, j - 1, init)) by {
                assert forall|p: int| 0 <= p < init.len() implies 0 <= (#[trigger] init[p]).0 < i
                    - 1 && 0 <= init[p].1 < j - 1 && a[init[p].0] == b[init[p].1] by {
                    assert(init[p] == pairs[p]);
                }
                assert forall|p: int, q: int| 0 <= p < q < init.len() implies (
                #[trigger] init[p]).0 < (#[trigger] init[q]).0 && init[p].1 < init[q].1 by {
                    assert(pairs[p].0 < pairs[q].0);
                }
            }
            kept_pairs_are_longest(a, b, i - 1, j - 1, init);
        } else if last.0 < i - 1 {
            assert(common_subsequence(a, b, i - 1, j, pairs)) by {
                assert forall|p: int| 0 <= p < pairs.len() implies 0 <= (#[trigger] pairs[p]).0 < i
                    - 1 && 0 <= pairs[p].1 < j && a[pairs[p].0] == b[pairs[p].1] by {
                    if p < init.len() {
                        assert(init[p] == pairs[p]);
                    }
                }
            }
            kept_pairs_are_longest(a, b, i - 1, j, pairs);
        } else {
            assert(last.1 < j - 1);
            assert(common_subsequence(a, b, i, j - 1, pairs)) by {
                assert forall|p: int| 0 <= p < pairs.len() implies 0 <= (#[trigger] pairs[p]).0 < i
                    && 0 <= pairs[p].1 < j - 1 && a[pairs[p].0] == b[pairs[p].1] by {
                    if p < init.len() {
                        assert(init[p] == pairs[p]);
                    }
                }
            }
            kept_pairs_are_longest(a, b, i, j - 1, pairs);
        }
    }
}

proof fn lemma_kept_push(pairs: Seq<(int, int)>, x: int, y: int, k: int)
    ensures
        kept_left(pairs.push((x, y)), k) <==> kept_left(pairs, k) || k == x,
        kept_right(pairs.push((x, y)), k) <==> kept_right(pairs, k) || k == y,
{
    let more = pairs.push((x, y));
    assert(more[pairs.len() as int] == (x, y));
    if kept_left(pairs, k) {
        let p = choose|p: int| 0 <= p < pairs.len() && (#[trigger] pairs[p]).0 == k;
        assert(more[p].0 == k);
    }
    if kept_right(pairs, k) {
        let p = choose|p: int| 0 <= p < pairs.len() && (#[trigger] pairs[p]).1 == k;
        assert(more[p].1 == k);
    }
    if kept_left(more, k) {
        let p = choose|p: int| 0 <= p < more.len() && (#[trigger] more[p]).0 == k;
        assert(p < pairs.len() ==> pairs[p].0 == k);
    }
    if kept_right(more, k) {
        let p = choose|p: int| 0 <= p < more.len() && (#[trigger] more[p]).1 == k;
        assert(p < pairs.len() ==> pairs[p].1 == k);
    }
}

/// Whether `flags` together with the pairs of `rest` mark the left items of
/// `pairs`.
spec fn left_marked(pairs: Seq<(int, int)>, flags: Seq<bool>, rest: Seq<(int, int)>) -> bool {
    forall|k: int|
        0 <= k < flags.len() ==> kept_left(pairs, k) == (#[trigger] flags[k] || kept_left(rest, k))
}

/// Whether `flags` together with the pairs of `rest` mark the right items of
/// `pairs`.
spec fn right_marked(pairs: Seq<(int, int)>, flags: Seq<bool>, rest: Seq<(int, int)>) -> bool {
    forall|k: int|
        0 <= k < flags.len() ==> kept_right(pairs, k) == (#[trigger] flags[k] || kept_right(
            rest,
            k,
        ))
}

proof fn lemma_mark_pair(
    pairs: Seq<(int, int)>,
    left: Seq<bool>,
    right: Seq<bool>,
    rest: Seq<(int, int)>,
    x: int,
    y: int,
)
    requires
        left_marked(pairs, left, rest.push((x, y))),
        right_marked(pairs, right, rest.push((x, y))),
        0 <= x < left.len(),
        0 <= y < right.len(),
    ensures
        left_marked(pairs, left.update(x, true), rest),
        right_marked(pairs, right.update(y, true), rest),
{
    assert forall|k: int| 0 <= k < left.len() implies kept_left(pairs, k) == (
    #[trigger] left.update(x, true)[k] || kept_left(rest, k)) by {
        assert(kept_left(pairs, k) == (left[k] || kept_left(rest.push((x, y)), k)));
        lemma_kept_push(rest, x, y, k);
    }
    assert forall|k: int| 0 <= k < right.len() implies kept_right(pairs, k) == (
    #[trigger] right.update(y, true)[k] || kept_right(rest, k)) by {
        assert(kept_right(pairs, k) == (right[k] || kept_right(rest.push((x, y)), k)));
        lemma_kept_push(rest, x, y, k);
    }
}

/// The table of `lcs_len` for all prefixes.
fn lcs_table(minus: &[Token], plus: &[Token]) -> (r: Vec<Vec<u32>>)
    requires
        minus.len() < u32::MAX,
        plus.len() < u32::MAX,
    ensures
        r.len() == minus.len() + 1,
        forall|i: int| 0 <= i <= minus.len() ==> (#[trigger] r[i]).len() == plus.len() + 1,
        forall|i: int, j: int|
            0 <= i <= minus.len() && 0 <= j <= plus.len() ==> #[trigger] r[i][j] == lcs_len(
                token_texts(minus.deep_view()),
                token_texts(plus.deep_view()),
                i,
                j,
            ),
{
    let ghost a = token_texts(minus.deep_view());
    let ghost b = token_texts(plus.deep_view());
    let mut table: Vec<Vec<u32>> = Vec::new();
    let mut i: usize = 0;
    while i <= minus.len()
        invariant
            minus.len() < u32::MAX,
            plus.len() < u32::MAX,
            i <= minus.len() + 1,
            a == token_texts(minus.deep_view()),
            b == token_texts(plus.deep_view()),
            table.len() == i,
            forall|x: int| 0 <= x < i ==> (#[trigger] table[x]).len() == plus.len() + 1,
            forall|x: int, y: int|
                0 <= x < i && 0 <= y <= plus.len() ==> #[trigger] table[x][y] == lcs_len(
                    a,
                    b,
                    x,
                    y,
                ),
        decreases minus.len() + 1 - i,
    {
        let mut row: Vec<u32> = Vec::new();
        let mut j: usize = 0;
        while j <= plus.len()
            invariant
                i <= minus.len() < u32::MAX,
                plus.len() < u32::MAX,
                j <= plus.len() + 1,
                a == token_texts(minus.deep_view()),
                b == token_texts(plus.deep_view()),
                table.len() == i,
                forall|x: int| 0 <= x < i ==> (#[trigger] table[x]).len() == plus.len() + 1,
                forall|x: int, y: int|
                    0 <= x < i && 0 <= y <= plus.len() ==> #[trigger] table[x][y] == lcs_len(
                        a,
                        b,
                        x,
                        y,
                    ),
                row.len() == j,
                forall|y: int| 0 <= y < j ==> #[trigger] row[y] == lcs_len(a, b, i as int, y),
            decreases plus.len() + 1 - j,
        {
            let value: u32 = if i == 0 || j == 0 {
                0
            } else if same_chars(minus[i - 1].text.as_slice(), plus[j - 1].text.as_slice()) {
                proof {
                    kept_pairs_are_common(a, b, i - 1, j - 1);
                    assert(table[i - 1][j - 1] == lcs_len(a, b, i - 1, j - 1));
                    assert(a[i - 1] == minus[i - 1].text@);
                    assert(b[j - 1] == plus[j - 1].text@);
                }
                table[i - 1][j - 1] + 1
            } else {
                assert(a[i - 1] == minus[i - 1].text@);
                assert(b[j - 1] == plus[j - 1].text@);
                assert(table[i - 1][j as int] == lcs_len(a, b, i - 1, j as int));
                assert(row[j - 1] == lcs_len(a, b, i as int, j - 1));
                if table[i - 1][j] >= row[j - 1] {
                    table[i - 1][j]
                } else {
                    row[j - 1]
                }
            };
            row.push(value);
            j += 1;
        }
        table.push(row);
        i += 1;
    }
    table
}

/// Compute which tokens on each side are kept (unchanged) via token-level
/// longest common subsequence. Returns boolean vectors parallel to the token
/// slices: true = kept.
fn lcs_kept_tokens(minus: &[Token], plus: &[Token]) -> (r: (Vec<bool>, Vec<bool>))
    requires
        minus.len() < u32::MAX,
        plus.len() < u32::MAX,
    ensures
        ({
            let pairs = lcs_pairs(
                token_texts(minus.deep_view()),
                token_texts(plus.deep_view()),
                minus.len() as int,
                plus.len() as int,
            );
            &&& r.0@ == Seq::new(minus@.len(), |k: int| kept_left(pairs, k))
            &&& r.1@ == Seq::new(plus@.len(), |k: int| kept_right(pairs, k))
        }),
{
    let ghost a = token_texts(minus.deep_view());
    let ghost b = token_texts(plus.deep_view());
    let ghost pairs = lcs_pairs(a, b, minus.len() as int, plus.len() as int);
    let table: Vec<Vec<u32>> = lcs_table(minus, plus);
    let mut keep_minus: Vec<bool> = vec![false; minus.len()];
    let mut keep_plus: Vec<bool> = vec![false; plus.len()];
    let mut i: usize = minus.len();
    let mut j: usize = plus.len();
    while i > 0 && j > 0
        invariant
            i <= minus.len(),
            j <= plus.len(),
            a == token_texts(minus.deep_view()),
            b == token_texts(plus.deep_view()),
            table.len() == minus.len() + 1,
            forall|x: int| 0 <= x <= minus.len() ==> (#[trigger] table[x]).len() == plus.len() + 1,
            forall|x: int, y: int|
                0 <= x <= minus.len() && 0 <= y <= plus.len() ==> #[trigger] table[x][y]
                    == lcs_len(a, b, x, y),
            keep_minus.len() == minus.len(),
            keep_plus.len() == plus.len(),
            left_marked(pairs, keep_minus@, lcs_pairs(a, b, i as int, j as int)),
            right_marked(pairs, keep_plus@, lcs_pairs(a, b, i as int, j as int)),
        decreases i + j,
    {
        assert(a[i - 1] == minus[i - 1].text@);
        assert(b[j - 1] == plus[j - 1].text@);
        if same_chars(minus[i - 1].text.as_slice(), plus[j - 1].text.as_slice()) {
            proof {
                let rest = lcs_pairs(a, b, i - 1, j - 1);
                assert(lcs_pairs(a, b, i as int, j as int) == rest.push((i - 1, j - 1)));
                lemma_mark_pair(pairs, keep_minus@, keep_plus@, rest, i - 1, j - 1);
            }
            keep_minus[i - 1] = true;
            keep_plus[j - 1] = true;
            i -= 1;
            j -= 1;
        } else {
            assert(table[i - 1][j as int] == lcs_len(a, b, i - 1, j as int));
            assert(table[i as int][j - 1] == lcs_len(a, b, i as int, j - 1));
            if table[i - 1][j] >= table[i][j - 1] {
                assert(lcs_pairs(a, b, i as int, j as int) == lcs_pairs(a, b, i - 1, j as int));
                i -= 1;
            } else {
                assert(lcs_pairs(a, b, i as int, j as int) == lcs_pairs(a, b, i as int, j - 1));
                j -= 1;
            }
        }
    }
    assert(lcs_pairs(a, b, i as int, j as int).len() == 0);
    assert(keep_minus@ =~= Seq::new(minus@.len(), |k: int| kept_left(pairs, k)));
    assert(keep_plus@ =~= Seq::new(plus@.len(), |k: int| kept_right(pairs, k)));
    (keep_minus, keep_plus)
}

// -------------------------------------------------------------- changed ranges

/// Whether token `i` is marked as changed: not kept, and not whitespace.
pub open spec fn changed(tokens: Seq<TokenModel>, keep: Seq<bool>, i: int) -> bool {
    !keep[i] && tokens[i].class != TokenClass::Whitespace
}

/// The byte ranges of the maximal runs of changed tokens among the first `n`.
pub open spec fn changed_ranges(tokens: Seq<TokenModel>, keep: Seq<bool>, n: int) -> Seq<Range>
    decreases n,
{
    if n <= 0 {
        Seq::empty()
    } else {
        let before = changed_ranges(tokens, keep, n - 1);
        let end = tokens[n - 1].end as u32;
        if !changed(tokens, keep, n - 1) {
            before
        } else if n >= 2 && changed(tokens, keep, n - 2) {
            before.drop_last().push(Range { start: before.last().start, end })
        } else {
            before.push(Range { start: tokens[n - 1].start as u32, end })
        }
    }
}

proof fn lemma_changed_run_open(tokens: Seq<TokenModel>, keep: Seq<bool>, n: int)
    requires
        n > 0,
        changed(tokens, keep, n - 1),
    ensures
        changed_ranges(tokens, keep, n).len() > 0,
    decreases n,
{
}

/// Convert token keep flags into merged byte-offset ranges. Adjacent changed
/// non-whitespace tokens merge into one range; whitespace tokens are excluded
/// and break merging.
fn build_changed_ranges(tokens: &[Token], keep: &[bool]) -> (r: Vec<Range>)
    requires
        tokens.len() == keep.len(),
    ensures
        r@ == changed_ranges(tokens.deep_view(), keep@, tokens.len() as int),
{
    let ghost model = tokens.deep_view();
    let mut ranges: Vec<Range> = Vec::new();
    let mut open: bool = false;
    let mut i: usize = 0;
    while i < tokens.len()
        invariant
            i <= tokens.len(),
            tokens.len() == keep.len(),
            model == tokens.deep_view(),
            ranges@ == changed_ranges(model, keep@, i as int),
            open == (i > 0 && changed(model, keep@, i - 1)),
        decreases tokens.len() - i,
    {
        assert(model[i as int] == tokens[i as int].deep_view());
        if keep[i] || tokens[i].class == TokenClass::Whitespace {
            open = false;
        } else if open {
            proof {
                lemma_changed_run_open(model, keep@, i as int);
            }
            let n: usize = ranges.len();
            let start: u32 = ranges[n - 1].start;
            let ghost before = ranges@;
            ranges[n - 1] = Range { start, end: tokens[i].end };
            assert(ranges@ =~= before.drop_last().push(ranges@.last()));
        } else {
            ranges.push(Range { start: tokens[i].start, end: tokens[i].end });
            open = true;
        }
        i += 1;
    }
    ranges
}

/// Number of tokens among the first `n` that are not whitespace.
pub open spec fn words_among(tokens: Seq<TokenModel>, n: int) -> nat
    decreases n,
{
    if n <= 0 {
        0
    } else {
        words_among(tokens, n - 1) + if tokens[n - 1].class != TokenClass::Whitespace {
            1nat
        } else {
            0
        }
    }
}

/// Number of kept tokens among the first `n` that are not whitespace.
pub open spec fn kept_words_among(tokens: Seq<TokenModel>, keep: Seq<bool>, n: int) -> nat
    decreases n,
{
    if n <= 0 {
        0
    } else {
        kept_words_among(tokens, keep, n - 1) + if keep[n - 1] && tokens[n - 1].class
            != TokenClass::Whitespace {
            1nat
        } else {
            0
        }
    }
}

fn count_non_whitespace(tokens: &[Token]) -> (r: usize)
    ensures
        r == words_among(tokens.deep_view(), tokens.len() as int),
        r <= tokens.len(),
{
    let ghost model = tokens.deep_view();
    let mut count: usize = 0;
    let mut i: usize = 0;
    while i < tokens.len()
        invariant
            count <= i <= tokens.len(),
            model == tokens.deep_view(),
            count == words_among(model, i as int),
        decreases tokens.len() - i,
    {
        assert(model[i as int] == tokens[i as int].deep_view());
        if tokens[i].class != TokenClass::Whitespace {
            count += 1;
        }
        i += 1;
    }
    count
}

fn count_kept(tokens: &[Token], keep: &[bool]) -> (r: usize)
    requires
        tokens.len() == keep.len(),
    ensures
        r == kept_words_among(tokens.deep_view(), keep@, tokens.len() as int),
        r <= tokens.len(),
{
    let ghost model = tokens.deep_view();
    let mut count: usize = 0;
    let mut i: usize = 0;
    while i < tokens.len()
        invariant
            count <= i <= tokens.len(),
            tokens.len() == keep.len(),
            model == tokens.deep_view(),
            count == kept_words_among(model, keep@, i as int),
        decreases tokens.len() - i,
    {
        assert(model[i as int] == tokens[i as int].deep_view());
        if keep[i] && tokens[i].class != TokenClass::Whitespace {
            count += 1;
        }
        i += 1;
    }
    count
}

/// Whether the sides share enough: the kept words, in percent of the words of
/// the side that has fewer.
pub open spec fn similar(minus: Seq<TokenModel>, plus: Seq<TokenModel>, keep: Seq<bool>) -> bool {
    let m = words_among(minus, minus.len() as int);
    let p = words_among(plus, plus.len() as int);
    let shorter = if m <= p {
        m
    } else {
        p
    };
    shorter > 0 && kept_words_among(minus, keep, minus.len() as int) * 100 >= shorter
        * SIMILARITY_THRESHOLD
}

/// True when the pair shares at least [`SIMILARITY_THRESHOLD`] percent common
/// non-whitespace tokens, measured against the shorter side.
fn passes_similarity_gate(minus: &[Token], plus: &[Token], keep_minus: &[bool]) -> (r: bool)
    requires
        minus.len() == keep_minus.len(),
        minus.len() <= 1_000_000,
        plus.len() <= 1_000_000,
    ensures
        r == similar(minus.deep_view(), plus.deep_view(), keep_minus@),
{
    let equal: usize = count_kept(minus, keep_minus);
    let m: usize = count_non_whitespace(minus);
    let p: usize = count_non_whitespace(plus);
    let shorter: usize = if m <= p {
        m
    } else {
        p
    };
    if shorter == 0 {
        return false;
    }
    equal * 100 >= shorter * SIMILARITY_THRESHOLD as usize
}

/// The keep flags of both sides of a token pair.
pub open spec fn keep_flags(minus: Seq<TokenModel>, plus: Seq<TokenModel>) -> (
    Seq<bool>,
    Seq<bool>,
) {
    let pairs = lcs_pairs(
        token_texts(minus),
        token_texts(plus),
        minus.len() as int,
        plus.len() as int,
    );
    (
        Seq::new(minus.len(), |k: int| kept_left(pairs, k)),
        Seq::new(plus.len(), |k: int| kept_right(pairs, k)),
    )
}

/// The changed ranges of a pair of lines, where the pair is worth marking.
pub open spec fn intra_ranges(minus_line: Seq<char>, plus_line: Seq<char>) -> Option<
    (Seq<Range>, Seq<Range>),
> {
    let minus = tokens_of(minus_line);
    let plus = tokens_of(plus_line);
    let (keep_minus, keep_plus) = keep_flags(minus, plus);
    let minus_ranges = changed_ranges(minus, keep_minus, minus.len() as int);
    let plus_ranges = changed_ranges(plus, keep_plus, plus.len() as int);
    if minus_line.len() == 0 || plus_line.len() == 0 {
        None
    } else if byte_len(minus_line) > MAX_LINE_LEN_FOR_DIFF || byte_len(plus_line)
        > MAX_LINE_LEN_FOR_DIFF {
        None
    } else if minus_ranges.len() == 0 && plus_ranges.len() == 0 {
        None
    } else if !similar(minus, plus, keep_minus) {
        None
    } else {
        Some((minus_ranges, plus_ranges))
    }
}

/// Compute changed byte-offset ranges for a minus/plus line pair.
///
/// Returns None when either line is empty, exceeds
/// [`MAX_LINE_LEN_FOR_DIFF`], is identical after tokenization, or fails the
/// similarity gate.
pub fn compute_intra_ranges(minus_line: &str, plus_line: &str) -> (r: Option<
    (Vec<Range>, Vec<Range>),
>)
    ensures
        match intra_ranges(minus_line@, plus_line@) {
            Some(ranges) => r matches Some(v) && v.0@ == ranges.0 && v.1@ == ranges.1,
            None => r is None,
        },
{
    if minus_line.is_empty() || plus_line.is_empty() {
        return None;
    }
    if bytes_in(minus_line) > MAX_LINE_LEN_FOR_DIFF || bytes_in(plus_line)
        > MAX_LINE_LEN_FOR_DIFF {
        return None;
    }
    let minus_toks: Vec<Token> = tokenize(chars_of(minus_line).as_slice());
    let plus_toks: Vec<Token> = tokenize(chars_of(plus_line).as_slice());
    proof {
        lemma_tokens_tile(minus_line@);
        lemma_tokens_tile(plus_line@);
        lemma_byte_len_take_grows(minus_line@, 0, minus_line@.len() as int);
        lemma_byte_len_take_grows(plus_line@, 0, plus_line@.len() as int);
        assert(minus_line@.take(minus_line@.len() as int) =~= minus_line@);
        assert(plus_line@.take(plus_line@.len() as int) =~= plus_line@);
        assert(minus_toks.deep_view().len() == minus_toks@.len());
        assert(plus_toks.deep_view().len() == plus_toks@.len());
    }
    let minus: &[Token] = minus_toks.as_slice();
    let plus: &[Token] = plus_toks.as_slice();
    assert(minus.deep_view() =~= tokens_of(minus_line@));
    assert(plus.deep_view() =~= tokens_of(plus_line@));
    let (keep_minus, keep_plus): (Vec<bool>, Vec<bool>) = lcs_kept_tokens(minus, plus);
    let minus_ranges: Vec<Range> = build_changed_ranges(minus, keep_minus.as_slice());
    let plus_ranges: Vec<Range> = build_changed_ranges(plus, keep_plus.as_slice());
    if minus_ranges.len() == 0 && plus_ranges.len() == 0 {
        return None;
    }
    if !passes_similarity_gate(minus, plus, keep_minus.as_slice()) {
        return None;
    }
    Some((minus_ranges, plus_ranges))
}

// ---------------------------------------------------------------- range laws

/// Whether the ranges are what a front end may draw over the line: in order,
/// apart from each other, none empty, inside the line and cut between
/// characters.
pub open spec fn sound_ranges(ranges: Seq<Range>, line: Seq<char>) -> bool {
    &&& forall|i: int|
        0 <= i < ranges.len() ==> (#[trigger] ranges[i]).start < ranges[i].end <= byte_len(line)
            && at_boundary(line, ranges[i].start as nat) && at_boundary(line, ranges[i].end as nat)
    &&& forall|i: int, j: int|
        0 <= i < j < ranges.len() ==> (#[trigger] ranges[i]).end <= (#[trigger] ranges[j]).start
}

proof fn lemma_token_bounds(tokens: Seq<TokenModel>, line: Seq<char>, i: int, j: int)
    requires
        tiles(tokens, line),
        0 <= i <= j < tokens.len(),
    ensures
        tokens[i].start <= tokens[j].start,
        tokens[i].end <= tokens[j].end,
        i < j ==> tokens[i].end <= tokens[j].start,
        tokens[j].end <= byte_len(line),
    decreases j - i, tokens.len() - j,
{
    if i < j {
        lemma_token_bounds(tokens, line, i, j - 1);
        assert(tokens[j - 1].end == tokens[j].start);
    }
    if j < tokens.len() - 1 {
        lemma_token_bounds(tokens, line, j + 1, j + 1);
        assert(tokens[j].end == tokens[j + 1].start);
    }
}

proof fn lemma_ranges_sound(tokens: Seq<TokenModel>, keep: Seq<bool>, line: Seq<char>, n: int)
    requires
        tiles(tokens, line),
        byte_len(line) <= u32::MAX,
        0 <= n <= tokens.len() == keep.len(),
        forall|i: int|
            0 <= i < tokens.len() ==> at_boundary(line, (#[trigger] tokens[i]).start)
                && at_boundary(line, tokens[i].end),
    ensures
        sound_ranges(changed_ranges(tokens, keep, n), line),
        changed_ranges(tokens, keep, n).len() > 0 ==> n > 0 && changed_ranges(
            tokens,
            keep,
            n,
        ).last().end <= tokens[n - 1].end,
        n > 0 && changed(tokens, keep, n - 1) ==> changed_ranges(tokens, keep, n).len() > 0
            && changed_ranges(tokens, keep, n).last().end == tokens[n - 1].end,
    decreases n,
{
    if n > 0 {
        lemma_ranges_sound(tokens, keep, line, n - 1);
        lemma_token_bounds(tokens, line, n - 1, n - 1);
        if n >= 2 {
            lemma_token_bounds(tokens, line, n - 2, n - 1);
        }
        let before = changed_ranges(tokens, keep, n - 1);
        let now = changed_ranges(tokens, keep, n);
        assert(tokens[n - 1].start < tokens[n - 1].end);
        assert(at_boundary(line, tokens[n - 1].start));
        if before.len() > 0 {
            assert forall|i: int| 0 <= i < before.len() implies (#[trigger] before[i]).end
                <= before.last().end by {
                if i < before.len() - 1 {
                    assert(before[i].end <= before[before.len() - 1].start);
                }
            }
        }
    }
}

/// Marked ranges can always be drawn over their lines.
pub proof fn intra_ranges_are_sound(minus_line: Seq<char>, plus_line: Seq<char>)
    ensures
        intra_ranges(minus_line, plus_line) matches Some(ranges) ==> sound_ranges(
            ranges.0,
            minus_line,
        ) && sound_ranges(ranges.1, plus_line),
{
    if intra_ranges(minus_line, plus_line) is Some {
        let minus = tokens_of(minus_line);
        let plus = tokens_of(plus_line);
        lemma_tokens_tile(minus_line);
        lemma_tokens_tile(plus_line);
        lemma_tokens_at_boundaries(minus_line);
        lemma_tokens_at_boundaries(plus_line);
        let (keep_minus, keep_plus) = keep_flags(minus, plus);
        lemma_ranges_sound(minus, keep_minus, minus_line, minus.len() as int);
        lemma_ranges_sound(plus, keep_plus, plus_line, plus.len() as int);
    }
}

proof fn lemma_identical_pairs(a: Seq<Seq<char>>, i: int, k: int)
    requires
        0 <= k < i <= a.len(),
    ensures
        kept_left(lcs_pairs(a, a, i, i), k),
        kept_right(lcs_pairs(a, a, i, i), k),
    decreases i,
{
    lemma_kept_push(lcs_pairs(a, a, i - 1, i - 1), i - 1, i - 1, k);
    if k < i - 1 {
        lemma_identical_pairs(a, i - 1, k);
    }
}

proof fn lemma_all_kept_no_ranges(tokens: Seq<TokenModel>, keep: Seq<bool>, n: int)
    requires
        0 <= n <= tokens.len() == keep.len(),
        forall|k: int| 0 <= k < keep.len() ==> keep[k],
    ensures
        changed_ranges(tokens, keep, n).len() == 0,
    decreases n,
{
    if n > 0 {
        lemma_all_kept_no_ranges(tokens, keep, n - 1);
    }
}

/// Identical lines are never marked.
pub proof fn identical_lines_have_no_ranges(line: Seq<char>)
    ensures
        intra_ranges(line, line) is None,
{
    let tokens = tokens_of(line);
    let (keep_minus, keep_plus) = keep_flags(tokens, tokens);
    assert forall|k: int| 0 <= k < tokens.len() implies keep_minus[k] && keep_plus[k] by {
        lemma_identical_pairs(token_texts(tokens), tokens.len() as int, k);
    }
    lemma_all_kept_no_ranges(tokens, keep_minus, tokens.len() as int);
    lemma_all_kept_no_ranges(tokens, keep_plus, tokens.len() as int);
}

// -------------------------------------------------------------- line pairing

/// A line of content with its change direction, input to [`pair_lines`].
#[derive(Debug, Clone, Copy)]
pub struct LinePair<'a> {
    pub content: &'a str,
    pub is_remove: bool,
}

/// A matched remove/add pair; indices point into the [`pair_lines`] input.
#[derive(Debug, Clone, Copy, PartialEq, Eq, Structural)]
pub struct Pair {
    pub remove_idx: usize,
    pub add_idx: usize,
}

/// A line of a change block: its text, and whether it is removed.
#[verifier::ext_equal]
pub struct BlockLine {
    pub content: Seq<char>,
    pub is_remove: bool,
}

/// The model of a change block.
pub open spec fn block_of(lines: Seq<LinePair<'_>>) -> Seq<BlockLine> {
    Seq::new(
        lines.len(),
        |i: int| BlockLine { content: lines[i].content@, is_remove: lines[i].is_remove },
    )
}

/// Positions among the first `n` of the lines with the given direction.
pub open spec fn positions(block: Seq<BlockLine>, is_remove: bool, n: int) -> Seq<int>
    decreases n,
{
    if n <= 0 {
        Seq::empty()
    } else if block[n - 1].is_remove == is_remove {
        positions(block, is_remove, n - 1).push(n - 1)
    } else {
        positions(block, is_remove, n - 1)
    }
}

/// Number of equal bytes at the start.
pub open spec fn shared_prefix(a: Seq<u8>, b: Seq<u8>) -> nat
    decreases a.len(),
{
    if a.len() > 0 && b.len() > 0 && a[0] == b[0] {
        1 + shared_prefix(a.drop_first(), b.drop_first())
    } else {
        0
    }
}

/// Number of equal bytes at the end.
pub open spec fn shared_suffix(a: Seq<u8>, b: Seq<u8>) -> nat
    decreases a.len(),
{
    if a.len() > 0 && b.len() > 0 && a.last() == b.last() {
        1 + shared_suffix(a.drop_last(), b.drop_last())
    } else {
        0
    }
}

/// How well two lines match: twice the bytes they share at either end.
pub open spec fn match_score(a: Seq<char>, b: Seq<char>) -> nat {
    2 * shared_prefix(encode_utf8(a), encode_utf8(b)) + 2 * shared_suffix(
        encode_utf8(a),
        encode_utf8(b),
    )
}

/// Among the first `n` candidates that are not used, the first of those that
/// match the line best.
pub open spec fn best_candidate(
    block: Seq<BlockLine>,
    line: int,
    longer: Seq<int>,
    used: Seq<int>,
    n: int,
) -> Option<int>
    decreases n,
{
    if n <= 0 {
        None
    } else {
        let before = best_candidate(block, line, longer, used, n - 1);
        if used.contains(n - 1) {
            before
        } else {
            match before {
                None => Some(n - 1),
                Some(b) => if match_score(block[line].content, block[longer[n - 1]].content)
                    > match_score(block[line].content, block[longer[b]].content) {
                    Some(n - 1)
                } else {
                    before
                },
            }
        }
    }
}

/// For each of the first `k` lines of the shorter side in turn, the candidate
/// of the longer side that it takes.
pub open spec fn greedy_choices(
    block: Seq<BlockLine>,
    shorter: Seq<int>,
    longer: Seq<int>,
    k: int,
) -> Seq<int>
    decreases k,
{
    if k <= 0 {
        Seq::empty()
    } else {
        let before = greedy_choices(block, shorter, longer, k - 1);
        match best_candidate(block, shorter[k - 1], longer, before, longer.len() as int) {
            Some(b) => before.push(b),
            None => before,
        }
    }
}

/// The pairs `(remove, add)` of a change block.
pub open spec fn block_pairs(block: Seq<BlockLine>) -> Seq<(int, int)> {
    let removes = positions(block, true, block.len() as int);
    let adds = positions(block, false, block.len() as int);
    if removes.len() == adds.len() || removes.len() * adds.len() > MAX_GREEDY_PAIR_PRODUCT
        || removes.len() == 0 || adds.len() == 0 {
        let n = if removes.len() <= adds.len() {
            removes.len()
        } else {
            adds.len()
        };
        Seq::new(n, |i: int| (removes[i], adds[i]))
    } else if adds.len() < removes.len() {
        let chosen = greedy_choices(block, adds, removes, adds.len() as int);
        Seq::new(chosen.len(), |i: int| (removes[chosen[i]], adds[i]))
    } else {
        let chosen = greedy_choices(block, removes, adds, removes.len() as int);
        Seq::new(chosen.len(), |i: int| (removes[i], adds[chosen[i]]))
    }
}

/// The model of a list of pairs.
pub open spec fn pair_models(pairs: Seq<Pair>) -> Seq<(int, int)> {
    Seq::new(pairs.len(), |i: int| (pairs[i].remove_idx as int, pairs[i].add_idx as int))
}

/// The model of a list of positions.
pub open spec fn ints(v: Seq<usize>) -> Seq<int> {
    Seq::new(v.len(), |i: int| v[i] as int)
}

/// Positions are in range, in order, and of lines with the direction.
pub proof fn lemma_positions(block: Seq<BlockLine>, is_remove: bool, n: int)
    requires
        0 <= n <= block.len(),
    ensures
        positions(block, is_remove, n).len() <= n,
        forall|i: int|
            0 <= i < positions(block, is_remove, n).len() ==> 0 <= (#[trigger] positions(
                block,
                is_remove,
                n,
            )[i]) < n && block[positions(block, is_remove, n)[i]].is_remove == is_remove,
        forall|i: int, j: int|
            0 <= i < j < positions(block, is_remove, n).len() ==> (#[trigger] positions(
                block,
                is_remove,
                n,
            )[i]) < (#[trigger] positions(block, is_remove, n)[j]),
    decreases n,
{
    if n > 0 {
        lemma_positions(block, is_remove, n - 1);
    }
}

fn common_prefix_len(a: &str, b: &str) -> (r: usize)
    ensures
        r == shared_prefix(encode_utf8(a@), encode_utf8(b@)),
{
    let x: &[u8] = a.as_bytes();
    let y: &[u8] = b.as_bytes();
    let mut i: usize = 0;
    assert(x@.skip(0) =~= x@);
    assert(y@.skip(0) =~= y@);
    while i < x.len() && i < y.len() && x[i] == y[i]
        invariant
            i <= x.len(),
            i <= y.len(),
            shared_prefix(x@, y@) == i + shared_prefix(x@.skip(i as int), y@.skip(i as int)),
        decreases x.len() - i,
    {
        assert(x@.skip(i as int).drop_first() =~= x@.skip(i + 1));
        assert(y@.skip(i as int).drop_first() =~= y@.skip(i + 1));
        i += 1;
    }
    i
}

fn common_suffix_len(a: &str, b: &str) -> (r: usize)
    ensures
        r == shared_suffix(encode_utf8(a@), encode_utf8(b@)),
{
    let x: &[u8] = a.as_bytes();
    let y: &[u8] = b.as_bytes();
    let mut i: usize = 0;
    assert(x@.take(x@.len() as int) =~= x@);
    assert(y@.take(y@.len() as int) =~= y@);
    while i < x.len() && i < y.len() && x[x.len() - 1 - i] == y[y.len() - 1 - i]
        invariant
            i <= x.len(),
            i <= y.len(),
            shared_suffix(x@, y@) == i + shared_suffix(x@.take(x.len() - i), y@.take(y.len() - i)),
        decreases x.len() - i,
    {
        assert(x@.take(x.len() - i).drop_last() =~= x@.take(x.len() - i - 1));
        assert(y@.take(y.len() - i).drop_last() =~= y@.take(y.len() - i - 1));
        i += 1;
    }
    i
}

fn score(a: &str, b: &str) -> (r: u128)
    ensures
        r == match_score(a@, b@),
{
    2 * common_prefix_len(a, b) as u128 + 2 * common_suffix_len(a, b) as u128
}

/// The flags of the used candidates.
spec fn flags_match(flags: Seq<bool>, used: Seq<int>) -> bool {
    forall|i: int| 0 <= i < flags.len() ==> #[trigger] flags[i] == used.contains(i)
}

proof fn lemma_best_in_range(
    block: Seq<BlockLine>,
    line: int,
    longer: Seq<int>,
    used: Seq<int>,
    n: int,
)
    ensures
        best_candidate(block, line, longer, used, n) matches Some(b) ==> 0 <= b < n
            && !used.contains(b),
    decreases n,
{
    if n > 0 {
        lemma_best_in_range(block, line, longer, used, n - 1);
    }
}

/// The best unused candidate for one line.
fn pick(lines: &[LinePair<'_>], line: usize, longer: &[usize], used: &[bool], Ghost(
    used_model,
): Ghost<Seq<int>>) -> (r: Option<usize>)
    requires
        line < lines.len(),
        used.len() == longer.len(),
        forall|i: int| 0 <= i < longer.len() ==> (#[trigger] longer[i]) < lines.len(),
        flags_match(used@, used_model),
    ensures
        match best_candidate(
            block_of(lines@),
            line as int,
            ints(longer@),
            used_model,
            longer.len() as int,
        ) {
            Some(b) => r == Some(b as usize) && 0 <= b < longer.len(),
            None => r is None,
        },
{
    let ghost block = block_of(lines@);
    let ghost cands = ints(longer@);
    let mut best: Option<usize> = None;
    let mut best_score: u128 = 0;
    let mut i: usize = 0;
    while i < longer.len()
        invariant
            i <= longer.len(),
            line < lines.len(),
            used.len() == longer.len(),
            block == block_of(lines@),
            cands == ints(longer@),
            forall|k: int| 0 <= k < longer.len() ==> (#[trigger] longer[k]) < lines.len(),
            flags_match(used@, used_model),
            match best {
                Some(b) => b < i && best_candidate(
                    block,
                    line as int,
                    cands,
                    used_model,
                    i as int,
                ) == Some(b as int) && best_score == match_score(
                    block[line as int].content,
                    block[cands[b as int]].content,
                ),
                None => best_candidate(block, line as int, cands, used_model, i as int) is None,
            },
        decreases longer.len() - i,
    {
        assert(used@[i as int] == used_model.contains(i as int));
        if !used[i] {
            let s: u128 = score(lines[line].content, lines[longer[i]].content);
            assert(s == match_score(block[line as int].content, block[cands[i as int]].content));
            match best {
                Some(_) => {
                    if s > best_score {
                        best = Some(i);
                        best_score = s;
                    }
                },
                None => {
                    best = Some(i);
                    best_score = s;
                },
            }
        }
        i += 1;
    }
    best
}

/// Greedy best-match choice: for each line of the shorter side, the best
/// unused line of the longer side.
fn greedy_pair(lines: &[LinePair<'_>], shorter: &[usize], longer: &[usize]) -> (r: Vec<usize>)
    requires
        forall|i: int| 0 <= i < shorter.len() ==> (#[trigger] shorter[i]) < lines.len(),
        forall|i: int| 0 <= i < longer.len() ==> (#[trigger] longer[i]) < lines.len(),
    ensures
        ints(r@) == greedy_choices(
            block_of(lines@),
            ints(shorter@),
            ints(longer@),
            shorter.len() as int,
        ),
        forall|i: int| 0 <= i < r.len() ==> (#[trigger] r[i]) < longer.len(),
        r.len() <= shorter.len(),
{
    let ghost block = block_of(lines@);
    let ghost short = ints(shorter@);
    let ghost long = ints(longer@);
    let mut used: Vec<bool> = vec![false; longer.len()];
    let mut chosen: Vec<usize> = Vec::new();
    let mut k: usize = 0;
    assert(ints(chosen@) =~= Seq::<int>::empty());
    while k < shorter.len()
        invariant
            k <= shorter.len(),
            chosen.len() <= k,
            block == block_of(lines@),
            short == ints(shorter@),
            long == ints(longer@),
            forall|i: int| 0 <= i < shorter.len() ==> (#[trigger] shorter[i]) < lines.len(),
            forall|i: int| 0 <= i < longer.len() ==> (#[trigger] longer[i]) < lines.len(),
            used.len() == longer.len(),
            ints(chosen@) == greedy_choices(block, short, long, k as int),
            flags_match(used@, ints(chosen@)),
            forall|i: int| 0 <= i < chosen.len() ==> (#[trigger] chosen[i]) < longer.len(),
        decreases shorter.len() - k,
    {
        let ghost before = ints(chosen@);
        assert(short[k as int] == shorter[k as int]);
        match pick(lines, shorter[k], longer, used.as_slice(), Ghost(before)) {
            Some(b) => {
                used[b] = true;
                chosen.push(b);
                assert(ints(chosen@) =~= before.push(b as int));
                assert forall|i: int| 0 <= i < used@.len() implies #[trigger] used@[i] == ints(
                    chosen@,
                ).contains(i) by {
                    let now = before.push(b as int);
                    if before.contains(i) {
                        let p = choose|p: int| 0 <= p < before.len() && before[p] == i;
                        assert(now[p] == i);
                    }
                    if now.contains(i) && i != b {
                        let p = choose|p: int| 0 <= p < now.len() && now[p] == i;
                        assert(before[p] == i);
                    }
                    assert(now[before.len() as int] == b);
                }
            },
            None => {},
        }
        k += 1;
    }
    chosen
}

/// Positions of the lines with the given direction.
fn collect_positions(lines: &[LinePair<'_>], is_remove: bool) -> (r: Vec<usize>)
    ensures
        ints(r@) == positions(block_of(lines@), is_remove, lines.len() as int),
        forall|i: int| 0 <= i < r.len() ==> (#[trigger] r[i]) < lines.len(),
{
    let ghost block = block_of(lines@);
    let mut out: Vec<usize> = Vec::new();
    let mut i: usize = 0;
    assert(ints(out@) =~= Seq::<int>::empty());
    while i < lines.len()
        invariant
            i <= lines.len(),
            block == block_of(lines@),
            ints(out@) == positions(block, is_remove, i as int),
            forall|k: int| 0 <= k < out.len() ==> (#[trigger] out[k]) < lines.len(),
        decreases lines.len() - i,
    {
        if lines[i].is_remove == is_remove {
            let ghost before = ints(out@);
            out.push(i);
            assert(ints(out@) =~= before.push(i as int));
        }
        i += 1;
    }
    out
}

/// Pair remove and add lines within one contiguous change block.
/// Equal-length runs pair 1:1 in order; unequal runs use greedy best-match
/// scoring by common prefix plus suffix bytes. Unpaired lines are pure
/// additions or removals.
pub fn pair_lines(lines: &[LinePair<'_>]) -> (r: Vec<Pair>)
    ensures
        pair_models(r@) == block_pairs(block_of(lines@)),
{
    let removes: Vec<usize> = collect_positions(lines, true);
    let adds: Vec<usize> = collect_positions(lines, false);
    let mut pairs: Vec<Pair> = Vec::new();
    let too_many: bool = match removes.len().checked_mul(adds.len()) {
        Some(product) => product > MAX_GREEDY_PAIR_PRODUCT,
        None => true,
    };
    let ghost rs = ints(removes@);
    let ghost ad = ints(adds@);
    let ghost goal = block_pairs(block_of(lines@));
    assert(rs == positions(block_of(lines@), true, block_of(lines@).len() as int));
    assert(ad == positions(block_of(lines@), false, block_of(lines@).len() as int));
    let mut i: usize = 0;
    assert(pair_models(pairs@) =~= goal.take(0));
    if removes.len() == adds.len() || too_many || removes.len() == 0 || adds.len() == 0 {
        while i < removes.len() && i < adds.len()
            invariant
                i <= removes.len(),
                i <= adds.len(),
                goal == Seq::new(
                    if removes.len() <= adds.len() {
                        removes.len() as nat
                    } else {
                        adds.len() as nat
                    },
                    |k: int| (removes[k] as int, adds[k] as int),
                ),
                pair_models(pairs@) == goal.take(i as int),
            decreases removes.len() - i,
        {
            let ghost before = pair_models(pairs@);
            pairs.push(Pair { remove_idx: removes[i], add_idx: adds[i] });
            assert(pair_models(pairs@) =~= before.push(goal[i as int]));
            assert(goal.take(i + 1) =~= goal.take(i as int).push(goal[i as int]));
            i += 1;
        }
        assert(goal.take(i as int) =~= goal);
    } else if adds.len() < removes.len() {
        let chosen: Vec<usize> = greedy_pair(lines, adds.as_slice(), removes.as_slice());
        let ghost ch = ints(chosen@);
        while i < chosen.len()
            invariant
                i <= chosen.len() <= adds.len(),
                forall|k: int| 0 <= k < chosen.len() ==> (#[trigger] chosen[k]) < removes.len(),
                goal == Seq::new(
                    chosen@.len(),
                    |k: int| (removes[chosen[k] as int] as int, adds[k] as int),
                ),
                pair_models(pairs@) == goal.take(i as int),
            decreases chosen.len() - i,
        {
            let ghost before = pair_models(pairs@);
            pairs.push(Pair { remove_idx: removes[chosen[i]], add_idx: adds[i] });
            assert(pair_models(pairs@) =~= before.push(goal[i as int]));
            assert(goal.take(i + 1) =~= goal.take(i as int).push(goal[i as int]));
            i += 1;
        }
        assert(goal.take(i as int) =~= goal);
    } else {
        let chosen: Vec<usize> = greedy_pair(lines, removes.as_slice(), adds.as_slice());
        let ghost ch = ints(chosen@);
        while i < chosen.len()
            invariant
                i <= chosen.len() <= removes.len(),
                forall|k: int| 0 <= k < chosen.len() ==> (#[trigger] chosen[k]) < adds.len(),
                goal == Seq::new(
                    chosen@.len(),
                    |k: int| (removes[k] as int, adds[chosen[k] as int] as int),
                ),
                pair_models(pairs@) == goal.take(i as int),
            decreases chosen.len() - i,
        {
            let ghost before = pair_models(pairs@);
            pairs.push(Pair { remove_idx: removes[i], add_idx: adds[chosen[i]] });
            assert(pair_models(pairs@) =~= before.push(goal[i as int]));
            assert(goal.take(i + 1) =~= goal.take(i as int).push(goal[i as int]));
            i += 1;
        }
        assert(goal.take(i as int) =~= goal);
    }
    pairs
}

/// The greedy choices are distinct candidates.
proof fn lemma_choices_distinct(block: Seq<BlockLine>, shorter: Seq<int>, longer: Seq<int>, k: int)
    ensures
        greedy_choices(block, shorter, longer, k).no_duplicates(),
        greedy_choices(block, shorter, longer, k).len() <= if k <= 0 {
            0
        } else {
            k
        },
        forall|i: int|
            0 <= i < greedy_choices(block, shorter, longer, k).len() ==> 0 <= (
            #[trigger] greedy_choices(block, shorter, longer, k)[i]) < longer.len(),
    decreases k,
{
    if k > 0 {
        lemma_choices_distinct(block, shorter, longer, k - 1);
        let before = greedy_choices(block, shorter, longer, k - 1);
        lemma_best_in_range(block, shorter[k - 1], longer, before, longer.len() as int);
        let now = greedy_choices(block, shorter, longer, k);
        assert forall|i: int, j: int| 0 <= i < now.len() && 0 <= j < now.len() && i
            != j implies now[i] != now[j] by {
            if i < before.len() && j < before.len() {
                assert(before[i] != before[j]);
            }
        }
    }
}

/// Every pair joins a removed with an added line of the block, and no line is
/// in two pairs.
pub proof fn pairing_never_reuses_a_line(block: Seq<BlockLine>)
    ensures
        forall|i: int|
            0 <= i < block_pairs(block).len() ==> {
                let p = #[trigger] block_pairs(block)[i];
                &&& 0 <= p.0 < block.len()
                &&& 0 <= p.1 < block.len()
                &&& block[p.0].is_remove
                &&& !block[p.1].is_remove
            },
        forall|i: int, j: int|
            0 <= i < j < block_pairs(block).len() ==> (#[trigger] block_pairs(block)[i]).0 != (
            #[trigger] block_pairs(block)[j]).0 && block_pairs(block)[i].1 != block_pairs(
                block,
            )[j].1,
{
    let removes = positions(block, true, block.len() as int);
    let adds = positions(block, false, block.len() as int);
    lemma_positions(block, true, block.len() as int);
    lemma_positions(block, false, block.len() as int);
    lemma_choices_distinct(block, adds, removes, adds.len() as int);
    lemma_choices_distinct(block, removes, adds, removes.len() as int);
    let pairs = block_pairs(block);
    assert forall|i: int, j: int| 0 <= i < j < pairs.len() implies (#[trigger] pairs[i]).0 != (
    #[trigger] pairs[j]).0 && pairs[i].1 != pairs[j].1 by {
        if removes.len() == adds.len() || removes.len() * adds.len() > MAX_GREEDY_PAIR_PRODUCT
            || removes.len() == 0 || adds.len() == 0 {
            assert(removes[i] < removes[j] && adds[i] < adds[j]);
        } else if adds.len() < removes.len() {
            let chosen = greedy_choices(block, adds, removes, adds.len() as int);
            assert(chosen[i] != chosen[j]);
            assert(adds[i] < adds[j]);
            assert(removes[chosen[i]] != removes[chosen[j]]);
        } else {
            let chosen = greedy_choices(block, removes, adds, removes.len() as int);
            assert(chosen[i] != chosen[j]);
            assert(removes[i] < removes[j]);
            assert(adds[chosen[i]] != adds[chosen[j]]);
        }
    }
}

} // verus!
