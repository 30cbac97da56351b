//! What pairing and word-diff promise: which lines go together, and which bytes
//! of them are marked.

use vstd::prelude::*;
use vstd::set_lib::{lemma_int_range, lemma_len_subset, set_int_range};
use vstd::utf8::encode_utf8;

use crate::text::{alphanumeric, byte_len};
use crate::worddiff::{
    best_candidate, block_pairs, changed, changed_ranges, class_of, common_subsequence,
    greedy_choices, intra_ranges, keep_flags, kept_left, kept_pairs_are_common,
    kept_pairs_are_longest, kept_right, kept_words_among, lcs_pairs, lemma_positions,
    lemma_tokens_tile, match_score, positions, shared_prefix, shared_suffix, tiles, token_texts,
    tokens_of, words_among, BlockLine, Range, TokenClass, TokenModel,
};

verus! {

// ------------------------------------------------------------------- pairing

/// Number of removed lines, or of added ones.
pub open spec fn how_many(block: Seq<BlockLine>, removed: bool) -> nat
    decreases block.len(),
{
    if block.len() == 0 {
        0
    } else if block.last().is_remove == removed {
        how_many(block.drop_last(), removed) + 1
    } else {
        how_many(block.drop_last(), removed)
    }
}

/// Whether two byte strings agree in exactly their first `k` bytes.
pub open spec fn agree_at_start(a: Seq<u8>, b: Seq<u8>, k: int) -> bool {
    &&& 0 <= k <= a.len()
    &&& k <= b.len()
    &&& a.take(k) == b.take(k)
    &&& k < a.len() && k < b.len() ==> a[k] != b[k]
}

/// Whether two byte strings agree in exactly their last `k` bytes.
pub open spec fn agree_at_end(a: Seq<u8>, b: Seq<u8>, k: int) -> bool {
    &&& 0 <= k <= a.len()
    &&& k <= b.len()
    &&& a.skip(a.len() - k) == b.skip(b.len() - k)
    &&& k < a.len() && k < b.len() ==> a[a.len() - 1 - k] != b[b.len() - 1 - k]
}

/// Whether two texts share `n` bytes at start and end, taken together.
pub open spec fn share(a: Seq<char>, b: Seq<char>, n: int) -> bool {
    exists|p: int, s: int|
        #![trigger agree_at_start(encode_utf8(a), encode_utf8(b), p), agree_at_end(
            encode_utf8(a),
            encode_utf8(b),
            s,
        )]
        agree_at_start(encode_utf8(a), encode_utf8(b), p) && agree_at_end(
            encode_utf8(a),
            encode_utf8(b),
            s,
        ) && n == p + s
}

proof fn lemma_prefix(a: Seq<u8>, b: Seq<u8>)
    ensures
        agree_at_start(a, b, shared_prefix(a, b) as int),
        forall|k: int| #[trigger] agree_at_start(a, b, k) ==> k == shared_prefix(a, b),
    decreases a.len(),
{
    let n = shared_prefix(a, b) as int;
    if a.len() > 0 && b.len() > 0 && a[0] == b[0] {
        let x = a.drop_first();
        let y = b.drop_first();
        lemma_prefix(x, y);
        assert(x.take(n - 1) == y.take(n - 1));
        assert(a.take(n) =~= seq![a[0]] + x.take(n - 1));
        assert(b.take(n) =~= seq![b[0]] + y.take(n - 1));
        assert(agree_at_start(a, b, n)) by {
            if n < a.len() && n < b.len() {
                assert(x[n - 1] != y[n - 1]);
            }
        }
    } else {
        assert(a.take(0) =~= b.take(0));
    }
    assert forall|k: int| #[trigger] agree_at_start(a, b, k) implies k == n by {
        if k < n {
            assert(a.take(n)[k] == b.take(n)[k]);
        } else if n < k {
            assert(a.take(k)[n] == b.take(k)[n]);
        }
    }
}

proof fn lemma_suffix(a: Seq<u8>, b: Seq<u8>)
    ensures
        agree_at_end(a, b, shared_suffix(a, b) as int),
        forall|k: int| #[trigger] agree_at_end(a, b, k) ==> k == shared_suffix(a, b),
    decreases a.len(),
{
    let n = shared_suffix(a, b) as int;
    if a.len() > 0 && b.len() > 0 && a.last() == b.last() {
        let x = a.drop_last();
        let y = b.drop_last();
        lemma_suffix(x, y);
        assert(x.skip(x.len() - (n - 1)) == y.skip(y.len() - (n - 1)));
        assert(a.skip(a.len() - n) =~= x.skip(x.len() - (n - 1)).push(a.last()));
        assert(b.skip(b.len() - n) =~= y.skip(y.len() - (n - 1)).push(b.last()));
        assert(agree_at_end(a, b, n)) by {
            if n < a.len() && n < b.len() {
                assert(x[x.len() - 1 - (n - 1)] != y[y.len() - 1 - (n - 1)]);
            }
        }
    } else {
        assert(a.skip(a.len() as int) =~= b.skip(b.len() as int));
    }
    assert forall|k: int| #[trigger] agree_at_end(a, b, k) implies k == n by {
        if k < n {
            assert(a.skip(a.len() - n)[n - 1 - k] == b.skip(b.len() - n)[n - 1 - k]);
        } else if n < k {
            assert(a.skip(a.len() - k)[k - 1 - n] == b.skip(b.len() - k)[k - 1 - n]);
        }
    }
}

proof fn lemma_share(a: Seq<char>, b: Seq<char>, n: int)
    ensures
        share(a, b, n) <==> match_score(a, b) == 2 * n,
{
    let x = encode_utf8(a);
    let y = encode_utf8(b);
    lemma_prefix(x, y);
    lemma_suffix(x, y);
    if match_score(a, b) == 2 * n {
        assert(agree_at_start(x, y, shared_prefix(x, y) as int) && agree_at_end(
            x,
            y,
            shared_suffix(x, y) as int,
        ));
    }
}

/// The positions of a direction are counted by the lines before them, and none
/// is left out.
proof fn lemma_positions_counted(block: Seq<BlockLine>, removed: bool, n: int)
    requires
        0 <= n <= block.len(),
    ensures
        positions(block, removed, n).len() == how_many(block.take(n), removed),
        forall|i: int|
            0 <= i < positions(block, removed, n).len() ==> how_many(
                block.take(#[trigger] positions(block, removed, n)[i]),
                removed,
            ) == i,
        forall|q: int|
            0 <= q < n && (#[trigger] block[q]).is_remove == removed ==> positions(
                block,
                removed,
                n,
            ).contains(q),
    decreases n,
{
    let all = positions(block, removed, n);
    if n > 0 {
        lemma_positions_counted(block, removed, n - 1);
        let before = positions(block, removed, n - 1);
        assert(block.take(n).drop_last() =~= block.take(n - 1));
        assert(block.take(n).last() == block[n - 1]);
        assert forall|i: int| 0 <= i < all.len() implies how_many(
            block.take(#[trigger] all[i]),
            removed,
        ) == i by {
            if i < before.len() {
                assert(all[i] == before[i]);
            }
        }
        assert forall|q: int| 0 <= q < n && (#[trigger] block[q]).is_remove
            == removed implies all.contains(q) by {
            if q < n - 1 {
                assert(before.contains(q));
                let i = choose|i: int| 0 <= i < before.len() && before[i] == q;
                assert(all[i] == q);
            } else {
                assert(all[before.len() as int] == q);
            }
        }
    } else {
        assert(block.take(0) =~= Seq::empty());
    }
}

/// The best candidate is free and shares most; of equals it is the first.
proof fn lemma_best(
    block: Seq<BlockLine>,
    line: int,
    longer: Seq<int>,
    used: Seq<int>,
    n: int,
)
    ensures
        match best_candidate(block, line, longer, used, n) {
            Some(b) => {
                &&& 0 <= b < n
                &&& !used.contains(b)
                &&& forall|k: int|
                    #![trigger longer[k]]
                    0 <= k < n && !used.contains(k) ==> match_score(
                        block[line].content,
                        block[longer[k]].content,
                    ) <= match_score(block[line].content, block[longer[b]].content)
                &&& forall|k: int|
                    #![trigger longer[k]]
                    0 <= k < b && !used.contains(k) ==> match_score(
                        block[line].content,
                        block[longer[k]].content,
                    ) < match_score(block[line].content, block[longer[b]].content)
            },
            None => forall|k: int| 0 <= k < n ==> #[trigger] used.contains(k),
        },
    decreases n,
{
    if n > 0 {
        lemma_best(block, line, longer, used, n - 1);
    }
}

/// There is always a free candidate while fewer are used than there are.
proof fn lemma_some_free(used: Seq<int>, n: int)
    requires
        used.no_duplicates(),
        used.len() < n,
    ensures
        exists|k: int| 0 <= k < n && !(#[trigger] used.contains(k)),
{
    if forall|k: int| 0 <= k < n ==> #[trigger] used.contains(k) {
        let all = set_int_range(0, n);
        lemma_int_range(0, n);
        used.unique_seq_to_set();
        assert(used.to_set().finite());
        assert forall|k: int| all.contains(k) implies used.to_set().contains(k) by {
            assert(used.contains(k));
        }
        assert(all.subset_of(used.to_set()));
        lemma_len_subset(all, used.to_set());
    }
}

proof fn lemma_choices(block: Seq<BlockLine>, shorter: Seq<int>, longer: Seq<int>, k: int)
    requires
        0 <= k <= shorter.len(),
        shorter.len() < longer.len(),
    ensures
        ({
            let all = greedy_choices(block, shorter, longer, k);
            &&& all.len() == k
            &&& all.no_duplicates()
            &&& forall|i: int|
                0 <= i < k ==> {
                    let c = #[trigger] all[i];
                    &&& 0 <= c < longer.len()
                    &&& forall|m: int|
                        #![trigger longer[m]]
                        0 <= m < longer.len() && !all.take(i).contains(m) ==> {
                            let ours = match_score(
                                block[shorter[i]].content,
                                block[longer[c]].content,
                            );
                            let theirs = match_score(
                                block[shorter[i]].content,
                                block[longer[m]].content,
                            );
                            theirs < ours || theirs == ours && c <= m
                        }
                }
        }),
    decreases k,
{
    if k > 0 {
        lemma_choices(block, shorter, longer, k - 1);
        let before = greedy_choices(block, shorter, longer, k - 1);
        let all = greedy_choices(block, shorter, longer, k);
        lemma_best(block, shorter[k - 1], longer, before, longer.len() as int);
        lemma_some_free(before, longer.len() as int);
        let b = best_candidate(block, shorter[k - 1], longer, before, longer.len() as int)->0;
        assert(all == before.push(b));
        assert forall|i: int, j: int| 0 <= i < all.len() && 0 <= j < all.len() && i
            != j implies all[i] != all[j] by {
            if i < before.len() && j < before.len() {
                assert(before[i] != before[j]);
            }
        }
        assert forall|i: int| 0 <= i < k implies {
            let c = #[trigger] all[i];
            &&& 0 <= c < longer.len()
            &&& forall|m: int|
                #![trigger longer[m]]
                0 <= m < longer.len() && !all.take(i).contains(m) ==> {
                    let ours = match_score(block[shorter[i]].content, block[longer[c]].content);
                    let theirs = match_score(block[shorter[i]].content, block[longer[m]].content);
                    theirs < ours || theirs == ours && c <= m
                }
        } by {
            if i < k - 1 {
                assert(all[i] == before[i]);
                assert(all.take(i) =~= before.take(i));
            } else {
                assert(all.take(i) =~= before);
            }
        }
    }
}

/// The line of a pair that is of a direction.
pub open spec fn member(pair: (int, int), removed: bool) -> int {
    if removed {
        pair.0
    } else {
        pair.1
    }
}

/// Whether the pairs take the lines of a direction in turn, all of them from the
/// first on.
pub open spec fn taken_in_turn(
    block: Seq<BlockLine>,
    pairs: Seq<(int, int)>,
    removed: bool,
) -> bool {
    forall|i: int|
        0 <= i < pairs.len() ==> {
            let at = member(#[trigger] pairs[i], removed);
            &&& 0 <= at < block.len()
            &&& block[at].is_remove == removed
            &&& how_many(block.take(at), removed) == i
        }
}

/// Runs of one length pair line by line, in order; so do runs of unequal length
/// that are too long to compare, as far as the shorter one reaches.
pub proof fn equal_runs_pair_in_order(block: Seq<BlockLine>)
    requires
        how_many(block, true) == how_many(block, false) || how_many(block, true) * how_many(
            block,
            false,
        ) > 250_000,
    ensures
        taken_in_turn(block, block_pairs(block), true),
        taken_in_turn(block, block_pairs(block), false),
        block_pairs(block).len() == if how_many(block, true) <= how_many(block, false) {
            how_many(block, true)
        } else {
            how_many(block, false)
        },
{
    let n = block.len() as int;
    assert(block.take(n) =~= block);
    lemma_positions(block, true, n);
    lemma_positions(block, false, n);
    lemma_positions_counted(block, true, n);
    lemma_positions_counted(block, false, n);
    let removes = positions(block, true, n);
    let adds = positions(block, false, n);
    let pairs = block_pairs(block);
    assert forall|i: int| 0 <= i < pairs.len() implies pairs[i] == (removes[i], adds[i]) by {}
}

/// The line of a pair that is of the other direction.
pub open spec fn partner(pair: (int, int), removed: bool) -> int {
    if removed {
        pair.1
    } else {
        pair.0
    }
}

/// Whether a line shares more bytes with the one chosen for it than with
/// another, or as many and the chosen one comes first.
pub open spec fn prefers(block: Seq<BlockLine>, line: int, chosen: int, other: int) -> bool {
    forall|ours: int, theirs: int|
        #![trigger share(block[line].content, block[chosen].content, ours), share(
            block[line].content,
            block[other].content,
            theirs,
        )]
        share(block[line].content, block[chosen].content, ours) && share(
            block[line].content,
            block[other].content,
            theirs,
        ) ==> theirs < ours || theirs == ours && chosen <= other
}

/// Whether a line is in none of the first `n` pairs.
pub open spec fn is_free(pairs: Seq<(int, int)>, removed: bool, n: int, q: int) -> bool {
    forall|j: int| 0 <= j < n ==> partner(#[trigger] pairs[j], removed) != q
}

/// Whether the runs of a block are unequal, the shorter of this direction, and
/// short enough to compare.
spec fn comparable(block: Seq<BlockLine>, removed: bool) -> bool {
    &&& 0 < how_many(block, removed) < how_many(block, !removed)
    &&& how_many(block, removed) * how_many(block, !removed) <= 250_000
}

spec fn run_of(block: Seq<BlockLine>, removed: bool) -> Seq<int> {
    positions(block, removed, block.len() as int)
}

spec fn choices(block: Seq<BlockLine>, removed: bool) -> Seq<int> {
    greedy_choices(
        block,
        run_of(block, removed),
        run_of(block, !removed),
        run_of(block, removed).len() as int,
    )
}

proof fn lemma_pairs_shape(block: Seq<BlockLine>, removed: bool)
    requires
        comparable(block, removed),
    ensures
        run_of(block, removed).len() == how_many(block, removed),
        run_of(block, !removed).len() == how_many(block, !removed),
        block_pairs(block).len() == choices(block, removed).len(),
        forall|i: int|
            0 <= i < block_pairs(block).len() ==> member(
                #[trigger] block_pairs(block)[i],
                removed,
            ) == run_of(block, removed)[i] && partner(block_pairs(block)[i], removed) == run_of(
                block,
                !removed,
            )[choices(block, removed)[i]],
{
    let n = block.len() as int;
    assert(block.take(n) =~= block);
    lemma_positions_counted(block, true, n);
    lemma_positions_counted(block, false, n);
    let x = how_many(block, removed);
    let y = how_many(block, !removed);
    assert(x * y == y * x) by (nonlinear_arith);
}

proof fn lemma_prefers(block: Seq<BlockLine>, removed: bool, i: int, q: int)
    requires
        comparable(block, removed),
        0 <= i < block_pairs(block).len(),
        0 <= q < block.len(),
        block[q].is_remove != removed,
        is_free(block_pairs(block), removed, i, q),
    ensures
        prefers(
            block,
            member(block_pairs(block)[i], removed),
            partner(block_pairs(block)[i], removed),
            q,
        ),
{
    let n = block.len() as int;
    let pairs = block_pairs(block);
    let shorter = run_of(block, removed);
    let longer = run_of(block, !removed);
    let chosen = choices(block, removed);
    lemma_pairs_shape(block, removed);
    lemma_choices(block, shorter, longer, shorter.len() as int);
    lemma_positions(block, !removed, n);
    lemma_positions_counted(block, !removed, n);
    assert(longer.contains(q));
    let m = choose|m: int| 0 <= m < longer.len() && longer[m] == q;
    let c = chosen[i];
    assert(!chosen.take(i).contains(m)) by {
        if chosen.take(i).contains(m) {
            let j = choose|j: int| 0 <= j < i && chosen.take(i)[j] == m;
            assert(partner(pairs[j], removed) == longer[chosen[j]]);
        }
    }
    if c < m {
        assert(longer[c] < longer[m]);
    }
    let line = block[shorter[i]].content;
    let ours = match_score(line, block[longer[c]].content);
    let theirs = match_score(line, block[longer[m]].content);
    assert(theirs < ours || theirs == ours && c <= m);
    assert forall|x: int, y: int|
        #![trigger share(line, block[longer[c]].content, x), share(line, block[q].content, y)]
        share(line, block[longer[c]].content, x) && share(line, block[q].content, y) implies y < x
        || y == x && longer[c] <= q by {
        lemma_share(line, block[longer[c]].content, x);
        lemma_share(line, block[q].content, y);
    }
}

/// Runs of unequal length pair by likeness: each line of the shorter run in turn
/// goes with the free line of the longer run that shares most bytes with it at
/// start and end, the first of equals. Every line of the shorter run is paired.
pub proof fn unequal_runs_pair_by_likeness(block: Seq<BlockLine>, removed: bool)
    requires
        0 < how_many(block, removed) < how_many(block, !removed),
        how_many(block, removed) * how_many(block, !removed) <= 250_000,
    ensures
        ({
            let pairs = block_pairs(block);
            &&& pairs.len() == how_many(block, removed)
            &&& taken_in_turn(block, pairs, removed)
            &&& forall|i: int, q: int|
                #![trigger is_free(pairs, removed, i, q)]
                0 <= i < pairs.len() && 0 <= q < block.len() && block[q].is_remove != removed
                    && is_free(pairs, removed, i, q) ==> prefers(
                    block,
                    member(pairs[i], removed),
                    partner(pairs[i], removed),
                    q,
                )
        }),
{
    let n = block.len() as int;
    let pairs = block_pairs(block);
    let shorter = run_of(block, removed);
    lemma_pairs_shape(block, removed);
    lemma_choices(block, shorter, run_of(block, !removed), shorter.len() as int);
    lemma_positions(block, removed, n);
    lemma_positions_counted(block, removed, n);
    assert forall|i: int| 0 <= i < pairs.len() implies {
        let at = member(#[trigger] pairs[i], removed);
        &&& 0 <= at < block.len()
        &&& block[at].is_remove == removed
        &&& how_many(block.take(at), removed) == i
    } by {
        assert(member(pairs[i], removed) == shorter[i]);
    }
    assert forall|i: int, q: int|
        #![trigger is_free(pairs, removed, i, q)]
        0 <= i < pairs.len() && 0 <= q < block.len() && block[q].is_remove != removed && is_free(
            pairs,
            removed,
            i,
            q,
        ) implies prefers(block, member(pairs[i], removed), partner(pairs[i], removed), q) by {
        lemma_prefers(block, removed, i, q);
    }
}

/// Two texts always share some number of bytes, and only one.
pub proof fn sharing_is_a_number(a: Seq<char>, b: Seq<char>)
    ensures
        exists|n: int| #[trigger] share(a, b, n),
        forall|m: int, n: int| #[trigger] share(a, b, m) && #[trigger] share(a, b, n) ==> m == n,
{
    let n = (shared_prefix(encode_utf8(a), encode_utf8(b)) + shared_suffix(
        encode_utf8(a),
        encode_utf8(b),
    )) as int;
    lemma_share(a, b, n);
    assert(share(a, b, n));
    assert forall|m: int, k: int| #[trigger] share(a, b, m) && #[trigger] share(
        a,
        b,
        k,
    ) implies m == k by {
        lemma_share(a, b, m);
        lemma_share(a, b, k);
    }
}

// -------------------------------------------------------------------- tokens

/// The class of a character: letters, digits and underscores make words, the
/// ASCII spaces whitespace, everything else punctuation.
pub open spec fn kind_of_char(c: char) -> TokenClass {
    if alphanumeric(c) || c == '_' {
        TokenClass::Word
    } else if c == ' ' || '\t' <= c && c <= '\n' || '\x0c' <= c && c <= '\r' {
        TokenClass::Whitespace
    } else {
        TokenClass::Punct
    }
}

/// The text that tokens make together.
pub open spec fn put_together(tokens: Seq<TokenModel>) -> Seq<char>
    decreases tokens.len(),
{
    if tokens.len() == 0 {
        Seq::empty()
    } else {
        put_together(tokens.drop_last()) + tokens.last().text
    }
}

/// Whether the token at a position is a run of one class that does not go on from
/// the one before, with the bytes before it and up to its end for offsets.
pub open spec fn is_run(all: Seq<TokenModel>, i: int) -> bool {
    let t = all[i];
    &&& t.text.len() > 0
    &&& t.start == byte_len(put_together(all.take(i)))
    &&& t.end == byte_len(put_together(all.take(i + 1)))
    &&& forall|k: int| 0 <= k < t.text.len() ==> kind_of_char(#[trigger] t.text[k]) == t.class
    &&& i > 0 ==> all[i - 1].class != t.class
}

proof fn lemma_run_of_prefix(a: Seq<TokenModel>, b: Seq<TokenModel>, i: int)
    requires
        0 <= i < a.len(),
        i < b.len(),
        a.take(i + 1) == b.take(i + 1),
    ensures
        is_run(a, i) == is_run(b, i),
{
    assert(a.take(i + 1)[i] == b.take(i + 1)[i]);
    assert(a.take(i) =~= a.take(i + 1).take(i));
    assert(b.take(i) =~= b.take(i + 1).take(i));
    if i > 0 {
        assert(a.take(i + 1)[i - 1] == b.take(i + 1)[i - 1]);
    }
}

/// A line falls into maximal runs of one class: put together they are the line,
/// neighbours differ in class, and the offsets count the bytes before and up to
/// the end of each.
pub proof fn tokens_are_maximal_runs(line: Seq<char>)
    ensures
        put_together(tokens_of(line)) == line,
        forall|i: int| 0 <= i < tokens_of(line).len() ==> #[trigger] is_run(tokens_of(line), i),
    decreases line.len(),
{
    let all = tokens_of(line);
    if line.len() > 0 {
        let init = line.drop_last();
        let before = tokens_of(init);
        let c = line.last();
        let n = all.len() - 1;
        tokens_are_maximal_runs(init);
        assert(init.push(c) =~= line);
        assert(all.take(n + 1) =~= all);
        assert(all.take(n) =~= all.drop_last());
        assert(before.take(before.len() as int) =~= before);
        if before.len() > 0 && before.last().class == class_of(c) {
            assert(n == before.len() - 1);
            assert(all.drop_last() =~= before.drop_last());
            assert(before.take(n) =~= before.drop_last());
            assert(put_together(all) =~= put_together(before).push(c));
            assert(is_run(before, n));
            assert(is_run(all, n)) by {
                let t = all[n];
                let u = before[n];
                assert(t.text == u.text.push(c));
                assert forall|k: int| 0 <= k < t.text.len() implies kind_of_char(
                    #[trigger] t.text[k],
                ) == t.class by {
                    if k < u.text.len() {
                        assert(t.text[k] == u.text[k]);
                    }
                }
            }
        } else {
            assert(n == before.len());
            assert(all.drop_last() =~= before);
            assert(put_together(all) =~= put_together(before).push(c));
            assert(is_run(all, n));
        }
        assert forall|i: int| 0 <= i < all.len() implies #[trigger] is_run(all, i) by {
            if i < n {
                assert(all.take(i + 1) =~= before.take(i + 1));
                assert(is_run(before, i));
                lemma_run_of_prefix(all, before, i);
            }
        }
    }
}

// --------------------------------------------------------------------- marks

/// Whether a byte lies in one of the ranges.
pub open spec fn is_marked(ranges: Seq<Range>, byte: int) -> bool {
    exists|r: int| 0 <= r < ranges.len() && (#[trigger] ranges[r]).start <= byte < ranges[r].end
}

/// Whether a token of the removed line, or of the added one, is in a pair.
pub open spec fn is_kept(pairs: Seq<(int, int)>, minus: bool, t: int) -> bool {
    exists|p: int|
        0 <= p < pairs.len() && t == if minus {
            (#[trigger] pairs[p]).0
        } else {
            pairs[p].1
        }
}

/// Whether a byte lies in a word or punctuation token that is not kept.
pub open spec fn is_changed(tokens: Seq<TokenModel>, pairs: Seq<(int, int)>,
    minus: bool, byte: int) -> bool {
    exists|t: int|
        0 <= t < tokens.len() && (#[trigger] tokens[t]).start <= byte < tokens[t].end && !is_kept(
            pairs,
            minus,
            t,
        )
            && tokens[t].class != TokenClass::Whitespace
}

/// Whether some byte lies in such a token.
pub open spec fn some_changed(
    tokens: Seq<TokenModel>,
    pairs: Seq<(int, int)>,
    minus: bool,
) -> bool {
    exists|o: int| #[trigger] is_changed(tokens, pairs, minus, o)
}

/// Number of tokens that are not whitespace.
pub open spec fn words(tokens: Seq<TokenModel>) -> nat {
    tokens.filter(|t: TokenModel| t.class != TokenClass::Whitespace).len()
}

/// Number of kept tokens that are not whitespace.
pub open spec fn kept_words(tokens: Seq<TokenModel>, pairs: Seq<(int, int)>, minus: bool) -> nat
    decreases tokens.len(),
{
    if tokens.len() == 0 {
        0
    } else {
        let last = tokens.len() - 1;
        kept_words(tokens.drop_last(), pairs, minus) + if is_kept(pairs, minus, last)
            && tokens[last].class != TokenClass::Whitespace {
            1nat
        } else {
            0
        }
    }
}

/// Whether positions of two lists of tokens are a common subsequence of their
/// texts, and none is longer.
pub open spec fn is_longest_common(
    minus: Seq<TokenModel>,
    plus: Seq<TokenModel>,
    pairs: Seq<(int, int)>,
) -> bool {
    let a = token_texts(minus);
    let b = token_texts(plus);
    &&& common_subsequence(a, b, a.len() as int, b.len() as int, pairs)
    &&& forall|other: Seq<(int, int)>| #[trigger]
        common_subsequence(a, b, a.len() as int, b.len() as int, other) ==> other.len()
            <= pairs.len()
}

/// Whether two lines are worth marking, given the tokens that they keep: neither
/// is empty or over 500 bytes, something has changed, and at least 30 of 100 words
/// of the side with fewer are kept.
pub open spec fn worth_marking(
    minus_line: Seq<char>,
    plus_line: Seq<char>,
    pairs: Seq<(int, int)>,
) -> bool {
    let minus = tokens_of(minus_line);
    let plus = tokens_of(plus_line);
    let fewer = if words(minus) <= words(plus) {
        words(minus)
    } else {
        words(plus)
    };
    &&& 0 < byte_len(minus_line) <= 500
    &&& 0 < byte_len(plus_line) <= 500
    &&& some_changed(minus, pairs, true) || some_changed(plus, pairs, false)
    &&& fewer > 0
    &&& 100 * kept_words(minus, pairs, true) >= 30 * fewer
}

proof fn lemma_words(tokens: Seq<TokenModel>, n: int)
    requires
        0 <= n <= tokens.len(),
    ensures
        words_among(tokens, n) == words(tokens.take(n)),
    decreases n,
{
    reveal(Seq::filter);
    if n > 0 {
        lemma_words(tokens, n - 1);
        assert(tokens.take(n).drop_last() =~= tokens.take(n - 1));
    }
}

proof fn lemma_kept_words(
    tokens: Seq<TokenModel>,
    keep: Seq<bool>,
    pairs: Seq<(int, int)>,
    minus: bool,
    n: int,
)
    requires
        0 <= n <= tokens.len() == keep.len(),
        forall|k: int| 0 <= k < keep.len() ==> #[trigger] keep[k] == is_kept(pairs, minus, k),
    ensures
        kept_words_among(tokens, keep, n) == kept_words(tokens.take(n), pairs, minus),
    decreases n,
{
    if n > 0 {
        lemma_kept_words(tokens, keep, pairs, minus, n - 1);
        assert(tokens.take(n).drop_last() =~= tokens.take(n - 1));
        assert(keep[n - 1] == is_kept(pairs, minus, n - 1));
    }
}

/// What ranges over the first tokens mark.
proof fn lemma_marked(
    tokens: Seq<TokenModel>,
    keep: Seq<bool>,
    pairs: Seq<(int, int)>,
    minus: bool,
    line: Seq<char>,
    n: int,
)
    requires
        tiles(tokens, line),
        byte_len(line) <= u32::MAX,
        0 <= n <= tokens.len() == keep.len(),
        forall|k: int| 0 <= k < keep.len() ==> #[trigger] keep[k] == is_kept(pairs, minus, k),
        forall|t: int| 0 <= t < tokens.len() ==> (#[trigger] tokens[t]).end <= byte_len(line),
    ensures
        forall|o: int| #[trigger]
            is_marked(changed_ranges(tokens, keep, n), o) <==> is_changed(
                tokens.take(n),
                pairs,
                minus,
                o,
            ),
        ({
            let ranges = changed_ranges(tokens, keep, n);
            &&& ranges.len() > 0 ==> n > 0 && ranges.last().start < ranges.last().end
                <= tokens[n - 1].end
            &&& ranges.len() > 0 && !changed(tokens, keep, n - 1) ==> ranges.last().end
                <= tokens[n - 1].start
            &&& n > 0 && changed(tokens, keep, n - 1) ==> ranges.len() > 0 && ranges.last().end
                == tokens[n - 1].end && ranges.last().start <= tokens[n - 1].start
            &&& forall|i: int, j: int|
                0 <= i < j < ranges.len() ==> (#[trigger] ranges[i]).end < (
                #[trigger] ranges[j]).start
        }),
    decreases n,
{
    let ranges = changed_ranges(tokens, keep, n);
    let some = tokens.take(n);
    if n > 0 {
        lemma_marked(tokens, keep, pairs, minus, line, n - 1);
        let before = changed_ranges(tokens, keep, n - 1);
        let fewer = tokens.take(n - 1);
        let t = tokens[n - 1];
        assert(keep[n - 1] == is_kept(pairs, minus, n - 1));
        if n >= 2 {
            assert(tokens[n - 2].end == tokens[n - 1].start);
        }
        assert(t.start < t.end);
        if before.len() > 0 {
            assert forall|i: int| 0 <= i < before.len() - 1 implies (#[trigger] before[i]).end
                < before[before.len() - 1].start by {}
        }
        assert forall|o: int| #[trigger]
            is_marked(ranges, o) <==> is_changed(some, pairs, minus, o) by {
            if is_changed(fewer, pairs, minus, o) {
                let k = choose|k: int|
                    0 <= k < fewer.len() && (#[trigger] fewer[k]).start <= o < fewer[k].end
                        && !is_kept(pairs, minus, k) && fewer[k].class != TokenClass::Whitespace;
                assert(some[k] == fewer[k]);
            }
            if is_changed(some, pairs, minus, o) {
                let k = choose|k: int|
                    0 <= k < some.len() && (#[trigger] some[k]).start <= o < some[k].end && !is_kept(
                        pairs,
                        minus,
                        k,
                    )
                        && some[k].class != TokenClass::Whitespace;
                if k < n - 1 {
                    assert(fewer[k] == some[k]);
                    assert(is_marked(before, o));
                    let r = choose|r: int|
                        0 <= r < before.len() && (#[trigger] before[r]).start <= o < before[r].end;
                    if r < before.len() - 1 || ranges.len() >= before.len() && ranges[r]
                        == before[r] {
                        assert(ranges[r].start <= o < ranges[r].end);
                    } else {
                        assert(ranges[r].start == before[r].start);
                        assert(ranges[r].end >= before[r].end);
                    }
                } else {
                    assert(ranges[ranges.len() - 1].start <= o < ranges[ranges.len() - 1].end);
                }
            }
            if is_marked(ranges, o) {
                let r = choose|r: int|
                    0 <= r < ranges.len() && (#[trigger] ranges[r]).start <= o < ranges[r].end;
                if r < before.len() && before[r].start <= o < before[r].end {
                    assert(is_marked(before, o));
                } else {
                    assert(changed(tokens, keep, n - 1));
                    assert(some[n - 1].start <= o < some[n - 1].end);
                }
            }
        }
    } else {
        assert forall|o: int| #[trigger]
            is_marked(ranges, o) <==> is_changed(some, pairs, minus, o) by {}
    }
}

/// Marked bytes are exactly those of the words and signs that a longest common
/// subsequence of tokens does not keep. Marks come in order and do not touch. Two
/// lines are marked exactly where they are worth it.
pub proof fn marks_are_the_changed_words(minus_line: Seq<char>, plus_line: Seq<char>)
    ensures
        exists|pairs: Seq<(int, int)>| #[trigger]
            is_longest_common(tokens_of(minus_line), tokens_of(plus_line), pairs) && {
                &&& intra_ranges(minus_line, plus_line) is Some <==> worth_marking(
                    minus_line,
                    plus_line,
                    pairs,
                )
                &&& intra_ranges(minus_line, plus_line) matches Some(ranges) ==> {
                    &&& forall|o: int| #[trigger]
                        is_marked(ranges.0, o) <==> is_changed(
                            tokens_of(minus_line),
                            pairs,
                            true,
                            o,
                        )
                    &&& forall|o: int| #[trigger]
                        is_marked(ranges.1, o) <==> is_changed(
                            tokens_of(plus_line),
                            pairs,
                            false,
                            o,
                        )
                    &&& forall|i: int, j: int|
                        0 <= i < j < ranges.0.len() ==> (#[trigger] ranges.0[i]).end < (
                        #[trigger] ranges.0[j]).start
                    &&& forall|i: int, j: int|
                        0 <= i < j < ranges.1.len() ==> (#[trigger] ranges.1[i]).end < (
                        #[trigger] ranges.1[j]).start
                }
            },
{
    let minus = tokens_of(minus_line);
    let plus = tokens_of(plus_line);
    let a = token_texts(minus);
    let b = token_texts(plus);
    let pairs = lcs_pairs(a, b, a.len() as int, b.len() as int);
    kept_pairs_are_common(a, b, a.len() as int, b.len() as int);
    assert(is_longest_common(minus, plus, pairs)) by {
        assert forall|other: Seq<(int, int)>| #[trigger]
            common_subsequence(a, b, a.len() as int, b.len() as int, other) implies other.len()
            <= pairs.len() by {
            kept_pairs_are_longest(a, b, a.len() as int, b.len() as int, other);
        }
    }
    let (keep_minus, keep_plus) = keep_flags(minus, plus);
    lemma_flags(pairs);
    if byte_len(minus_line) <= 500 && byte_len(plus_line) <= 500 {
        lemma_side_marked(minus_line, keep_minus, pairs, true);
        lemma_side_marked(plus_line, keep_plus, pairs, false);
    }
    lemma_words(minus, minus.len() as int);
    lemma_words(plus, plus.len() as int);
    lemma_kept_words(minus, keep_minus, pairs, true, minus.len() as int);
    assert(minus.take(minus.len() as int) =~= minus);
    assert(plus.take(plus.len() as int) =~= plus);
    lemma_empty_line(minus_line);
    lemma_empty_line(plus_line);
    assert(intra_ranges(minus_line, plus_line) is Some <==> worth_marking(
        minus_line,
        plus_line,
        pairs,
    ));
}

proof fn lemma_flags(pairs: Seq<(int, int)>)
    ensures
        forall|k: int| #[trigger] kept_left(pairs, k) == is_kept(pairs, true, k),
        forall|k: int| #[trigger] kept_right(pairs, k) == is_kept(pairs, false, k),
{
    assert forall|k: int| #[trigger] kept_left(pairs, k) == is_kept(pairs, true, k) by {
        if kept_left(pairs, k) {
            let p = choose|p: int| 0 <= p < pairs.len() && (#[trigger] pairs[p]).0 == k;
            assert(pairs[p].0 == k);
        }
    }
    assert forall|k: int| #[trigger] kept_right(pairs, k) == is_kept(pairs, false, k) by {
        if kept_right(pairs, k) {
            let p = choose|p: int| 0 <= p < pairs.len() && (#[trigger] pairs[p]).1 == k;
            assert(pairs[p].0 == pairs[p].0);
        }
    }
}

proof fn lemma_empty_line(line: Seq<char>)
    ensures
        byte_len(line) == 0 <==> line.len() == 0,
{
    if line.len() > 0 {
        crate::text::lemma_byte_len_take_grows(line, 0, line.len() as int);
        assert(line.take(line.len() as int) =~= line);
    }
}

proof fn lemma_side_marked(line: Seq<char>, keep: Seq<bool>, pairs: Seq<(int, int)>, minus: bool)
    requires
        byte_len(line) <= 500,
        keep.len() == tokens_of(line).len(),
        forall|k: int| 0 <= k < keep.len() ==> #[trigger] keep[k] == is_kept(pairs, minus, k),
    ensures
        ({
            let tokens = tokens_of(line);
            let ranges = changed_ranges(tokens, keep, tokens.len() as int);
            &&& forall|o: int| #[trigger]
                is_marked(ranges, o) <==> is_changed(tokens, pairs, minus, o)
            &&& forall|i: int, j: int|
                0 <= i < j < ranges.len() ==> (#[trigger] ranges[i]).end < (
                #[trigger] ranges[j]).start
            &&& ranges.len() > 0 <==> some_changed(tokens, pairs, minus)
        }),
{
    let tokens = tokens_of(line);
    let ranges = changed_ranges(tokens, keep, tokens.len() as int);
    lemma_tokens_tile(line);
    assert forall|t: int| 0 <= t < tokens.len() implies (#[trigger] tokens[t]).end <= byte_len(
        line,
    ) by {
        lemma_token_ends(tokens, line, t);
    }
    lemma_marked(tokens, keep, pairs, minus, line, tokens.len() as int);
    assert(tokens.take(tokens.len() as int) =~= tokens);
    if ranges.len() > 0 {
        let o = ranges.last().start as int;
        assert(ranges[ranges.len() - 1].start <= o < ranges[ranges.len() - 1].end);
        assert(is_marked(ranges, o));
    }
    if some_changed(tokens, pairs, minus) {
        let o = choose|o: int| #[trigger] is_changed(tokens, pairs, minus, o);
        assert(is_marked(ranges, o));
    }
}

proof fn lemma_token_ends(tokens: Seq<TokenModel>, line: Seq<char>, t: int)
    requires
        tiles(tokens, line),
        0 <= t < tokens.len(),
    ensures
        tokens[t].end <= byte_len(line),
    decreases tokens.len() - t,
{
    if t < tokens.len() - 1 {
        lemma_token_ends(tokens, line, t + 1);
        assert(tokens[t].end == tokens[t + 1].start);
        assert(tokens[t + 1].start < tokens[t + 1].end);
    }
}

} // verus!
