//! What is left of a line that goes to a terminal, told piece by piece.

use vstd::prelude::*;

use crate::sanitize::{
    after_escape, final_char, intermediate_char, intermediates_end, parameter_char, parameters_end,
    sanitized, sanitized_from, unsafe_char,
};

verus! {

/// Whether a character is one to be seen, or a tab: no control, neither of
/// the ASCII ones nor of the range above them.
pub open spec fn visible(c: char) -> bool {
    c as u32 == 9 || (c as u32 >= 32 && !(127 <= c as u32 && c as u32 <= 159))
}

/// Whether a text is one whole control sequence: ESC and a bracket, digits,
/// semicolons and question marks up to `mid`, then characters from the blank
/// to the slash, and a letter or a tilde at the end.
pub open spec fn is_sequence(t: Seq<char>, mid: int) -> bool {
    &&& 2 <= mid < t.len()
    &&& t[0] as u32 == 27
    &&& t[1] == '['
    &&& forall|k: int|
        2 <= k < mid ==> (48 <= #[trigger] t[k] as u32 && t[k] as u32 <= 57) || t[k] == ';' || t[k]
            == '?'
    &&& forall|k: int| mid <= k < t.len() - 1 ==> 32 <= #[trigger] t[k] as u32 && t[k] as u32 <= 47
    &&& {
        let last = t.last() as u32;
        (65 <= last && last <= 90) || (97 <= last && last <= 122) || last == 126
    }
}

/// What is to be seen stays where it is.
pub proof fn visible_text_is_kept(a: Seq<char>, b: Seq<char>)
    requires
        forall|k: int| 0 <= k < a.len() ==> visible(#[trigger] a[k]),
    ensures
        sanitized(a + b) == a + sanitized(b),
    decreases a.len(),
{
    if a.len() == 0 {
        assert(a + b =~= b);
        assert(a + sanitized(b) =~= sanitized(b));
    } else {
        let rest = a.drop_first();
        visible_text_is_kept(rest, b);
        let s = a + b;
        assert(s =~= seq![a[0]] + (rest + b));
        lemma_shift(seq![a[0]], rest + b, 0);
        assert(visible(a[0]));
        lemma_char(a[0]);
        assert(s[0] == a[0]);
        assert(seq![a[0]] + (rest + sanitized(b)) =~= a + sanitized(b));
    }
}

/// A control that starts no sequence goes, alone.
pub proof fn controls_vanish(c: char, b: Seq<char>)
    requires
        !visible(c),
        c as u32 != 27,
    ensures
        sanitized(seq![c] + b) == sanitized(b),
{
    let s = seq![c] + b;
    lemma_shift(seq![c], b, 0);
    assert(s[0] == c);
}

/// A control sequence goes as a whole, and nothing with it.
pub proof fn sequences_vanish(t: Seq<char>, mid: int, b: Seq<char>)
    requires
        is_sequence(t, mid),
    ensures
        sanitized(t + b) == sanitized(b),
{
    let s = t + b;
    assert forall|k: int| 0 <= k < t.len() implies s[k] == #[trigger] t[k] by {}
    assert forall|k: int| 2 <= k < mid implies parameter_char(#[trigger] s[k]) by {
        assert(s[k] == t[k]);
        lemma_char(t[k]);
    }
    assert forall|k: int| mid <= k < t.len() - 1 implies intermediate_char(#[trigger] s[k]) by {
        assert(s[k] == t[k]);
    }
    let end = t.len() - 1;
    lemma_char(t[end]);
    lemma_char(t[mid]);
    lemma_char(t[0]);
    assert(!parameter_char(s[mid])) by {
        assert(mid < end ==> intermediate_char(s[mid]));
    }
    assert(s[end] == t.last());
    lemma_parameters(s, 2, mid);
    lemma_intermediates(s, mid, t.len() - 1);
    lemma_shift(t, b, 0);
    assert(after_escape(s, 0) == t.len());
}

/// An ESC that starts no whole sequence goes alone: what follows it stays
/// what it would be without it.
pub proof fn stray_escapes_vanish(c: char, b: Seq<char>)
    requires
        c as u32 == 27,
        forall|n: int, mid: int|
            0 <= n <= b.len() ==> !(#[trigger] is_sequence(seq![c] + b.take(n), mid)),
    ensures
        sanitized(seq![c] + b) == sanitized(b),
{
    let s = seq![c] + b;
    lemma_shift(seq![c], b, 0);
    assert(s[0] == c);
    if after_escape(s, 0) != 1 {
        let mid = parameters_end(s, 2);
        let end = intermediates_end(s, mid);
        lemma_runs(s, 2);
        lemma_runs(s, mid);
        let t = seq![c] + b.take(end);
        assert(t =~= s.take(end + 1));
        assert forall|k: int| 2 <= k < mid implies (48 <= #[trigger] t[k] as u32 && t[k] as u32
            <= 57) || t[k] == ';' || t[k] == '?' by {
            assert(parameter_char(s[k]));
        }
        assert forall|k: int| mid <= k < t.len() - 1 implies 32 <= #[trigger] t[k] as u32
            && t[k] as u32 <= 47 by {
            assert(intermediate_char(s[k]));
        }
        assert(is_sequence(t, mid));
    }
}

/// Nothing is left of nothing.
pub proof fn empty_lines_stay_empty(s: Seq<char>)
    requires
        s.len() == 0,
    ensures
        sanitized(s).len() == 0,
{
}

proof fn lemma_char(c: char)
    ensures
        visible(c) == !unsafe_char(c),
        c as u32 == 27 <==> c == '\x1b',
        48 <= c as u32 && c as u32 <= 57 ==> parameter_char(c),
        c == ';' || c == '?' ==> parameter_char(c),
        intermediate_char(c) ==> !parameter_char(c),
        final_char(c) ==> !parameter_char(c) && !intermediate_char(c),
        ({
            let n = c as u32;
            (65 <= n && n <= 90) || (97 <= n && n <= 122) || n == 126
        }) ==> final_char(c),
{
    assert(c as u32 == 9 ==> c == '\t');
    assert(c as u32 == 27 ==> c == '\x1b');
    assert(c as u32 == 126 ==> c == '~');
}

proof fn lemma_runs(s: Seq<char>, from: int)
    requires
        0 <= from,
    ensures
        parameters_end(s, from) >= from,
        intermediates_end(s, from) >= from,
        forall|k: int| from <= k < parameters_end(s, from) ==> parameter_char(#[trigger] s[k]),
        forall|k: int|
            from <= k < intermediates_end(s, from) ==> intermediate_char(#[trigger] s[k]),
    decreases s.len() - from,
{
    if from < s.len() {
        lemma_runs(s, from + 1);
    }
}

proof fn lemma_parameters(s: Seq<char>, from: int, to: int)
    requires
        0 <= from <= to < s.len(),
        forall|k: int| from <= k < to ==> parameter_char(#[trigger] s[k]),
        !parameter_char(s[to]),
    ensures
        parameters_end(s, from) == to,
    decreases to - from,
{
    if from < to {
        assert(parameter_char(s[from]));
        lemma_parameters(s, from + 1, to);
    }
}

proof fn lemma_intermediates(s: Seq<char>, from: int, to: int)
    requires
        0 <= from <= to < s.len(),
        forall|k: int| from <= k < to ==> intermediate_char(#[trigger] s[k]),
        !intermediate_char(s[to]),
    ensures
        intermediates_end(s, from) == to,
    decreases to - from,
{
    if from < to {
        assert(intermediate_char(s[from]));
        lemma_intermediates(s, from + 1, to);
    }
}

proof fn lemma_shift_ends(a: Seq<char>, b: Seq<char>, i: int)
    requires
        0 <= i,
    ensures
        parameters_end(a + b, a.len() + i) == a.len() + parameters_end(b, i),
        intermediates_end(a + b, a.len() + i) == a.len() + intermediates_end(b, i),
    decreases b.len() - i,
{
    if i < b.len() {
        lemma_shift_ends(a, b, i + 1);
        assert((a + b)[a.len() + i] == b[i]);
    }
}

proof fn lemma_shift(a: Seq<char>, b: Seq<char>, i: int)
    requires
        0 <= i,
    ensures
        sanitized_from(a + b, a.len() + i) == sanitized_from(b, i),
    decreases b.len() - i,
{
    if i < b.len() {
        assert((a + b)[a.len() + i] == b[i]);
        lemma_shift(a, b, i + 1);
        lemma_shift_ends(a, b, i + 2);
        lemma_runs(b, i + 2);
        let mid = parameters_end(b, i + 2);
        lemma_shift_ends(a, b, mid);
        lemma_runs(b, mid);
        let end = intermediates_end(b, mid);
        if end < b.len() {
            assert((a + b)[a.len() + end] == b[end]);
            lemma_shift(a, b, end + 1);
        }
        if i + 1 < b.len() {
            assert((a + b)[a.len() + i + 1] == b[i + 1]);
        }
    }
}

} // verus!
