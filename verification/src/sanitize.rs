//! Terminal-injection hardening for untrusted text (diff content, VCS
//! metadata, review comment bodies) before it reaches a terminal renderer.
//!
//! Strips ANSI CSI sequences, stray ESC characters, C0 controls (except TAB),
//! DEL, CR (cursor-to-column-0 overwrites) and C1 code points (8-bit
//! CSI/OSC), while preserving printable characters including CJK and emoji.
//! Input is already line-split, so LF is treated as unsafe too.

use std::borrow::Cow;

use vstd::prelude::*;

use crate::text::chars_of;

verus! {

/// True when `c` must not reach the terminal.
pub open spec fn unsafe_char(c: char) -> bool {
    c != '\t' && ((c as u32) < 0x20 || c as u32 == 0x7f || 0x80 <= c as u32 && c as u32 <= 0x9f)
}

/// Whether a line can go to the terminal as it is.
pub open spec fn terminal_safe(s: Seq<char>) -> bool {
    forall|i: int| 0 <= i < s.len() ==> !unsafe_char(#[trigger] s[i])
}

pub open spec fn parameter_char(c: char) -> bool {
    ('0' <= c && c <= '9') || c == ';' || c == '?'
}

pub open spec fn intermediate_char(c: char) -> bool {
    0x20 <= c as u32 && c as u32 <= 0x2f
}

pub open spec fn final_char(c: char) -> bool {
    ('a' <= c && c <= 'z') || ('A' <= c && c <= 'Z') || c == '~'
}

/// Where the parameters of a CSI sequence end.
pub open spec fn parameters_end(s: Seq<char>, from: int) -> int
    decreases s.len() - from,
{
    if 0 <= from < s.len() && parameter_char(s[from]) {
        parameters_end(s, from + 1)
    } else {
        from
    }
}

/// Where the intermediate characters of a CSI sequence end.
pub open spec fn intermediates_end(s: Seq<char>, from: int) -> int
    decreases s.len() - from,
{
    if 0 <= from < s.len() && intermediate_char(s[from]) {
        intermediates_end(s, from + 1)
    } else {
        from
    }
}

/// Position after the escape at `i`: after the whole sequence where a CSI
/// sequence is complete, else after the ESC alone.
pub open spec fn after_escape(s: Seq<char>, i: int) -> int {
    let end = intermediates_end(s, parameters_end(s, i + 2));
    if i + 1 < s.len() && s[i + 1] == '[' && end < s.len() && final_char(s[end]) {
        end + 1
    } else {
        i + 1
    }
}

proof fn lemma_ends(s: Seq<char>, from: int)
    ensures
        parameters_end(s, from) >= from,
        intermediates_end(s, from) >= from,
        from <= s.len() ==> parameters_end(s, from) <= s.len() && intermediates_end(s, from)
            <= s.len(),
    decreases s.len() - from,
{
    if 0 <= from < s.len() {
        lemma_ends(s, from + 1);
    }
}

/// What is left of the line from position `i` on.
pub open spec fn sanitized_from(s: Seq<char>, i: int) -> Seq<char>
    decreases s.len() - i,
{
    if i < 0 || i >= s.len() {
        Seq::empty()
    } else if s[i] == '\x1b' {
        if after_escape(s, i) > i {
            sanitized_from(s, after_escape(s, i))
        } else {
            Seq::empty()
        }
    } else if unsafe_char(s[i]) {
        sanitized_from(s, i + 1)
    } else {
        seq![s[i]] + sanitized_from(s, i + 1)
    }
}

/// A line made safe for a terminal.
pub open spec fn sanitized(s: Seq<char>) -> Seq<char> {
    sanitized_from(s, 0)
}

/// What comes out is always safe for a terminal.
pub proof fn output_is_terminal_safe(s: Seq<char>)
    ensures
        terminal_safe(sanitized(s)),
{
    lemma_output_safe(s, 0);
}

proof fn lemma_output_safe(s: Seq<char>, i: int)
    ensures
        terminal_safe(sanitized_from(s, i)),
    decreases s.len() - i,
{
    if 0 <= i < s.len() {
        if s[i] == '\x1b' {
            if after_escape(s, i) > i {
                lemma_output_safe(s, after_escape(s, i));
            }
        } else {
            lemma_output_safe(s, i + 1);
        }
    }
}

/// A safe line stays as it is; so sanitizing twice is sanitizing once.
pub proof fn safe_lines_are_unchanged(s: Seq<char>)
    requires
        terminal_safe(s),
    ensures
        sanitized(s) == s,
{
    lemma_safe_unchanged(s, 0);
    assert(s.skip(0) =~= s);
}

proof fn lemma_safe_unchanged(s: Seq<char>, i: int)
    requires
        terminal_safe(s),
        0 <= i <= s.len(),
    ensures
        sanitized_from(s, i) == s.skip(i),
    decreases s.len() - i,
{
    if i < s.len() {
        lemma_safe_unchanged(s, i + 1);
        assert(!unsafe_char(s[i]));
        assert(s.skip(i) =~= seq![s[i]] + s.skip(i + 1));
    } else {
        assert(s.skip(i) =~= Seq::empty());
    }
}

fn is_unsafe_char(c: char) -> (r: bool)
    ensures
        r == unsafe_char(c),
{
    let code: u32 = c as u32;
    c != '\t' && (code < 0x20 || code == 0x7f || (0x80 <= code && code <= 0x9f))
}

fn has_unsafe_content(s: &Vec<char>) -> (r: bool)
    ensures
        r == !terminal_safe(s@),
{
    let mut i: usize = 0;
    while i < s.len()
        invariant
            i <= s.len(),
            forall|k: int| 0 <= k < i ==> !unsafe_char(#[trigger] s@[k]),
        decreases s.len() - i,
    {
        if is_unsafe_char(s[i]) {
            return true;
        }
        i += 1;
    }
    false
}

/// Position after the escape at `i`, which must be an ESC: past a complete
/// CSI sequence, or past the bare ESC.
fn skip_csi(s: &Vec<char>, i: usize) -> (r: usize)
    requires
        i < s.len(),
    ensures
        r == after_escape(s@, i as int),
        i < r <= s.len(),
{
    proof {
        lemma_ends(s@, i + 2);
    }
    if i + 1 >= s.len() || s[i + 1] != '[' {
        return i + 1;
    }
    let mut j: usize = i + 2;
    while j < s.len() && (('0' <= s[j] && s[j] <= '9') || s[j] == ';' || s[j] == '?')
        invariant
            i + 2 <= j <= s.len(),
            parameters_end(s@, i + 2) == parameters_end(s@, j as int),
        decreases s.len() - j,
    {
        j += 1;
    }
    let ghost params = j as int;
    while j < s.len() && 0x20 <= s[j] as u32 && s[j] as u32 <= 0x2f
        invariant
            i + 2 <= j <= s.len(),
            intermediates_end(s@, params) == intermediates_end(s@, j as int),
        decreases s.len() - j,
    {
        j += 1;
    }
    if j < s.len() && (('a' <= s[j] && s[j] <= 'z') || ('A' <= s[j] && s[j] <= 'Z') || s[j]
        == '~') {
        return j + 1;
    }
    i + 1
}

/// Sanitize one line of untrusted text for terminal display. Returns the
/// input unchanged (borrowed) on the fast path.
pub fn sanitize_line(s: &str) -> (r: Cow<'_, str>)
    ensures
        r@ == sanitized(s@),
        terminal_safe(s@) <==> r is Borrowed,
{
    let cs: Vec<char> = chars_of(s);
    if !has_unsafe_content(&cs) {
        proof {
            safe_lines_are_unchanged(s@);
        }
        return Cow::Borrowed(s);
    }
    let mut out: String = String::new();
    let mut i: usize = 0;
    assert(out@ + sanitized_from(cs@, 0) =~= sanitized(s@));
    while i < cs.len()
        invariant
            i <= cs.len(),
            out@ + sanitized_from(cs@, i as int) == sanitized(s@),
        decreases cs.len() - i,
    {
        let c: char = cs[i];
        if c == '\x1b' {
            i = skip_csi(&cs, i);
        } else {
            if !is_unsafe_char(c) {
                let ghost before = out@;
                out.push(c);
                assert(out@ + sanitized_from(cs@, i + 1) =~= before + (seq![c] + sanitized_from(
                    cs@,
                    i + 1,
                )));
            }
            i += 1;
        }
    }
    assert(out@ + Seq::<char>::empty() =~= out@);
    Cow::Owned(out)
}

} // verus!
