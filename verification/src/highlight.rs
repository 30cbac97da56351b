//! Syntax highlighting: `syntect` over reconstructed pseudo files.
//!
//! The diff's context+added lines form a "new" pseudo file and context+removed
//! lines an "old" pseudo file; each is highlighted as a whole file so
//! multi-line tokens (strings, comments) carry correct lexical state, then
//! spans map back to side line numbers. Frontends paint the resulting RGB
//! spans verbatim, which keeps them pixel-consistent.

use std::collections::BTreeMap;

use vstd::prelude::*;

use syntect::easy::HighlightLines;
use syntect::highlighting::{FontStyle, ThemeSet};
use syntect::parsing::SyntaxSet;

use crate::model::{
    newline_free, DiffLine, DiffLineModel, FileDiff, FileDiffKind, FileDiffKindModel,
    FileDiffModel, Hunk, HunkModel, LineKind,
};
use crate::text::{
    byte_len, bytes_in, char_seqs, chars_of, copy_of, hex_digits, lemma_byte_len_take_grows,
    lemma_split_on_nonempty, lines_of, push_hex, push_text, split_lines, split_on, str_lines,
    string_of, strip_cr, strs, without_cr,
};

verus! {

/// Total pseudo-file size above which highlighting is skipped entirely.
pub const MAX_HIGHLIGHT_BYTES: usize = 524_288;

/// Per-line length above which the line gets no spans (minified content).
pub const MAX_HIGHLIGHT_LINE_BYTES: usize = 2000;

/// An RGB color, written `#rrggbb`.
#[derive(Debug, Clone, Copy, PartialEq, Eq, Structural)]
pub struct Rgb(pub u8, pub u8, pub u8);

impl Rgb {
    /// The color as it is written.
    pub open spec fn text(self) -> Seq<char> {
        "#"@ + hex_digits(self.0 as nat, 2) + hex_digits(self.1 as nat, 2) + hex_digits(
            self.2 as nat,
            2,
        )
    }

    /// The color in the form `#rrggbb`.
    pub fn to_hex(self) -> (r: String)
        ensures
            r@ == self.text(),
    {
        let mut out: String = copy_of("#");
        push_hex(&mut out, self.0 as u64, 2);
        push_hex(&mut out, self.1 as u64, 2);
        push_hex(&mut out, self.2 as u64, 2);
        out
    }

    /// Reads six hexadecimal digits, of either case, with or without a `#`
    /// before them.
    pub fn parse_hex(s: &str) -> (r: Option<Rgb>)
        ensures
            r == color_named(s@),
    {
        let cs: Vec<char> = chars_of(s);
        let from: usize = if cs.len() > 0 && cs[0] == '#' {
            1
        } else {
            0
        };
        if cs.len() - from != 6 {
            return None;
        }
        let digits: [char; 6] = [
            cs[from],
            cs[from + 1],
            cs[from + 2],
            cs[from + 3],
            cs[from + 4],
            cs[from + 5],
        ];
        let ghost d = bare_digits(s@);
        assert(d =~= digits@);
        let mut i: usize = 0;
        while i < 6
            invariant
                i <= 6,
                d == bare_digits(s@),
                d == digits@,
                forall|k: int| 0 <= k < i ==> hex_value(#[trigger] digits[k]) is Some,
            decreases 6 - i,
        {
            if hex_digit_value(digits[i]).is_none() {
                assert(d[i as int] == digits[i as int]);
                return None;
            }
            i += 1;
        }
        assert(hex_value(digits[0]) is Some && hex_value(digits[1]) is Some && hex_value(
            digits[2],
        ) is Some && hex_value(digits[3]) is Some && hex_value(digits[4]) is Some && hex_value(
            digits[5],
        ) is Some);
        Some(
            Rgb(
                hex_byte(digits[0], digits[1]),
                hex_byte(digits[2], digits[3]),
                hex_byte(digits[4], digits[5]),
            ),
        )
    }
}

/// The value of a hexadecimal digit of either case.
pub open spec fn hex_value(c: char) -> Option<u8> {
    if '0' <= c && c <= '9' {
        Some((c as u32 - 48) as u8)
    } else if 'a' <= c && c <= 'f' {
        Some((c as u32 - 87) as u8)
    } else if 'A' <= c && c <= 'F' {
        Some((c as u32 - 55) as u8)
    } else {
        None
    }
}

/// A color text without its `#`.
pub open spec fn bare_digits(s: Seq<char>) -> Seq<char> {
    if s.len() > 0 && s[0] == '#' {
        s.skip(1)
    } else {
        s
    }
}

/// The color that a text writes.
pub open spec fn color_named(s: Seq<char>) -> Option<Rgb> {
    let d = bare_digits(s);
    if d.len() == 6 && hex_value(d[0]) is Some && hex_value(d[1]) is Some && hex_value(
        d[2],
    ) is Some && hex_value(d[3]) is Some && hex_value(d[4]) is Some && hex_value(d[5]) is Some {
        Some(
            Rgb(
                (hex_value(d[0])->0 * 16 + hex_value(d[1])->0) as u8,
                (hex_value(d[2])->0 * 16 + hex_value(d[3])->0) as u8,
                (hex_value(d[4])->0 * 16 + hex_value(d[5])->0) as u8,
            ),
        )
    } else {
        None
    }
}

fn hex_digit_value(c: char) -> (r: Option<u8>)
    ensures
        r == hex_value(c),
{
    let code: u32 = c as u32;
    if '0' <= c && c <= '9' {
        Some((code - 48) as u8)
    } else if 'a' <= c && c <= 'f' {
        Some((code - 87) as u8)
    } else if 'A' <= c && c <= 'F' {
        Some((code - 55) as u8)
    } else {
        None
    }
}

fn hex_byte(high: char, low: char) -> (r: u8)
    requires
        hex_value(high) is Some,
        hex_value(low) is Some,
    ensures
        r == hex_value(high)->0 * 16 + hex_value(low)->0,
{
    match (hex_digit_value(high), hex_digit_value(low)) {
        (Some(h), Some(l)) => h * 16 + l,
        _ => 0,
    }
}

/// A written color reads back.
pub proof fn colors_read_back(color: Rgb)
    ensures
        color_named(color.text()) == Some(color),
{
    reveal_strlit("#");
    reveal_with_fuel(hex_digits, 3);
    let t = color.text();
    assert(t[0] == '#');
    assert(t.skip(1) =~= hex_digits(color.0 as nat, 2) + hex_digits(color.1 as nat, 2)
        + hex_digits(color.2 as nat, 2));
    let d = bare_digits(t);
    assert(d.len() == 6);
    assert(d[0] == crate::text::hex_char((color.0 as nat / 16) % 16));
    assert(d[1] == crate::text::hex_char(color.0 as nat % 16));
    assert(d[2] == crate::text::hex_char((color.1 as nat / 16) % 16));
    assert(d[3] == crate::text::hex_char(color.1 as nat % 16));
    assert(d[4] == crate::text::hex_char((color.2 as nat / 16) % 16));
    assert(d[5] == crate::text::hex_char(color.2 as nat % 16));
}

/// One syntax highlight span; byte offsets into the line content.
#[derive(Debug, Clone, Copy, PartialEq, Eq, Structural)]
pub struct HlSpan {
    pub start: u32,
    pub end: u32,
    pub fg: Option<Rgb>,
    pub bold: bool,
    pub italic: bool,
}

/// Built-in theme choice; frontends map their own light/dark setting to this.
#[derive(Debug, Clone, Copy, PartialEq, Eq, Structural)]
pub enum ThemeChoice {
    Dark,
    Light,
}

impl ThemeChoice {
    pub open spec fn theme_name(self) -> Seq<char> {
        match self {
            ThemeChoice::Dark => "base16-ocean.dark"@,
            ThemeChoice::Light => "InspiredGitHub"@,
        }
    }

    fn syntect_name(self) -> (r: &'static str)
        ensures
            r@ == self.theme_name(),
    {
        match self {
            ThemeChoice::Dark => "base16-ocean.dark",
            ThemeChoice::Light => "InspiredGitHub",
        }
    }
}

// ------------------------------------------------------------- outside items

/// `syntect::parsing::SyntaxSet`.
#[verifier::external_type_specification]
#[verifier::external_body]
pub struct ExSyntaxSet(syntect::parsing::SyntaxSet);

/// `syntect::highlighting::ThemeSet`.
#[verifier::external_type_specification]
#[verifier::external_body]
pub struct ExThemeSet(syntect::highlighting::ThemeSet);

/// `syntect::easy::HighlightLines`: a highlighter in the middle of a text.
#[verifier::external_type_specification]
#[verifier::external_body]
pub struct ExHighlightLines<'a>(syntect::easy::HighlightLines<'a>);

/// Whether a set holds the syntaxes that `syntect` ships, in the form for
/// lines that end in a newline.
pub uninterp spec fn bundled_syntaxes(set: syntect::parsing::SyntaxSet) -> bool;

/// Whether a set holds the themes that `syntect` ships.
pub uninterp spec fn bundled_themes(set: syntect::highlighting::ThemeSet) -> bool;

/// The name of the bundled syntax for a file extension.
pub uninterp spec fn syntax_for_extension(ext: Seq<char>) -> Option<Seq<char>>;

/// The name of the bundled syntax that a first line calls for.
pub uninterp spec fn syntax_for_first_line(line: Seq<char>) -> Option<Seq<char>>;

/// Whether there are a bundled syntax and a bundled theme of these names.
pub uninterp spec fn can_style(syntax: Seq<char>, theme: Seq<char>) -> bool;

/// The names of the syntax and the theme that a highlighter was made with.
pub uninterp spec fn styler_names(h: syntect::easy::HighlightLines<'_>) -> (Seq<char>, Seq<char>);

/// The lines that a highlighter has been given.
pub uninterp spec fn styler_lines(h: syntect::easy::HighlightLines<'_>) -> Seq<Seq<char>>;

/// What `syntect` makes of a line that comes after others of its text.
pub uninterp spec fn styled_line(
    syntax: Seq<char>,
    theme: Seq<char>,
    earlier: Seq<Seq<char>>,
    line: Seq<char>,
) -> Option<Seq<PieceModel>>;

/// A piece of a line in one style.
#[derive(Debug, Clone, PartialEq, Eq)]
pub struct StyledPiece {
    pub text: String,
    pub fg: Rgb,
    pub bold: bool,
    pub italic: bool,
}

#[verifier::ext_equal]
pub struct PieceModel {
    pub text: Seq<char>,
    pub fg: Rgb,
    pub bold: bool,
    pub italic: bool,
}

impl DeepView for StyledPiece {
    type V = PieceModel;

    open spec fn deep_view(&self) -> PieceModel {
        PieceModel { text: self.text@, fg: self.fg, bold: self.bold, italic: self.italic }
    }
}

/// The texts of pieces after each other.
pub open spec fn pieces_text(pieces: Seq<PieceModel>) -> Seq<char>
    decreases pieces.len(),
{
    if pieces.len() == 0 {
        Seq::empty()
    } else {
        pieces_text(pieces.drop_last()) + pieces.last().text
    }
}

/// `SyntaxSet::load_defaults_newlines`: the bundled syntaxes.
#[verifier::external_body]
fn load_syntaxes() -> (r: SyntaxSet)
    ensures
        bundled_syntaxes(r),
{
    SyntaxSet::load_defaults_newlines()
}

/// `ThemeSet::load_defaults`: the bundled themes.
#[verifier::external_body]
fn load_themes() -> (r: ThemeSet)
    ensures
        bundled_themes(r),
{
    ThemeSet::load_defaults()
}

/// `SyntaxSet::find_syntax_by_extension`, by the name of what it finds.
#[verifier::external_body]
fn syntax_by_extension(set: &SyntaxSet, ext: &str) -> (r: Option<String>)
    requires
        bundled_syntaxes(*set),
    ensures
        r.deep_view() == syntax_for_extension(ext@),
{
    set.find_syntax_by_extension(ext).map(|s| s.name.clone())
}

/// `SyntaxSet::find_syntax_by_first_line`, by the name of what it finds.
#[verifier::external_body]
fn syntax_by_first_line(set: &SyntaxSet, line: &str) -> (r: Option<String>)
    requires
        bundled_syntaxes(*set),
    ensures
        r.deep_view() == syntax_for_first_line(line@),
{
    set.find_syntax_by_first_line(line).map(|s| s.name.clone())
}

/// `HighlightLines::new` with the syntax and the theme of these names, where
/// the bundle has both. The highlighter has been given no line yet.
#[verifier::external_body]
fn start_lines<'a>(set: &SyntaxSet, themes: &'a ThemeSet, syntax: &str, theme: &str) -> (r: Option<
    HighlightLines<'a>,
>)
    requires
        bundled_syntaxes(*set),
        bundled_themes(*themes),
    ensures
        match r {
            Some(h) => can_style(syntax@, theme@) && styler_names(h) == (syntax@, theme@)
                && styler_lines(h) == Seq::<Seq<char>>::empty(),
            None => !can_style(syntax@, theme@),
        },
{
    let found = set.find_syntax_by_name(syntax)?;
    themes.themes.get(theme).map(|t| HighlightLines::new(found, t))
}

/// `HighlightLines::highlight_line`: what it makes of a line depends on the
/// syntax, the theme and the lines that came before. The pieces are cut from
/// the line in order, from its start on.
#[verifier::external_body]
fn style_line(h: &mut HighlightLines<'_>, line: &str, set: &SyntaxSet) -> (r: Option<
    Vec<StyledPiece>,
>)
    requires
        bundled_syntaxes(*set),
    ensures
        r.deep_view() == styled_line(
            styler_names(*old(h)).0,
            styler_names(*old(h)).1,
            styler_lines(*old(h)),
            line@,
        ),
        r matches Some(pieces) ==> pieces_text(pieces.deep_view()).is_prefix_of(line@),
        styler_names(*final(h)) == styler_names(*old(h)),
        styler_lines(*final(h)) == styler_lines(*old(h)).push(line@),
{
    let regions = h.highlight_line(line, set).ok()?;
    let pieces = regions.into_iter().map(|(style, text)| StyledPiece {
        text: text.to_string(),
        fg: Rgb(style.foreground.r, style.foreground.g, style.foreground.b),
        bold: style.font_style.contains(FontStyle::BOLD),
        italic: style.font_style.contains(FontStyle::ITALIC),
    });
    Some(pieces.collect())
}

// --------------------------------------------------------------------- spans

/// A text without one newline at its end.
pub open spec fn without_newline(s: Seq<char>) -> Seq<char> {
    if s.len() > 0 && s.last() == '\n' {
        s.drop_last()
    } else {
        s
    }
}

/// Bytes that the pieces take up, newlines at their ends not counted.
pub open spec fn pieces_bytes(pieces: Seq<PieceModel>) -> nat
    decreases pieces.len(),
{
    if pieces.len() == 0 {
        0
    } else {
        pieces_bytes(pieces.drop_last()) + byte_len(without_newline(pieces.last().text))
    }
}

/// The spans with one more piece: it extends the last span where the style is
/// the same and no byte lies between.
pub open spec fn with_piece(spans: Seq<HlSpan>, piece: PieceModel, offset: nat) -> Seq<HlSpan> {
    let len = byte_len(without_newline(piece.text));
    let span = HlSpan {
        start: offset as u32,
        end: (offset + len) as u32,
        fg: Some(piece.fg),
        bold: piece.bold,
        italic: piece.italic,
    };
    if len == 0 {
        spans
    } else if spans.len() > 0 && spans.last().end == span.start && spans.last().fg == span.fg
        && spans.last().bold == span.bold && spans.last().italic == span.italic {
        spans.drop_last().push(HlSpan { end: span.end, ..spans.last() })
    } else {
        spans.push(span)
    }
}

/// The spans of a line in pieces.
pub open spec fn spans_of(pieces: Seq<PieceModel>) -> Seq<HlSpan>
    decreases pieces.len(),
{
    if pieces.len() == 0 {
        Seq::empty()
    } else {
        with_piece(
            spans_of(pieces.drop_last()),
            pieces.last(),
            pieces_bytes(pieces.drop_last()),
        )
    }
}

/// The spans of a line stand in order, apart from each other, and none is
/// empty.
pub proof fn spans_are_ordered(pieces: Seq<PieceModel>)
    requires
        pieces_bytes(pieces) <= u32::MAX,
    ensures
        ({
            let spans = spans_of(pieces);
            &&& forall|i: int|
                0 <= i < spans.len() ==> (#[trigger] spans[i]).start < spans[i].end
                    <= pieces_bytes(pieces)
            &&& forall|i: int, j: int|
                0 <= i < j < spans.len() ==> (#[trigger] spans[i]).end <= (
                #[trigger] spans[j]).start
        }),
    decreases pieces.len(),
{
    if pieces.len() > 0 {
        spans_are_ordered(pieces.drop_last());
    }
}

/// Convert styled pieces into byte-offset spans, merging adjacent pieces with
/// identical style and dropping the trailing newline byte.
pub fn regions_to_spans(pieces: &Vec<StyledPiece>) -> (r: Vec<HlSpan>)
    requires
        pieces_bytes(pieces.deep_view()) <= u32::MAX,
    ensures
        r@ == spans_of(pieces.deep_view()),
{
    let ghost model = pieces.deep_view();
    let mut spans: Vec<HlSpan> = Vec::new();
    let mut offset: u32 = 0;
    let mut i: usize = 0;
    assert(model.take(0) =~= Seq::empty());
    while i < pieces.len()
        invariant
            i <= pieces.len(),
            model == pieces.deep_view(),
            pieces_bytes(model) <= u32::MAX,
            offset == pieces_bytes(model.take(i as int)),
            spans@ == spans_of(model.take(i as int)),
        decreases pieces.len() - i,
    {
        let piece: &StyledPiece = &pieces[i];
        proof {
            assert(model[i as int] == piece.deep_view());
            assert(model.take(i + 1).drop_last() =~= model.take(i as int));
            lemma_pieces_bytes_grow(model, i + 1);
        }
        let cs: Vec<char> = chars_of(piece.text.as_str());
        let ends: bool = cs.len() > 0 && cs[cs.len() - 1] == '\n';
        let total: usize = bytes_in(piece.text.as_str());
        let len: u32 = if ends {
            proof {
                assert(cs@.drop_last().push('\n') =~= cs@);
                assert(byte_len(cs@) == byte_len(cs@.drop_last()) + 1);
            }
            (total - 1) as u32
        } else {
            total as u32
        };
        assert(len == byte_len(without_newline(model[i as int].text)));
        if len > 0 {
            let end: u32 = offset + len;
            let n: usize = spans.len();
            let extends: bool = n > 0 && spans[n - 1].end == offset && same_color(
                spans[n - 1].fg,
                piece.fg,
            ) && spans[n - 1].bold == piece.bold && spans[n - 1].italic == piece.italic;
            if extends {
                let last: HlSpan = spans[n - 1];
                let ghost before = spans@;
                spans[n - 1] = HlSpan {
                    start: last.start,
                    end,
                    fg: last.fg,
                    bold: last.bold,
                    italic: last.italic,
                };
                assert(spans@ =~= before.drop_last().push(spans@.last()));
            } else {
                spans.push(
                    HlSpan {
                        start: offset,
                        end,
                        fg: Some(piece.fg),
                        bold: piece.bold,
                        italic: piece.italic,
                    },
                );
            }
            offset = end;
        }
        i += 1;
    }
    assert(model.take(model.len() as int) =~= model);
    spans
}

fn same_color(a: Option<Rgb>, b: Rgb) -> (r: bool)
    ensures
        r == (a == Some(b)),
{
    match a {
        Some(x) => x == b,
        None => false,
    }
}

proof fn lemma_pieces_bytes_grow(pieces: Seq<PieceModel>, n: int)
    requires
        0 <= n <= pieces.len(),
    ensures
        pieces_bytes(pieces.take(n)) <= pieces_bytes(pieces),
    decreases pieces.len() - n,
{
    if n < pieces.len() {
        lemma_pieces_bytes_grow(pieces, n + 1);
        assert(pieces.take(n + 1).drop_last() =~= pieces.take(n));
    } else {
        assert(pieces.take(n) =~= pieces);
    }
}

/// Pieces cut from a line and its newline take no more bytes than the line.
proof fn lemma_pieces_fit(pieces: Seq<PieceModel>, content: Seq<char>)
    requires
        pieces_text(pieces).is_prefix_of(content.push('\n')),
    ensures
        pieces_bytes(pieces) <= byte_len(content),
    decreases pieces.len(),
{
    let line = content.push('\n');
    let t = pieces_text(pieces);
    assert(t =~= line.take(t.len() as int));
    if t.len() <= content.len() {
        lemma_pieces_bytes_text(pieces);
        assert(t =~= content.take(t.len() as int));
        lemma_byte_len_take_grows(content, t.len() as int, content.len() as int);
        assert(content.take(content.len() as int) =~= content);
    } else {
        assert(t =~= line);
        let init = pieces_text(pieces.drop_last());
        let last = pieces.last().text;
        assert(t == init + last);
        if last.len() == 0 {
            assert(init =~= t);
            lemma_pieces_fit(pieces.drop_last(), content);
        } else {
            assert(last.last() == line.last());
            lemma_pieces_bytes_text(pieces.drop_last());
            crate::text::lemma_byte_len_concat(init, last.drop_last());
            assert((init + last).drop_last() =~= init + last.drop_last());
            assert(line.drop_last() =~= content);
        }
    }
}

proof fn lemma_pieces_bytes_text(pieces: Seq<PieceModel>)
    ensures
        pieces_bytes(pieces) <= byte_len(pieces_text(pieces)),
    decreases pieces.len(),
{
    if pieces.len() > 0 {
        lemma_pieces_bytes_text(pieces.drop_last());
        let last = pieces.last().text;
        crate::text::lemma_byte_len_concat(pieces_text(pieces.drop_last()), last);
        if last.len() > 0 && last.last() == '\n' {
            assert(byte_len(last) == byte_len(last.drop_last()) + 1);
        }
    }
}

// -------------------------------------------------------------------- syntaxes

/// The part of a path after its last slash.
pub open spec fn file_name_of(path: Seq<char>) -> Seq<char>
    decreases path.len(),
{
    if path.len() == 0 || path.last() == '/' {
        Seq::empty()
    } else {
        file_name_of(path.drop_last()).push(path.last())
    }
}

/// Position of the last dot; -1 where there is none.
pub open spec fn last_dot(name: Seq<char>) -> int
    decreases name.len(),
{
    if name.len() == 0 {
        -1
    } else if name.last() == '.' {
        name.len() - 1
    } else {
        last_dot(name.drop_last())
    }
}

/// What stands for the extension of a path: the text after the last dot of
/// its name, or the whole name where nothing stands before that dot.
pub open spec fn extension_of(path: Seq<char>) -> Seq<char> {
    let name = file_name_of(path);
    let dot = last_dot(name);
    if dot > 0 {
        name.skip(dot + 1)
    } else {
        name
    }
}

proof fn lemma_file_name(path: Seq<char>, k: int)
    requires
        0 <= k <= path.len(),
        k > 0 ==> path[k - 1] == '/',
        forall|j: int| k <= j < path.len() ==> path[j] != '/',
    ensures
        file_name_of(path) == path.skip(k),
    decreases path.len(),
{
    if k < path.len() {
        lemma_file_name(path.drop_last(), k);
        assert(path[path.len() - 1] != '/');
        assert(path.drop_last().skip(k).push(path.last()) =~= path.skip(k));
    } else {
        assert(path.skip(k) =~= Seq::<char>::empty());
    }
}

proof fn lemma_last_dot(name: Seq<char>, k: int)
    requires
        -1 <= k < name.len(),
        k >= 0 ==> name[k] == '.',
        forall|j: int| k < j < name.len() ==> name[j] != '.',
    ensures
        last_dot(name) == k,
    decreases name.len(),
{
    if name.len() > 0 && k < name.len() - 1 {
        assert(name[name.len() - 1] != '.');
        lemma_last_dot(name.drop_last(), k);
    }
}

/// What stands for the extension of a path.
pub fn file_extension(path: &str) -> (r: String)
    ensures
        r@ == extension_of(path@),
{
    let cs: Vec<char> = chars_of(path);
    let mut k: usize = cs.len();
    while k > 0 && cs[k - 1] != '/'
        invariant
            k <= cs.len(),
            forall|j: int| k <= j < cs.len() ==> cs[j] != '/',
        decreases k,
    {
        k -= 1;
    }
    proof {
        lemma_file_name(cs@, k as int);
    }
    let name: &[char] = vstd::slice::slice_subrange(cs.as_slice(), k, cs.len());
    assert(name@ =~= cs@.skip(k as int));
    let mut d: usize = name.len();
    while d > 0 && name[d - 1] != '.'
        invariant
            d <= name.len(),
            forall|j: int| d <= j < name.len() ==> name[j] != '.',
        decreases d,
    {
        d -= 1;
    }
    proof {
        lemma_last_dot(name@, d - 1);
    }
    if d > 1 {
        let ext: &[char] = vstd::slice::slice_subrange(name, d, name.len());
        assert(ext@ =~= name@.skip(d as int));
        string_of(ext)
    } else {
        string_of(name)
    }
}

/// An ASCII letter in lower case; every other character as it is.
pub open spec fn lower(c: char) -> char {
    if 'A' <= c && c <= 'Z' {
        (c as u32 + 32) as char
    } else {
        c
    }
}

/// Whether two texts are the same but for the case of ASCII letters.
pub open spec fn same_but_case(a: Seq<char>, b: Seq<char>) -> bool {
    a.len() == b.len() && forall|i: int| 0 <= i < a.len() ==> lower(#[trigger] a[i]) == lower(b[i])
}

fn lower_char(c: char) -> (r: char)
    ensures
        r == lower(c),
{
    if 'A' <= c && c <= 'Z' {
        (c as u8 + 32) as char
    } else {
        c
    }
}

fn eq_ignoring_case(a: &str, b: &str) -> (r: bool)
    ensures
        r == same_but_case(a@, b@),
{
    let x: Vec<char> = chars_of(a);
    let y: Vec<char> = chars_of(b);
    if x.len() != y.len() {
        return false;
    }
    let mut i: usize = 0;
    while i < x.len()
        invariant
            i <= x.len(),
            x.len() == y.len(),
            x@ == a@,
            y@ == b@,
            forall|k: int| 0 <= k < i ==> lower(#[trigger] x@[k]) == lower(y@[k]),
        decreases x.len() - i,
    {
        if lower_char(x[i]) != lower_char(y[i]) {
            assert(lower(x@[i as int]) != lower(y@[i as int]));
            return false;
        }
        i += 1;
    }
    true
}

/// Extensions that the bundle does not know, of JavaScript's kin.
pub open spec fn script_extensions() -> Seq<Seq<char>> {
    seq!["ts"@, "mts"@, "cts"@, "tsx"@, "jsx"@, "mjs"@, "cjs"@]
}

pub open spec fn json_extensions() -> Seq<Seq<char>> {
    seq!["jsonc"@, "json5"@]
}

pub open spec fn markup_extensions() -> Seq<Seq<char>> {
    seq!["vue"@, "svelte"@, "astro"@]
}

pub open spec fn jvm_extensions() -> Seq<Seq<char>> {
    seq!["kt"@, "kts"@]
}

/// Whether an extension is in a list, case aside.
pub open spec fn named_in(list: Seq<Seq<char>>, ext: Seq<char>) -> bool {
    exists|i: int| 0 <= i < list.len() && same_but_case(#[trigger] list[i], ext)
}

/// The bundled extension that is closest to one the bundle does not know.
/// Only near-exact relatives are listed: a wrong grammar paints worse than no
/// grammar.
pub open spec fn alias_of(ext: Seq<char>) -> Option<Seq<char>> {
    if named_in(script_extensions(), ext) {
        Some("js"@)
    } else if named_in(json_extensions(), ext) {
        Some("json"@)
    } else if named_in(markup_extensions(), ext) {
        Some("html"@)
    } else if named_in(jvm_extensions(), ext) {
        Some("java"@)
    } else {
        None
    }
}

fn is_named_in(list: &[&str], ext: &str) -> (r: bool)
    ensures
        r == named_in(strs(list@), ext@),
{
    let ghost model = strs(list@);
    let mut i: usize = 0;
    while i < list.len()
        invariant
            i <= list.len(),
            model == strs(list@),
            forall|k: int| 0 <= k < i ==> !same_but_case(#[trigger] model[k], ext@),
        decreases list.len() - i,
    {
        if eq_ignoring_case(list[i], ext) {
            assert(same_but_case(model[i as int], ext@));
            return true;
        }
        assert(!same_but_case(model[i as int], ext@));
        i += 1;
    }
    false
}

/// The bundled extension that stands in for one the bundle does not know.
pub fn extension_alias(ext: &str) -> (r: Option<&'static str>)
    ensures
        match alias_of(ext@) {
            Some(alias) => r matches Some(a) && a@ == alias,
            None => r is None,
        },
{
    let scripts: [&str; 7] = ["ts", "mts", "cts", "tsx", "jsx", "mjs", "cjs"];
    assert(strs(scripts@) =~= script_extensions());
    if is_named_in(scripts.as_slice(), ext) {
        return Some("js");
    }
    let json: [&str; 2] = ["jsonc", "json5"];
    assert(strs(json@) =~= json_extensions());
    if is_named_in(json.as_slice(), ext) {
        return Some("json");
    }
    let markup: [&str; 3] = ["vue", "svelte", "astro"];
    assert(strs(markup@) =~= markup_extensions());
    if is_named_in(markup.as_slice(), ext) {
        return Some("html");
    }
    let jvm: [&str; 2] = ["kt", "kts"];
    assert(strs(jvm@) =~= jvm_extensions());
    if is_named_in(jvm.as_slice(), ext) {
        return Some("java");
    }
    None
}

/// The name of the syntax for a file: by its extension, then by the alias of
/// its extension, then by its first line.
pub open spec fn syntax_of(path: Seq<char>, first_line: Option<Seq<char>>) -> Option<Seq<char>> {
    let ext = extension_of(path);
    let by_alias = match alias_of(ext) {
        Some(alias) => syntax_for_extension(alias),
        None => None,
    };
    if syntax_for_extension(ext) is Some {
        syntax_for_extension(ext)
    } else if by_alias is Some {
        by_alias
    } else {
        match first_line {
            Some(line) => syntax_for_first_line(line),
            None => None,
        }
    }
}

/// Resolve a syntax for `path`, trying the real extension, then the alias
/// table, then a first-line shebang/modeline sniff.
fn find_syntax(set: &SyntaxSet, path: &str, first_line: &Option<String>) -> (r: Option<String>)
    requires
        bundled_syntaxes(*set),
    ensures
        r.deep_view() == syntax_of(path@, first_line.deep_view()),
{
    let ext: String = file_extension(path);
    let by_extension: Option<String> = syntax_by_extension(set, ext.as_str());
    if by_extension.is_some() {
        return by_extension;
    }
    if let Some(alias) = extension_alias(ext.as_str()) {
        let by_alias: Option<String> = syntax_by_extension(set, alias);
        if by_alias.is_some() {
            return by_alias;
        }
    }
    match first_line {
        Some(line) => syntax_by_first_line(set, line.as_str()),
        None => None,
    }
}

// --------------------------------------------------------------- pseudo files

/// Whether a line stands in the pseudo file of a side.
pub open spec fn in_pseudo_file(kind: LineKind, old: bool) -> bool {
    if old {
        kind != LineKind::Add
    } else {
        kind != LineKind::Remove
    }
}

/// A pseudo file: its text, and the side's line numbers.
#[verifier::ext_equal]
pub struct PseudoModel {
    pub text: Seq<char>,
    pub nums: Seq<u32>,
}

pub open spec fn empty_pseudo() -> PseudoModel {
    PseudoModel { text: Seq::empty(), nums: Seq::empty() }
}

/// The pseudo file with more lines of a hunk.
pub open spec fn with_lines(file: PseudoModel, lines: Seq<DiffLineModel>, old: bool) -> PseudoModel
    decreases lines.len(),
{
    if lines.len() == 0 {
        file
    } else {
        let before = with_lines(file, lines.drop_last(), old);
        let line = lines.last();
        if in_pseudo_file(line.kind, old) {
            PseudoModel {
                text: before.text + line.content.push('\n'),
                nums: before.nums.push(
                    if old {
                        line.old_num
                    } else {
                        line.new_num
                    },
                ),
            }
        } else {
            before
        }
    }
}

/// The pseudo file of a side over the first `n` hunks.
pub open spec fn pseudo_file(hunks: Seq<HunkModel>, n: int, old: bool) -> PseudoModel
    decreases n,
{
    if n <= 0 {
        empty_pseudo()
    } else {
        with_lines(pseudo_file(hunks, n - 1, old), hunks[n - 1].lines, old)
    }
}

/// Bytes of both pseudo files: a context line counts on both.
pub open spec fn lines_size(lines: Seq<DiffLineModel>) -> nat
    decreases lines.len(),
{
    if lines.len() == 0 {
        0
    } else {
        let len = byte_len(lines.last().content) + 1;
        lines_size(lines.drop_last()) + if lines.last().kind == LineKind::Context {
            2 * len
        } else {
            len
        }
    }
}

pub open spec fn hunks_size(hunks: Seq<HunkModel>, n: int) -> nat
    decreases n,
{
    if n <= 0 {
        0
    } else {
        hunks_size(hunks, n - 1) + lines_size(hunks[n - 1].lines)
    }
}

/// What highlighting has come to after some lines of a pseudo file: the lines
/// that were highlighted, and the spans by line number.
#[verifier::ext_equal]
pub struct PaintModel {
    pub fed: Seq<Seq<char>>,
    pub spans: Map<u32, Seq<HlSpan>>,
}

/// The first `n` lines highlighted. A line that is too long is passed over,
/// one that `syntect` cannot take or that has no span gets no entry.
pub open spec fn painted(
    lines: Seq<Seq<char>>,
    nums: Seq<u32>,
    syntax: Seq<char>,
    theme: Seq<char>,
    n: int,
) -> PaintModel
    decreases n,
{
    if n <= 0 {
        PaintModel { fed: Seq::empty(), spans: Map::empty() }
    } else {
        let before = painted(lines, nums, syntax, theme, n - 1);
        let line = lines[n - 1].push('\n');
        if byte_len(line) > MAX_HIGHLIGHT_LINE_BYTES {
            before
        } else {
            let fed = before.fed.push(line);
            match styled_line(syntax, theme, before.fed, line) {
                Some(pieces) if spans_of(pieces).len() > 0 => PaintModel {
                    fed,
                    spans: before.spans.insert(nums[n - 1], spans_of(pieces)),
                },
                _ => PaintModel { fed, spans: before.spans },
            }
        }
    }
}

/// The spans of a pseudo file by line number.
pub open spec fn file_spans(file: PseudoModel, syntax: Seq<char>, theme: Seq<char>) -> Map<
    u32,
    Seq<HlSpan>,
> {
    let lines = lines_of(file.text);
    let n = if lines.len() <= file.nums.len() {
        lines.len()
    } else {
        file.nums.len()
    };
    if file.text.len() == 0 {
        Map::empty()
    } else {
        painted(lines, file.nums, syntax, theme, n as int).spans
    }
}

/// Highlight spans for one file diff, keyed by side line number.
#[derive(Debug, PartialEq, Eq)]
pub struct HighlightMap {
    pub old: BTreeMap<u32, Vec<HlSpan>>,
    pub new: BTreeMap<u32, Vec<HlSpan>>,
}

/// The lists of spans of a map.
pub open spec fn span_lists(map: Map<u32, Vec<HlSpan>>) -> Map<u32, Seq<HlSpan>> {
    Map::new(|k: u32| map.contains_key(k), |k: u32| map[k]@)
}

#[verifier::ext_equal]
pub struct HighlightModel {
    pub old: Map<u32, Seq<HlSpan>>,
    pub new: Map<u32, Seq<HlSpan>>,
}

impl DeepView for HighlightMap {
    type V = HighlightModel;

    open spec fn deep_view(&self) -> HighlightModel {
        HighlightModel { old: span_lists(self.old@), new: span_lists(self.new@) }
    }
}

pub open spec fn no_highlights() -> HighlightModel {
    HighlightModel { old: Map::empty(), new: Map::empty() }
}

impl Default for HighlightMap {
    fn default() -> (r: Self)
        ensures
            r.deep_view() == no_highlights(),
    {
        let r = HighlightMap { old: BTreeMap::new(), new: BTreeMap::new() };
        assert(r.deep_view() =~= no_highlights());
        r
    }
}

/// The first line of a text, as a sniff sees it.
pub open spec fn first_line_of(text: Seq<char>) -> Option<Seq<char>> {
    if text.len() == 0 {
        None
    } else {
        Some(without_cr(lines_of(text)[0]))
    }
}

/// The highlights of a diff.
pub open spec fn highlights(
    path: Seq<char>,
    diff: FileDiffModel,
    theme: ThemeChoice,
) -> HighlightModel {
    let n = diff.hunks.len() as int;
    let old_file = pseudo_file(diff.hunks, n, true);
    let new_file = pseudo_file(diff.hunks, n, false);
    if diff.kind != FileDiffKindModel::Text || hunks_size(diff.hunks, n) > MAX_HIGHLIGHT_BYTES {
        no_highlights()
    } else {
        match syntax_of(path, first_line_of(new_file.text)) {
            Some(syntax) if can_style(syntax, theme.theme_name()) => HighlightModel {
                old: file_spans(old_file, syntax, theme.theme_name()),
                new: file_spans(new_file, syntax, theme.theme_name()),
            },
            _ => no_highlights(),
        }
    }
}

proof fn lemma_lines_size_grows(lines: Seq<DiffLineModel>, n: int)
    requires
        0 <= n <= lines.len(),
    ensures
        lines_size(lines.take(n)) <= lines_size(lines),
    decreases lines.len(),
{
    if n < lines.len() {
        lemma_lines_size_grows(lines.drop_last(), n);
        assert(lines.drop_last().take(n) =~= lines.take(n));
    } else {
        assert(lines.take(n) =~= lines);
    }
}

proof fn lemma_hunks_size_grows(hunks: Seq<HunkModel>, n: int, m: int)
    requires
        0 <= n <= m,
    ensures
        hunks_size(hunks, n) <= hunks_size(hunks, m),
    decreases m - n,
{
    if n < m {
        lemma_hunks_size_grows(hunks, n, m - 1);
    }
}

/// Adds the size of a hunk's lines to `total`; `None` once the limit is passed.
fn add_lines_size(lines: &Vec<DiffLine>, total: usize) -> (r: Option<usize>)
    requires
        total <= MAX_HIGHLIGHT_BYTES,
    ensures
        match r {
            Some(sum) => sum == total + lines_size(lines.deep_view()) && sum <= MAX_HIGHLIGHT_BYTES,
            None => total + lines_size(lines.deep_view()) > MAX_HIGHLIGHT_BYTES,
        },
{
    let ghost model = lines.deep_view();
    let mut sum: usize = total;
    let mut i: usize = 0;
    assert(model.take(0) =~= Seq::empty());
    while i < lines.len()
        invariant
            i <= lines.len(),
            model == lines.deep_view(),
            model.len() == lines.len(),
            sum == total + lines_size(model.take(i as int)),
            sum <= MAX_HIGHLIGHT_BYTES,
        decreases lines.len() - i,
    {
        proof {
            assert(model[i as int] == lines[i as int].deep_view());
            assert(model.take(i + 1).drop_last() =~= model.take(i as int));
            assert(model.take(i + 1).last() == model[i as int]);
            lemma_lines_size_grows(model, i + 1);
        }
        let len: usize = bytes_in(lines[i].content.as_str());
        if len >= MAX_HIGHLIGHT_BYTES {
            return None;
        }
        sum += match lines[i].kind {
            LineKind::Context => (len + 1) * 2,
            LineKind::Add | LineKind::Remove => len + 1,
        };
        if sum > MAX_HIGHLIGHT_BYTES {
            return None;
        }
        i += 1;
    }
    assert(model.take(i as int) =~= model);
    Some(sum)
}

/// Whether both pseudo files together are small enough to highlight.
fn is_small_enough(hunks: &Vec<Hunk>) -> (r: bool)
    ensures
        r == (hunks_size(hunks.deep_view(), hunks.len() as int) <= MAX_HIGHLIGHT_BYTES),
{
    let ghost model = hunks.deep_view();
    let mut total: usize = 0;
    let mut i: usize = 0;
    while i < hunks.len()
        invariant
            i <= hunks.len(),
            model == hunks.deep_view(),
            model.len() == hunks.len(),
            total == hunks_size(model, i as int),
            total <= MAX_HIGHLIGHT_BYTES,
        decreases hunks.len() - i,
    {
        proof {
            assert(model[i as int] == hunks[i as int].deep_view());
            lemma_hunks_size_grows(model, i + 1, model.len() as int);
        }
        match add_lines_size(&hunks[i].lines, total) {
            Some(sum) => {
                total = sum;
            },
            None => {
                return false;
            },
        }
        i += 1;
    }
    true
}

/// A pseudo file: its text, and the side's line numbers.
struct PseudoFile {
    text: String,
    nums: Vec<u32>,
}

impl DeepView for PseudoFile {
    type V = PseudoModel;

    closed spec fn deep_view(&self) -> PseudoModel {
        PseudoModel { text: self.text@, nums: self.nums@ }
    }
}

fn add_lines(file: &mut PseudoFile, lines: &Vec<DiffLine>, old_side: bool)
    ensures
        final(file).deep_view() == with_lines(old(file).deep_view(), lines.deep_view(), old_side),
{
    let ghost start = file.deep_view();
    let ghost model = lines.deep_view();
    let mut i: usize = 0;
    assert(model.take(0) =~= Seq::empty());
    while i < lines.len()
        invariant
            i <= lines.len(),
            model == lines.deep_view(),
            model.len() == lines.len(),
            file.deep_view() == with_lines(start, model.take(i as int), old_side),
        decreases lines.len() - i,
    {
        let ghost before = file.deep_view();
        proof {
            assert(model[i as int] == lines[i as int].deep_view());
            assert(model.take(i + 1).drop_last() =~= model.take(i as int));
            assert(model.take(i + 1).last() == model[i as int]);
        }
        let line: &DiffLine = &lines[i];
        let (wanted, num): (bool, u32) = match line.kind {
            LineKind::Add => (!old_side, line.new_num),
            LineKind::Remove => (old_side, line.old_num),
            LineKind::Context => (
                true,
                if old_side {
                    line.old_num
                } else {
                    line.new_num
                },
            ),
        };
        if wanted {
            push_text(&mut file.text, line.content.as_str());
            file.text.push('\n');
            file.nums.push(num);
            assert(file.text@ =~= before.text + line.content@.push('\n'));
        }
        i += 1;
    }
    assert(model.take(i as int) =~= model);
}

fn build_pseudo_file(hunks: &Vec<Hunk>, old: bool) -> (r: PseudoFile)
    ensures
        r.deep_view() == pseudo_file(hunks.deep_view(), hunks.len() as int, old),
{
    let ghost model = hunks.deep_view();
    let mut file: PseudoFile = PseudoFile { text: String::new(), nums: Vec::new() };
    assert(file.deep_view() =~= empty_pseudo());
    let mut i: usize = 0;
    while i < hunks.len()
        invariant
            i <= hunks.len(),
            model == hunks.deep_view(),
            model.len() == hunks.len(),
            file.deep_view() == pseudo_file(model, i as int, old),
        decreases hunks.len() - i,
    {
        assert(model[i as int] == hunks[i as int].deep_view());
        add_lines(&mut file, &hunks[i].lines, old);
        i += 1;
    }
    file
}

fn put_spans(map: &mut BTreeMap<u32, Vec<HlSpan>>, num: u32, spans: Vec<HlSpan>)
    ensures
        span_lists(final(map)@) == span_lists(old(map)@).insert(num, spans@),
{
    let ghost before = map@;
    map.insert(num, spans);
    assert(span_lists(map@) =~= span_lists(before).insert(num, spans@));
}

/// The spans under every line number of a map: there are some, they stand in
/// order, apart from each other, and none is empty.
pub open spec fn well_spanned(map: Map<u32, Seq<HlSpan>>) -> bool {
    forall|num: u32| #[trigger]
        map.contains_key(num) ==> {
            &&& map[num].len() > 0
            &&& forall|i: int| 0 <= i < map[num].len() ==> (#[trigger] map[num][i]).start < map[num][i].end
            &&& forall|i: int, j: int|
                0 <= i < j < map[num].len() ==> (#[trigger] map[num][i]).end <= (
                #[trigger] map[num][j]).start
        }
}

/// The number of a line on a side.
pub open spec fn number_on(line: DiffLineModel, old: bool) -> u32 {
    if old {
        line.old_num
    } else {
        line.new_num
    }
}

/// Whether every span ends within a line's content.
pub open spec fn ends_within(spans: Seq<HlSpan>, content: Seq<char>) -> bool {
    forall|i: int| 0 <= i < spans.len() ==> (#[trigger] spans[i]).end <= byte_len(content)
}

/// Whether a line stands on a side under a number.
pub open spec fn stands_on(line: DiffLineModel, num: u32, old: bool) -> bool {
    in_pseudo_file(line.kind, old) && number_on(line, old) == num
}

/// Whether the spans under every line number of a map end within a line of the
/// side that has this number.
pub open spec fn spans_stay_in_lines(
    map: Map<u32, Seq<HlSpan>>,
    hunks: Seq<HunkModel>,
    old: bool,
) -> bool {
    forall|num: u32| #[trigger]
        map.contains_key(num) ==> exists|h: int, k: int|
            #![trigger hunks[h].lines[k]]
            0 <= h < hunks.len() && 0 <= k < hunks[h].lines.len() && stands_on(
                hunks[h].lines[k],
                num,
                old,
            ) && ends_within(map[num], hunks[h].lines[k].content)
}

/// Whether no two lines of a side have the same number.
pub open spec fn numbered_apart(hunks: Seq<HunkModel>, old: bool) -> bool {
    forall|h: int, k: int, i: int, j: int|
        #![trigger hunks[h].lines[k], hunks[i].lines[j]]
        0 <= h < hunks.len() && 0 <= k < hunks[h].lines.len() && 0 <= i < hunks.len() && 0 <= j
            < hunks[i].lines.len() && in_pseudo_file(hunks[h].lines[k].kind, old) && in_pseudo_file(
            hunks[i].lines[j].kind,
            old,
        ) && number_on(hunks[h].lines[k], old) == number_on(hunks[i].lines[j], old) ==> h == i && k
            == j
}

/// The spans under every line number of a map end within one of the lines that
/// were given with this number.
spec fn spans_stay_in(map: Map<u32, Seq<HlSpan>>, lines: Seq<Seq<char>>, nums: Seq<u32>) -> bool {
    forall|num: u32| #[trigger]
        map.contains_key(num) ==> exists|i: int|
            0 <= i < lines.len() && i < nums.len() && #[trigger] nums[i] == num && ends_within(
                map[num],
                lines[i],
            )
}

proof fn lemma_spans_put(
    map: Map<u32, Seq<HlSpan>>,
    lines: Seq<Seq<char>>,
    nums: Seq<u32>,
    at: int,
    spans: Seq<HlSpan>,
)
    requires
        spans_stay_in(map, lines, nums),
        0 <= at < lines.len(),
        at < nums.len(),
        ends_within(spans, lines[at]),
    ensures
        spans_stay_in(map.insert(nums[at], spans), lines, nums),
{
    let after = map.insert(nums[at], spans);
    assert forall|num: u32| #[trigger] after.contains_key(num) implies exists|i: int|
        0 <= i < lines.len() && i < nums.len() && #[trigger] nums[i] == num && ends_within(
            after[num],
            lines[i],
        ) by {
        if num == nums[at] {
            assert(ends_within(after[num], lines[at]));
        } else {
            assert(map.contains_key(num));
            let i = choose|i: int|
                0 <= i < lines.len() && i < nums.len() && #[trigger] nums[i] == num
                    && ends_within(map[num], lines[i]);
            assert(ends_within(after[num], lines[i]));
        }
    }
}

/// Whether the pieces of a pseudo file between newlines are the contents of the
/// lines that its numbers come from.
spec fn faithful(file: PseudoModel, hunks: Seq<HunkModel>, old: bool) -> bool {
    let pieces = split_on(file.text, '\n');
    &&& pieces.len() == file.nums.len() + 1
    &&& pieces.last().len() == 0
    &&& forall|i: int|
        0 <= i < file.nums.len() ==> exists|h: int, k: int|
            #![trigger hunks[h].lines[k]]
            0 <= h < hunks.len() && 0 <= k < hunks[h].lines.len() && stands_on(
                hunks[h].lines[k],
                #[trigger] file.nums[i],
                old,
            ) && hunks[h].lines[k].content == pieces[i]
}

/// More text without a newline goes to the last piece.
proof fn lemma_last_piece_grows(text: Seq<char>, more: Seq<char>)
    requires
        !more.contains('\n'),
    ensures
        split_on(text + more, '\n') == split_on(text, '\n').drop_last().push(
            split_on(text, '\n').last() + more,
        ),
    decreases more.len(),
{
    let pieces = split_on(text, '\n');
    lemma_split_on_nonempty(text, '\n');
    if more.len() == 0 {
        assert(text + more =~= text);
        assert(pieces.last() + more =~= pieces.last());
        assert(pieces =~= pieces.drop_last().push(pieces.last()));
    } else {
        let init = more.drop_last();
        assert(!init.contains('\n')) by {
            if init.contains('\n') {
                let k = choose|k: int| 0 <= k < init.len() && init[k] == '\n';
                assert(more[k] == '\n');
            }
        }
        lemma_last_piece_grows(text, init);
        assert((text + more).drop_last() =~= text + init);
        assert(more[more.len() - 1] != '\n');
        let before = split_on(text + init, '\n');
        assert(before.drop_last() =~= pieces.drop_last());
        assert(before.last().push(more.last()) =~= pieces.last() + more);
    }
}

proof fn lemma_more_lines_faithful(
    file: PseudoModel,
    hunks: Seq<HunkModel>,
    h: int,
    n: int,
    old: bool,
)
    requires
        faithful(file, hunks, old),
        newline_free(hunks),
        0 <= h < hunks.len(),
        0 <= n <= hunks[h].lines.len(),
    ensures
        faithful(with_lines(file, hunks[h].lines.take(n), old), hunks, old),
    decreases n,
{
    let lines = hunks[h].lines;
    if n > 0 {
        lemma_more_lines_faithful(file, hunks, h, n - 1, old);
        assert(lines.take(n).drop_last() =~= lines.take(n - 1));
        let before = with_lines(file, lines.take(n - 1), old);
        let after = with_lines(file, lines.take(n), old);
        let line = lines[n - 1];
        assert(lines.take(n).last() == line);
        if in_pseudo_file(line.kind, old) {
            let pieces = split_on(before.text, '\n');
            let grown = before.text + line.content;
            assert(!hunks[h].lines[n - 1].content.contains('\n'));
            lemma_last_piece_grows(before.text, line.content);
            assert(pieces.last() + line.content =~= line.content);
            assert(after.text.drop_last() =~= grown);
            assert(after.text.last() == '\n');
            let all = split_on(after.text, '\n');
            assert(all == pieces.drop_last().push(line.content).push(Seq::<char>::empty()));
            assert forall|i: int| 0 <= i < after.nums.len() implies exists|g: int, k: int|
                #![trigger hunks[g].lines[k]]
                0 <= g < hunks.len() && 0 <= k < hunks[g].lines.len() && stands_on(
                    hunks[g].lines[k],
                    #[trigger] after.nums[i],
                    old,
                ) && hunks[g].lines[k].content == all[i] by {
                if i < before.nums.len() {
                    assert(after.nums[i] == before.nums[i]);
                    assert(all[i] == pieces[i]);
                } else {
                    assert(stands_on(hunks[h].lines[n - 1], after.nums[i], old));
                    assert(all[i] == line.content);
                }
            }
        }
    } else {
        assert(lines.take(0) =~= Seq::empty());
    }
}

proof fn lemma_pseudo_file_faithful(hunks: Seq<HunkModel>, n: int, old: bool)
    requires
        newline_free(hunks),
        0 <= n <= hunks.len(),
    ensures
        faithful(pseudo_file(hunks, n, old), hunks, old),
    decreases n,
{
    if n > 0 {
        lemma_pseudo_file_faithful(hunks, n - 1, old);
        let lines = hunks[n - 1].lines;
        assert(lines.take(lines.len() as int) =~= lines);
        lemma_more_lines_faithful(
            pseudo_file(hunks, n - 1, old),
            hunks,
            n - 1,
            lines.len() as int,
            old,
        );
    }
}

/// Spans within the lines of a pseudo file are within lines of the diff.
proof fn lemma_spans_in_diff(map: Map<u32, Seq<HlSpan>>, hunks: Seq<HunkModel>, old: bool)
    requires
        newline_free(hunks),
        ({
            let file = pseudo_file(hunks, hunks.len() as int, old);
            spans_stay_in(map, lines_of(file.text), file.nums)
        }),
    ensures
        spans_stay_in_lines(map, hunks, old),
{
    let file = pseudo_file(hunks, hunks.len() as int, old);
    lemma_pseudo_file_faithful(hunks, hunks.len() as int, old);
    let pieces = split_on(file.text, '\n');
    let lines = lines_of(file.text);
    assert forall|num: u32| #[trigger] map.contains_key(num) implies exists|h: int, k: int|
        #![trigger hunks[h].lines[k]]
        0 <= h < hunks.len() && 0 <= k < hunks[h].lines.len() && stands_on(
            hunks[h].lines[k],
            num,
            old,
        ) && ends_within(map[num], hunks[h].lines[k].content) by {
        let i = choose|i: int|
            0 <= i < lines.len() && i < file.nums.len() && #[trigger] file.nums[i] == num
                && ends_within(map[num], lines[i]);
        assert(lines[i] == pieces[i]);
        assert(file.nums[i] == num);
    }
}

/// Where a side's line numbers are distinct, the spans under a number end within
/// the content of the line that has it.
pub proof fn highlights_stay_in_their_lines(
    map: Map<u32, Seq<HlSpan>>,
    hunks: Seq<HunkModel>,
    old: bool,
    h: int,
    k: int,
)
    requires
        spans_stay_in_lines(map, hunks, old),
        numbered_apart(hunks, old),
        0 <= h < hunks.len(),
        0 <= k < hunks[h].lines.len(),
        in_pseudo_file(hunks[h].lines[k].kind, old),
        map.contains_key(number_on(hunks[h].lines[k], old)),
    ensures
        ends_within(map[number_on(hunks[h].lines[k], old)], hunks[h].lines[k].content),
{
    let num = number_on(hunks[h].lines[k], old);
    let (i, j) = choose|i: int, j: int|
        #![trigger hunks[i].lines[j]]
        0 <= i < hunks.len() && 0 <= j < hunks[i].lines.len() && stands_on(
            hunks[i].lines[j],
            num,
            old,
        ) && ends_within(map[num], hunks[i].lines[j].content);
    assert(number_on(hunks[i].lines[j], old) == num);
}

/// Highlights a pseudo file with a fresh highlighter.
fn highlight_pseudo_file(
    file: &PseudoFile,
    h: HighlightLines<'_>,
    set: &SyntaxSet,
) -> (r: BTreeMap<u32, Vec<HlSpan>>)
    requires
        bundled_syntaxes(*set),
        styler_lines(h) == Seq::<Seq<char>>::empty(),
    ensures
        span_lists(r@) == file_spans(file.deep_view(), styler_names(h).0, styler_names(h).1),
        well_spanned(span_lists(r@)),
        spans_stay_in(span_lists(r@), lines_of(file.deep_view().text), file.deep_view().nums),
{
    let mut h: HighlightLines<'_> = h;
    let ghost names = styler_names(h);
    let mut out: BTreeMap<u32, Vec<HlSpan>> = BTreeMap::new();
    assert(span_lists(out@) =~= Map::empty());
    let cs: Vec<char> = chars_of(file.text.as_str());
    if cs.len() == 0 {
        return out;
    }
    let lines: Vec<Vec<char>> = split_lines(cs.as_slice());
    let nums: &Vec<u32> = &file.nums;
    let ghost model = lines_of(file.text@);
    let mut i: usize = 0;
    while i < lines.len() && i < nums.len()
        invariant
            i <= lines.len(),
            i <= nums.len(),
            bundled_syntaxes(*set),
            model == char_seqs(lines@),
            styler_names(h) == names,
            styler_lines(h) == painted(model, nums@, names.0, names.1, i as int).fed,
            span_lists(out@) == painted(model, nums@, names.0, names.1, i as int).spans,
            well_spanned(span_lists(out@)),
            spans_stay_in(span_lists(out@), model, nums@),
        decreases lines.len() - i,
    {
        let mut line: String = string_of(lines[i].as_slice());
        line.push('\n');
        assert(line@ == model[i as int].push('\n'));
        if bytes_in(line.as_str()) <= MAX_HIGHLIGHT_LINE_BYTES {
            match style_line(&mut h, line.as_str(), set) {
                Some(pieces) => {
                    proof {
                        lemma_pieces_fit(pieces.deep_view(), model[i as int]);
                        assert(line@.drop_last() =~= model[i as int]);
                        assert(byte_len(model[i as int]) <= byte_len(line@));
                        spans_are_ordered(pieces.deep_view());
                    }
                    let spans: Vec<HlSpan> = regions_to_spans(&pieces);
                    assert(ends_within(spans@, model[i as int]));
                    if spans.len() > 0 {
                        let ghost before = span_lists(out@);
                        put_spans(&mut out, nums[i], spans);
                        proof {
                            lemma_spans_put(before, model, nums@, i as int, spans@);
                        }
                    }
                },
                None => {},
            }
        }
        i += 1;
    }
    out
}

fn first_line(text: &String) -> (r: Option<String>)
    ensures
        r.deep_view() == first_line_of(text@),
{
    let cs: Vec<char> = chars_of(text.as_str());
    if cs.len() == 0 {
        return None;
    }
    proof {
        lemma_split_on_nonempty(text@, '\n');
        if text@.last() == '\n' {
            lemma_split_on_nonempty(text@.drop_last(), '\n');
            assert(lines_of(text@).len() == split_on(text@.drop_last(), '\n').len());
        }
    }
    let lines: Vec<&str> = str_lines(text.as_str());
    assert(strs(lines@).len() == lines.len());
    assert(strs(lines@)[0] == lines[0]@);
    Some(copy_of(strip_cr(lines[0])))
}

/// Highlight a parsed diff. Returns an empty map for unknown languages,
/// non-text diffs, and content over the size caps.
pub fn highlight_diff(path: &str, diff: &FileDiff, theme: ThemeChoice) -> (r: HighlightMap)
    ensures
        r.deep_view() == highlights(path@, diff.deep_view(), theme),
        well_spanned(r.deep_view().old),
        well_spanned(r.deep_view().new),
        newline_free(diff.deep_view().hunks) ==> spans_stay_in_lines(
            r.deep_view().old,
            diff.deep_view().hunks,
            true,
        ) && spans_stay_in_lines(r.deep_view().new, diff.deep_view().hunks, false),
{
    let text: bool = match diff.kind {
        FileDiffKind::Text => true,
        _ => false,
    };
    // The size is known before the pseudo files are built, so an oversized
    // diff never pays for what it would only throw away.
    if !text || !is_small_enough(&diff.hunks) {
        return HighlightMap::default();
    }
    let old_file: PseudoFile = build_pseudo_file(&diff.hunks, true);
    let new_file: PseudoFile = build_pseudo_file(&diff.hunks, false);
    let set: SyntaxSet = load_syntaxes();
    let syntax: String = match find_syntax(&set, path, &first_line(&new_file.text)) {
        Some(syntax) => syntax,
        None => {
            return HighlightMap::default();
        },
    };
    let themes: ThemeSet = load_themes();
    let for_old: Option<HighlightLines<'_>> = start_lines(
        &set,
        &themes,
        syntax.as_str(),
        theme.syntect_name(),
    );
    let for_new: Option<HighlightLines<'_>> = start_lines(
        &set,
        &themes,
        syntax.as_str(),
        theme.syntect_name(),
    );
    match (for_old, for_new) {
        (Some(old_lines), Some(new_lines)) => {
            let r = HighlightMap {
                old: highlight_pseudo_file(&old_file, old_lines, &set),
                new: highlight_pseudo_file(&new_file, new_lines, &set),
            };
            assert(r.deep_view() =~= highlights(path@, diff.deep_view(), theme));
            proof {
                if newline_free(diff.deep_view().hunks) {
                    lemma_spans_in_diff(r.deep_view().old, diff.deep_view().hunks, true);
                    lemma_spans_in_diff(r.deep_view().new, diff.deep_view().hunks, false);
                }
            }
            r
        },
        _ => HighlightMap::default(),
    }
}

} // verus!
