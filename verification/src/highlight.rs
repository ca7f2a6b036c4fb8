//! Colouring: syntect highlighting of fenced code, and the light
//! colouring of Markdown source lines in the editor.

use vstd::prelude::*;
use vstd::string::*;
use crate::style::{lemma_span_texts_concat, span_texts, span_view, spans_view, Color, Line, Span, SpanView, Style};
use crate::text::{
    all_ws, chars_of, is_ws, opens_fence, push_char, run_len, string_of, trim_start, with_endings,
    ws_prefix, ws_prefix_len,
};

verus! {

// ---------------------------------------------------------------------
// Inline colouring of a source line
// ---------------------------------------------------------------------

/// First index `j >= k` holding a backtick, or the length of `cs`.
pub open spec fn next_tick(cs: Seq<char>, k: int) -> int
    decreases cs.len() - k,
{
    if k >= cs.len() {
        cs.len() as int
    } else if cs[k] == '`' {
        k
    } else {
        next_tick(cs, k + 1)
    }
}

/// From `k` on, the first index where `"**"` starts; when none does,
/// the last index (or `k` itself when fewer than two characters remain).
pub open spec fn next_stars(cs: Seq<char>, k: int) -> int
    decreases cs.len() - k,
{
    if k + 1 >= cs.len() {
        k
    } else if cs[k] == '*' && cs[k + 1] == '*' {
        k
    } else {
        next_stars(cs, k + 1)
    }
}

/// The closing backtick is searched no further than the end.
pub proof fn lemma_next_tick_bounds(cs: Seq<char>, k: int)
    requires
        0 <= k <= cs.len(),
    ensures
        k <= next_tick(cs, k) <= cs.len(),
    decreases cs.len() - k,
{
    if k < cs.len() && cs[k] != '`' {
        lemma_next_tick_bounds(cs, k + 1);
    }
}

/// The closing asterisks are searched no further than the end.
pub proof fn lemma_next_stars_bounds(cs: Seq<char>, k: int)
    requires
        0 <= k <= cs.len(),
    ensures
        k <= next_stars(cs, k) <= cs.len(),
    decreases cs.len() - k,
{
    if k + 1 < cs.len() && !(cs[k] == '*' && cs[k + 1] == '*') {
        lemma_next_stars_bounds(cs, k + 1);
    }
}

/// The pending plain text, as at most one unstyled span.
pub open spec fn flush(buf: Seq<char>) -> Seq<SpanView> {
    if buf.len() == 0 {
        Seq::empty()
    } else {
        seq![span_view(buf, Style::plain_spec())]
    }
}

/// Inline code, shown with its backticks.
pub open spec fn code_text(c: Seq<char>) -> Seq<char> {
    seq!['`'] + c + seq!['`']
}

/// Strong text, shown with its asterisks.
pub open spec fn strong_text(c: Seq<char>) -> Seq<char> {
    seq!['*', '*'] + c + seq!['*', '*']
}

/// The spans of `cs` from index `i` on, with `buf` the plain text read
/// since the last styled span. A backtick or `**` without its closing
/// marker is plain text.
pub open spec fn inline_from(cs: Seq<char>, i: int, buf: Seq<char>) -> Seq<SpanView>
    decreases cs.len() - i,
    when 0 <= i
{
    if i >= cs.len() {
        flush(buf)
    } else if cs[i] == '`' && next_tick(cs, i + 1) < cs.len() {
        let j = next_tick(cs, i + 1);
        proof {
            lemma_next_tick_bounds(cs, i + 1);
        }
        flush(buf) + seq![span_view(code_text(cs.subrange(i + 1, j)), Style::fg_spec(Color::Yellow))]
            + inline_from(cs, j + 1, Seq::empty())
    } else if i + 1 < cs.len() && cs[i] == '*' && cs[i + 1] == '*' && next_stars(cs, i + 2) + 1
        < cs.len() {
        let j = next_stars(cs, i + 2);
        proof {
            lemma_next_stars_bounds(cs, i + 2);
        }
        flush(buf) + seq![
            span_view(strong_text(cs.subrange(i + 2, j)), Style::fg_bold_spec(Color::White)),
        ] + inline_from(cs, j + 2, Seq::empty())
    } else {
        inline_from(cs, i + 1, buf.push(cs[i]))
    }
}

/// The inline spans of a source line: inline code in yellow, `**strong**`
/// text in bold white, the rest plain; an empty line is one empty span.
pub open spec fn inline_spans(cs: Seq<char>) -> Seq<SpanView> {
    let s = inline_from(cs, 0, Seq::empty());
    if s.len() == 0 {
        seq![span_view(cs, Style::plain_spec())]
    } else {
        s
    }
}

/// A backtick found by the search is a backtick.
proof fn lemma_next_tick_found(cs: Seq<char>, k: int)
    requires
        0 <= k,
        next_tick(cs, k) < cs.len(),
    ensures
        cs[next_tick(cs, k)] == '`',
    decreases cs.len() - k,
{
    if k < cs.len() && cs[k] != '`' {
        lemma_next_tick_found(cs, k + 1);
    }
}

/// Asterisks found by the search are two asterisks.
proof fn lemma_next_stars_found(cs: Seq<char>, k: int)
    requires
        0 <= k,
        next_stars(cs, k) + 1 < cs.len(),
    ensures
        cs[next_stars(cs, k)] == '*' && cs[next_stars(cs, k) + 1] == '*',
    decreases cs.len() - k,
{
    if k + 1 < cs.len() && !(cs[k] == '*' && cs[k + 1] == '*') {
        lemma_next_stars_found(cs, k + 1);
    }
}

/// The spans from `i` on hold the pending text, then the rest of the
/// line, unchanged.
proof fn lemma_inline_from_text(cs: Seq<char>, i: int, buf: Seq<char>)
    requires
        0 <= i <= cs.len(),
    ensures
        span_texts(inline_from(cs, i, buf)) == buf + cs.subrange(i, cs.len() as int),
    decreases cs.len() - i,
{
    let rest = cs.subrange(i, cs.len() as int);
    if i >= cs.len() {
        assert(rest.len() == 0);
        assert(buf + rest =~= buf);
        if buf.len() > 0 {
            assert(span_texts(flush(buf)) == span_texts(flush(buf).drop_last()) + buf);
        }
    } else if cs[i] == '`' && next_tick(cs, i + 1) < cs.len() {
        let j = next_tick(cs, i + 1);
        lemma_next_tick_bounds(cs, i + 1);
        lemma_next_tick_found(cs, i + 1);
        lemma_inline_from_text(cs, j + 1, Seq::empty());
        let sp = seq![span_view(code_text(cs.subrange(i + 1, j)), Style::fg_spec(Color::Yellow))];
        let tail = inline_from(cs, j + 1, Seq::empty());
        lemma_span_texts_concat(flush(buf) + sp, tail);
        lemma_span_texts_concat(flush(buf), sp);
        lemma_inline_from_text(cs, cs.len() as int, buf);
        assert(span_texts(sp) == span_texts(sp.drop_last()) + sp.last().text);
        assert(span_texts(flush(buf)) == buf) by {
            lemma_inline_from_text(cs, cs.len() as int, buf);
            assert(cs.subrange(cs.len() as int, cs.len() as int) =~= Seq::<char>::empty());
            assert(buf + Seq::<char>::empty() =~= buf);
        }
        assert(code_text(cs.subrange(i + 1, j)) + cs.subrange(j + 1, cs.len() as int) =~= rest);
        assert(Seq::<char>::empty() + cs.subrange(j + 1, cs.len() as int) =~= cs.subrange(j + 1, cs.len() as int));
        assert(buf + code_text(cs.subrange(i + 1, j)) + cs.subrange(j + 1, cs.len() as int) =~= buf + rest);
    } else if i + 1 < cs.len() && cs[i] == '*' && cs[i + 1] == '*' && next_stars(cs, i + 2) + 1
        < cs.len() {
        let j = next_stars(cs, i + 2);
        lemma_next_stars_bounds(cs, i + 2);
        lemma_next_stars_found(cs, i + 2);
        lemma_inline_from_text(cs, j + 2, Seq::empty());
        let sp = seq![span_view(strong_text(cs.subrange(i + 2, j)), Style::fg_bold_spec(Color::White))];
        let tail = inline_from(cs, j + 2, Seq::empty());
        lemma_span_texts_concat(flush(buf) + sp, tail);
        lemma_span_texts_concat(flush(buf), sp);
        assert(span_texts(sp) == span_texts(sp.drop_last()) + sp.last().text);
        assert(span_texts(flush(buf)) == buf) by {
            lemma_inline_from_text(cs, cs.len() as int, buf);
            assert(cs.subrange(cs.len() as int, cs.len() as int) =~= Seq::<char>::empty());
            assert(buf + Seq::<char>::empty() =~= buf);
        }
        assert(strong_text(cs.subrange(i + 2, j)) + cs.subrange(j + 2, cs.len() as int) =~= rest);
        assert(Seq::<char>::empty() + cs.subrange(j + 2, cs.len() as int) =~= cs.subrange(j + 2, cs.len() as int));
        assert(buf + strong_text(cs.subrange(i + 2, j)) + cs.subrange(j + 2, cs.len() as int) =~= buf + rest);
    } else {
        lemma_inline_from_text(cs, i + 1, buf.push(cs[i]));
        assert(buf.push(cs[i]) + cs.subrange(i + 1, cs.len() as int) =~= buf + rest);
    }
}

/// Colouring a source line never changes its text: the texts of its
/// spans, in order, are the line, and there is at least one span.
pub proof fn colouring_keeps_text(l: Seq<char>)
    ensures
        span_texts(inline_spans(l)) == l,
        inline_spans(l).len() >= 1,
        span_texts(source_line_spans(l)) == l,
        source_line_spans(l).len() >= 1,
{
    lemma_inline_from_text(l, 0, Seq::empty());
    assert(l.subrange(0, l.len() as int) =~= l);
    assert(Seq::<char>::empty() + l =~= l);
    assert forall|st: Style| #[trigger] span_texts(seq![span_view(l, st)]) == l by {
        let one = seq![span_view(l, st)];
        assert(span_texts(one) == span_texts(one.drop_last()) + l);
        assert(one.drop_last().len() == 0);
        assert(Seq::<char>::empty() + l =~= l);
    }
    let t = trim_start(l);
    assert(span_texts(seq![span_view(l, Style::fg_bold_spec(heading_color(run_len(t, '#'))))]) == l);
    assert(span_texts(seq![span_view(l, Style::fg_spec(Color::Yellow))]) == l);
    assert(span_texts(seq![span_view(l, Style::fg_spec(Color::Green))]) == l);
    assert(span_texts(seq![span_view(l, Style::fg_spec(Color::Cyan))]) == l);
    assert(span_texts(seq![span_view(l, Style::plain_spec())]) == l);
}

/// Pushes the pending plain text `buf`, if any, as an unstyled span.
fn flush_buf(spans: &mut Vec<Span>, buf: String)
    ensures
        spans_view(final(spans)@) == spans_view(old(spans)@) + flush(buf@),
{
    if !buf.as_str().is_empty() {
        let ghost before = spans@;
        spans.push(Span::raw(buf));
        assert(spans_view(spans@) =~= spans_view(before) + flush(buf@));
    } else {
        assert(spans_view(spans@) =~= spans_view(spans@) + flush(buf@));
    }
}

/// Inline colouring of a Markdown source line: `` `code` `` in yellow and
/// `**strong**` in bold white, everything else plain; a marker without
/// its closing marker is plain text.
pub fn highlight_inline(line: &str) -> (spans: Vec<Span>)
    ensures
        spans_view(spans@) == inline_spans(line@),
{
    let chars = chars_of(line);
    let ghost cs = chars@;
    let n = chars.len();
    let mut spans: Vec<Span> = Vec::new();
    let mut buf = String::new();
    let mut i: usize = 0;
    while i < n
        invariant
            n == chars.len(),
            cs == chars@,
            i <= n,
            spans_view(spans@) + inline_from(cs, i as int, buf@) == inline_from(cs, 0, Seq::empty()),
        decreases n - i,
    {
        if chars[i] == '`' {
            let mut j = i + 1;
            while j < n && chars[j] != '`'
                invariant
                    n == chars.len(),
                    cs == chars@,
                    i < j <= n,
                    next_tick(cs, i + 1) == next_tick(cs, j as int),
                decreases n - j,
            {
                j = j + 1;
            }
            if j < n {
                let ghost i0 = i as int;
                let ghost b0 = buf@;
                let ghost s0 = spans_view(spans@);
                flush_buf(&mut spans, buf);
                buf = String::new();
                let mut code = String::new();
                push_char(&mut code, '`');
                let inner = string_of(&chars, i + 1, j);
                code.append(inner.as_str());
                push_char(&mut code, '`');
                assert(code@ =~= code_text(cs.subrange(i + 1, j as int)));
                let ghost before = spans@;
                spans.push(Span::styled(code, Style::fg(Color::Yellow)));
                assert(spans_view(spans@) =~= spans_view(before).push(spans@.last()@));
                i = j + 1;
                assert(inline_from(cs, i0, b0) == flush(b0) + seq![
                    span_view(code_text(cs.subrange(i0 + 1, j as int)), Style::fg_spec(Color::Yellow)),
                ] + inline_from(cs, i as int, Seq::empty()));
                assert(spans_view(spans@) + inline_from(cs, i as int, buf@) =~= s0 + inline_from(cs, i0, b0));
            } else {
                push_char(&mut buf, '`');
                i = i + 1;
            }
        } else if i + 1 < n && chars[i] == '*' && chars[i + 1] == '*' {
            let mut j = i + 2;
            while n - j > 1 && !(chars[j] == '*' && chars[j + 1] == '*')
                invariant
                    n == chars.len(),
                    cs == chars@,
                    i + 2 <= j <= n,
                    next_stars(cs, i + 2) == next_stars(cs, j as int),
                decreases n - j,
            {
                j = j + 1;
            }
            if n - j > 1 {
                let ghost i0 = i as int;
                let ghost b0 = buf@;
                let ghost s0 = spans_view(spans@);
                flush_buf(&mut spans, buf);
                buf = String::new();
                let mut strong = String::new();
                push_char(&mut strong, '*');
                push_char(&mut strong, '*');
                let inner = string_of(&chars, i + 2, j);
                strong.append(inner.as_str());
                push_char(&mut strong, '*');
                push_char(&mut strong, '*');
                assert(strong@ =~= strong_text(cs.subrange(i + 2, j as int)));
                let ghost before = spans@;
                spans.push(Span::styled(strong, Style::fg_bold(Color::White)));
                assert(spans_view(spans@) =~= spans_view(before).push(spans@.last()@));
                i = j + 2;
                assert(inline_from(cs, i0, b0) == flush(b0) + seq![
                    span_view(strong_text(cs.subrange(i0 + 2, j as int)), Style::fg_bold_spec(Color::White)),
                ] + inline_from(cs, i as int, Seq::empty()));
                assert(spans_view(spans@) + inline_from(cs, i as int, buf@) =~= s0 + inline_from(cs, i0, b0));
            } else {
                push_char(&mut buf, '*');
                i = i + 1;
            }
        } else {
            push_char(&mut buf, chars[i]);
            i = i + 1;
        }
    }
    flush_buf(&mut spans, buf);
    assert(spans_view(spans@) =~= inline_from(cs, 0, Seq::empty()));
    if spans.len() == 0 {
        spans.push(Span::raw(line.to_owned()));
        assert(spans_view(spans@) =~= seq![span_view(line@, Style::plain_spec())]);
    }
    spans
}

// ---------------------------------------------------------------------
// Source lines
// ---------------------------------------------------------------------

/// Colour of a heading of level `n`.
pub open spec fn heading_color(n: nat) -> Color {
    if n == 1 {
        Color::Magenta
    } else if n == 2 {
        Color::Blue
    } else if n == 3 {
        Color::Cyan
    } else {
        Color::Gray
    }
}

/// A trimmed line that starts a bullet item: `"- "`, `"* "` or `"+ "`.
pub open spec fn is_bullet(t: Seq<char>) -> bool {
    t.len() >= 2 && (t[0] == '-' || t[0] == '*' || t[0] == '+') && t[1] == ' '
}

/// The spans of a Markdown source line in the editor: headings in their
/// level's colour and bold, fence lines yellow, quotes green, bullet items
/// cyan, each as one span of the whole line; other lines are coloured
/// inline.
pub open spec fn source_line_spans(l: Seq<char>) -> Seq<SpanView> {
    let t = trim_start(l);
    if t.len() > 0 && t[0] == '#' {
        seq![span_view(l, Style::fg_bold_spec(heading_color(run_len(t, '#'))))]
    } else if opens_fence(t) {
        seq![span_view(l, Style::fg_spec(Color::Yellow))]
    } else if t.len() > 0 && t[0] == '>' {
        seq![span_view(l, Style::fg_spec(Color::Green))]
    } else if is_bullet(t) {
        seq![span_view(l, Style::fg_spec(Color::Cyan))]
    } else {
        inline_spans(l)
    }
}

/// `line` as the only span of a vector.
fn single_span(line: &str, style: Style) -> (r: Vec<Span>)
    ensures
        spans_view(r@) == seq![span_view(line@, style)],
{
    let mut r: Vec<Span> = Vec::new();
    r.push(Span::styled(line.to_owned(), style));
    assert(spans_view(r@) =~= seq![span_view(line@, style)]);
    r
}

// ---------------------------------------------------------------------
// Syntect
// ---------------------------------------------------------------------

#[verifier::external_type_specification]
#[verifier::external_body]
pub struct ExSyntaxSet(syntect::parsing::SyntaxSet);

#[verifier::external_type_specification]
#[verifier::external_body]
pub struct ExThemeSet(syntect::highlighting::ThemeSet);

/// A piece of a highlighted line as syntect styles it: foreground colour,
/// font style bits (bold 1, underline 2, italic 4) and text.
pub struct RawSpan {
    pub r: u8,
    pub g: u8,
    pub b: u8,
    pub font_style: u8,
    pub text: String,
}

pub struct RawSpanView {
    pub r: u8,
    pub g: u8,
    pub b: u8,
    pub font_style: u8,
    pub text: Seq<char>,
}

impl View for RawSpan {
    type V = RawSpanView;

    open spec fn view(&self) -> RawSpanView {
        RawSpanView {
            r: self.r,
            g: self.g,
            b: self.b,
            font_style: self.font_style,
            text: self.text@,
        }
    }
}

pub open spec fn raw_spans_view(v: Seq<RawSpan>) -> Seq<RawSpanView> {
    v.map_values(|s: RawSpan| s@)
}

/// The highlighted lines, `None` where syntect reported an error.
pub open spec fn raw_lines_view(v: Seq<Option<Vec<RawSpan>>>) -> Seq<Option<Seq<RawSpanView>>> {
    v.map_values(
        |o: Option<Vec<RawSpan>>|
            match o {
                Some(s) => Some(raw_spans_view(s@)),
                None => None,
            },
    )
}

/// The text of a highlighted line.
pub open spec fn raw_text(v: Seq<RawSpanView>) -> Seq<char>
    decreases v.len(),
{
    if v.len() == 0 {
        Seq::empty()
    } else {
        raw_text(v.drop_last()) + v.last().text
    }
}

/// Index among the default syntaxes of the one `find_syntax_by_token`
/// finds for `token`.
pub uninterp spec fn syntax_by_token(token: Seq<char>) -> Option<usize>;

/// Index among the default syntaxes of the one `find_syntax_by_extension`
/// finds for `ext`.
pub uninterp spec fn syntax_by_extension(ext: Seq<char>) -> Option<usize>;

/// Index among the default syntaxes of the one `find_syntax_by_name`
/// finds for `name`.
pub uninterp spec fn syntax_by_name(name: Seq<char>) -> Option<usize>;

/// What syntect's highlighting of `code` with the default syntax of index
/// `syntax` and the default theme named `theme` yields, line by line;
/// `None` when there is no such syntax or theme.
pub uninterp spec fn syntect_highlight(code: Seq<char>, syntax: usize, theme: Seq<char>) -> Option<
    Seq<Option<Seq<RawSpanView>>>,
>;

/// Name of the syntax used when a code block's language is not known.
pub const PLAIN_TEXT: &'static str = "Plain Text";

/// Theme of highlighted code.
pub const CODE_THEME: &'static str = "base16-ocean.dark";

/// The syntax for the language `lang` of a code block: found by token,
/// else by extension, else plain text.
pub open spec fn chosen_syntax(lang: Seq<char>) -> Option<usize> {
    match syntax_by_token(lang) {
        Some(i) => Some(i),
        None => match syntax_by_extension(lang) {
            Some(i) => Some(i),
            None => syntax_by_name(PLAIN_TEXT@),
        },
    }
}

/// syntect's highlighting of `code` as language `lang` in the code theme.
pub open spec fn highlight_of(code: Seq<char>, lang: Seq<char>) -> Option<Seq<Option<Seq<RawSpanView>>>> {
    match chosen_syntax(lang) {
        Some(s) => syntect_highlight(code, s, CODE_THEME@),
        None => None,
    }
}

/// `SyntaxSet::load_defaults_newlines`.
#[verifier::external_body]
fn default_syntaxes() -> syntect::parsing::SyntaxSet {
    syntect::parsing::SyntaxSet::load_defaults_newlines()
}

/// `ThemeSet::load_defaults`.
#[verifier::external_body]
fn default_themes() -> syntect::highlighting::ThemeSet {
    syntect::highlighting::ThemeSet::load_defaults()
}

/// Syntax highlighting of fenced code, and colouring of source lines.
pub struct Highlighter {
    syntax_set: syntect::parsing::SyntaxSet,
    theme_set: syntect::highlighting::ThemeSet,
}

/// The style of a syntect piece: its foreground as an RGB colour, bold
/// and italic from its font style bits.
pub open spec fn syn_style(r: u8, g: u8, b: u8, font_style: u8) -> Style {
    Style { fg: Some(Color::Rgb(r, g, b)), bold: font_style & 1 != 0, italic: font_style & 4 != 0 }
}

/// Converts a syntect style to the library's style.
pub fn syn_to_style(r: u8, g: u8, b: u8, font_style: u8) -> (s: Style)
    ensures
        s == syn_style(r, g, b, font_style),
{
    Style { fg: Some(Color::Rgb(r, g, b)), bold: font_style & 1 != 0, italic: font_style & 4 != 0 }
}

/// The spans of a highlighted line.
pub open spec fn syn_spans(v: Seq<RawSpanView>) -> Seq<SpanView> {
    v.map_values(|p: RawSpanView| span_view(p.text, syn_style(p.r, p.g, p.b, p.font_style)))
}

/// The lines of highlighted code: a line that syntect could not highlight
/// is empty, and code without any line is one empty line.
pub open spec fn code_lines(h: Seq<Option<Seq<RawSpanView>>>) -> Seq<Seq<SpanView>> {
    if h.len() == 0 {
        seq![Seq::<SpanView>::empty()]
    } else {
        h.map_values(
            |o: Option<Seq<RawSpanView>>|
                match o {
                    Some(v) => syn_spans(v),
                    None => Seq::<SpanView>::empty(),
                },
        )
    }
}

/// The lines of `code` highlighted as language `lang`; one empty line
/// when no syntax or theme is found.
pub open spec fn highlighted(code: Seq<char>, lang: Seq<char>) -> Seq<Seq<SpanView>> {
    match highlight_of(code, lang) {
        Some(h) => code_lines(h),
        None => seq![Seq::<SpanView>::empty()],
    }
}

/// The spans of a highlighted line hold its text.
proof fn lemma_syn_spans_text(v: Seq<RawSpanView>)
    ensures
        span_texts(syn_spans(v)) == raw_text(v),
    decreases v.len(),
{
    if v.len() > 0 {
        lemma_syn_spans_text(v.drop_last());
        assert(syn_spans(v).drop_last() =~= syn_spans(v.drop_last()));
    }
}

impl Highlighter {
    /// A highlighter with syntect's default syntaxes and themes.
    pub fn new() -> (h: Highlighter) {
        Highlighter { syntax_set: default_syntaxes(), theme_set: default_themes() }
    }

    /// `SyntaxSet::find_syntax_by_token`, the syntax it finds given by its
    /// index among `syntaxes()`.
    #[verifier::external_body]
    fn find_by_token(&self, token: &str) -> (r: Option<usize>)
        ensures
            r == syntax_by_token(token@),
    {
        let ss = &self.syntax_set;
        ss.find_syntax_by_token(token).and_then(|s| ss.syntaxes().iter().position(|x| std::ptr::eq(x, s)))
    }

    /// `SyntaxSet::find_syntax_by_extension`, the syntax it finds given by
    /// its index among `syntaxes()`.
    #[verifier::external_body]
    fn find_by_extension(&self, ext: &str) -> (r: Option<usize>)
        ensures
            r == syntax_by_extension(ext@),
    {
        let ss = &self.syntax_set;
        ss.find_syntax_by_extension(ext).and_then(|s| ss.syntaxes().iter().position(|x| std::ptr::eq(x, s)))
    }

    /// `SyntaxSet::find_syntax_by_name`, the syntax it finds given by its
    /// index among `syntaxes()`.
    #[verifier::external_body]
    fn find_by_name(&self, name: &str) -> (r: Option<usize>)
        ensures
            r == syntax_by_name(name@),
    {
        let ss = &self.syntax_set;
        ss.find_syntax_by_name(name).and_then(|s| ss.syntaxes().iter().position(|x| std::ptr::eq(x, s)))
    }

    /// `HighlightLines::highlight_line` over the pieces of
    /// `LinesWithEndings` of `code`, with the syntax of index `syntax` and
    /// the theme named `theme`, one entry per piece (`None` where
    /// `highlight_line` failed); `None` when there is no such syntax or
    /// theme. syntect documents that the pieces of a highlighted line
    /// concatenate to the line.
    #[verifier::external_body]
    fn syntect_lines(&self, code: &str, syntax: usize, theme: &str) -> (r: Option<Vec<Option<Vec<RawSpan>>>>)
        ensures
            match r {
                Some(v) => Some(raw_lines_view(v@)),
                None => None,
            } == syntect_highlight(code@, syntax, theme@),
            r matches Some(v) ==> v.len() == with_endings(code@).len() && forall|i: int|
                0 <= i < v.len() ==> (#[trigger] raw_lines_view(v@)[i] matches Some(p) ==> raw_text(p)
                    == with_endings(code@)[i]),
    {
        let ss = &self.syntax_set;
        let syntax = ss.syntaxes().get(syntax)?;
        let mut h = syntect::easy::HighlightLines::new(syntax, self.theme_set.themes.get(theme)?);
        Some(syntect::util::LinesWithEndings::from(code).map(|line| h.highlight_line(line, ss).ok().map(|v| {
            v.into_iter().map(|(st, t)| RawSpan {
                r: st.foreground.r, g: st.foreground.g, b: st.foreground.b,
                font_style: st.font_style.bits(), text: t.to_string(),
            }).collect()
        })).collect())
    }

    /// Highlights `code` as language `lang` (found by token, else by
    /// extension, else plain text) in the code theme: one line per line of
    /// code, each piece in syntect's colour (bold and italic kept), the
    /// pieces of a highlighted line holding its text.
    pub fn highlight_code(&self, code: &str, lang: &str) -> (lines: Vec<Line>)
        ensures
            crate::style::lines_view(lines@) == highlighted(code@, lang@),
            lines.len() >= 1,
            highlight_of(code@, lang@) matches Some(h) ==> {
                &&& lines.len() == if with_endings(code@).len() == 0 {
                    1
                } else {
                    with_endings(code@).len()
                }
                &&& forall|i: int|
                    0 <= i < with_endings(code@).len() && h[i] is Some ==> #[trigger] span_texts(
                        crate::style::lines_view(lines@)[i],
                    ) == with_endings(code@)[i]
            },
    {
        let syntax = match self.find_by_token(lang) {
            Some(i) => Some(i),
            None => match self.find_by_extension(lang) {
                Some(i) => Some(i),
                None => self.find_by_name(PLAIN_TEXT),
            },
        };
        let found = match syntax {
            Some(s) => self.syntect_lines(code, s, CODE_THEME),
            None => None,
        };
        let raw = match found {
            Some(raw) => raw,
            None => {
                let mut lines: Vec<Line> = Vec::new();
                lines.push(Line::empty());
                assert(crate::style::lines_view(lines@) =~= seq![Seq::<SpanView>::empty()]);
                return lines;
            },
        };
        let ghost h = raw_lines_view(raw@);
        let mut lines: Vec<Line> = Vec::new();
        let mut i: usize = 0;
        while i < raw.len()
            invariant
                i <= raw.len(),
                h == raw_lines_view(raw@),
                h.len() == raw.len(),
                crate::style::lines_view(lines@) == code_lines(h).take(i as int),
            decreases raw.len() - i,
        {
            let mut spans: Vec<Span> = Vec::new();
            match &raw[i] {
                Some(v) => {
                    let mut k: usize = 0;
                    while k < v.len()
                        invariant
                            k <= v.len(),
                            spans_view(spans@) == syn_spans(raw_spans_view(v@)).take(k as int),
                        decreases v.len() - k,
                    {
                        let p = &v[k];
                        let ghost before = spans@;
                        spans.push(Span::styled(p.text.clone(), syn_to_style(p.r, p.g, p.b, p.font_style)));
                        assert(spans_view(spans@) =~= spans_view(before).push(spans@.last()@));
                        assert(spans_view(spans@) =~= syn_spans(raw_spans_view(v@)).take(k + 1));
                        k = k + 1;
                    }
                    assert(syn_spans(raw_spans_view(v@)).take(v.len() as int) =~= syn_spans(raw_spans_view(v@)));
                },
                None => {
                    assert(spans_view(spans@) =~= Seq::<SpanView>::empty());
                },
            }
            let ghost before = lines@;
            lines.push(Line::from_spans(spans));
            assert(crate::style::lines_view(lines@) =~= crate::style::lines_view(before).push(lines@.last()@));
            assert(crate::style::lines_view(lines@) =~= code_lines(h).take(i + 1));
            i = i + 1;
        }
        if raw.len() == 0 {
            lines.push(Line::empty());
            assert(crate::style::lines_view(lines@) =~= code_lines(h));
        } else {
            assert(code_lines(h).take(raw.len() as int) =~= code_lines(h));
        }
        assert forall|i: int|
            0 <= i < with_endings(code@).len() && h[i] is Some implies #[trigger] span_texts(
                crate::style::lines_view(lines@)[i],
            ) == with_endings(code@)[i] by {
            lemma_syn_spans_text(h[i]->0);
        }
        lines
    }

    /// Colours one Markdown source line for the editor view.
    pub fn highlight_source_line(&self, line: &str) -> (spans: Vec<Span>)
        ensures
            spans_view(spans@) == source_line_spans(line@),
    {
        let cs = chars_of(line);
        let start = ws_prefix(&cs);
        let ghost t = cs@.skip(start as int);
        assert(t == trim_start(line@));
        if start < cs.len() && cs[start] == '#' {
            let n = crate::blocks::run_length(&cs, start, '#');
            let color = if n == 1 {
                Color::Magenta
            } else if n == 2 {
                Color::Blue
            } else if n == 3 {
                Color::Cyan
            } else {
                Color::Gray
            };
            single_span(line, Style::fg_bold(color))
        } else if cs.len() - start >= 3 && (cs[start] == '`' || cs[start] == '~') && cs[start + 1]
            == cs[start] && cs[start + 2] == cs[start] {
            single_span(line, Style::fg(Color::Yellow))
        } else if start < cs.len() && cs[start] == '>' {
            single_span(line, Style::fg(Color::Green))
        } else if cs.len() - start >= 2 && (cs[start] == '-' || cs[start] == '*' || cs[start] == '+')
            && cs[start + 1] == ' ' {
            single_span(line, Style::fg(Color::Cyan))
        } else {
            highlight_inline(line)
        }
    }
}

/// The line starts with a block marker: a heading's `#`, a quote's `>`,
/// a code fence, or a bullet (`-`, `*` or `+` and a space).
pub open spec fn starts_with_marker(l: Seq<char>) -> bool {
    l.len() > 0 && (l[0] == '#' || l[0] == '>' || (l.len() >= 3 && (l[0] == '`' || l[0] == '~')
        && l[1] == l[0] && l[2] == l[0]) || (l.len() >= 2 && (l[0] == '-' || l[0] == '*' || l[0]
        == '+') && l[1] == ' '))
}

/// The kind of a source line is decided after its indentation: a line
/// starting with a block marker is one coloured span, and indenting it
/// keeps it one span of the same colour.
pub proof fn marked_lines_ignore_indentation(ws: Seq<char>, l: Seq<char>)
    requires
        all_ws(ws),
        starts_with_marker(l),
    ensures
        source_line_spans(l).len() == 1,
        source_line_spans(l)[0].text == l,
        source_line_spans(l)[0].style.fg is Some,
        source_line_spans(ws + l) == seq![span_view(ws + l, source_line_spans(l)[0].style)],
{
    crate::blocks::lemma_trim_after_ws(ws, l);
    assert(!is_ws(l[0]));
    assert(ws_prefix_len(l) == 0);
    assert(l.skip(0) =~= l);
}

} // verus!
