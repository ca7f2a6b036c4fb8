//! Styled text: the library's own lines of coloured spans, which the
//! preview and the source view are built from.

use vstd::prelude::*;

verus! {

/// A foreground colour.
#[derive(Clone, Copy, Debug, PartialEq, Eq, Structural)]
pub enum Color {
    Black,
    Red,
    Green,
    Yellow,
    Blue,
    Magenta,
    Cyan,
    Gray,
    DarkGray,
    White,
    Rgb(u8, u8, u8),
}

/// Text style: an optional foreground colour and two modifiers.
#[derive(Clone, Copy, Debug, PartialEq, Eq, Structural)]
pub struct Style {
    pub fg: Option<Color>,
    pub bold: bool,
    pub italic: bool,
}

impl Style {
    /// No colour, no modifier.
    pub fn plain() -> (s: Style)
        ensures
            s == Style::plain_spec(),
    {
        Style { fg: None, bold: false, italic: false }
    }

    pub open spec fn plain_spec() -> Style {
        Style { fg: None, bold: false, italic: false }
    }

    /// Foreground `c`, no modifier.
    pub fn fg(c: Color) -> (s: Style)
        ensures
            s == Style::fg_spec(c),
    {
        Style { fg: Some(c), bold: false, italic: false }
    }

    pub open spec fn fg_spec(c: Color) -> Style {
        Style { fg: Some(c), bold: false, italic: false }
    }

    /// Foreground `c`, bold.
    pub fn fg_bold(c: Color) -> (s: Style)
        ensures
            s == Style::fg_bold_spec(c),
    {
        Style { fg: Some(c), bold: true, italic: false }
    }

    pub open spec fn fg_bold_spec(c: Color) -> Style {
        Style { fg: Some(c), bold: true, italic: false }
    }
}

/// The abstract value of a span: its characters and its style.
pub struct SpanView {
    pub text: Seq<char>,
    pub style: Style,
}

pub open spec fn span_view(text: Seq<char>, style: Style) -> SpanView {
    SpanView { text, style }
}

/// The text of a run of spans.
pub open spec fn span_texts(s: Seq<SpanView>) -> Seq<char>
    decreases s.len(),
{
    if s.len() == 0 {
        Seq::empty()
    } else {
        span_texts(s.drop_last()) + s.last().text
    }
}

/// The text of two runs of spans is the text of the first, then that of
/// the second.
pub proof fn lemma_span_texts_concat(a: Seq<SpanView>, b: Seq<SpanView>)
    ensures
        span_texts(a + b) == span_texts(a) + span_texts(b),
    decreases b.len(),
{
    if b.len() == 0 {
        assert(a + b =~= a);
    } else {
        lemma_span_texts_concat(a, b.drop_last());
        assert((a + b).drop_last() =~= a + b.drop_last());
    }
}

/// A run of text drawn in one style.
#[derive(Debug)]
pub struct Span {
    pub content: String,
    pub style: Style,
}

impl View for Span {
    type V = SpanView;

    open spec fn view(&self) -> SpanView {
        SpanView { text: self.content@, style: self.style }
    }
}

impl Span {
    /// Unstyled text.
    pub fn raw(content: String) -> (s: Span)
        ensures
            s@ == span_view(content@, Style::plain_spec()),
    {
        Span { content, style: Style::plain() }
    }

    /// Text in style `style`.
    pub fn styled(content: String, style: Style) -> (s: Span)
        ensures
            s@ == span_view(content@, style),
    {
        Span { content, style }
    }

    /// A copy of the span.
    pub fn duplicate(&self) -> (s: Span)
        ensures
            s@ == self@,
    {
        Span { content: self.content.clone(), style: self.style }
    }
}

/// The abstract value of a sequence of spans.
pub open spec fn spans_view(v: Seq<Span>) -> Seq<SpanView> {
    v.map_values(|s: Span| s@)
}

/// One line of styled text.
#[derive(Debug)]
pub struct Line {
    pub spans: Vec<Span>,
}

impl View for Line {
    type V = Seq<SpanView>;

    open spec fn view(&self) -> Seq<SpanView> {
        spans_view(self.spans@)
    }
}

/// The abstract value of a sequence of lines.
pub open spec fn lines_view(v: Seq<Line>) -> Seq<Seq<SpanView>> {
    v.map_values(|l: Line| l@)
}

/// A copy of the spans `v`.
pub fn copy_spans(v: &Vec<Span>) -> (r: Vec<Span>)
    ensures
        spans_view(r@) == spans_view(v@),
{
    let mut r: Vec<Span> = Vec::new();
    let mut i: usize = 0;
    while i < v.len()
        invariant
            i <= v.len(),
            spans_view(r@) == spans_view(v@).take(i as int),
        decreases v.len() - i,
    {
        let ghost before = r@;
        r.push(v[i].duplicate());
        assert(spans_view(r@) =~= spans_view(before).push(v@[i as int]@));
        assert(spans_view(r@) =~= spans_view(v@).take(i + 1));
        i = i + 1;
    }
    assert(spans_view(v@).take(v.len() as int) =~= spans_view(v@));
    r
}

impl Line {
    /// A line without any text.
    pub fn empty() -> (l: Line)
        ensures
            l@ == Seq::<SpanView>::empty(),
    {
        let l = Line { spans: Vec::new() };
        assert(l@ =~= Seq::<SpanView>::empty());
        l
    }

    /// A line made of the spans `spans`.
    pub fn from_spans(spans: Vec<Span>) -> (l: Line)
        ensures
            l@ == spans_view(spans@),
    {
        Line { spans }
    }

    /// A line made of the single span `s`.
    pub fn from_span(s: Span) -> (l: Line)
        ensures
            l@ == seq![s@],
    {
        let mut spans: Vec<Span> = Vec::new();
        spans.push(s);
        let l = Line { spans };
        assert(l@ =~= seq![spans@[0]@]);
        l
    }

    /// A copy of the line.
    pub fn duplicate(&self) -> (l: Line)
        ensures
            l@ == self@,
    {
        Line { spans: copy_spans(&self.spans) }
    }
}

/// A copy of the lines `v`.
pub fn copy_lines(v: &Vec<Line>) -> (r: Vec<Line>)
    ensures
        lines_view(r@) == lines_view(v@),
{
    let mut r: Vec<Line> = Vec::new();
    let mut i: usize = 0;
    while i < v.len()
        invariant
            i <= v.len(),
            lines_view(r@) == lines_view(v@).take(i as int),
        decreases v.len() - i,
    {
        let ghost before = r@;
        r.push(v[i].duplicate());
        assert(lines_view(r@) =~= lines_view(before).push(v@[i as int]@));
        assert(lines_view(r@) =~= lines_view(v@).take(i + 1));
        i = i + 1;
    }
    assert(lines_view(v@).take(v.len() as int) =~= lines_view(v@));
    r
}

} // verus!
