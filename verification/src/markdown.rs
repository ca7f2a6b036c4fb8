//! Rendering one Markdown block for the preview: the events of the
//! CommonMark parser (pulldown-cmark) are folded into lines of styled
//! text.

use vstd::prelude::*;
use vstd::string::*;
use pulldown_cmark::{CodeBlockKind, Event, Options, Parser, Tag, TagEnd};
use crate::blocks::{incomplete, is_incomplete};
use crate::highlight::{highlighted, Highlighter};
use crate::style::{lines_view, span_texts, span_view, spans_view, Color, Line, Span, SpanView, Style};
use crate::table::{flush_table, rows_view, table_lines};
use crate::text::{push_char, views};

verus! {

/// A tag of the parser, as far as rendering tells tags apart.
#[derive(Debug)]
pub enum MdTag<T> {
    Paragraph,
    Heading(u8),
    BlockQuote,
    /// A code block and its language (empty for an indented block and
    /// on the closing event).
    CodeBlock(T),
    List,
    Item,
    Table,
    TableHead,
    TableRow,
    TableCell,
    Other,
}

/// A parser event, as far as rendering tells events apart; soft and hard
/// breaks are one kind.
#[derive(Debug)]
pub enum MdEvent<T> {
    Start(MdTag<T>),
    End(MdTag<T>),
    Text(T),
    Code(T),
    Break,
    Rule,
    Other,
}

pub open spec fn tag_view(t: MdTag<String>) -> MdTag<Seq<char>> {
    match t {
        MdTag::Paragraph => MdTag::Paragraph,
        MdTag::Heading(l) => MdTag::Heading(l),
        MdTag::BlockQuote => MdTag::BlockQuote,
        MdTag::CodeBlock(s) => MdTag::CodeBlock(s@),
        MdTag::List => MdTag::List,
        MdTag::Item => MdTag::Item,
        MdTag::Table => MdTag::Table,
        MdTag::TableHead => MdTag::TableHead,
        MdTag::TableRow => MdTag::TableRow,
        MdTag::TableCell => MdTag::TableCell,
        MdTag::Other => MdTag::Other,
    }
}

pub open spec fn event_view(e: MdEvent<String>) -> MdEvent<Seq<char>> {
    match e {
        MdEvent::Start(t) => MdEvent::Start(tag_view(t)),
        MdEvent::End(t) => MdEvent::End(tag_view(t)),
        MdEvent::Text(s) => MdEvent::Text(s@),
        MdEvent::Code(s) => MdEvent::Code(s@),
        MdEvent::Break => MdEvent::Break,
        MdEvent::Rule => MdEvent::Rule,
        MdEvent::Other => MdEvent::Other,
    }
}

pub open spec fn events_view(v: Seq<MdEvent<String>>) -> Seq<MdEvent<Seq<char>>> {
    v.map_values(|e: MdEvent<String>| event_view(e))
}

/// The events pulldown-cmark produces for `src` with the options whose
/// bits are `opts`.
pub uninterp spec fn markdown_events(src: Seq<char>, opts: u32) -> Seq<MdEvent<Seq<char>>>;

/// The parser options the preview uses: tables (bit 1), footnotes
/// (bit 2), strikethrough (bit 3) and task lists (bit 4).
pub const MD_OPTIONS: u32 = 30;

#[verifier::external_type_specification]
#[verifier::external_body]
pub struct ExTagEnd(pulldown_cmark::TagEnd);

/// Tells apart the variants of pulldown-cmark's `TagEnd` that rendering
/// distinguishes; used by `parse_markdown` to convert each event.
#[verifier::external_body]
fn md_tag(t: TagEnd) -> MdTag<String> {
    match t {
        TagEnd::Paragraph => MdTag::Paragraph,
        TagEnd::Heading(level) => MdTag::Heading(level as u8),
        TagEnd::BlockQuote(_) => MdTag::BlockQuote,
        TagEnd::CodeBlock => MdTag::CodeBlock(String::new()),
        TagEnd::List(_) => MdTag::List,
        TagEnd::Item => MdTag::Item,
        TagEnd::Table => MdTag::Table,
        TagEnd::TableHead => MdTag::TableHead,
        TagEnd::TableRow => MdTag::TableRow,
        TagEnd::TableCell => MdTag::TableCell,
        _ => MdTag::Other,
    }
}

/// `Parser::new_ext` over `src` with the options whose bits are `opts`
/// (`Options::from_bits_truncate`), each event converted (a start tag by its `to_end`, keeping
/// a fenced code block's language).
#[verifier::external_body]
fn parse_markdown(src: &str, opts: u32) -> (r: Vec<MdEvent<String>>)
    ensures
        events_view(r@) == markdown_events(src@, opts),
{
    Parser::new_ext(src, Options::from_bits_truncate(opts)).map(|e| match e {
        Event::Start(Tag::CodeBlock(CodeBlockKind::Fenced(l))) => MdEvent::Start(MdTag::CodeBlock(l.to_string())),
        Event::Start(t) => MdEvent::Start(md_tag(t.to_end())),
        Event::End(t) => MdEvent::End(md_tag(t)),
        Event::Text(t) => MdEvent::Text(t.to_string()),
        Event::Code(t) => MdEvent::Code(t.to_string()),
        Event::SoftBreak | Event::HardBreak => MdEvent::Break,
        Event::Rule => MdEvent::Rule,
        _ => MdEvent::Other,
    }).collect()
}

// ---------------------------------------------------------------------
// Rendering
// ---------------------------------------------------------------------

/// State of the renderer between two events.
pub struct RenderState {
    pub lines: Seq<Seq<SpanView>>,
    pub spans: Seq<SpanView>,
    pub in_code: bool,
    pub code_lang: Seq<char>,
    pub code_buf: Seq<char>,
    pub list_depth: nat,
    pub heading_level: u8,
    pub in_table: bool,
    pub rows: Seq<Seq<Seq<char>>>,
    pub header_rows: nat,
    pub row: Seq<Seq<char>>,
    pub cell: Seq<char>,
    pub in_header: bool,
}

pub open spec fn render_start() -> RenderState {
    RenderState {
        lines: Seq::empty(),
        spans: Seq::empty(),
        in_code: false,
        code_lang: Seq::empty(),
        code_buf: Seq::empty(),
        list_depth: 0,
        heading_level: 0,
        in_table: false,
        rows: Seq::empty(),
        header_rows: 0,
        row: Seq::empty(),
        cell: Seq::empty(),
        in_header: false,
    }
}

/// Colour of a rendered heading of level `l`.
pub open spec fn level_color(l: u8) -> Color {
    if l == 1 {
        Color::Magenta
    } else if l == 2 {
        Color::Blue
    } else if l == 3 {
        Color::Cyan
    } else {
        Color::Gray
    }
}

/// Indentation of a list item at nesting depth `d`: two spaces per level
/// below the first.
pub open spec fn indent(d: nat) -> Seq<char> {
    Seq::new((if d >= 1 { 2 * (d - 1) } else { 0 }) as nat, |i: int| ' ')
}

/// The pending spans become a line (an empty one when there are none).
pub open spec fn flush_spans(st: RenderState) -> RenderState {
    RenderState { lines: st.lines.push(st.spans), spans: Seq::empty(), ..st }
}

/// The lines of a finished code block: a header naming the language, the
/// highlighted code and a footer.
pub open spec fn code_block_lines(lang: Seq<char>, code: Seq<char>) -> Seq<Seq<SpanView>> {
    seq![seq![span_view("┌─ "@ + lang + " "@, Style::fg_spec(Color::DarkGray))]] + highlighted(
        code,
        lang,
    ) + seq![seq![span_view("└─"@, Style::fg_spec(Color::DarkGray))]]
}

/// Inline text: code text is collected, a table cell collects it,
/// otherwise it becomes a span of style `style`.
pub open spec fn add_text(st: RenderState, t: Seq<char>, style: Style) -> RenderState {
    if st.in_code {
        RenderState { code_buf: st.code_buf + t, ..st }
    } else if st.in_table {
        RenderState { cell: st.cell + t, ..st }
    } else {
        RenderState { spans: st.spans.push(span_view(t, style)), ..st }
    }
}

/// One event of input to the renderer.
pub open spec fn render_step(st: RenderState, ev: MdEvent<Seq<char>>) -> RenderState {
    match ev {
        MdEvent::Start(MdTag::Heading(l)) => RenderState { heading_level: l, ..st },
        MdEvent::End(MdTag::Heading(_)) => if st.spans.len() > 0 {
            RenderState {
                lines: st.lines.push(
                    seq![span_view(span_texts(st.spans), Style::fg_bold_spec(level_color(st.heading_level)))],
                ),
                spans: Seq::empty(),
                heading_level: 0,
                ..st
            }
        } else {
            RenderState { heading_level: 0, ..st }
        },
        MdEvent::Start(MdTag::CodeBlock(lang)) => RenderState {
            in_code: true,
            code_lang: lang,
            code_buf: Seq::empty(),
            ..st
        },
        MdEvent::End(MdTag::CodeBlock(_)) => {
            let lang = if st.code_lang.len() == 0 { "txt"@ } else { st.code_lang };
            RenderState {
                in_code: false,
                lines: st.lines + code_block_lines(lang, st.code_buf),
                code_buf: Seq::empty(),
                ..st
            }
        },
        MdEvent::Start(MdTag::Table) => RenderState {
            in_table: true,
            rows: Seq::empty(),
            header_rows: 0,
            ..st
        },
        MdEvent::End(MdTag::Table) => RenderState {
            lines: st.lines + table_lines(st.rows, st.header_rows),
            in_table: false,
            ..st
        },
        MdEvent::Start(MdTag::TableHead) => RenderState { in_header: true, ..st },
        MdEvent::End(MdTag::TableHead) => RenderState { in_header: false, ..st },
        MdEvent::Start(MdTag::TableRow) => RenderState { row: Seq::empty(), ..st },
        MdEvent::End(MdTag::TableRow) => RenderState {
            header_rows: if st.in_header { st.header_rows + 1 } else { st.header_rows },
            rows: st.rows.push(st.row),
            row: Seq::empty(),
            ..st
        },
        MdEvent::Start(MdTag::TableCell) => RenderState { cell: Seq::empty(), ..st },
        MdEvent::End(MdTag::TableCell) => RenderState {
            row: st.row.push(st.cell),
            cell: Seq::empty(),
            ..st
        },
        MdEvent::Text(t) => add_text(st, t, Style::plain_spec()),
        MdEvent::Code(t) => add_text(st, t, Style::fg_spec(Color::Yellow)),
        MdEvent::Break => if !st.in_table {
            flush_spans(st)
        } else {
            st
        },
        MdEvent::Start(MdTag::List) => RenderState { list_depth: st.list_depth + 1, ..st },
        MdEvent::End(MdTag::List) => RenderState {
            list_depth: if st.list_depth >= 1 { (st.list_depth - 1) as nat } else { 0 },
            ..st
        },
        MdEvent::Start(MdTag::Item) => RenderState {
            spans: st.spans.push(
                span_view(indent(st.list_depth) + "• "@, Style::fg_spec(Color::Cyan)),
            ),
            ..st
        },
        MdEvent::End(MdTag::Item) => flush_spans(st),
        MdEvent::Start(MdTag::BlockQuote) => RenderState {
            spans: st.spans.push(span_view("│ "@, Style::fg_spec(Color::Green))),
            ..st
        },
        MdEvent::End(MdTag::BlockQuote) => flush_spans(st),
        MdEvent::Rule => RenderState {
            lines: st.lines.push(seq![span_view(RULE@, Style::fg_spec(Color::DarkGray))]),
            ..st
        },
        MdEvent::End(MdTag::Paragraph) => {
            let f = flush_spans(st);
            RenderState { lines: f.lines.push(Seq::empty()), ..f }
        },
        _ => st,
    }
}

/// A horizontal rule: forty box-drawing lines.
pub const RULE: &'static str = "────────────────────────────────────────";

/// The renderer after the events `evs`.
pub open spec fn render_fold(evs: Seq<MdEvent<Seq<char>>>) -> RenderState
    decreases evs.len(),
{
    if evs.len() == 0 {
        render_start()
    } else {
        render_step(render_fold(evs.drop_last()), evs.last())
    }
}

/// The streaming marker shown under a block whose fence is still open.
pub open spec fn streaming_line() -> Seq<SpanView> {
    seq![span_view(" ⋯ (streaming…)"@, Style { fg: Some(Color::DarkGray), bold: false, italic: true })]
}

/// The rendered lines of a block after its events: pending spans become a
/// line, an empty rendering is one empty line, and a block whose fence is
/// left open (`src` is its source) ends with the streaming marker.
pub open spec fn render_finish(st: RenderState, src: Seq<char>) -> Seq<Seq<SpanView>> {
    let a = if st.spans.len() > 0 { st.lines.push(st.spans) } else { st.lines };
    let b = if a.len() == 0 { seq![Seq::<SpanView>::empty()] } else { a };
    if incomplete(src) {
        b.push(streaming_line())
    } else {
        b
    }
}

/// The preview lines of the block `src`.
pub open spec fn rendered(src: Seq<char>) -> Seq<Seq<SpanView>> {
    render_finish(render_fold(markdown_events(src, MD_OPTIONS)), src)
}

/// The executable renderer; its state is a `RenderState`.
struct Renderer {
    lines: Vec<Line>,
    spans: Vec<Span>,
    in_code: bool,
    code_lang: String,
    code_buf: String,
    list_depth: usize,
    heading_level: u8,
    in_table: bool,
    rows: Vec<Vec<String>>,
    header_rows: usize,
    row: Vec<String>,
    cell: String,
    in_header: bool,
}

/// The text of the spans `v`, concatenated.
fn spans_text(v: &Vec<Span>) -> (r: String)
    ensures
        r@ == span_texts(spans_view(v@)),
{
    let mut r = String::new();
    let mut i: usize = 0;
    while i < v.len()
        invariant
            i <= v.len(),
            r@ == span_texts(spans_view(v@).take(i as int)),
        decreases v.len() - i,
    {
        r.append(v[i].content.as_str());
        assert(spans_view(v@).take(i + 1).drop_last() =~= spans_view(v@).take(i as int));
        i = i + 1;
    }
    assert(spans_view(v@).take(v.len() as int) =~= spans_view(v@));
    r
}

impl Renderer {
    spec fn state(&self) -> RenderState {
        RenderState {
            lines: lines_view(self.lines@),
            spans: spans_view(self.spans@),
            in_code: self.in_code,
            code_lang: self.code_lang@,
            code_buf: self.code_buf@,
            list_depth: self.list_depth as nat,
            heading_level: self.heading_level,
            in_table: self.in_table,
            rows: rows_view(self.rows@),
            header_rows: self.header_rows as nat,
            row: views(self.row@),
            cell: self.cell@,
            in_header: self.in_header,
        }
    }

    fn new() -> (r: Renderer)
        ensures
            r.state() == render_start(),
            r.list_depth == 0,
            r.header_rows == 0,
    {
        let r = Renderer {
            lines: Vec::new(),
            spans: Vec::new(),
            in_code: false,
            code_lang: String::new(),
            code_buf: String::new(),
            list_depth: 0,
            heading_level: 0,
            in_table: false,
            rows: Vec::new(),
            header_rows: 0,
            row: Vec::new(),
            cell: String::new(),
            in_header: false,
        };
        assert(r.state().lines =~= Seq::<Seq<SpanView>>::empty());
        assert(r.state().spans =~= Seq::<SpanView>::empty());
        assert(r.state().rows =~= Seq::<Seq<Seq<char>>>::empty());
        assert(r.state().row =~= Seq::<Seq<char>>::empty());
        r
    }

    fn push_line(&mut self, l: Line)
        ensures
            final(self).state() == (RenderState { lines: old(self).state().lines.push(l@), ..old(self).state() }),
            final(self).list_depth == old(self).list_depth,
            final(self).header_rows == old(self).header_rows,
    {
        let ghost before = self.lines@;
        self.lines.push(l);
        assert(lines_view(self.lines@) =~= lines_view(before).push(self.lines@.last()@));
    }

    fn push_span(&mut self, s: Span)
        ensures
            final(self).state() == (RenderState { spans: old(self).state().spans.push(s@), ..old(self).state() }),
            final(self).list_depth == old(self).list_depth,
            final(self).header_rows == old(self).header_rows,
    {
        let ghost before = self.spans@;
        self.spans.push(s);
        assert(spans_view(self.spans@) =~= spans_view(before).push(self.spans@.last()@));
    }

    fn flush(&mut self)
        ensures
            final(self).state() == flush_spans(old(self).state()),
            final(self).list_depth == old(self).list_depth,
            final(self).header_rows == old(self).header_rows,
    {
        let mut s: Vec<Span> = Vec::new();
        std::mem::swap(&mut s, &mut self.spans);
        assert(spans_view(self.spans@) =~= Seq::<SpanView>::empty());
        self.push_line(Line::from_spans(s));
    }

    fn end_code_block(&mut self, hl: &Highlighter)
        ensures
            ({
                let st = old(self).state();
                let lang = if st.code_lang.len() == 0 { "txt"@ } else { st.code_lang };
                final(self).state() == RenderState {
                    in_code: false,
                    lines: st.lines + code_block_lines(lang, st.code_buf),
                    code_buf: Seq::empty(),
                    ..st
                }
            }),
            final(self).list_depth == old(self).list_depth,
            final(self).header_rows == old(self).header_rows,
    {
        self.in_code = false;
        let lang = if self.code_lang.as_str().is_empty() {
            "txt".to_owned()
        } else {
            self.code_lang.clone()
        };
        let mut head = "┌─ ".to_owned();
        head.append(lang.as_str());
        head.append(" ");
        let ghost l0 = lines_view(self.lines@);
        self.push_line(Line::from_span(Span::styled(head, Style::fg(Color::DarkGray))));
        let code = self.highlight(hl, lang.as_str());
        let mut k: usize = 0;
        let ghost l1 = lines_view(self.lines@);
        assert(l1 + lines_view(code@).take(0) =~= l1);
        while k < code.len()
            invariant
                k <= code.len(),
                self.state() == (RenderState {
                    lines: l1 + lines_view(code@).take(k as int),
                    in_code: false,
                    ..old(self).state()
                }),
                self.list_depth == old(self).list_depth,
                self.header_rows == old(self).header_rows,
            decreases code.len() - k,
        {
            self.push_line(code[k].duplicate());
            assert(lines_view(code@).take(k + 1) =~= lines_view(code@).take(k as int).push(code@[k as int]@));
            assert(l1 + lines_view(code@).take(k + 1) =~= (l1 + lines_view(code@).take(k as int)).push(code@[k as int]@));
            k = k + 1;
        }
        assert(lines_view(code@).take(code.len() as int) =~= lines_view(code@));
        self.push_line(Line::from_span(Span::styled("└─".to_owned(), Style::fg(Color::DarkGray))));
        self.code_buf = String::new();
        assert(self.state().lines =~= l0 + code_block_lines(lang@, old(self).code_buf@));
    }

    fn highlight(&self, hl: &Highlighter, lang: &str) -> (r: Vec<Line>)
        ensures
            lines_view(r@) == highlighted(self.code_buf@, lang@),
    {
        hl.highlight_code(self.code_buf.as_str(), lang)
    }

    fn add_text(&mut self, t: &String, style: Style)
        ensures
            final(self).state() == add_text(old(self).state(), t@, style),
            final(self).list_depth == old(self).list_depth,
            final(self).header_rows == old(self).header_rows,
    {
        if self.in_code {
            self.code_buf.append(t.as_str());
        } else if self.in_table {
            self.cell.append(t.as_str());
        } else {
            self.push_span(Span::styled(t.clone(), style));
        }
    }

    fn step(&mut self, ev: &MdEvent<String>, hl: &Highlighter)
        requires
            old(self).list_depth < usize::MAX,
            old(self).header_rows < usize::MAX,
        ensures
            final(self).state() == render_step(old(self).state(), event_view(*ev)),
            final(self).list_depth <= old(self).list_depth + 1,
            final(self).header_rows <= old(self).header_rows + 1,
    {
        match ev {
            MdEvent::Start(MdTag::Heading(l)) => {
                self.heading_level = *l;
            },
            MdEvent::End(MdTag::Heading(_)) => {
                if self.spans.len() > 0 {
                    let text = spans_text(&self.spans);
                    let color = if self.heading_level == 1 {
                        Color::Magenta
                    } else if self.heading_level == 2 {
                        Color::Blue
                    } else if self.heading_level == 3 {
                        Color::Cyan
                    } else {
                        Color::Gray
                    };
                    self.push_line(Line::from_span(Span::styled(text, Style::fg_bold(color))));
                    self.spans = Vec::new();
                    assert(spans_view(self.spans@) =~= Seq::<SpanView>::empty());
                }
                self.heading_level = 0;
            },
            MdEvent::Start(MdTag::CodeBlock(lang)) => {
                self.in_code = true;
                self.code_lang = lang.clone();
                self.code_buf = String::new();
            },
            MdEvent::End(MdTag::CodeBlock(_)) => {
                self.end_code_block(hl);
            },
            MdEvent::Start(MdTag::Table) => {
                self.in_table = true;
                self.rows = Vec::new();
                self.header_rows = 0;
                assert(rows_view(self.rows@) =~= Seq::<Seq<Seq<char>>>::empty());
            },
            MdEvent::End(MdTag::Table) => {
                flush_table(&self.rows, self.header_rows, &mut self.lines);
                self.in_table = false;
            },
            MdEvent::Start(MdTag::TableHead) => {
                self.in_header = true;
            },
            MdEvent::End(MdTag::TableHead) => {
                self.in_header = false;
            },
            MdEvent::Start(MdTag::TableRow) => {
                self.row = Vec::new();
                assert(views(self.row@) =~= Seq::<Seq<char>>::empty());
            },
            MdEvent::End(MdTag::TableRow) => {
                if self.in_header {
                    self.header_rows = self.header_rows + 1;
                }
                let mut r: Vec<String> = Vec::new();
                std::mem::swap(&mut r, &mut self.row);
                let ghost before = self.rows@;
                self.rows.push(r);
                assert(rows_view(self.rows@) =~= rows_view(before).push(views(r@)));
                assert(views(self.row@) =~= Seq::<Seq<char>>::empty());
            },
            MdEvent::Start(MdTag::TableCell) => {
                self.cell = String::new();
            },
            MdEvent::End(MdTag::TableCell) => {
                let mut c = String::new();
                std::mem::swap(&mut c, &mut self.cell);
                let ghost before = self.row@;
                self.row.push(c);
                assert(views(self.row@) =~= views(before).push(c@));
            },
            MdEvent::Text(t) => {
                self.add_text(t, Style::plain());
            },
            MdEvent::Code(t) => {
                self.add_text(t, Style::fg(Color::Yellow));
            },
            MdEvent::Break => {
                if !self.in_table {
                    self.flush();
                }
            },
            MdEvent::Start(MdTag::List) => {
                self.list_depth = self.list_depth + 1;
            },
            MdEvent::End(MdTag::List) => {
                if self.list_depth >= 1 {
                    self.list_depth = self.list_depth - 1;
                }
            },
            MdEvent::Start(MdTag::Item) => {
                let d = if self.list_depth >= 1 { self.list_depth - 1 } else { 0 };
                let mut bullet = String::new();
                let mut k: usize = 0;
                while k < d
                    invariant
                        k <= d,
                        bullet@ == Seq::new((2 * k) as nat, |i: int| ' '),
                    decreases d - k,
                {
                    push_char(&mut bullet, ' ');
                    push_char(&mut bullet, ' ');
                    assert(bullet@ =~= Seq::new((2 * (k + 1)) as nat, |i: int| ' '));
                    k = k + 1;
                }
                assert(bullet@ =~= indent(self.list_depth as nat));
                bullet.append("• ");
                self.push_span(Span::styled(bullet, Style::fg(Color::Cyan)));
            },
            MdEvent::End(MdTag::Item) => {
                self.flush();
            },
            MdEvent::Start(MdTag::BlockQuote) => {
                self.push_span(Span::styled("│ ".to_owned(), Style::fg(Color::Green)));
            },
            MdEvent::End(MdTag::BlockQuote) => {
                self.flush();
            },
            MdEvent::Rule => {
                self.push_line(Line::from_span(Span::styled(RULE.to_owned(), Style::fg(Color::DarkGray))));
            },
            MdEvent::End(MdTag::Paragraph) => {
                self.flush();
                self.push_line(Line::empty());
            },
            _ => {},
        }
    }
}

/// Renders a block from its parser events: headings bold in their
/// level's colour, fenced code highlighted between a header naming the
/// language and a footer, tables framed and padded, list items bulleted
/// and indented by depth, quotes marked, rules drawn; a block whose fence
/// is left open ends with a streaming marker.
pub fn render_events(events: &Vec<MdEvent<String>>, src: &str, highlighter: &Highlighter) -> (lines: Vec<Line>)
    ensures
        lines_view(lines@) == render_finish(render_fold(events_view(events@)), src@),
{
    let ghost evs = events_view(events@);
    let mut r = Renderer::new();
    let mut i: usize = 0;
    while i < events.len()
        invariant
            i <= events.len(),
            evs == events_view(events@),
            r.state() == render_fold(evs.take(i as int)),
            r.list_depth <= i,
            r.header_rows <= i,
        decreases events.len() - i,
    {
        assert(evs.take(i + 1).drop_last() =~= evs.take(i as int));
        r.step(&events[i], highlighter);
        i = i + 1;
    }
    assert(evs.take(events.len() as int) =~= evs);
    if r.spans.len() > 0 {
        r.flush();
    }
    let mut lines = r.lines;
    if lines.len() == 0 {
        lines.push(Line::empty());
        assert(lines_view(lines@) =~= seq![Seq::<SpanView>::empty()]);
    }
    if is_incomplete(src) {
        let ghost before = lines_view(lines@);
        lines.push(Line::from_span(Span::styled(
            " ⋯ (streaming…)".to_owned(),
            Style { fg: Some(Color::DarkGray), bold: false, italic: true },
        )));
        assert(lines_view(lines@) =~= before.push(streaming_line()));
    }
    lines
}

/// Renders the Markdown block `src` into preview lines.
pub fn render_block(src: &str, highlighter: &Highlighter) -> (lines: Vec<Line>)
    ensures
        lines_view(lines@) == rendered(src@),
{
    let events = parse_markdown(src, MD_OPTIONS);
    render_events(&events, src, highlighter)
}

/// A block renders to at least one line, and a block whose code fence is
/// still open ends with the streaming marker.
pub proof fn rendered_shape(src: Seq<char>)
    ensures
        rendered(src).len() >= 1,
        incomplete(src) ==> rendered(src).last() == streaming_line(),
{
}

/// Lists nest: closing a list returns to the depth before it was opened,
/// and an item's bullet is indented by two spaces for each enclosing list
/// beyond the first.
pub proof fn lists_nest(st: RenderState, evs: Seq<MdEvent<Seq<char>>>)
    ensures
        render_step(st, MdEvent::Start(MdTag::List)).list_depth == st.list_depth + 1,
        render_step(render_step(st, MdEvent::Start(MdTag::List)), MdEvent::End(MdTag::List)).list_depth
            == st.list_depth,
        st.list_depth >= 1 ==> render_step(st, MdEvent::End(MdTag::List)).list_depth + 1 == st.list_depth,
        st.list_depth >= 1 ==> render_step(st, MdEvent::Start(MdTag::Item)).spans == st.spans.push(
            span_view(
                Seq::new((2 * (st.list_depth - 1)) as nat, |i: int| ' ') + seq!['•', ' '],
                Style::fg_spec(Color::Cyan),
            ),
        ),
        render_fold(evs.push(MdEvent::Start(MdTag::List)).push(MdEvent::End(MdTag::List))).list_depth
            == render_fold(evs).list_depth,
{
    reveal_strlit("• ");
    let d = st.list_depth;
    if d >= 1 {
        assert(indent(d) + "• "@ =~= Seq::new((2 * (d - 1)) as nat, |i: int| ' ') + seq!['•', ' ']);
    }
    let e1 = evs.push(MdEvent::Start(MdTag::List));
    let e2 = e1.push(MdEvent::End(MdTag::List));
    assert(e2.drop_last() =~= e1);
    assert(e1.drop_last() =~= evs);
    assert(render_fold(e1) == render_step(render_fold(evs), MdEvent::Start(MdTag::List)));
    assert(render_fold(e2) == render_step(render_fold(e1), MdEvent::End(MdTag::List)));
}

} // verus!
