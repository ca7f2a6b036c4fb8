//! The editing buffer: lines of text, a cursor whose column is a byte
//! offset into the UTF-8 encoding of its line, and the first visible
//! row; and how the source view draws the cursor.

use vstd::prelude::*;
use vstd::string::*;
use vstd::pervasive::VecAdditionalExecFns;
use vstd::utf8::{
    decode_utf8, decode_utf8_encode_utf8, encode_utf8, encode_utf8_decode_utf8,
    encode_utf8_valid_utf8, is_char_boundary, is_char_boundary_iff_not_is_continuation_byte,
    is_char_boundary_start_end_of_seq, is_continuation_byte, length_of_first_scalar,
    pop_first_scalar, valid_utf8, valid_utf8_concat, valid_utf8_split,
};
use crate::style::{span_view, spans_view, Color, Span, SpanView, Style};
use crate::table::join;
use crate::text::{byte_len, lines, lines_of, split_nl, strip_cr, views};

verus! {

broadcast use {encode_utf8_valid_utf8, encode_utf8_decode_utf8, is_char_boundary_start_end_of_seq};

/// Length in bytes of the UTF-8 encoding of `l`.
pub open spec fn blen(l: Seq<char>) -> nat {
    encode_utf8(l).len()
}

/// The largest index `j <= i` that is 0 or a character boundary of `b`.
pub open spec fn prev_boundary(b: Seq<u8>, i: int) -> int
    decreases i,
{
    if i <= 0 || is_char_boundary(b, i) {
        i
    } else {
        prev_boundary(b, i - 1)
    }
}

/// The smallest index `j >= i` that is the end of `b` or a character
/// boundary of it.
pub open spec fn next_boundary(b: Seq<u8>, i: int) -> int
    decreases b.len() - i,
{
    if i >= b.len() || is_char_boundary(b, i) {
        i
    } else {
        next_boundary(b, i + 1)
    }
}

/// `char::len_utf8`.
#[verifier::external_body]
fn len_utf8(c: char) -> (n: usize)
    ensures
        n == encode_utf8(seq![c]).len(),
{
    c.len_utf8()
}

/// `String::insert`: `c` inserted at byte offset `idx`.
#[verifier::external_body]
fn string_insert(s: &mut String, idx: usize, c: char)
    requires
        is_char_boundary(encode_utf8(old(s)@), idx as int),
        encode_utf8(old(s)@).len() + encode_utf8(seq![c]).len() <= isize::MAX,
    ensures
        final(s)@ == decode_utf8(
            encode_utf8(old(s)@).take(idx as int) + encode_utf8(seq![c]) + encode_utf8(
                old(s)@,
            ).skip(idx as int),
        ),
{
    s.insert(idx, c);
}

/// `String::split_off`: the string keeps the bytes before `at` and the
/// rest is returned.
#[verifier::external_body]
fn string_split_off(s: &mut String, at: usize) -> (r: String)
    requires
        is_char_boundary(encode_utf8(old(s)@), at as int),
    ensures
        final(s)@ == decode_utf8(encode_utf8(old(s)@).take(at as int)),
        r@ == decode_utf8(encode_utf8(old(s)@).skip(at as int)),
{
    s.split_off(at)
}

/// `String::remove`: the character starting at byte offset `idx` is
/// removed.
#[verifier::external_body]
fn string_remove(s: &mut String, idx: usize) -> (c: char)
    requires
        idx < encode_utf8(old(s)@).len(),
        is_char_boundary(encode_utf8(old(s)@), idx as int),
    ensures
        final(s)@ == decode_utf8(
            encode_utf8(old(s)@).take(idx as int) + pop_first_scalar(
                encode_utf8(old(s)@).skip(idx as int),
            ),
        ),
{
    s.remove(idx)
}

/// Encoding a concatenation concatenates the encodings.
pub proof fn lemma_encode_concat(a: Seq<char>, b: Seq<char>)
    ensures
        encode_utf8(a + b) == encode_utf8(a) + encode_utf8(b),
    decreases a.len(),
{
    if a.len() > 0 {
        lemma_encode_concat(a.drop_first(), b);
        assert((a + b).drop_first() =~= a.drop_first() + b);
        assert((a + b)[0] == a[0]);
    } else {
        assert(a + b =~= b);
    }
}

/// The abstract value of a buffer.
pub struct BufferView {
    pub lines: Seq<Seq<char>>,
    pub row: nat,
    pub col: nat,
    pub scroll: nat,
}

/// Lines of text, a cursor (row, and byte column within the row's line)
/// and the first visible row.
pub struct Buffer {
    lines: Vec<String>,
    cursor_row: usize,
    cursor_col: usize,
    scroll: usize,
}

impl View for Buffer {
    type V = BufferView;

    closed spec fn view(&self) -> BufferView {
        BufferView {
            lines: views(self.lines@),
            row: self.cursor_row as nat,
            col: self.cursor_col as nat,
            scroll: self.scroll as nat,
        }
    }
}

/// A well-formed buffer: at least one line, the cursor on a line and at
/// most at its end.
pub open spec fn buffer_wf(v: BufferView) -> bool {
    &&& v.lines.len() >= 1
    &&& v.row < v.lines.len()
    &&& v.col <= blen(v.lines[v.row as int])
}

/// The bytes of the cursor's line.
pub open spec fn cursor_bytes(v: BufferView) -> Seq<u8> {
    encode_utf8(v.lines[v.row as int])
}

/// The lines of a new buffer holding `content`.
pub open spec fn new_lines(content: Seq<char>) -> Seq<Seq<char>> {
    if content.len() == 0 {
        seq![Seq::<char>::empty()]
    } else {
        lines_of(content)
    }
}

/// `c` typed at the cursor, which moves past it.
pub open spec fn insert_char_spec(v: BufferView, c: char) -> BufferView {
    let b = cursor_bytes(v);
    BufferView {
        lines: v.lines.update(
            v.row as int,
            decode_utf8(b.take(v.col as int) + encode_utf8(seq![c]) + b.skip(v.col as int)),
        ),
        col: v.col + encode_utf8(seq![c]).len(),
        ..v
    }
}

/// The cursor's line split at the cursor; the cursor moves to the start
/// of the new line.
pub open spec fn insert_newline_spec(v: BufferView) -> BufferView {
    let b = cursor_bytes(v);
    BufferView {
        lines: v.lines.take(v.row as int) + seq![
            decode_utf8(b.take(v.col as int)),
            decode_utf8(b.skip(v.col as int)),
        ] + v.lines.skip(v.row + 1int),
        row: v.row + 1,
        col: 0,
        ..v
    }
}

/// Backspace: the character before the cursor is removed, or, at the
/// start of a line, the line is joined to the previous one.
pub open spec fn backspace_spec(v: BufferView) -> BufferView {
    let b = cursor_bytes(v);
    if v.col > 0 {
        let idx = prev_boundary(b, v.col - 1);
        BufferView {
            lines: v.lines.update(
                v.row as int,
                decode_utf8(b.take(idx) + pop_first_scalar(b.skip(idx))),
            ),
            col: idx as nat,
            ..v
        }
    } else if v.row > 0 {
        let prev = v.lines[v.row - 1];
        BufferView {
            lines: v.lines.take(v.row - 1) + seq![prev + v.lines[v.row as int]] + v.lines.skip(
                v.row + 1int,
            ),
            row: (v.row - 1) as nat,
            col: blen(prev),
            ..v
        }
    } else {
        v
    }
}

/// The cursor moves one character left, or to the end of the previous
/// line.
pub open spec fn move_left_spec(v: BufferView) -> BufferView {
    if v.col > 0 {
        BufferView { col: prev_boundary(cursor_bytes(v), v.col - 1) as nat, ..v }
    } else if v.row > 0 {
        BufferView { row: (v.row - 1) as nat, col: blen(v.lines[v.row - 1]), ..v }
    } else {
        v
    }
}

/// The cursor moves one character right, or to the start of the next
/// line.
pub open spec fn move_right_spec(v: BufferView) -> BufferView {
    if v.col < blen(v.lines[v.row as int]) {
        BufferView { col: next_boundary(cursor_bytes(v), v.col + 1int) as nat, ..v }
    } else if v.row + 1 < v.lines.len() {
        BufferView { row: v.row + 1, col: 0, ..v }
    } else {
        v
    }
}

/// The cursor moves to row `r`, its column kept but no further than the
/// end of that row.
pub open spec fn to_row(v: BufferView, r: nat) -> BufferView {
    let len = blen(v.lines[r as int]);
    BufferView { row: r, col: if v.col < len { v.col } else { len }, ..v }
}

pub open spec fn move_up_spec(v: BufferView) -> BufferView {
    if v.row > 0 {
        to_row(v, (v.row - 1) as nat)
    } else {
        v
    }
}

pub open spec fn move_down_spec(v: BufferView) -> BufferView {
    if v.row + 1 < v.lines.len() {
        to_row(v, v.row + 1)
    } else {
        v
    }
}

/// The first visible row after making the cursor visible in a window of
/// `height` rows.
pub open spec fn ensure_visible_spec(v: BufferView, height: nat) -> BufferView {
    if height == 0 {
        v
    } else if v.row < v.scroll {
        BufferView { scroll: v.row, ..v }
    } else if v.row >= v.scroll + height {
        BufferView { scroll: (v.row - height + 1) as nat, ..v }
    } else {
        v
    }
}

/// The first visible row after scrolling by `delta` rows: never above the
/// first line, and downwards no further than `height` rows above the end.
pub open spec fn scroll_by_spec(v: BufferView, delta: int, height: nat) -> BufferView {
    if delta < 0 {
        BufferView { scroll: if v.scroll >= -delta { (v.scroll + delta) as nat } else { 0 }, ..v }
    } else {
        let max_scroll = if v.lines.len() >= height { (v.lines.len() - height) as nat } else { 0 };
        let s = v.scroll + delta;
        BufferView { scroll: if s < max_scroll { s as nat } else { max_scroll }, ..v }
    }
}

impl Buffer {
    /// A buffer holding `content`, one line per line of it (an empty
    /// content is one empty line), the cursor at the start.
    pub fn new(content: &str) -> (b: Buffer)
        ensures
            b@ == (BufferView { lines: new_lines(content@), row: 0, col: 0, scroll: 0 }),
            buffer_wf(b@),
    {
        let ls = if content.is_empty() {
            let mut v: Vec<String> = Vec::new();
            v.push(String::new());
            assert(views(v@) =~= seq![Seq::<char>::empty()]);
            v
        } else {
            proof {
                lemma_lines_nonempty(content@);
            }
            lines(content)
        };
        assert(views(ls@)[0] == ls@[0]@);
        Buffer { lines: ls, cursor_row: 0, cursor_col: 0, scroll: 0 }
    }

    /// The text of the buffer: its lines joined with newlines.
    pub fn content(&self) -> (s: String)
        ensures
            s@ == join(self@.lines, seq!['\n']),
    {
        let ghost ls = self@.lines;
        let mut s = String::new();
        let mut i: usize = 0;
        while i < self.lines.len()
            invariant
                i <= self.lines.len(),
                ls == views(self.lines@),
                s@ == join(ls.take(i as int), seq!['\n']),
            decreases self.lines.len() - i,
        {
            if i > 0 {
                s.append("\n");
                proof {
                    reveal_strlit("\n");
                }
            }
            s.append(self.lines[i].as_str());
            assert(ls.take(i + 1).drop_last() =~= ls.take(i as int));
            if i == 0 {
                assert(join(ls.take(1), seq!['\n']) == ls.take(1)[0]);
            }
            assert(s@ =~= join(ls.take(i + 1), seq!['\n']));
            i = i + 1;
        }
        assert(ls.take(self.lines.len() as int) =~= ls);
        s
    }
}

/// Splitting valid bytes at a boundary and putting valid bytes between
/// the halves gives valid bytes, whose decoding encodes back to them.
proof fn lemma_splice_valid(b: Seq<u8>, at: int, mid: Seq<u8>)
    requires
        valid_utf8(b),
        is_char_boundary(b, at),
        valid_utf8(mid),
    ensures
        valid_utf8(b.take(at) + mid + b.skip(at)),
        encode_utf8(decode_utf8(b.take(at) + mid + b.skip(at))) == b.take(at) + mid + b.skip(at),
{
    valid_utf8_split(b, at);
    assert(b.subrange(0, at) == b.take(at));
    assert(b.subrange(at, b.len() as int) == b.skip(at));
    valid_utf8_concat(b.take(at), mid);
    valid_utf8_concat(b.take(at) + mid, b.skip(at));
    decode_utf8_encode_utf8(b.take(at) + mid + b.skip(at));
}

impl Buffer {
    /// Types `c` at the cursor, which moves past it.
    pub fn insert_char(&mut self, c: char)
        requires
            buffer_wf(old(self)@),
            is_char_boundary(cursor_bytes(old(self)@), old(self)@.col as int),
            blen(old(self)@.lines[old(self)@.row as int]) + blen(seq![c]) <= isize::MAX,
        ensures
            final(self)@ == insert_char_spec(old(self)@, c),
            buffer_wf(final(self)@),
    {
        let row = self.cursor_row;
        let mut line = String::new();
        self.lines.set_and_swap(row, &mut line);
        let len = byte_len(line.as_str());
        if self.cursor_col > len {
            self.cursor_col = len;
        }
        let ghost b = encode_utf8(line@);
        string_insert(&mut line, self.cursor_col, c);
        proof {
            lemma_splice_valid(b, self.cursor_col as int, encode_utf8(seq![c]));
        }
        self.lines.set(row, line);
        self.cursor_col = self.cursor_col + len_utf8(c);
        assert(self@.lines =~= old(self)@.lines.update(row as int, line@));
    }

    /// Splits the cursor's line at the cursor; the cursor moves to the
    /// start of the new line.
    pub fn insert_newline(&mut self)
        requires
            buffer_wf(old(self)@),
            is_char_boundary(cursor_bytes(old(self)@), old(self)@.col as int),
        ensures
            final(self)@ == insert_newline_spec(old(self)@),
            buffer_wf(final(self)@),
    {
        let row = self.cursor_row;
        let mut line = String::new();
        self.lines.set_and_swap(row, &mut line);
        let rest = string_split_off(&mut line, self.cursor_col);
        self.lines.set(row, line);
        assert(row < self.lines.len());
        self.cursor_row = row + 1;
        self.lines.insert(self.cursor_row, rest);
        self.cursor_col = 0;
        assert(self@.lines =~= insert_newline_spec(old(self)@).lines);
    }

    /// Deletes the character before the cursor, or at the start of a line
    /// joins it to the previous one.
    pub fn backspace(&mut self)
        requires
            buffer_wf(old(self)@),
        ensures
            final(self)@ == backspace_spec(old(self)@),
            buffer_wf(final(self)@),
    {
        if self.cursor_col > 0 {
            let row = self.cursor_row;
            let mut line = String::new();
            self.lines.set_and_swap(row, &mut line);
            let ghost b = encode_utf8(line@);
            let mut idx = self.cursor_col - 1;
            while idx > 0 && !line.as_str().is_char_boundary(idx)
                invariant
                    0 <= idx < b.len(),
                    b == encode_utf8(line@),
                    prev_boundary(b, idx as int) == prev_boundary(b, old(self)@.col - 1),
                decreases idx,
            {
                idx = idx - 1;
            }
            string_remove(&mut line, idx);
            proof {
                valid_utf8_split(b, idx as int);
                assert(b.subrange(0, idx as int) == b.take(idx as int));
                assert(b.subrange(idx as int, b.len() as int) == b.skip(idx as int));
                lemma_pop_valid(b.skip(idx as int));
                valid_utf8_concat(b.take(idx as int), pop_first_scalar(b.skip(idx as int)));
                decode_utf8_encode_utf8(b.take(idx as int) + pop_first_scalar(b.skip(idx as int)));
            }
            self.lines.set(row, line);
            self.cursor_col = idx;
            assert(self@.lines =~= backspace_spec(old(self)@).lines);
        } else if self.cursor_row > 0 {
            let current = self.lines.remove(self.cursor_row);
            self.cursor_row = self.cursor_row - 1;
            let row = self.cursor_row;
            let mut line = String::new();
            self.lines.set_and_swap(row, &mut line);
            self.cursor_col = byte_len(line.as_str());
            line.append(current.as_str());
            proof {
                lemma_encode_concat(old(self)@.lines[row as int], current@);
            }
            self.lines.set(row, line);
            assert(self@.lines =~= backspace_spec(old(self)@).lines);
        }
    }
}

impl Buffer {
    /// Moves the cursor one character left, or to the end of the previous
    /// line.
    pub fn move_left(&mut self)
        requires
            buffer_wf(old(self)@),
        ensures
            final(self)@ == move_left_spec(old(self)@),
            buffer_wf(final(self)@),
    {
        if self.cursor_col > 0 {
            let line = self.lines[self.cursor_row].as_str();
            let ghost b = encode_utf8(line@);
            let mut idx = self.cursor_col - 1;
            while idx > 0 && !line.is_char_boundary(idx)
                invariant
                    0 <= idx < b.len(),
                    b == encode_utf8(line@),
                    prev_boundary(b, idx as int) == prev_boundary(b, old(self)@.col - 1),
                decreases idx,
            {
                idx = idx - 1;
            }
            self.cursor_col = idx;
        } else if self.cursor_row > 0 {
            self.cursor_row = self.cursor_row - 1;
            self.cursor_col = byte_len(self.lines[self.cursor_row].as_str());
        }
    }

    /// Moves the cursor one character right, or to the start of the next
    /// line.
    pub fn move_right(&mut self)
        requires
            buffer_wf(old(self)@),
        ensures
            final(self)@ == move_right_spec(old(self)@),
            buffer_wf(final(self)@),
    {
        assert(self@.lines.len() == self.lines@.len());
        let line = self.lines[self.cursor_row].as_str();
        let len = byte_len(line);
        if self.cursor_col < len {
            let ghost b = encode_utf8(line@);
            let mut idx = self.cursor_col + 1;
            while idx < len && !line.is_char_boundary(idx)
                invariant
                    old(self)@.col < idx <= len,
                    len == b.len(),
                    b == encode_utf8(line@),
                    next_boundary(b, idx as int) == next_boundary(b, old(self)@.col + 1int),
                decreases len - idx,
            {
                idx = idx + 1;
            }
            self.cursor_col = idx;
        } else if self.cursor_row < self.lines.len() - 1 {
            self.cursor_row = self.cursor_row + 1;
            self.cursor_col = 0;
        }
    }

    /// Moves the cursor up a line, keeping its column within the line.
    pub fn move_up(&mut self)
        requires
            buffer_wf(old(self)@),
        ensures
            final(self)@ == move_up_spec(old(self)@),
            buffer_wf(final(self)@),
    {
        if self.cursor_row > 0 {
            self.cursor_row = self.cursor_row - 1;
            let len = byte_len(self.lines[self.cursor_row].as_str());
            if len < self.cursor_col {
                self.cursor_col = len;
            }
        }
    }

    /// Moves the cursor down a line, keeping its column within the line.
    pub fn move_down(&mut self)
        requires
            buffer_wf(old(self)@),
        ensures
            final(self)@ == move_down_spec(old(self)@),
            buffer_wf(final(self)@),
    {
        assert(self@.lines.len() == self.lines@.len());
        if self.cursor_row < self.lines.len() - 1 {
            self.cursor_row = self.cursor_row + 1;
            let len = byte_len(self.lines[self.cursor_row].as_str());
            if len < self.cursor_col {
                self.cursor_col = len;
            }
        }
    }

    /// Scrolls so that the cursor's row lies among the `height` visible
    /// rows.
    pub fn ensure_visible(&mut self, height: usize)
        requires
            height > 0 && old(self)@.row >= old(self)@.scroll ==> old(self)@.scroll + height
                <= usize::MAX,
        ensures
            final(self)@ == ensure_visible_spec(old(self)@, height as nat),
    {
        if height == 0 {
            return ;
        }
        if self.cursor_row < self.scroll {
            self.scroll = self.cursor_row;
        } else if self.cursor_row >= self.scroll + height {
            self.scroll = self.cursor_row - height + 1;
        }
    }

    /// Scrolls by `delta` rows (up when negative), never above the first
    /// line and downwards no further than `height` rows above the end.
    pub fn scroll_by(&mut self, delta: i32, height: usize)
        requires
            delta > i32::MIN,
            delta >= 0 ==> old(self)@.scroll + delta <= usize::MAX,
        ensures
            final(self)@ == scroll_by_spec(old(self)@, delta as int, height as nat),
    {
        if delta < 0 {
            self.scroll = self.scroll.saturating_sub((-delta) as usize);
        } else {
            let max_scroll = self.lines.len().saturating_sub(height);
            let s = self.scroll + delta as usize;
            self.scroll = if s < max_scroll { s } else { max_scroll };
        }
    }

    /// The lines of the buffer.
    pub fn lines(&self) -> (r: &Vec<String>)
        ensures
            views(r@) == self@.lines,
    {
        &self.lines
    }

    /// The cursor's row.
    pub fn cursor_row(&self) -> (r: usize)
        ensures
            r == self@.row,
    {
        self.cursor_row
    }

    /// The cursor's byte column within its line.
    pub fn cursor_col(&self) -> (r: usize)
        ensures
            r == self@.col,
    {
        self.cursor_col
    }

    /// The first visible row.
    pub fn scroll(&self) -> (r: usize)
        ensures
            r == self@.scroll,
    {
        self.scroll
    }
}

/// Splits `s` at byte offset `col`, moved back to the nearest character
/// boundary (and to the end of `s` when beyond it); the halves together
/// are `s`.
pub fn split_at_boundary(s: &str, col: usize) -> (r: (&str, &str))
    ensures
        ({
            let b = encode_utf8(s@);
            let idx = prev_boundary(b, if col < b.len() { col as int } else { b.len() as int });
            &&& encode_utf8(r.0@) == b.take(idx)
            &&& encode_utf8(r.1@) == b.skip(idx)
            &&& r.0@ + r.1@ == s@
        }),
{
    let len = byte_len(s);
    let ghost b = encode_utf8(s@);
    let mut idx = if col < len { col } else { len };
    while idx > 0 && !s.is_char_boundary(idx)
        invariant
            0 <= idx <= b.len(),
            b == encode_utf8(s@),
            len == b.len(),
            prev_boundary(b, idx as int) == prev_boundary(b, if col < b.len() { col as int } else { b.len() as int }),
        decreases idx,
    {
        idx = idx - 1;
    }
    let r = s.split_at(idx);
    proof {
        assert(b.subrange(0, idx as int) == b.take(idx as int));
        assert(b.subrange(idx as int, b.len() as int) == b.skip(idx as int));
        vstd::utf8::decode_utf8_split(b, idx as int);
        encode_utf8_decode_utf8(r.0@);
        encode_utf8_decode_utf8(r.1@);
    }
    r
}

/// The cursor as the source view draws it: a bold yellow bar.
pub open spec fn cursor_mark() -> SpanView {
    span_view("│"@, Style::fg_bold_spec(Color::Yellow))
}

/// `text` in style `style` as a span, or nothing when `text` is empty.
pub open spec fn nonempty_span(text: Seq<char>, style: Style) -> Seq<SpanView> {
    if text.len() > 0 {
        seq![span_view(text, style)]
    } else {
        Seq::empty()
    }
}

/// The spans of a source line with the cursor drawn at byte column
/// `cursor`, where `spans` start at byte column `col`: the span that
/// reaches the cursor is cut at the nearest character boundary at or
/// before it and the bar goes between the halves; past the end of the
/// line the bar comes last.
pub open spec fn cursor_from(spans: Seq<SpanView>, col: int, cursor: int) -> Seq<SpanView>
    decreases spans.len(),
{
    if spans.len() == 0 {
        seq![cursor_mark()]
    } else {
        let sp = spans[0];
        let b = encode_utf8(sp.text);
        if col + b.len() >= cursor {
            let idx = prev_boundary(b, cursor - col);
            nonempty_span(decode_utf8(b.take(idx)), sp.style) + seq![cursor_mark()] + nonempty_span(
                decode_utf8(b.skip(idx)),
                sp.style,
            ) + spans.drop_first()
        } else {
            seq![sp] + cursor_from(spans.drop_first(), col + b.len(), cursor)
        }
    }
}

/// The spans of a source line with the cursor drawn at byte column
/// `cursor`.
pub fn cursor_line(spans: &Vec<Span>, cursor: usize) -> (r: Vec<Span>)
    ensures
        spans_view(r@) == cursor_from(spans_view(spans@), 0, cursor as int),
{
    let ghost all = spans_view(spans@);
    let mut r: Vec<Span> = Vec::new();
    let mut col: usize = 0;
    let mut i: usize = 0;
    assert(all.skip(0) =~= all);
    while i < spans.len()
        invariant
            i <= spans.len(),
            col <= cursor,
            all == spans_view(spans@),
            spans_view(r@) + cursor_from(all.skip(i as int), col as int, cursor as int) == cursor_from(
                all,
                0,
                cursor as int,
            ),
        decreases spans.len() - i,
    {
        let sp = &spans[i];
        let len = byte_len(sp.content.as_str());
        assert(all.skip(i as int)[0] == sp@);
        assert(all.skip(i as int).drop_first() =~= all.skip(i + 1));
        if len >= cursor - col {
            let (b, a) = split_at_boundary(sp.content.as_str(), cursor - col);
            let ghost before = spans_view(r@);
            let ghost bytes = encode_utf8(sp.content@);
            let ghost idx = prev_boundary(bytes, cursor - col);
            proof {
                encode_utf8_decode_utf8(b@);
                encode_utf8_decode_utf8(a@);
            }
            if !b.is_empty() {
                r.push(Span::styled(b.to_owned(), sp.style));
            }
            r.push(Span::styled("│".to_owned(), Style::fg_bold(Color::Yellow)));
            if !a.is_empty() {
                r.push(Span::styled(a.to_owned(), sp.style));
            }
            assert(spans_view(r@) =~= before + nonempty_span(decode_utf8(bytes.take(idx)), sp.style)
                + seq![cursor_mark()] + nonempty_span(decode_utf8(bytes.skip(idx)), sp.style));
            let mut k = i + 1;
            let ghost head = spans_view(r@);
            assert(all.skip(k as int).take(0) =~= Seq::<SpanView>::empty());
            while k < spans.len()
                invariant
                    i < k <= spans.len(),
                    all == spans_view(spans@),
                    spans_view(r@) == head + all.skip(i + 1).take(k - i - 1),
                decreases spans.len() - k,
            {
                let ghost prev = spans_view(r@);
                r.push(spans[k].duplicate());
                assert(spans_view(r@) =~= prev.push(all[k as int]));
                assert(all.skip(i + 1).take(k - i) =~= all.skip(i + 1).take(k - i - 1).push(all[k as int]));
                k = k + 1;
            }
            assert(all.skip(i + 1).take(spans.len() - i - 1) =~= all.skip(i + 1));
            return r;
        }
        let ghost before = spans_view(r@);
        r.push(sp.duplicate());
        assert(spans_view(r@) =~= before + seq![sp@]);
        col = col + len;
        i = i + 1;
    }
    let ghost before = spans_view(r@);
    r.push(Span::styled("│".to_owned(), Style::fg_bold(Color::Yellow)));
    assert(spans_view(r@) =~= before + seq![cursor_mark()]);
    r
}

/// Dropping the first scalar of valid bytes leaves valid bytes.
proof fn lemma_pop_valid(b: Seq<u8>)
    requires
        valid_utf8(b),
        b.len() > 0,
    ensures
        valid_utf8(pop_first_scalar(b)),
{
}

/// A non-empty text has at least one line.
pub proof fn lemma_lines_nonempty(s: Seq<char>)
    requires
        s.len() > 0,
    ensures
        lines_of(s).len() >= 1,
{
    lemma_split_nl_len(s);
    let p = crate::text::split_nl(s);
    if p.last().len() == 0 {
        lemma_split_nl_last(s);
    }
}

/// Splitting at newlines gives at least one piece.
pub proof fn lemma_split_nl_len(s: Seq<char>)
    ensures
        crate::text::split_nl(s).len() >= 1,
    decreases s.len(),
{
    if s.len() > 0 {
        lemma_split_nl_len(s.drop_first());
    }
}

/// When the last piece is empty and `s` is not, there are two pieces.
pub proof fn lemma_split_nl_last(s: Seq<char>)
    requires
        s.len() > 0,
        crate::text::split_nl(s).last().len() == 0,
    ensures
        crate::text::split_nl(s).len() >= 2,
    decreases s.len(),
{
    lemma_split_nl_len(s.drop_first());
    let rest = crate::text::split_nl(s.drop_first());
    if s[0] != '\n' {
        if rest.len() == 1 {
            assert(crate::text::split_nl(s).last() == seq![s[0]] + rest[0]);
        } else {
        }
    }
}

// ---------------------------------------------------------------------
// Cursor movement and editing undone
// ---------------------------------------------------------------------

/// The first scalar of valid bytes: a leading byte, then continuation
/// bytes up to its length, then (if any) another leading byte.
proof fn lemma_scalar_bytes(e: Seq<u8>)
    requires
        valid_utf8(e),
        e.len() > 0,
    ensures
        1 <= length_of_first_scalar(e) <= e.len(),
        !is_continuation_byte(e[0]),
        forall|k: int| 1 <= k < length_of_first_scalar(e) ==> is_continuation_byte(#[trigger] e[k]),
        length_of_first_scalar(e) < e.len() ==> !is_continuation_byte(e[length_of_first_scalar(e)]),
{
    reveal_with_fuel(valid_utf8, 2);
    let l = length_of_first_scalar(e);
    let rest = pop_first_scalar(e);
    if l < e.len() {
        assert(rest[0] == e[l]);
    }
}

/// At a character boundary `col` before the end of valid bytes `b`, the
/// character there spans `L` bytes: no boundary lies strictly inside it
/// and one lies right after it.
proof fn lemma_char_span(b: Seq<u8>, col: int)
    requires
        valid_utf8(b),
        0 <= col < b.len(),
        is_char_boundary(b, col),
    ensures
        ({
            let l = length_of_first_scalar(b.skip(col));
            &&& 1 <= l
            &&& col + l <= b.len()
            &&& is_char_boundary(b, col + l)
            &&& forall|i: int| col < i < col + l ==> !#[trigger] is_char_boundary(b, i)
        }),
{
    valid_utf8_split(b, col);
    let t = b.skip(col);
    assert(b.subrange(col, b.len() as int) == t);
    lemma_scalar_bytes(t);
    let l = length_of_first_scalar(t);
    assert forall|i: int| col < i < col + l implies !#[trigger] is_char_boundary(b, i) by {
        assert(t[i - col] == b[i]);
        is_char_boundary_iff_not_is_continuation_byte(b, i);
    }
    if col + l < b.len() {
        assert(t[l] == b[col + l]);
        is_char_boundary_iff_not_is_continuation_byte(b, col + l);
    }
}

/// Walking back from `i` over non-boundaries reaches the boundary `lo`.
proof fn lemma_prev_boundary_to(b: Seq<u8>, lo: int, i: int)
    requires
        0 <= lo <= i,
        is_char_boundary(b, lo),
        forall|j: int| lo < j <= i ==> !#[trigger] is_char_boundary(b, j),
    ensures
        prev_boundary(b, i) == lo,
    decreases i - lo,
{
    if i > lo {
        lemma_prev_boundary_to(b, lo, i - 1);
    }
}

/// Walking forward from `i` over non-boundaries reaches `hi`, a boundary
/// or the end.
proof fn lemma_next_boundary_to(b: Seq<u8>, hi: int, i: int)
    requires
        i <= hi <= b.len(),
        hi == b.len() || is_char_boundary(b, hi),
        forall|j: int| i <= j < hi ==> !#[trigger] is_char_boundary(b, j),
    ensures
        next_boundary(b, i) == hi,
    decreases hi - i,
{
    if i < hi {
        lemma_next_boundary_to(b, hi, i + 1);
    }
}

/// What walking back finds: a boundary (or 0), with no boundary between
/// it and the start of the walk.
proof fn lemma_prev_boundary_props(b: Seq<u8>, i: int)
    requires
        0 <= i,
        valid_utf8(b),
    ensures
        0 <= prev_boundary(b, i) <= i,
        is_char_boundary(b, prev_boundary(b, i)),
        forall|j: int| prev_boundary(b, i) < j <= i ==> !#[trigger] is_char_boundary(b, j),
    decreases i,
{
    if i > 0 && !is_char_boundary(b, i) {
        lemma_prev_boundary_props(b, i - 1);
    }
}

/// Inserting the encoding of `c` at a boundary `col` of valid bytes `b`:
/// `col` stays a boundary, the inserted character spans exactly its
/// encoding, and removing it gives `b` back.
proof fn lemma_inserted_char(b: Seq<u8>, col: int, c: char)
    requires
        valid_utf8(b),
        0 <= col <= b.len(),
        is_char_boundary(b, col),
    ensures
        ({
            let e = encode_utf8(seq![c]);
            let bb = b.take(col) + e + b.skip(col);
            &&& valid_utf8(bb)
            &&& e.len() >= 1
            &&& is_char_boundary(bb, col)
            &&& length_of_first_scalar(bb.skip(col)) == e.len()
            &&& prev_boundary(bb, col + e.len() - 1) == col
            &&& bb.take(col) + pop_first_scalar(bb.skip(col)) == b
        }),
{
    let e = encode_utf8(seq![c]);
    let bb = b.take(col) + e + b.skip(col);
    lemma_splice_valid(b, col, e);
    valid_utf8_split(b, col);
    assert(b.subrange(col, b.len() as int) == b.skip(col));
    let y = decode_utf8(b.skip(col));
    decode_utf8_encode_utf8(b.skip(col));
    lemma_encode_concat(seq![c], y);
    let ee = encode_utf8(seq![c] + y);
    assert((seq![c] + y)[0] == c);
    assert((seq![c] + y).drop_first() =~= y);
    vstd::utf8::encode_utf8_first_scalar(seq![c] + y);
    assert(seq![c].drop_first() =~= Seq::<char>::empty());
    assert(e =~= vstd::utf8::encode_scalar(c as u32));
    assert(bb.skip(col) =~= ee);
    assert(bb[col] == ee[0]);
    lemma_scalar_bytes(ee);
    is_char_boundary_iff_not_is_continuation_byte(bb, col);
    lemma_char_span(bb, col);
    lemma_prev_boundary_to(bb, col, col + e.len() - 1);
    assert(ee.subrange(e.len() as int, ee.len() as int) =~= b.skip(col));
    assert(bb.take(col) =~= b.take(col));
    assert(b.take(col) + b.skip(col) =~= b);
}

/// Backspace right after typing a character removes it: the buffer is
/// as it was.
pub proof fn backspace_undoes_insert_char(v: BufferView, c: char)
    requires
        buffer_wf(v),
        is_char_boundary(cursor_bytes(v), v.col as int),
    ensures
        backspace_spec(insert_char_spec(v, c)) == v,
{
    let b = cursor_bytes(v);
    let col = v.col as int;
    let e = encode_utf8(seq![c]);
    let bb = b.take(col) + e + b.skip(col);
    lemma_inserted_char(b, col, c);
    decode_utf8_encode_utf8(bb);
    let v1 = insert_char_spec(v, c);
    assert(cursor_bytes(v1) == bb);
    assert(decode_utf8(b) == v.lines[v.row as int]);
    assert(backspace_spec(v1).lines =~= v.lines);
}

/// Backspace at the start of a line just split joins it again: the
/// buffer is as it was before the newline.
pub proof fn backspace_undoes_insert_newline(v: BufferView)
    requires
        buffer_wf(v),
        is_char_boundary(cursor_bytes(v), v.col as int),
    ensures
        backspace_spec(insert_newline_spec(v)) == v,
{
    let b = cursor_bytes(v);
    let col = v.col as int;
    valid_utf8_split(b, col);
    vstd::utf8::decode_utf8_split(b, col);
    assert(b.subrange(0, col) == b.take(col));
    assert(b.subrange(col, b.len() as int) == b.skip(col));
    decode_utf8_encode_utf8(b.take(col));
    let v1 = insert_newline_spec(v);
    assert(v1.lines[v.row as int] == decode_utf8(b.take(col)));
    assert(v1.lines[v.row + 1int] == decode_utf8(b.skip(col)));
    assert(backspace_spec(v1).lines =~= v.lines);
}

/// Moving right then left returns the cursor where it was, unless it
/// stood at the very end of the text (where moving right does nothing).
pub proof fn move_left_undoes_move_right(v: BufferView)
    requires
        buffer_wf(v),
        is_char_boundary(cursor_bytes(v), v.col as int),
        !(v.row + 1 == v.lines.len() && v.col == blen(v.lines[v.row as int])),
    ensures
        move_left_spec(move_right_spec(v)) == v,
{
    let b = cursor_bytes(v);
    let col = v.col as int;
    if col < b.len() {
        lemma_char_span(b, col);
        let l = length_of_first_scalar(b.skip(col));
        lemma_next_boundary_to(b, col + l, col + 1);
        lemma_prev_boundary_to(b, col, col + l - 1);
    }
}

/// Moving left then right returns the cursor where it was, unless it
/// stood at the very start of the text (where moving left does nothing).
pub proof fn move_right_undoes_move_left(v: BufferView)
    requires
        buffer_wf(v),
        is_char_boundary(cursor_bytes(v), v.col as int),
        !(v.row == 0 && v.col == 0),
    ensures
        move_right_spec(move_left_spec(v)) == v,
{
    let b = cursor_bytes(v);
    let col = v.col as int;
    if col > 0 {
        lemma_prev_boundary_props(b, col - 1);
        let p = prev_boundary(b, col - 1);
        lemma_char_span(b, p);
        let l = length_of_first_scalar(b.skip(p));
        if p + l < col {
            assert(!is_char_boundary(b, p + l));
        }
        lemma_next_boundary_to(b, col, p + 1);
    }
}

/// Joining `x` in front of at least one part.
proof fn lemma_join_cons(x: Seq<char>, r: Seq<Seq<char>>, sep: Seq<char>)
    requires
        r.len() >= 1,
    ensures
        join(seq![x] + r, sep) == x + sep + join(r, sep),
    decreases r.len(),
{
    let xr = seq![x] + r;
    assert(xr.drop_last() =~= seq![x] + r.drop_last());
    if r.len() == 1 {
        assert(seq![x].drop_last().len() == 0);
        assert(join(seq![x], sep) == x);
    } else {
        lemma_join_cons(x, r.drop_last(), sep);
    }
    assert(xr.last() == r.last());
}

/// Prefixing the first part by `x` prefixes the joined text by `x`.
proof fn lemma_join_update_first(x: Seq<char>, r: Seq<Seq<char>>, sep: Seq<char>)
    requires
        r.len() >= 1,
    ensures
        join(r.update(0, x + r[0]), sep) == x + join(r, sep),
    decreases r.len(),
{
    let u = r.update(0, x + r[0]);
    if r.len() > 1 {
        assert(u.drop_last() =~= r.drop_last().update(0, x + r.drop_last()[0]));
        lemma_join_update_first(x, r.drop_last(), sep);
        assert(u.last() == r.last());
    }
}

/// The pieces between newlines, joined with newlines, are the text.
proof fn lemma_join_split_nl(s: Seq<char>)
    ensures
        join(split_nl(s), seq!['\n']) == s,
    decreases s.len(),
{
    if s.len() > 0 {
        lemma_join_split_nl(s.drop_first());
        lemma_split_nl_len(s.drop_first());
        let rest = split_nl(s.drop_first());
        if s[0] == '\n' {
            lemma_join_cons(Seq::<char>::empty(), rest, seq!['\n']);
        } else {
            lemma_join_update_first(seq![s[0]], rest, seq!['\n']);
        }
        assert(s =~= seq![s[0]] + s.drop_first());
    }
}

/// No piece of a text without `'\r'` holds one.
pub proof fn lemma_split_nl_no_cr(s: Seq<char>)
    requires
        forall|i: int| 0 <= i < s.len() ==> s[i] != '\r',
    ensures
        forall|k: int, i: int|
            0 <= k < split_nl(s).len() && 0 <= i < split_nl(s)[k].len() ==> #[trigger] split_nl(s)[k][i]
                != '\r',
    decreases s.len(),
{
    if s.len() > 0 {
        lemma_split_nl_no_cr(s.drop_first());
        lemma_split_nl_len(s.drop_first());
        let rest = split_nl(s.drop_first());
        if s[0] != '\n' {
            assert forall|k: int, i: int|
                0 <= k < split_nl(s).len() && 0 <= i < split_nl(s)[k].len() implies #[trigger] split_nl(
                s,
            )[k][i] != '\r' by {
                if k == 0 && i > 0 {
                    assert(split_nl(s)[0][i] == rest[0][i - 1]);
                }
            }
        }
    }
}

/// The last piece of a non-empty text that does not end with a newline
/// is not empty.
proof fn lemma_split_nl_last_nonempty(s: Seq<char>)
    requires
        s.len() > 0,
        s.last() != '\n',
    ensures
        split_nl(s).last().len() > 0,
    decreases s.len(),
{
    lemma_split_nl_len(s.drop_first());
    if s.len() > 1 {
        assert(s.drop_first().last() == s.last());
        lemma_split_nl_last_nonempty(s.drop_first());
    }
}

/// A buffer made from a text without carriage returns that does not end
/// with a newline gives that text back as its content.
pub proof fn content_of_new_buffer(s: Seq<char>)
    requires
        forall|i: int| 0 <= i < s.len() ==> s[i] != '\r',
        s.len() == 0 || s.last() != '\n',
    ensures
        join(new_lines(s), seq!['\n']) == s,
{
    if s.len() > 0 {
        let p = split_nl(s);
        lemma_join_split_nl(s);
        lemma_split_nl_no_cr(s);
        lemma_split_nl_last_nonempty(s);
        lemma_split_nl_len(s);
        let ended = p.drop_last().map_values(|l: Seq<char>| strip_cr(l));
        assert forall|k: int| 0 <= k < ended.len() implies ended[k] == p[k] by {
            if p[k].len() > 0 {
                assert(p[k][p[k].len() - 1] != '\r');
            }
        }
        assert(lines_of(s) =~= p);
    }
}

} // verus!
