//! Table layout for the preview: cells padded to the display width of
//! their column and framed with box-drawing characters.

use vstd::prelude::*;
use vstd::string::*;
use unicode_width::UnicodeWidthStr;
use crate::style::{lines_view, span_view, Color, Line, Span, SpanView, Style};
use crate::text::{push_char, views};

verus! {

/// Display width of `s` in terminal columns (unicode-width).
pub uninterp spec fn display_width(s: Seq<char>) -> nat;

/// `UnicodeWidthStr::width`.
#[verifier::external_body]
pub(crate) fn str_width(s: &str) -> (w: usize)
    ensures
        w == display_width(s@),
{
    s.width()
}

/// `n` spaces.
pub open spec fn spaces(n: nat) -> Seq<char> {
    Seq::new(n, |i: int| ' ')
}

/// `n` horizontal box-drawing lines.
pub open spec fn dashes(n: nat) -> Seq<char> {
    Seq::new(n, |i: int| '─')
}

/// `s` padded with spaces on the right to display width `width`; text
/// already that wide is left as it is.
pub open spec fn pad(s: Seq<char>, width: nat) -> Seq<char> {
    if display_width(s) >= width {
        s
    } else {
        s + spaces((width - display_width(s)) as nat)
    }
}

/// `n` copies of `c` appended to `s`.
fn push_repeat(s: &mut String, c: char, n: usize)
    ensures
        final(s)@ == old(s)@ + Seq::new(n as nat, |i: int| c),
{
    let mut k: usize = 0;
    while k < n
        invariant
            k <= n,
            s@ == old(s)@ + Seq::new(k as nat, |i: int| c),
        decreases n - k,
    {
        push_char(s, c);
        assert(s@ =~= old(s)@ + Seq::new((k + 1) as nat, |i: int| c));
        k = k + 1;
    }
}

/// Pads `s` with spaces to display width `width`.
pub fn pad_cell(s: &str, width: usize) -> (r: String)
    ensures
        r@ == pad(s@, width as nat),
{
    let w = str_width(s);
    let mut r = s.to_owned();
    if w < width {
        push_repeat(&mut r, ' ', width - w);
    }
    r
}

/// The cell texts of a table, row by row.
pub open spec fn rows_view(rows: Seq<Vec<String>>) -> Seq<Seq<Seq<char>>> {
    rows.map_values(|r: Vec<String>| views(r@))
}

/// The largest number of cells in a row.
pub open spec fn max_len(rows: Seq<Seq<Seq<char>>>) -> nat
    decreases rows.len(),
{
    if rows.len() == 0 {
        0
    } else {
        let m = max_len(rows.drop_last());
        if rows.last().len() > m {
            rows.last().len()
        } else {
            m
        }
    }
}

/// Width of column `i`: at least 3, and at least the display width (at
/// least 1) of each of its cells.
pub open spec fn col_width(rows: Seq<Seq<Seq<char>>>, i: int) -> nat
    decreases rows.len(),
{
    if rows.len() == 0 {
        3
    } else {
        let w = col_width(rows.drop_last(), i);
        let r = rows.last();
        if 0 <= i < r.len() {
            let cw = if display_width(r[i]) >= 1 { display_width(r[i]) } else { 1 };
            if cw > w { cw } else { w }
        } else {
            w
        }
    }
}

/// The widths of all columns.
pub open spec fn widths_of(rows: Seq<Seq<Seq<char>>>) -> Seq<nat> {
    Seq::new(max_len(rows), |i: int| col_width(rows, i))
}

/// Cell `i` of `row`, empty where the row is short.
pub open spec fn cell(row: Seq<Seq<char>>, i: int) -> Seq<char> {
    if 0 <= i < row.len() {
        row[i]
    } else {
        Seq::empty()
    }
}

/// `parts` joined with `sep` in between.
pub open spec fn join(parts: Seq<Seq<char>>, sep: Seq<char>) -> Seq<char>
    decreases parts.len(),
{
    if parts.len() == 0 {
        Seq::empty()
    } else if parts.len() == 1 {
        parts[0]
    } else {
        join(parts.drop_last(), sep) + sep + parts.last()
    }
}

/// A framed row: `│ a │ b │`, each cell padded to its column's width.
pub open spec fn row_text(row: Seq<Seq<char>>, widths: Seq<nat>) -> Seq<char> {
    seq!['│', ' '] + join(
        Seq::new(widths.len(), |i: int| pad(cell(row, i), widths[i])),
        seq![' ', '│', ' '],
    ) + seq![' ', '│']
}

/// The rule under the header rows: `├─···─┼─···─┤`.
pub open spec fn rule_text(widths: Seq<nat>) -> Seq<char> {
    seq!['├', '─'] + join(Seq::new(widths.len(), |i: int| dashes(widths[i])), seq!['─', '┼', '─'])
        + seq!['─', '┤']
}

/// The lines of row `ri`: a header row is bold cyan and followed by the
/// rule in dark gray; another row is plain.
pub open spec fn row_lines(row: Seq<Seq<char>>, ri: int, header_rows: nat, widths: Seq<nat>) -> Seq<
    Seq<SpanView>,
> {
    if ri < header_rows {
        seq![
            seq![span_view(row_text(row, widths), Style::fg_bold_spec(Color::Cyan))],
            seq![span_view(rule_text(widths), Style::fg_spec(Color::DarkGray))],
        ]
    } else {
        seq![seq![span_view(row_text(row, widths), Style::plain_spec())]]
    }
}

/// The lines of the first `n` rows.
pub open spec fn rows_lines(rows: Seq<Seq<Seq<char>>>, n: int, header_rows: nat, widths: Seq<nat>) -> Seq<
    Seq<SpanView>,
>
    decreases n,
{
    if n <= 0 {
        Seq::empty()
    } else {
        rows_lines(rows, n - 1, header_rows, widths) + row_lines(rows[n - 1], n - 1, header_rows, widths)
    }
}

/// The lines of a table followed by an empty line; a table without rows
/// or without cells gives nothing.
pub open spec fn table_lines(rows: Seq<Seq<Seq<char>>>, header_rows: nat) -> Seq<Seq<SpanView>> {
    if rows.len() == 0 || max_len(rows) == 0 {
        Seq::empty()
    } else {
        rows_lines(rows, rows.len() as int, header_rows, widths_of(rows)) + seq![
            Seq::<SpanView>::empty(),
        ]
    }
}

/// The widths of the columns of `rows`.
fn column_widths(rows: &Vec<Vec<String>>) -> (widths: Vec<usize>)
    ensures
        widths@.len() == max_len(rows_view(rows@)),
        forall|i: int| 0 <= i < widths@.len() ==> widths@[i] == col_width(rows_view(rows@), i),
{
    let ghost rv = rows_view(rows@);
    let mut cols: usize = 0;
    let mut r: usize = 0;
    while r < rows.len()
        invariant
            r <= rows.len(),
            rv == rows_view(rows@),
            cols == max_len(rv.take(r as int)),
        decreases rows.len() - r,
    {
        assert(rv.take(r + 1).drop_last() =~= rv.take(r as int));
        if rows[r].len() > cols {
            cols = rows[r].len();
        }
        r = r + 1;
    }
    assert(rv.take(rows.len() as int) =~= rv);
    let mut widths: Vec<usize> = Vec::new();
    let mut k: usize = 0;
    while k < cols
        invariant
            k <= cols,
            widths@.len() == k,
            forall|i: int| 0 <= i < k ==> widths@[i] == 3,
        decreases cols - k,
    {
        widths.push(3);
        k = k + 1;
    }
    r = 0;
    while r < rows.len()
        invariant
            r <= rows.len(),
            rv == rows_view(rows@),
            cols == max_len(rv),
            widths@.len() == cols,
            forall|i: int| 0 <= i < cols ==> widths@[i] == col_width(rv.take(r as int), i),
        decreases rows.len() - r,
    {
        let row = &rows[r];
        proof {
            lemma_row_len_le_max(rv, r as int);
        }
        let mut i: usize = 0;
        while i < row.len()
            invariant
                r < rows.len(),
                row == rows@[r as int],
                i <= row.len() <= cols,
                rv == rows_view(rows@),
                widths@.len() == cols,
                forall|j: int| 0 <= j < cols ==> widths@[j] == (if j < i {
                    col_width(rv.take(r + 1), j)
                } else {
                    col_width(rv.take(r as int), j)
                }),
            decreases row.len() - i,
        {
            assert(rv.take(r + 1).drop_last() =~= rv.take(r as int));
            assert(rv.take(r + 1).last() == views(row@));
            let w = str_width(row[i].as_str());
            let cw = if w >= 1 { w } else { 1 };
            if cw > widths[i] {
                widths.set(i, cw);
            }
            i = i + 1;
        }
        assert forall|j: int| 0 <= j < cols implies widths@[j] == col_width(rv.take(r + 1), j) by {
            assert(rv.take(r + 1).drop_last() =~= rv.take(r as int));
            assert(rv.take(r + 1).last() == views(row@));
        }
        r = r + 1;
    }
    assert(rv.take(rows.len() as int) =~= rv);
    widths
}

proof fn lemma_row_len_le_max(rows: Seq<Seq<Seq<char>>>, r: int)
    requires
        0 <= r < rows.len(),
    ensures
        rows[r].len() <= max_len(rows),
    decreases rows.len(),
{
    if r < rows.len() - 1 {
        lemma_row_len_le_max(rows.drop_last(), r);
    }
}

/// The framed text of one row.
fn row_string(row: &Vec<String>, widths: &Vec<usize>) -> (s: String)
    ensures
        s@ == row_text(views(row@), widths@.map_values(|w: usize| w as nat)),
{
    let ghost ws = widths@.map_values(|w: usize| w as nat);
    let ghost cells = Seq::new(ws.len(), |i: int| pad(cell(views(row@), i), ws[i]));
    let mut s = String::new();
    push_char(&mut s, '│');
    push_char(&mut s, ' ');
    let mut i: usize = 0;
    while i < widths.len()
        invariant
            i <= widths.len(),
            ws == widths@.map_values(|w: usize| w as nat),
            cells == Seq::new(ws.len(), |i: int| pad(cell(views(row@), i), ws[i])),
            s@ == seq!['│', ' '] + join(cells.take(i as int), seq![' ', '│', ' ']),
        decreases widths.len() - i,
    {
        let ghost before = s@;
        if i > 0 {
            push_char(&mut s, ' ');
            push_char(&mut s, '│');
            push_char(&mut s, ' ');
        }
        let text = if i < row.len() { pad_cell(row[i].as_str(), widths[i]) } else { pad_cell("", widths[i]) };
        proof {
            if i >= row.len() {
                assert(""@ =~= Seq::<char>::empty()) by {
                    reveal_strlit("");
                }
            }
        }
        assert(text@ == cells[i as int]);
        s.append(text.as_str());
        assert(cells.take(i + 1).drop_last() =~= cells.take(i as int));
        if i == 0 {
            assert(join(cells.take(1), seq![' ', '│', ' ']) == cells.take(1)[0]);
        }
        assert(s@ =~= seq!['│', ' '] + join(cells.take(i + 1), seq![' ', '│', ' ']));
        i = i + 1;
    }
    assert(cells.take(widths.len() as int) =~= cells);
    push_char(&mut s, ' ');
    push_char(&mut s, '│');
    assert(s@ =~= row_text(views(row@), ws));
    s
}

/// The rule text under the header.
fn rule_string(widths: &Vec<usize>) -> (s: String)
    ensures
        s@ == rule_text(widths@.map_values(|w: usize| w as nat)),
{
    let ghost ws = widths@.map_values(|w: usize| w as nat);
    let ghost parts = Seq::new(ws.len(), |i: int| dashes(ws[i]));
    let mut s = String::new();
    push_char(&mut s, '├');
    push_char(&mut s, '─');
    let mut i: usize = 0;
    while i < widths.len()
        invariant
            i <= widths.len(),
            ws == widths@.map_values(|w: usize| w as nat),
            parts == Seq::new(ws.len(), |i: int| dashes(ws[i])),
            s@ == seq!['├', '─'] + join(parts.take(i as int), seq!['─', '┼', '─']),
        decreases widths.len() - i,
    {
        if i > 0 {
            push_char(&mut s, '─');
            push_char(&mut s, '┼');
            push_char(&mut s, '─');
        }
        let ghost mid = s@;
        push_repeat(&mut s, '─', widths[i]);
        assert(Seq::new(widths[i as int] as nat, |k: int| '─') =~= parts[i as int]);
        assert(parts.take(i + 1).drop_last() =~= parts.take(i as int));
        if i == 0 {
            assert(join(parts.take(1), seq!['─', '┼', '─']) == parts.take(1)[0]);
        }
        assert(s@ =~= seq!['├', '─'] + join(parts.take(i + 1), seq!['─', '┼', '─']));
        i = i + 1;
    }
    assert(parts.take(widths.len() as int) =~= parts);
    push_char(&mut s, '─');
    push_char(&mut s, '┤');
    assert(s@ =~= rule_text(ws));
    s
}

/// Appends the lines of a table to `lines`: each row framed and padded
/// to its columns' widths, the first `header_rows` rows bold cyan and
/// followed by a rule, then an empty line. A table without rows or
/// without cells adds nothing.
pub fn flush_table(rows: &Vec<Vec<String>>, header_rows: usize, lines: &mut Vec<Line>)
    ensures
        lines_view(final(lines)@) == lines_view(old(lines)@) + table_lines(
            rows_view(rows@),
            header_rows as nat,
        ),
{
    let ghost rv = rows_view(rows@);
    if rows.len() == 0 {
        assert(lines_view(lines@) =~= lines_view(lines@) + table_lines(rv, header_rows as nat));
        return ;
    }
    let widths = column_widths(rows);
    if widths.len() == 0 {
        assert(lines_view(lines@) =~= lines_view(lines@) + table_lines(rv, header_rows as nat));
        return ;
    }
    let ghost ws = widths@.map_values(|w: usize| w as nat);
    assert(ws =~= widths_of(rv));
    let ghost start = lines_view(lines@);
    let mut ri: usize = 0;
    while ri < rows.len()
        invariant
            ri <= rows.len(),
            rv == rows_view(rows@),
            ws == widths@.map_values(|w: usize| w as nat),
            lines_view(lines@) == start + rows_lines(rv, ri as int, header_rows as nat, ws),
        decreases rows.len() - ri,
    {
        let text = row_string(&rows[ri], &widths);
        let ghost before = lines_view(lines@);
        if ri < header_rows {
            lines.push(Line::from_span(Span::styled(text, Style::fg_bold(Color::Cyan))));
            let rule = rule_string(&widths);
            lines.push(Line::from_span(Span::styled(rule, Style::fg(Color::DarkGray))));
        } else {
            lines.push(Line::from_span(Span::raw(text)));
        }
        assert(lines_view(lines@) =~= before + row_lines(rv[ri as int], ri as int, header_rows as nat, ws));
        ri = ri + 1;
    }
    let ghost body = lines_view(lines@);
    lines.push(Line::empty());
    assert(lines_view(lines@) =~= body.push(Seq::<SpanView>::empty()));
    assert(rows_lines(rv, rows.len() as int, header_rows as nat, ws) == rows_lines(
        rv,
        rv.len() as int,
        header_rows as nat,
        widths_of(rv),
    ));
    assert(lines_view(lines@) =~= start + table_lines(rv, header_rows as nat));
}

/// Every row has at most as many cells as there are columns.
proof fn lemma_max_len(rows: Seq<Seq<Seq<char>>>, r: int)
    requires
        0 <= r < rows.len(),
    ensures
        rows[r].len() <= max_len(rows),
    decreases rows.len(),
{
    if r < rows.len() - 1 {
        lemma_max_len(rows.drop_last(), r);
    }
}

/// A column is at least 3 wide and at least as wide as each of its cells
/// (an empty cell counting as 1).
proof fn lemma_col_width(rows: Seq<Seq<Seq<char>>>, r: int, i: int)
    requires
        0 <= r < rows.len(),
        0 <= i < rows[r].len(),
    ensures
        col_width(rows, i) >= display_width(rows[r][i]),
        col_width(rows, i) >= 1,
    decreases rows.len(),
{
    lemma_col_width_min(rows, i);
    if r < rows.len() - 1 {
        lemma_col_width(rows.drop_last(), r, i);
    }
}

proof fn lemma_col_width_min(rows: Seq<Seq<Seq<char>>>, i: int)
    ensures
        col_width(rows, i) >= 3,
    decreases rows.len(),
{
    if rows.len() > 0 {
        lemma_col_width_min(rows.drop_last(), i);
    }
}

/// A column is exactly as wide as it must be: 3, or the width of one of
/// its cells.
proof fn lemma_col_width_tight(rows: Seq<Seq<Seq<char>>>, i: int)
    ensures
        col_width(rows, i) == 3 || exists|r: int|
            0 <= r < rows.len() && 0 <= i < rows[r].len() && col_width(rows, i) == #[trigger] display_width(
                rows[r][i],
            ),
    decreases rows.len(),
{
    if rows.len() > 0 {
        lemma_col_width_tight(rows.drop_last(), i);
        lemma_col_width_min(rows.drop_last(), i);
        let w = col_width(rows.drop_last(), i);
        if col_width(rows, i) == w {
            if w != 3 {
                let r = choose|r: int|
                    0 <= r < rows.drop_last().len() && 0 <= i < rows.drop_last()[r].len() && w
                        == #[trigger] display_width(rows.drop_last()[r][i]);
                assert(rows.drop_last()[r] == rows[r]);
            }
        } else {
            let k = rows.len() - 1;
            assert(rows[k] == rows.last());
            assert(col_width(rows, i) == display_width(rows[k][i]));
        }
    }
}

proof fn lemma_rows_lines_len(rows: Seq<Seq<Seq<char>>>, n: int, widths: Seq<nat>)
    requires
        0 <= n <= rows.len(),
    ensures
        rows_lines(rows, n, 0, widths).len() == n,
    decreases n,
{
    if n > 0 {
        lemma_rows_lines_len(rows, n - 1, widths);
        assert(row_lines(rows[n - 1], n - 1, 0, widths).len() == 1);
    }
}

/// The lines of the first `n` rows have one line per row (no header).
proof fn lemma_rows_lines_body(rows: Seq<Seq<Seq<char>>>, n: int, widths: Seq<nat>, r: int)
    requires
        0 <= r < n <= rows.len(),
    ensures
        rows_lines(rows, n, 0, widths).len() == n,
        rows_lines(rows, n, 0, widths)[r] == seq![span_view(row_text(rows[r], widths), Style::plain_spec())],
    decreases n,
{
    lemma_rows_lines_len(rows, n, widths);
    lemma_rows_lines_len(rows, n - 1, widths);
    assert(row_lines(rows[n - 1], n - 1, 0, widths) == seq![
        seq![span_view(row_text(rows[n - 1], widths), Style::plain_spec())],
    ]);
    if r < n - 1 {
        lemma_rows_lines_body(rows, n - 1, widths, r);
    }
}

/// Tables are aligned: every row of a table is drawn with the same column
/// widths, every cell of every row has a column, and each column is as
/// wide as the widest of its cells (at least 1), or 3 when that is wider.
pub proof fn table_columns_fit_every_cell(rows: Seq<Seq<Seq<char>>>, r: int, i: int)
    requires
        0 <= r < rows.len(),
        0 <= i < rows[r].len(),
    ensures
        i < widths_of(rows).len(),
        widths_of(rows)[i] >= display_width(rows[r][i]),
        widths_of(rows)[i] >= 3,
        widths_of(rows)[i] == 3 || exists|k: int|
            0 <= k < rows.len() && 0 <= i < rows[k].len() && widths_of(rows)[i] == #[trigger] display_width(
                rows[k][i],
            ),
        table_lines(rows, 0).len() == rows.len() + 1,
        table_lines(rows, 0)[r] == seq![span_view(row_text(rows[r], widths_of(rows)), Style::plain_spec())],
{
    lemma_max_len(rows, r);
    lemma_col_width(rows, r, i);
    lemma_col_width_min(rows, i);
    lemma_col_width_tight(rows, i);
    lemma_rows_lines_body(rows, rows.len() as int, widths_of(rows), r);
}

} // verus!
