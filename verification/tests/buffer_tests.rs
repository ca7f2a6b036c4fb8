use rust_md_editor::buffer::{cursor_line, split_at_boundary, Buffer};
use rust_md_editor::style::{Color, Span, Style};

fn lines_of(b: &Buffer) -> Vec<String> {
    b.lines().clone()
}

#[test]
fn new_empty_buffer_has_one_empty_line() {
    let b = Buffer::new("");
    assert_eq!(lines_of(&b), vec![String::new()]);
    assert_eq!((b.cursor_row(), b.cursor_col(), b.scroll()), (0, 0, 0));
    assert_eq!(b.content(), "");
}

#[test]
fn new_splits_lines_and_content_joins_them() {
    let b = Buffer::new("ab\ncd");
    assert_eq!(lines_of(&b), vec!["ab".to_string(), "cd".to_string()]);
    assert_eq!(b.content(), "ab\ncd");
}

#[test]
fn new_drops_carriage_returns_and_the_final_newline() {
    let b = Buffer::new("a\r\nb\n");
    assert_eq!(lines_of(&b), vec!["a".to_string(), "b".to_string()]);
    assert_eq!(b.content(), "a\nb");
}

#[test]
fn content_round_trips_plain_text() {
    for s in ["x", "one\ntwo\n\nthree", "héllo\n世界", "\nlead"] {
        assert_eq!(Buffer::new(s).content(), s);
    }
}

#[test]
fn insert_char_moves_past_it() {
    let mut b = Buffer::new("bc");
    b.insert_char('a');
    assert_eq!(b.content(), "abc");
    assert_eq!(b.cursor_col(), 1);
    b.insert_char('é');
    assert_eq!(b.content(), "aébc");
    assert_eq!(b.cursor_col(), 3);
}

#[test]
fn backspace_undoes_typing() {
    let mut b = Buffer::new("héllo");
    b.move_right();
    b.move_right();
    let before = (lines_of(&b), b.cursor_row(), b.cursor_col());
    b.insert_char('世');
    assert_eq!(b.content(), "hé世llo");
    b.backspace();
    assert_eq!((lines_of(&b), b.cursor_row(), b.cursor_col()), before);
}

#[test]
fn newline_splits_and_backspace_joins() {
    let mut b = Buffer::new("abcd\nz");
    b.move_right();
    b.move_right();
    b.insert_newline();
    assert_eq!(lines_of(&b), vec!["ab".to_string(), "cd".to_string(), "z".to_string()]);
    assert_eq!((b.cursor_row(), b.cursor_col()), (1, 0));
    b.backspace();
    assert_eq!(lines_of(&b), vec!["abcd".to_string(), "z".to_string()]);
    assert_eq!((b.cursor_row(), b.cursor_col()), (0, 2));
}

#[test]
fn backspace_at_start_does_nothing() {
    let mut b = Buffer::new("ab");
    b.backspace();
    assert_eq!(b.content(), "ab");
    assert_eq!((b.cursor_row(), b.cursor_col()), (0, 0));
}

#[test]
fn backspace_removes_a_whole_multibyte_char() {
    let mut b = Buffer::new("a世");
    b.move_right();
    b.move_right();
    assert_eq!(b.cursor_col(), 4);
    b.backspace();
    assert_eq!(b.content(), "a");
    assert_eq!(b.cursor_col(), 1);
}

#[test]
fn moving_over_characters_and_lines() {
    let mut b = Buffer::new("aé\nx");
    b.move_right();
    assert_eq!(b.cursor_col(), 1);
    b.move_right();
    assert_eq!(b.cursor_col(), 3);
    b.move_right();
    assert_eq!((b.cursor_row(), b.cursor_col()), (1, 0));
    b.move_left();
    assert_eq!((b.cursor_row(), b.cursor_col()), (0, 3));
    b.move_left();
    assert_eq!(b.cursor_col(), 1);
    b.move_left();
    b.move_left();
    assert_eq!((b.cursor_row(), b.cursor_col()), (0, 0));
}

#[test]
fn moving_right_at_the_end_does_nothing() {
    let mut b = Buffer::new("a");
    b.move_right();
    b.move_right();
    assert_eq!((b.cursor_row(), b.cursor_col()), (0, 1));
}

#[test]
fn right_then_left_returns() {
    let mut b = Buffer::new("日本\nab");
    for _ in 0..3 {
        let at = (b.cursor_row(), b.cursor_col());
        b.move_right();
        b.move_left();
        assert_eq!((b.cursor_row(), b.cursor_col()), at);
        b.move_right();
    }
}

#[test]
fn up_and_down_clamp_the_column() {
    let mut b = Buffer::new("long line\nab\nlonger line");
    for _ in 0..6 {
        b.move_right();
    }
    b.move_down();
    assert_eq!((b.cursor_row(), b.cursor_col()), (1, 2));
    b.move_down();
    assert_eq!((b.cursor_row(), b.cursor_col()), (2, 2));
    b.move_down();
    assert_eq!((b.cursor_row(), b.cursor_col()), (2, 2));
    b.move_up();
    b.move_up();
    b.move_up();
    assert_eq!((b.cursor_row(), b.cursor_col()), (0, 2));
}

#[test]
fn ensure_visible_scrolls_to_the_cursor() {
    let text: Vec<String> = (0..10).map(|i| i.to_string()).collect();
    let mut b = Buffer::new(&text.join("\n"));
    for _ in 0..7 {
        b.move_down();
    }
    b.ensure_visible(3);
    assert_eq!(b.scroll(), 5);
    b.ensure_visible(0);
    assert_eq!(b.scroll(), 5);
    for _ in 0..5 {
        b.move_up();
    }
    b.ensure_visible(3);
    assert_eq!(b.scroll(), 2);
}

#[test]
fn scroll_by_stays_in_range() {
    let text: Vec<String> = (0..10).map(|i| i.to_string()).collect();
    let mut b = Buffer::new(&text.join("\n"));
    b.scroll_by(4, 3);
    assert_eq!(b.scroll(), 4);
    b.scroll_by(100, 3);
    assert_eq!(b.scroll(), 7);
    b.scroll_by(-2, 3);
    assert_eq!(b.scroll(), 5);
    b.scroll_by(-100, 3);
    assert_eq!(b.scroll(), 0);
    b.scroll_by(5, 20);
    assert_eq!(b.scroll(), 0);
}

#[test]
fn split_at_boundary_moves_back_to_a_boundary() {
    assert_eq!(split_at_boundary("héllo", 2), ("h", "éllo"));
    assert_eq!(split_at_boundary("héllo", 3), ("hé", "llo"));
    assert_eq!(split_at_boundary("héllo", 100), ("héllo", ""));
    assert_eq!(split_at_boundary("héllo", 0), ("", "héllo"));
    assert_eq!(split_at_boundary("", 5), ("", ""));
    assert_eq!(split_at_boundary("世", 2), ("", "世"));
}

fn mark() -> (String, Style) {
    ("│".to_string(), Style::fg_bold(Color::Yellow))
}

fn drawn(spans: &[(&str, Style)], cursor: usize) -> Vec<(String, Style)> {
    let v: Vec<Span> = spans.iter().map(|(t, st)| Span::styled(t.to_string(), *st)).collect();
    cursor_line(&v, cursor).iter().map(|s| (s.content.clone(), s.style)).collect()
}

#[test]
fn cursor_is_drawn_inside_the_span_it_reaches() {
    let y = Style::fg(Color::Yellow);
    let p = Style::plain();
    let line = [("ab", p), ("cd", y)];
    assert_eq!(drawn(&line, 3), vec![("ab".to_string(), p), ("c".to_string(), y), mark(), ("d".to_string(), y)]);
    assert_eq!(drawn(&line, 2), vec![("ab".to_string(), p), mark(), ("cd".to_string(), y)]);
    assert_eq!(drawn(&line, 0), vec![mark(), ("ab".to_string(), p), ("cd".to_string(), y)]);
}

#[test]
fn cursor_past_the_end_comes_last() {
    let p = Style::plain();
    assert_eq!(drawn(&[("ab", p)], 10), vec![("ab".to_string(), p), mark()]);
    assert_eq!(drawn(&[], 0), vec![mark()]);
}

#[test]
fn cursor_inside_a_character_moves_before_it() {
    let p = Style::plain();
    assert_eq!(drawn(&[("xé", p)], 2), vec![("x".to_string(), p), mark(), ("é".to_string(), p)]);
}

#[test]
fn left_then_right_returns() {
    let mut b = Buffer::new("ab\n日本");
    b.move_down();
    b.move_right();
    b.move_right();
    for _ in 0..4 {
        let at = (b.cursor_row(), b.cursor_col());
        b.move_left();
        b.move_right();
        assert_eq!((b.cursor_row(), b.cursor_col()), at);
        b.move_left();
    }
    assert_eq!((b.cursor_row(), b.cursor_col()), (0, 1));
}
