use rust_md_editor::hashing::hash_str;
use rust_md_editor::highlight::{highlight_inline, syn_to_style, Highlighter};
use rust_md_editor::style::{copy_lines, copy_spans, Color, Line, Span, Style};

fn plain() -> Style {
    Style::plain()
}

fn pairs(spans: &[Span]) -> Vec<(String, Style)> {
    spans.iter().map(|s| (s.content.clone(), s.style)).collect()
}

#[test]
fn inline_code_and_strong_are_coloured() {
    assert_eq!(
        pairs(&highlight_inline("a `b` **c** d")),
        vec![
            ("a ".to_string(), plain()),
            ("`b`".to_string(), Style::fg(Color::Yellow)),
            (" ".to_string(), plain()),
            ("**c**".to_string(), Style::fg_bold(Color::White)),
            (" d".to_string(), plain()),
        ]
    );
}

#[test]
fn empty_line_is_one_empty_span() {
    assert_eq!(pairs(&highlight_inline("")), vec![(String::new(), plain())]);
}

#[test]
fn unclosed_markers_stay_plain_text() {
    assert_eq!(pairs(&highlight_inline("x `y")), vec![("x `y".to_string(), plain())]);
    assert_eq!(pairs(&highlight_inline("**bold")), vec![("**bold".to_string(), plain())]);
    assert_eq!(pairs(&highlight_inline("ab**")), vec![("ab**".to_string(), plain())]);
    assert_eq!(
        pairs(&highlight_inline("`a` `b")),
        vec![("`a`".to_string(), Style::fg(Color::Yellow)), (" `b".to_string(), plain())]
    );
    assert_eq!(
        pairs(&highlight_inline("***a**")),
        vec![("***a**".to_string(), Style::fg_bold(Color::White))]
    );
}

#[test]
fn colouring_keeps_the_text() {
    let hl = Highlighter::new();
    for line in ["a `b` **c** d", "x `y", "**bold", "", "# h `x`", "  - item **", "`` ``` **`**"] {
        let inline: String = highlight_inline(line).iter().map(|s| s.content.as_str()).collect();
        assert_eq!(inline, line);
        let source: String = hl.highlight_source_line(line).iter().map(|s| s.content.as_str()).collect();
        assert_eq!(source, line);
    }
}

#[test]
fn a_lone_star_is_plain() {
    assert_eq!(pairs(&highlight_inline("a*b*")), vec![("a*b*".to_string(), plain())]);
}

#[test]
fn source_lines_by_kind() {
    let hl = Highlighter::new();
    assert_eq!(
        pairs(&hl.highlight_source_line("## H")),
        vec![("## H".to_string(), Style::fg_bold(Color::Blue))]
    );
    assert_eq!(
        pairs(&hl.highlight_source_line("   # x")),
        vec![("   # x".to_string(), Style::fg_bold(Color::Magenta))]
    );
    assert_eq!(
        pairs(&hl.highlight_source_line("#### four")),
        vec![("#### four".to_string(), Style::fg_bold(Color::Gray))]
    );
    assert_eq!(
        pairs(&hl.highlight_source_line("```rust")),
        vec![("```rust".to_string(), Style::fg(Color::Yellow))]
    );
    assert_eq!(
        pairs(&hl.highlight_source_line("~~~")),
        vec![("~~~".to_string(), Style::fg(Color::Yellow))]
    );
    assert_eq!(
        pairs(&hl.highlight_source_line("> q")),
        vec![("> q".to_string(), Style::fg(Color::Green))]
    );
    for item in ["- item", "* item", "+ item"] {
        assert_eq!(pairs(&hl.highlight_source_line(item)), vec![(item.to_string(), Style::fg(Color::Cyan))]);
    }
    assert_eq!(
        pairs(&hl.highlight_source_line("-no space `c`")),
        vec![("-no space ".to_string(), plain()), ("`c`".to_string(), Style::fg(Color::Yellow))]
    );
}

#[test]
fn syntect_style_conversion() {
    assert_eq!(
        syn_to_style(1, 2, 3, 5),
        Style { fg: Some(Color::Rgb(1, 2, 3)), bold: true, italic: true }
    );
    assert_eq!(
        syn_to_style(9, 8, 7, 2),
        Style { fg: Some(Color::Rgb(9, 8, 7)), bold: false, italic: false }
    );
}

#[test]
fn code_is_highlighted_line_by_line() {
    let hl = Highlighter::new();
    let lines = hl.highlight_code("let x = 1;\nx\n", "rust");
    assert_eq!(lines.len(), 2);
    let first: String = lines[0].spans.iter().map(|s| s.content.as_str()).collect();
    assert_eq!(first, "let x = 1;\n");
    assert!(lines[0].spans.len() > 1);
    let by_ext = hl.highlight_code("let x = 1;\n", "rs");
    assert_eq!(pairs(&by_ext[0].spans), pairs(&lines[0].spans));
}

#[test]
fn highlighted_lines_hold_the_code() {
    let hl = Highlighter::new();
    let code = "fn a() {}\n\nlet b = \"x\";";
    let lines = hl.highlight_code(code, "rust");
    let texts: Vec<String> =
        lines.iter().map(|l| l.spans.iter().map(|s| s.content.as_str()).collect()).collect();
    assert_eq!(texts, vec!["fn a() {}\n".to_string(), "\n".to_string(), "let b = \"x\";".to_string()]);
    assert!(lines.iter().all(|l| l.spans.iter().all(|s| matches!(s.style.fg, Some(Color::Rgb(..))))));
}

#[test]
fn empty_code_is_one_empty_line() {
    let hl = Highlighter::new();
    let lines = hl.highlight_code("", "rust");
    assert_eq!(lines.len(), 1);
    assert!(lines[0].spans.is_empty());
}

#[test]
fn unknown_language_is_plain_text() {
    let hl = Highlighter::new();
    let lines = hl.highlight_code("a b\n", "no-such-language");
    assert_eq!(lines.len(), 1);
    let text: String = lines[0].spans.iter().map(|s| s.content.as_str()).collect();
    assert_eq!(text, "a b\n");
}

#[test]
fn ids_are_the_start_of_the_sha256() {
    assert_eq!(hash_str(""), "e3b0c44298fc");
    assert_eq!(hash_str("abc"), "ba7816bf8f01");
    assert_eq!(hash_str("abc").len(), 12);
    assert_ne!(hash_str("a"), hash_str("b"));
}

#[test]
fn copies_keep_the_content() {
    let spans = vec![Span::raw("x".to_string()), Span::styled("y".to_string(), Style::fg(Color::Red))];
    assert_eq!(pairs(&copy_spans(&spans)), pairs(&spans));
    let lines = vec![Line::from_spans(spans), Line::empty(), Line::from_span(Span::raw("z".to_string()))];
    let copied = copy_lines(&lines);
    assert_eq!(copied.len(), 3);
    assert_eq!(pairs(&copied[0].spans), pairs(&lines[0].spans));
    assert!(copied[1].spans.is_empty());
    assert_eq!(pairs(&copied[2].duplicate().spans), vec![("z".to_string(), plain())]);
}
