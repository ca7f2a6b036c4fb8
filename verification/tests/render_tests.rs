use rust_md_editor::highlight::Highlighter;
use rust_md_editor::markdown::{render_block, render_events, MdEvent, MdTag};
use rust_md_editor::preview::PreviewCache;
use rust_md_editor::style::{Color, Line, Style};
use rust_md_editor::table::{flush_table, pad_cell};

fn plain() -> Style {
    Style { fg: None, bold: false, italic: false }
}

fn fg(c: Color) -> Style {
    Style { fg: Some(c), bold: false, italic: false }
}

fn fg_bold(c: Color) -> Style {
    Style { fg: Some(c), bold: true, italic: false }
}

fn spans(lines: &[Line]) -> Vec<Vec<(String, Style)>> {
    lines
        .iter()
        .map(|l| l.spans.iter().map(|s| (s.content.clone(), s.style)).collect())
        .collect()
}

fn text_of(line: &Line) -> String {
    line.spans.iter().map(|s| s.content.as_str()).collect()
}

#[test]
fn heading_is_one_bold_span_in_its_colour() {
    let hl = Highlighter::new();
    assert_eq!(
        spans(&render_block("# Hi *there*\n", &hl)),
        vec![vec![("Hi there".to_string(), fg_bold(Color::Magenta))]]
    );
    assert_eq!(
        spans(&render_block("### Three\n", &hl)),
        vec![vec![("Three".to_string(), fg_bold(Color::Cyan))]]
    );
    assert_eq!(
        spans(&render_block("##### Five\n", &hl)),
        vec![vec![("Five".to_string(), fg_bold(Color::Gray))]]
    );
}

#[test]
fn paragraph_is_followed_by_an_empty_line() {
    let hl = Highlighter::new();
    assert_eq!(
        spans(&render_block("para `code`\nnext\n", &hl)),
        vec![
            vec![("para ".to_string(), plain()), ("code".to_string(), fg(Color::Yellow))],
            vec![("next".to_string(), plain())],
            vec![],
        ]
    );
}

#[test]
fn list_items_are_bulleted() {
    let hl = Highlighter::new();
    assert_eq!(
        spans(&render_block("- a\n- b\n", &hl)),
        vec![
            vec![("• ".to_string(), fg(Color::Cyan)), ("a".to_string(), plain())],
            vec![("• ".to_string(), fg(Color::Cyan)), ("b".to_string(), plain())],
        ]
    );
}

#[test]
fn nested_list_items_are_indented() {
    let hl = Highlighter::new();
    let events = vec![
        MdEvent::Start(MdTag::List),
        MdEvent::Start(MdTag::Item),
        MdEvent::Text("a".to_string()),
        MdEvent::End(MdTag::Item),
        MdEvent::Start(MdTag::List),
        MdEvent::Start(MdTag::Item),
        MdEvent::Text("b".to_string()),
        MdEvent::End(MdTag::Item),
        MdEvent::End(MdTag::List),
        MdEvent::End(MdTag::List),
    ];
    assert_eq!(
        spans(&render_events(&events, "", &hl)),
        vec![
            vec![("• ".to_string(), fg(Color::Cyan)), ("a".to_string(), plain())],
            vec![("  • ".to_string(), fg(Color::Cyan)), ("b".to_string(), plain())],
        ]
    );
}

#[test]
fn quote_is_marked() {
    let hl = Highlighter::new();
    assert_eq!(
        spans(&render_block("> hi\n", &hl)),
        vec![
            vec![("│ ".to_string(), fg(Color::Green)), ("hi".to_string(), plain())],
            vec![],
            vec![],
        ]
    );
}

#[test]
fn rule_is_forty_lines() {
    let hl = Highlighter::new();
    assert_eq!(spans(&render_block("***\n", &hl)), vec![vec![("─".repeat(40), fg(Color::DarkGray))]]);
}

#[test]
fn table_rows_are_framed_and_padded() {
    // The parser gives the header's cells outside any row, so only the
    // body rows are drawn.
    let hl = Highlighter::new();
    assert_eq!(
        spans(&render_block("| a | bb |\n|---|---|\n| 1 | 2222 |\n", &hl)),
        vec![vec![("│ 1   │ 2222 │".to_string(), plain())], vec![]]
    );
}

#[test]
fn fenced_code_is_highlighted_between_header_and_footer() {
    let hl = Highlighter::new();
    let lines = render_block("```rust\nfn main() {}\nlet x = 1;\n```\n", &hl);
    assert_eq!(lines.len(), 4);
    assert_eq!(spans(&lines[0..1]), vec![vec![("┌─ rust ".to_string(), fg(Color::DarkGray))]]);
    assert_eq!(text_of(&lines[1]), "fn main() {}\n");
    assert_eq!(text_of(&lines[2]), "let x = 1;\n");
    assert!(lines[1].spans.iter().all(|s| matches!(s.style.fg, Some(Color::Rgb(_, _, _)))));
    assert_eq!(spans(&lines[3..4]), vec![vec![("└─".to_string(), fg(Color::DarkGray))]]);
}

#[test]
fn unclosed_fence_ends_with_the_streaming_marker() {
    let hl = Highlighter::new();
    let lines = render_block("```\ncode\n", &hl);
    assert_eq!(spans(&lines[0..1]), vec![vec![("┌─ txt ".to_string(), fg(Color::DarkGray))]]);
    let last = lines.last().unwrap();
    assert_eq!(
        spans(std::slice::from_ref(last)),
        vec![vec![(
            " ⋯ (streaming…)".to_string(),
            Style { fg: Some(Color::DarkGray), bold: false, italic: true }
        )]]
    );
}

#[test]
fn empty_block_renders_one_empty_line() {
    let hl = Highlighter::new();
    assert_eq!(spans(&render_block("", &hl)), vec![Vec::<(String, Style)>::new()]);
}

#[test]
fn rendering_from_events() {
    let hl = Highlighter::new();
    let events = vec![
        MdEvent::Start(MdTag::Heading(2)),
        MdEvent::Text("A".to_string()),
        MdEvent::Code("b".to_string()),
        MdEvent::End(MdTag::Heading(2)),
        MdEvent::Text("tail".to_string()),
        MdEvent::Break,
        MdEvent::Text("more".to_string()),
    ];
    assert_eq!(
        spans(&render_events(&events, "", &hl)),
        vec![
            vec![("Ab".to_string(), fg_bold(Color::Blue))],
            vec![("tail".to_string(), plain())],
            vec![("more".to_string(), plain())],
        ]
    );
}

#[test]
fn preview_reuses_unchanged_blocks() {
    let hl = Highlighter::new();
    let mut cache = PreviewCache::new();
    let doc = "# A\n\nbody\n\n```\ncode\n```\n";
    assert_eq!(cache.update(doc, &hl), (0, 3));
    let first: Vec<String> = cache.all_lines().iter().map(text_of).collect();
    assert_eq!(cache.update(doc, &hl), (3, 0));
    let second: Vec<String> = cache.all_lines().iter().map(text_of).collect();
    assert_eq!(first, second);
    assert_eq!(cache.update("# A\n\nchanged\n\n```\ncode\n```\n", &hl), (2, 1));
    assert_eq!(cache.blocks()[1].source, "changed\n");
    assert_eq!(cache.update("", &hl), (0, 1));
    assert_eq!(cache.blocks().len(), 1);
}

#[test]
fn preview_blocks_carry_ids_and_open_fences() {
    let hl = Highlighter::new();
    let mut cache = PreviewCache::new();
    cache.update("text\n\n```\nopen\n", &hl);
    let blocks = cache.blocks();
    assert_eq!(blocks.len(), 2);
    assert!(!blocks[0].incomplete);
    assert!(blocks[1].incomplete);
    assert_eq!(blocks[0].id, rust_md_editor::hashing::hash_str("text\n"));
    assert_eq!(blocks[1].id.len(), 12);
}

#[test]
fn all_lines_concatenates_blocks() {
    let hl = Highlighter::new();
    let mut cache = PreviewCache::new();
    cache.update("# A\n\n# B\n", &hl);
    let texts: Vec<String> = cache.all_lines().iter().map(text_of).collect();
    assert_eq!(texts, vec!["A".to_string(), "B".to_string()]);
}

#[test]
fn pad_cell_pads_to_display_width() {
    assert_eq!(pad_cell("ab", 4), "ab  ");
    assert_eq!(pad_cell("abcd", 2), "abcd");
    assert_eq!(pad_cell("中", 3), "中 ");
    assert_eq!(pad_cell("", 0), "");
}

#[test]
fn flush_table_fills_missing_cells() {
    let rows = vec![vec!["a".to_string(), "bb".to_string()], vec!["1".to_string()]];
    let mut lines = Vec::new();
    flush_table(&rows, 1, &mut lines);
    assert_eq!(
        spans(&lines),
        vec![
            vec![("│ a   │ bb  │".to_string(), fg_bold(Color::Cyan))],
            vec![("├─────┼─────┤".to_string(), fg(Color::DarkGray))],
            vec![("│ 1   │     │".to_string(), plain())],
            vec![],
        ]
    );
}

#[test]
fn flush_table_without_cells_adds_nothing() {
    let mut lines = Vec::new();
    flush_table(&Vec::new(), 0, &mut lines);
    flush_table(&vec![Vec::new()], 1, &mut lines);
    assert!(lines.is_empty());
}

#[test]
fn flush_table_uses_display_width() {
    let rows = vec![vec!["中文字".to_string()]];
    let mut lines = Vec::new();
    flush_table(&rows, 0, &mut lines);
    assert_eq!(spans(&lines), vec![vec![("│ 中文字 │".to_string(), plain())], vec![]]);
}
