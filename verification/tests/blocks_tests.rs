use rust_md_editor::blocks::{all_whitespace_from, is_incomplete, run_length, split_into_blocks};
use rust_md_editor::text::{string_of, ws_prefix};

fn blocks(md: &str) -> Vec<String> {
    split_into_blocks(md)
}

#[test]
fn empty_document_is_one_empty_block() {
    assert_eq!(blocks(""), vec![String::new()]);
    assert_eq!(blocks("\n\n   \n"), vec![String::new()]);
}

#[test]
fn blank_lines_separate_blocks() {
    assert_eq!(
        blocks("# Title\n\npara one\npara two\n"),
        vec!["# Title\n".to_string(), "para one\npara two\n".to_string()]
    );
}

#[test]
fn whitespace_only_line_is_a_separator() {
    assert_eq!(blocks("a\n   \nb"), vec!["a\n".to_string(), "b\n".to_string()]);
}

#[test]
fn last_line_gets_a_newline() {
    assert_eq!(blocks("only"), vec!["only\n".to_string()]);
}

#[test]
fn fence_keeps_blank_lines_in_one_block() {
    assert_eq!(
        blocks("```rust\nfn a() {}\n\nlet x = 1;\n```\nafter\n"),
        vec!["```rust\nfn a() {}\n\nlet x = 1;\n```\n".to_string(), "after\n".to_string()]
    );
}

#[test]
fn fence_opening_ends_nothing_before_it() {
    assert_eq!(blocks("intro\n```\ncode\n```\n"), vec!["intro\n```\ncode\n```\n".to_string()]);
}

#[test]
fn shorter_or_other_fence_does_not_close() {
    assert_eq!(
        blocks("~~~~\nx\n~~~\n```\n\ny\n~~~~\nz\n"),
        vec!["~~~~\nx\n~~~\n```\n\ny\n~~~~\n".to_string(), "z\n".to_string()]
    );
}

#[test]
fn closing_fence_with_trailing_text_does_not_close() {
    assert_eq!(blocks("```\na\n``` x\n\nb\n"), vec!["```\na\n``` x\n\nb\n".to_string()]);
}

#[test]
fn unclosed_fence_is_kept_as_a_block() {
    assert_eq!(blocks("```\ncode\n\nmore"), vec!["```\ncode\n\nmore\n".to_string()]);
}

#[test]
fn crlf_lines_are_split() {
    assert_eq!(blocks("a\r\n\r\nb\r\n"), vec!["a\n".to_string(), "b\n".to_string()]);
}

#[test]
fn every_block_ends_with_a_newline() {
    for md in ["a\nb\n\nc", "```\nx", "# h\n\n\n- a\n- b", "\n\nz"] {
        for b in blocks(md) {
            assert!(b.ends_with('\n'), "{:?} in {:?}", b, md);
        }
    }
}

#[test]
fn incomplete_fences() {
    assert!(is_incomplete("```\ncode\n"));
    assert!(!is_incomplete("```\ncode\n```\n"));
    assert!(is_incomplete("````\nx\n```\n"));
    assert!(!is_incomplete("~~~\nx\n~~~~\n"));
    assert!(!is_incomplete(""));
    assert!(is_incomplete("  ~~~\n"));
    assert!(!is_incomplete("plain `code` text\n"));
}

#[test]
fn only_the_opening_fence_character_closes() {
    assert!(!is_incomplete("```\n~~~\n```\n"));
    assert!(is_incomplete("```\n~~~\n"));
    assert!(is_incomplete("~~~\n```\n"));
    assert!(is_incomplete("```\ncode\n``` x\n"));
}

#[test]
fn incomplete_counts_a_longer_closing_fence_as_closing() {
    assert!(!is_incomplete("```\na\n`````\n"));
    assert!(is_incomplete("```\na\n```\n```\n"));
}

#[test]
fn run_length_counts_leading_copies() {
    let cs: Vec<char> = "``a``".chars().collect();
    assert_eq!(run_length(&cs, 0, '`'), 2);
    assert_eq!(run_length(&cs, 2, '`'), 0);
    assert_eq!(run_length(&cs, 3, '`'), 2);
    assert_eq!(run_length(&cs, 5, '`'), 0);
}

#[test]
fn whitespace_from() {
    let cs: Vec<char> = "ab \t\u{3000}".chars().collect();
    assert!(all_whitespace_from(&cs, 2));
    assert!(!all_whitespace_from(&cs, 1));
    assert!(all_whitespace_from(&cs, 5));
}

#[test]
fn text_helpers() {
    let cs: Vec<char> = "  \u{a0}héllo".chars().collect();
    assert_eq!(ws_prefix(&cs), 3);
    assert_eq!(string_of(&cs, 3, 6), "hél");
    assert_eq!(string_of(&cs, 2, 2), "");
}

#[test]
fn text_after_a_blank_line_keeps_earlier_blocks() {
    for (a, b) in [("a\nb", "c"), ("# t\n\nx", "y\nz\n"), ("p\n", "q")] {
        let whole = format!("{a}\n\n{b}");
        let mut expected = blocks(a);
        expected.extend(blocks(b));
        assert_eq!(blocks(&whole), expected);
    }
}
