use rust_md_editor::editor::{
    file_title, find_next, find_prev, line_at, replace_all, text_stats, FindOutcome, ReplaceOutcome,
};

fn replaced(source: &str, query: &str, replacement: &str) -> Option<(String, usize)> {
    match replace_all(source, query, replacement) {
        ReplaceOutcome::Replaced { text, count } => Some((text, count)),
        _ => None,
    }
}

#[test]
fn find_reports_the_line_of_the_first_match() {
    assert_eq!(find_next("Hello\nWorld\nworld", "WORLD", 0), FindOutcome::Found { pos: 6, line: 2 });
    assert_eq!(find_next("abc", "B", 0), FindOutcome::Found { pos: 1, line: 1 });
    assert_eq!(find_next("a\n\n\nxyz", "z", 0), FindOutcome::Found { pos: 6, line: 4 });
}

#[test]
fn find_with_an_empty_query() {
    assert_eq!(find_next("abc", "", 0), FindOutcome::EmptyQuery);
}

#[test]
fn find_without_a_match() {
    assert_eq!(find_next("abc", "abcd", 0), FindOutcome::NotFound);
    assert_eq!(find_next("", "a", 0), FindOutcome::NotFound);
}

#[test]
fn find_when_lower_casing_changes_lengths() {
    assert_eq!(find_next("İİ\nx", "x", 0), FindOutcome::Found { pos: 3, line: 2 });
    assert_eq!(find_next("İ", "i", 0), FindOutcome::NotFound);
    assert_eq!(find_next("aİb", "İB", 0), FindOutcome::Found { pos: 1, line: 1 });
}

#[test]
fn replace_is_case_insensitive_and_counts() {
    assert_eq!(replaced("Foo foo FOO", "foo", "bar"), Some(("bar bar bar".to_string(), 3)));
    assert_eq!(replaced("aXbxc", "x", "--"), Some(("a--b--c".to_string(), 2)));
}

#[test]
fn replace_does_not_rescan_inserted_text() {
    assert_eq!(replaced("aaa", "a", "aa"), Some(("aaaaaa".to_string(), 3)));
    assert_eq!(replaced("aaaa", "aa", "b"), Some(("bb".to_string(), 2)));
}

#[test]
fn replace_with_multibyte_text() {
    assert_eq!(replaced("héllo wörld", "Ö", "o"), Some(("héllo world".to_string(), 1)));
    assert_eq!(replaced("世界世界", "界", ""), Some(("世世".to_string(), 2)));
}

#[test]
fn replace_without_match_keeps_the_text() {
    assert_eq!(replaced("abc", "z", "y"), Some(("abc".to_string(), 0)));
    assert_eq!(replaced("", "z", "y"), Some((String::new(), 0)));
}

#[test]
fn replace_with_an_empty_query_does_nothing() {
    assert!(matches!(replace_all("abc", "", "x"), ReplaceOutcome::NothingToFind));
}

#[test]
fn replace_when_lower_casing_changes_lengths() {
    assert_eq!(replaced("İx", "x", "y"), Some(("İy".to_string(), 1)));
    assert_eq!(replaced("İab", "a", "z"), Some(("İzb".to_string(), 1)));
    assert_eq!(replaced("xİİx", "i̇", "-"), Some(("xİİx".to_string(), 0)));
    assert_eq!(replaced("ΣAΣ", "σa", "_"), Some(("_Σ".to_string(), 1)));
}

#[test]
fn find_and_replace_agree_on_no_match() {
    for (s, q) in [("abc", "d"), ("abc", "B"), ("", "q"), ("Mixed Case", "case")] {
        let none = find_next(s, q, 0) == FindOutcome::NotFound;
        let unchanged = replaced(s, q, "#") == Some((s.to_string(), 0));
        assert_eq!(none, unchanged);
    }
}

#[test]
fn line_numbers_count_newlines_before() {
    let cs: Vec<char> = "a\nb\nc".chars().collect();
    assert_eq!(line_at(&cs, 0), 1);
    assert_eq!(line_at(&cs, 1), 1);
    assert_eq!(line_at(&cs, 2), 2);
    assert_eq!(line_at(&cs, 4), 3);
}

#[test]
fn stats_count_characters_and_lines() {
    assert_eq!(text_stats("héllo\nworld\n"), (12, 2));
    assert_eq!(text_stats(""), (0, 1));
    assert_eq!(text_stats("a\r\nb"), (4, 2));
    assert_eq!(text_stats("\n\n"), (2, 2));
}

#[test]
fn titles() {
    assert_eq!(file_title(Some("notes.md"), true), "notes.md * — rust-md-editor");
    assert_eq!(file_title(Some("notes.md"), false), "notes.md — rust-md-editor");
    assert_eq!(file_title(None, false), "untitled.md — rust-md-editor");
    assert_eq!(file_title(None, true), "untitled.md * — rust-md-editor");
}

fn pos(r: FindOutcome) -> Option<(usize, usize)> {
    match r {
        FindOutcome::Found { pos, line } => Some((pos, line)),
        _ => None,
    }
}

#[test]
fn find_next_cycles_through_the_matches() {
    let text = "x\nab X\nx";
    assert_eq!(pos(find_next(text, "x", 0)), Some((0, 1)));
    assert_eq!(pos(find_next(text, "x", 1)), Some((5, 2)));
    assert_eq!(pos(find_next(text, "x", 6)), Some((7, 3)));
    assert_eq!(pos(find_next(text, "x", 8)), Some((0, 1)));
    assert_eq!(pos(find_next(text, "x", 100)), Some((0, 1)));
}

#[test]
fn find_prev_cycles_backwards() {
    let text = "x\nab X\nx";
    assert_eq!(pos(find_prev(text, "x", 7)), Some((5, 2)));
    assert_eq!(pos(find_prev(text, "x", 5)), Some((0, 1)));
    assert_eq!(pos(find_prev(text, "x", 0)), Some((7, 3)));
    assert_eq!(pos(find_prev(text, "x", 100)), Some((7, 3)));
    assert_eq!(find_prev(text, "y", 3), FindOutcome::NotFound);
    assert_eq!(find_prev(text, "", 3), FindOutcome::EmptyQuery);
    assert_eq!(find_prev("ab", "abc", 1), FindOutcome::NotFound);
}

#[test]
fn previous_undoes_next() {
    let text = "aa-AA-aa";
    let mut at = 0;
    for _ in 0..5 {
        let (next, _) = pos(find_next(text, "aa", at + 1)).unwrap();
        if next > at {
            assert_eq!(pos(find_prev(text, "aa", next)).map(|p| p.0), Some(at));
        }
        at = next;
    }
}
