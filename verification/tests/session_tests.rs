use rust_md_editor::editor::ReplaceOutcome;
use rust_md_editor::highlight::Highlighter;
use rust_md_editor::session::Session;

const DOC: &str = "# Title\n\nSome *text*.\n\n- a\n- b\n";

#[test]
fn a_new_session_is_saved_and_rendered() {
    let hl = Highlighter::new();
    let s = Session::new(DOC.to_string(), &hl);
    assert_eq!(s.source, DOC);
    assert!(!s.dirty && !s.need_refresh && !s.quit_confirm);
    assert_eq!((s.last_reuse, s.last_render), (0, 3));
    assert_eq!(s.preview.blocks().len(), 3);
}

#[test]
fn refreshing_unchanged_text_reuses_every_block() {
    let hl = Highlighter::new();
    let mut s = Session::new(DOC.to_string(), &hl);
    let before: Vec<String> = s.preview.blocks().iter().map(|b| b.id.clone()).collect();
    assert_eq!(s.refresh(&hl), (3, 0));
    let after: Vec<String> = s.preview.blocks().iter().map(|b| b.id.clone()).collect();
    assert_eq!(before, after);
}

#[test]
fn editing_one_block_renders_only_that_block() {
    let hl = Highlighter::new();
    let mut s = Session::new(DOC.to_string(), &hl);
    s.source = DOC.replace("Some", "More");
    s.mark_edited();
    assert!(s.dirty && s.need_refresh);
    assert_eq!(s.refresh(&hl), (2, 1));
    assert!(!s.need_refresh);
    assert_eq!((s.last_reuse, s.last_render), (2, 1));
}

#[test]
fn refresh_waits_for_the_debounce() {
    let hl = Highlighter::new();
    let mut s = Session::new(String::new(), &hl);
    assert!(!s.refresh_due(1_000_000_000));
    s.mark_edited();
    assert!(!s.refresh_due(100_000_000));
    assert!(!s.refresh_due(120_000_000));
    assert!(s.refresh_due(120_000_001));
}

#[test]
fn quitting_with_unsaved_changes_asks_first() {
    let hl = Highlighter::new();
    let mut s = Session::new("x".to_string(), &hl);
    assert!(s.request_quit());
    s.mark_edited();
    assert!(!s.request_quit());
    assert!(s.quit_confirm);
    assert!(s.request_quit());
}

#[test]
fn an_edit_cancels_a_pending_quit() {
    let hl = Highlighter::new();
    let mut s = Session::new("x".to_string(), &hl);
    s.mark_edited();
    assert!(!s.request_quit());
    s.mark_edited();
    assert!(!s.quit_confirm);
    assert!(!s.request_quit());
}

#[test]
fn saving_clears_the_unsaved_mark() {
    let hl = Highlighter::new();
    let mut s = Session::new("x".to_string(), &hl);
    s.mark_edited();
    s.request_quit();
    s.mark_saved();
    assert!(!s.dirty && !s.quit_confirm);
    assert!(s.request_quit());
}

#[test]
fn loading_replaces_the_document() {
    let hl = Highlighter::new();
    let mut s = Session::new("x".to_string(), &hl);
    s.mark_edited();
    s.load("new text".to_string());
    assert_eq!(s.source, "new text");
    assert!(!s.dirty && s.need_refresh && !s.quit_confirm);
}

#[test]
fn replace_all_updates_the_document() {
    let hl = Highlighter::new();
    let mut s = Session::new("Cat cat".to_string(), &hl);
    match s.replace_all("CAT", "dog") {
        ReplaceOutcome::Replaced { text, count } => {
            assert_eq!(text, "dog dog");
            assert_eq!(count, 2);
        }
        other => panic!("unexpected {:?}", other),
    }
    assert_eq!(s.source, "dog dog");
    assert!(s.dirty && s.need_refresh);
}

#[test]
fn replace_all_with_nothing_to_find_leaves_the_session() {
    let hl = Highlighter::new();
    let mut s = Session::new("Cat".to_string(), &hl);
    assert!(matches!(s.replace_all("", "dog"), ReplaceOutcome::NothingToFind));
    assert_eq!(s.source, "Cat");
    assert!(!s.dirty && !s.need_refresh);
}

#[test]
fn replace_all_without_a_match_still_marks_the_document_edited() {
    let hl = Highlighter::new();
    let mut s = Session::new("Cat".to_string(), &hl);
    match s.replace_all("x", "y") {
        ReplaceOutcome::Replaced { text, count } => assert_eq!((text.as_str(), count), ("Cat", 0)),
        other => panic!("unexpected {:?}", other),
    }
    assert!(s.dirty && s.need_refresh);
}

#[test]
fn replace_next_to_a_character_that_lower_cases_longer() {
    let hl = Highlighter::new();
    let mut s = Session::new("İx".to_string(), &hl);
    match s.replace_all("x", "y") {
        ReplaceOutcome::Replaced { text, count } => assert_eq!((text.as_str(), count), ("İy", 1)),
        other => panic!("unexpected {:?}", other),
    }
    assert_eq!(s.source, "İy");
    assert!(s.dirty);
}
