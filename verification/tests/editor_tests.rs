use nyado::commands::Key;
use nyado::editor::{
    confirms, line_popup_width, readonly_size, text_popup_widths, EditOutcome, LineEditor, PopupReadonlyLayout, ProjectAction,
    ProjectPicker, TextEditor,
};

#[test]
fn line_editor_inserts_and_deletes_at_cursor() {
    let mut e = LineEditor::new("ac", 16);
    assert_eq!(e.cursor, 2);
    assert_eq!(e.handle_key(Key::Left), EditOutcome::Editing);
    assert_eq!(e.handle_key(Key::Char('b')), EditOutcome::Editing);
    assert_eq!(e.text(), "abc");
    assert_eq!(e.cursor, 2);
    e.handle_key(Key::Backspace);
    assert_eq!(e.text(), "ac");
    assert_eq!(e.cursor, 1);
    e.handle_key(Key::Right);
    e.handle_key(Key::Right);
    assert_eq!(e.cursor, 2);
    assert_eq!(e.handle_key(Key::Enter), EditOutcome::Submitted);
    assert_eq!(e.handle_key(Key::Esc), EditOutcome::Cancelled);
}

#[test]
fn line_editor_respects_length_limit() {
    let mut e = LineEditor::new("", 2);
    e.handle_key(Key::Char('a'));
    e.handle_key(Key::Char('b'));
    e.handle_key(Key::Char('c'));
    assert_eq!(e.text(), "ab");
}

#[test]
fn line_editor_view_scrolls_to_cursor() {
    let mut e = LineEditor::new("abcdefghij", 16);
    let (shown, col) = e.view(4);
    assert_eq!(e.scroll, 7);
    assert_eq!(shown, "hij");
    assert_eq!(col, 3);
    e.handle_key(Key::Left);
    e.handle_key(Key::Left);
    e.handle_key(Key::Left);
    e.handle_key(Key::Left);
    e.handle_key(Key::Left);
    e.handle_key(Key::Left);
    e.handle_key(Key::Left);
    e.handle_key(Key::Left);
    let (shown, col) = e.view(4);
    assert_eq!(e.scroll, 2);
    assert_eq!(shown, "cde…");
    assert_eq!(col, 0);
}

#[test]
fn text_editor_moves_between_lines() {
    let mut e = TextEditor::new("abcdef", 256);
    assert_eq!(e.pos, 6);
    e.handle_key(Key::Up, 3, 5);
    assert_eq!(e.pos, 3);
    e.handle_key(Key::Up, 3, 5);
    assert_eq!(e.pos, 3);
    e.handle_key(Key::Home, 3, 5);
    assert_eq!(e.pos, 0);
    e.handle_key(Key::Down, 3, 5);
    assert_eq!(e.pos, 3);
    e.handle_key(Key::End, 3, 5);
    assert_eq!(e.pos, 6);
    e.handle_key(Key::Home, 3, 5);
    assert_eq!(e.pos, 0);
    e.handle_key(Key::Delete, 3, 5);
    assert_eq!(e.result(), Some("bcdef".to_string()));
}

#[test]
fn text_editor_empty_result_is_none() {
    let mut e = TextEditor::new("a", 256);
    e.handle_key(Key::Backspace, 10, 5);
    assert_eq!(e.result(), None);
    assert_eq!(e.handle_key(Key::Enter, 10, 5), EditOutcome::Submitted);
}

#[test]
fn text_editor_follow_scrolls() {
    let mut e = TextEditor::new("aaaaaaaaaa", 256);
    let (lines, row, col) = e.follow(2, 3);
    assert_eq!(lines.len(), 5);
    assert_eq!((row, col), (4, 2));
    assert_eq!(e.scroll, 2);
}

#[test]
fn popup_widths() {
    assert_eq!(line_popup_width(100, 30), Some(66));
    assert_eq!(line_popup_width(100, 8), None);
    assert_eq!(line_popup_width(4, 30), None);
    assert_eq!(text_popup_widths(100, 30, 60), Some((66, 60)));
    assert_eq!(text_popup_widths(30, 30, 60), Some((20, 20)));
    assert_eq!(text_popup_widths(100, 13, 60), None);
}

#[test]
fn readonly_sizes() {
    assert_eq!(readonly_size("", "", &PopupReadonlyLayout::SingleColumn), None);
    assert_eq!(readonly_size("ab\ncdef", "", &PopupReadonlyLayout::SingleColumn), Some((10, 8)));
    assert_eq!(readonly_size("ab\ncdef", "hint line", &PopupReadonlyLayout::SingleColumn), Some((15, 9)));
    assert_eq!(readonly_size("a\nb\nc", "", &PopupReadonlyLayout::TwoColumns), Some((12, 7)));
}

fn names(v: &[&str]) -> Vec<String> {
    v.iter().map(|s| s.to_string()).collect()
}

#[test]
fn picker_moves_in_two_columns() {
    let projects = names(&["a", "b", "c", "default", "e"]);
    let mut p = ProjectPicker::new();
    assert!(p.handle_key(Key::Right, &projects, "a", 5).is_none());
    assert_eq!(p.selected, 1);
    assert!(p.handle_key(Key::Right, &projects, "a", 5).is_none());
    assert_eq!(p.selected, 1);
    p.handle_key(Key::Down, &projects, "a", 5);
    assert_eq!(p.selected, 3);
    p.handle_key(Key::Down, &projects, "a", 5);
    assert_eq!(p.selected, 3);
    p.handle_key(Key::Left, &projects, "a", 5);
    assert_eq!(p.selected, 2);
    p.handle_key(Key::Down, &projects, "a", 5);
    assert_eq!(p.selected, 4);
    p.handle_key(Key::PageUp, &projects, "a", 5);
    assert_eq!(p.selected, 0);
    p.handle_key(Key::PageDown, &projects, "a", 5);
    assert_eq!(p.selected, 4);
    p.handle_key(Key::Home, &projects, "a", 5);
    assert_eq!(p.selected, 0);
    p.handle_key(Key::End, &projects, "a", 5);
    assert_eq!(p.selected, 4);
}

#[test]
fn picker_answers() {
    let projects = names(&["a", "default"]);
    let mut p = ProjectPicker::new();
    assert!(matches!(p.handle_key(Key::Enter, &projects, "a", 5), Some(ProjectAction::NoAction)));
    assert!(matches!(p.handle_key(Key::Char('r'), &projects, "x", 5), Some(ProjectAction::Rename(n)) if n == "a"));
    assert!(matches!(p.handle_key(Key::Enter, &projects, "x", 5), Some(ProjectAction::Switch(n)) if n == "a"));
    assert!(matches!(p.handle_key(Key::Char('с'), &projects, "x", 5), Some(ProjectAction::Create)));
    p.handle_key(Key::Right, &projects, "x", 5);
    assert!(p.handle_key(Key::Char('d'), &projects, "x", 5).is_none());
    assert!(matches!(p.handle_key(Key::Esc, &projects, "x", 5), Some(ProjectAction::NoAction)));
}

#[test]
fn picker_layout_scrolls() {
    let mut p = ProjectPicker::new();
    p.selected = 9;
    assert_eq!(p.layout(10, 80, 8), Some(2));
    assert_eq!(p.scroll, 3);
    assert_eq!(p.layout(10, 10, 40), None);
}

#[test]
fn only_y_confirms() {
    assert!(confirms("y"));
    assert!(confirms("Y"));
    assert!(!confirms("yes"));
    assert!(!confirms(""));
    assert!(!confirms("n"));
}
