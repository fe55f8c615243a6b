use nyado::legacy::{legacy_todos, migrate_old_todos, parse_legacy_line, parse_u64, split_chars, text_lines, LegacySource};
use nyado::todo::Todo;

fn chars(s: &str) -> Vec<char> {
    s.chars().collect()
}

#[test]
fn legacy_line_with_all_fields() {
    let t = parse_legacy_line("P|x|work|Write report|100|200|300", 9).unwrap();
    assert_eq!(t.id, 9);
    assert!(t.pinned);
    assert!(t.done);
    assert_eq!(t.tag, "work");
    assert_eq!(t.text, "Write report");
    assert_eq!(t.created_at, 100);
    assert_eq!(t.done_at, 200);
    assert_eq!(t.due_date, 300);
    assert_eq!(t.depth, 0);
    assert_eq!(t.parent_id, None);
}

#[test]
fn legacy_line_none_tag_and_bad_numbers() {
    let t = parse_legacy_line(" | |none|text|abc|-5", 1).unwrap();
    assert!(!t.pinned);
    assert!(!t.done);
    assert_eq!(t.tag, "");
    assert_eq!(t.created_at, 0);
    assert_eq!(t.done_at, 0);
    assert_eq!(t.due_date, 0);
}

#[test]
fn legacy_line_too_short() {
    assert!(parse_legacy_line("P|x|tag|text|1", 1).is_none());
    assert!(Todo::from_line_legacy("").is_none());
}

#[test]
fn from_line_legacy_gives_fresh_id() {
    let t = Todo::from_line_legacy("|x|t|hello|5|6").unwrap();
    assert_eq!(t.text, "hello");
    assert!(t.done);
}

#[test]
fn parse_u64_like_std() {
    assert_eq!(parse_u64(&chars("42")), Some(42));
    assert_eq!(parse_u64(&chars("+7")), Some(7));
    assert_eq!(parse_u64(&chars("18446744073709551615")), Some(u64::MAX));
    assert_eq!(parse_u64(&chars("18446744073709551616")), None);
    assert_eq!(parse_u64(&chars("")), None);
    assert_eq!(parse_u64(&chars("+")), None);
    assert_eq!(parse_u64(&chars("-1")), None);
    assert_eq!(parse_u64(&chars("1a")), None);
}

#[test]
fn split_keeps_empty_pieces() {
    let parts: Vec<String> = split_chars(&chars("a||b|"), '|').into_iter().map(|v| v.into_iter().collect()).collect();
    assert_eq!(parts, vec!["a", "", "b", ""]);
}

#[test]
fn text_lines_like_std_lines() {
    for s in ["", "a", "a\n", "a\r\nb", "a\n\nb\n", "x\r", "\n"] {
        let expect: Vec<String> = s.lines().map(|l| l.to_string()).collect();
        assert_eq!(text_lines(s), expect, "text {:?}", s);
    }
}

#[test]
fn legacy_file_keeps_task_lines_in_order() {
    let todos = legacy_todos("P||a|first|1|0\nnot a task\n|x||second|2|3|4\n");
    assert_eq!(todos.len(), 2);
    assert_eq!(todos[0].text, "first");
    assert!(todos[0].pinned);
    assert_eq!(todos[1].text, "second");
    assert_eq!(todos[1].due_date, 4);
}

#[test]
fn migration_source_choice() {
    assert_eq!(migrate_old_todos(true, true, true), None);
    assert_eq!(migrate_old_todos(true, true, false), Some(LegacySource::TodoList));
    assert_eq!(migrate_old_todos(false, true, false), Some(LegacySource::DefaultProject));
    assert_eq!(migrate_old_todos(false, false, false), None);
}
