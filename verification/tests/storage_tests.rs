use nyado::storage::{Storage, StorageError};
use nyado::todo::Todo;

fn storage_with(todos: Vec<Todo>) -> Storage {
    let mut s = Storage::new("/tmp/projects".to_string());
    s.todos = todos;
    s
}

#[test]
fn new_storage_is_empty_default_project() {
    let s = Storage::new("dir".to_string());
    assert!(s.todos.is_empty());
    assert_eq!(s.current_project, "default");
    assert!(s.dirty_tags);
    assert_eq!(s.get_stats(), (0, 0, 0, 0));
}

#[test]
fn add_task_and_subtask() {
    let mut s = Storage::new("dir".to_string());
    s.add_task_at("parent", "work", 1, 10, 100);
    assert_eq!(s.todos.len(), 1);
    assert_eq!(s.add_subtask_at(1, "child", "", 2, 2, 11, 100), Ok(()));
    assert_eq!(s.todos[0].children.len(), 1);
    let child = &s.todos[0].children[0];
    assert_eq!(child.depth, 1);
    assert_eq!(child.parent_id, Some(1));
    assert_eq!(child.tag, "work");
    assert_eq!(s.get_stats(), (2, 0, 2, 0));
}

#[test]
fn add_subtask_errors() {
    let mut s = Storage::new("dir".to_string());
    s.add_task_at("parent", "", 1, 10, 100);
    assert_eq!(s.add_subtask_at(99, "x", "", 2, 2, 11, 100), Err(StorageError::ParentNotFound));
    assert_eq!(s.add_subtask_at(1, "x", "", 0, 2, 11, 100), Err(StorageError::MaxDepthReached));
    assert_eq!(s.todos[0].children.len(), 0);
}

#[test]
fn toggle_marks_subtree_done() {
    let mut parent = Todo::with_id("p", "", 1, 1);
    parent.children.push(Todo::with_id("c", "", 2, 2));
    let mut s = storage_with(vec![parent]);
    assert_eq!(s.toggle_task_at(1, 500), Ok(()));
    assert!(s.todos[0].done);
    assert!(s.todos[0].children[0].done);
    assert_eq!(s.todos[0].done_at, 500);
    assert_eq!(s.toggle_task_at(1, 600), Ok(()));
    assert!(!s.todos[0].done);
    assert!(!s.todos[0].children[0].done);
    assert_eq!(s.toggle_task_at(42, 600), Err(StorageError::TaskNotFound));
}

#[test]
fn pin_unpin_and_due_date() {
    let mut s = storage_with(vec![Todo::with_id("a", "", 1, 1), Todo::with_id("b", "", 2, 2)]);
    assert_eq!(s.pin_task(1), Ok(()));
    assert!(s.get_todo(1).unwrap().pinned);
    assert_eq!(s.todos[0].id, 1);
    assert_eq!(s.unpin_task(1), Ok(()));
    assert!(!s.get_todo(1).unwrap().pinned);
    assert_eq!(s.set_due_date(2, 12345), Ok(()));
    assert_eq!(s.get_todo(2).unwrap().due_date, 12345);
    assert_eq!(s.pin_task(9), Err(StorageError::TaskNotFound));
}

#[test]
fn set_tag_marks_tags_stale() {
    let mut s = storage_with(vec![Todo::with_id("a", "", 1, 1)]);
    s.dirty_tags = false;
    assert_eq!(s.set_tag(1, "home"), Ok(()));
    assert!(s.dirty_tags);
    assert_eq!(s.get_todo(1).unwrap().tag, "home");
}

#[test]
fn remove_top_level_and_nested() {
    let mut parent = Todo::with_id("p", "", 1, 1);
    parent.children.push(Todo::with_id("c", "", 2, 2));
    let mut s = storage_with(vec![parent, Todo::with_id("q", "", 3, 3)]);
    assert_eq!(s.remove_task_at(2, 10), Ok(()));
    assert!(s.todos[0].children.is_empty());
    assert_eq!(s.remove_task_at(3, 10), Ok(()));
    assert_eq!(s.todos.len(), 1);
    assert_eq!(s.remove_task_at(3, 10), Err(StorageError::TaskNotFound));
}

#[test]
fn rebuild_tags_orders_by_count() {
    let mut s = storage_with(vec![
        Todo::with_id("a", "home", 1, 1),
        Todo::with_id("b", "work", 2, 2),
        Todo::with_id("c", "work", 3, 3),
        Todo::with_id("d", "", 4, 4),
    ]);
    s.rebuild_tags();
    assert!(!s.dirty_tags);
    assert_eq!(s.tags_available, vec![("work".to_string(), 2), ("home".to_string(), 1)]);
}

#[test]
fn rebuild_tags_does_nothing_when_fresh() {
    let mut s = storage_with(vec![Todo::with_id("a", "home", 1, 1)]);
    s.dirty_tags = false;
    s.rebuild_tags();
    assert!(s.tags_available.is_empty());
}

#[test]
fn toggle_expand_twice_restores() {
    let mut s = Storage::new("dir".to_string());
    assert!(!s.is_expanded(7));
    s.toggle_expand(7);
    assert!(s.is_expanded(7));
    s.toggle_expand(7);
    assert!(!s.is_expanded(7));
}

#[test]
fn visible_rows_follow_expansion_filter_and_search() {
    let mut parent = Todo::with_id("Buy Milk", "home", 1, 1);
    let mut child = Todo::with_id("skim", "home", 2, 2);
    child.depth = 1;
    parent.children.push(child);
    let mut s = storage_with(vec![parent, Todo::with_id("report", "work", 3, 3)]);
    assert_eq!(s.build_visible_with_offset("", ""), vec![(1, 0), (3, 0)]);
    s.toggle_expand(1);
    assert_eq!(s.build_visible_with_offset("", ""), vec![(1, 0), (2, 4), (3, 0)]);
    assert_eq!(s.build_visible_with_offset("work", ""), vec![(3, 0)]);
    assert_eq!(s.build_visible_with_offset("", "MILK"), vec![(1, 0)]);
}

#[test]
fn flat_listing_numbers_from_one() {
    let mut parent = Todo::with_id("p", "a", 1, 1);
    let mut c = Todo::with_id("c", "b", 2, 2);
    c.done = true;
    parent.children.push(c);
    let s = storage_with(vec![parent, Todo::with_id("q", "a", 3, 3)]);
    let all: Vec<(usize, u64)> = s.list_tasks_flat(None, None, None).iter().map(|(i, t)| (*i, t.id)).collect();
    assert_eq!(all, vec![(1, 1), (2, 2), (3, 3)]);
    let done: Vec<(usize, u64)> = s.list_tasks_flat(Some(true), None, None).iter().map(|(i, t)| (*i, t.id)).collect();
    assert_eq!(done, vec![(1, 2)]);
    let tagged: Vec<(usize, u64)> = s.list_tasks_flat(None, None, Some("a")).iter().map(|(i, t)| (*i, t.id)).collect();
    assert_eq!(tagged, vec![(1, 1), (2, 3)]);
}

#[test]
fn set_text_reports_found() {
    let mut s = storage_with(vec![Todo::with_id("a", "", 1, 1)]);
    assert!(s.set_text(1, "b"));
    assert_eq!(s.todos[0].text, "b");
    assert!(!s.set_text(5, "c"));
}

#[test]
fn sort_tags_by_count_keeps_all() {
    let v = vec![("a".to_string(), 1), ("b".to_string(), 3), ("c".to_string(), 2)];
    let r = nyado::storage::sort_tags_by_count(v);
    assert_eq!(r.iter().map(|(_, n)| *n).collect::<Vec<_>>(), vec![3, 2, 1]);
}

#[test]
fn find_mut_reaches_nested_task() {
    let mut s = Storage::new("dir".to_string());
    s.add_task_at("parent", "", 1, 10, 100);
    assert_eq!(s.add_subtask_at(1, "child", "", 2, 2, 11, 100), Ok(()));
    match s.find_mut(2) {
        Some(t) => t.text = "renamed".to_string(),
        None => panic!("task 2 should be found"),
    }
    assert_eq!(s.todos[0].children[0].text, "renamed");
    assert!(s.find_mut(42).is_none());
    assert_eq!(s.todos[0].text, "parent");
}

#[test]
fn toggle_twice_gives_back_done_state() {
    let mut done_child = Todo::with_id("c", "", 3, 3);
    done_child.done = true;
    done_child.done_at = 50;
    let mut parent = Todo::with_id("p", "", 1, 1);
    parent.children.push(Todo::with_id("b", "", 2, 2));
    parent.children.push(done_child);
    let mut s = storage_with(vec![parent, Todo::with_id("q", "", 4, 4)]);
    let (total, _, _, _) = s.get_stats();
    assert_eq!(s.toggle_task_at(3, 100), Ok(()));
    assert!(!s.get_todo(3).unwrap().done);
    assert_eq!(s.toggle_task_at(3, 200), Ok(()));
    assert!(s.get_todo(3).unwrap().done);
    assert_eq!(s.get_stats().0, total);
}

#[test]
fn removing_a_task_takes_its_subtree() {
    let mut mid = Todo::with_id("m", "", 2, 2);
    mid.children.push(Todo::with_id("leaf", "", 5, 5));
    let mut parent = Todo::with_id("p", "", 1, 1);
    parent.children.push(mid);
    let mut s = storage_with(vec![parent, Todo::with_id("q", "", 3, 3)]);
    assert_eq!(s.get_stats().0, 4);
    assert_eq!(s.remove_task_at(2, 10), Ok(()));
    assert!(s.get_todo(2).is_none());
    assert!(s.get_todo(5).is_none());
    assert_eq!(s.get_stats().0, 2);
}

#[test]
fn toggle_pin_flips_and_reports() {
    let mut s = storage_with(vec![Todo::with_id("a", "", 1, 1)]);
    assert_eq!(s.toggle_pin(1), Ok(true));
    assert!(s.get_todo(1).unwrap().pinned);
    assert_eq!(s.toggle_pin(1), Ok(false));
    assert!(!s.get_todo(1).unwrap().pinned);
    assert_eq!(s.toggle_pin(7), Err(StorageError::TaskNotFound));
}

#[test]
fn room_and_delete_all() {
    let mut s = storage_with(vec![Todo::with_id("a", "", 1, 1), Todo::with_id("b", "", 2, 2)]);
    assert!(s.has_room(3));
    assert!(!s.has_room(2));
    s.toggle_expand(1);
    s.delete_all();
    assert!(s.todos.is_empty());
    assert!(s.expanded.is_empty());
    assert!(s.dirty_tags);
    assert!(s.has_room(1));
}

#[test]
fn pin_then_unpin_gives_back_the_task() {
    let mut parent = Todo::with_id("p", "work", 1, 1);
    parent.children.push(Todo::with_id("c", "", 2, 2));
    let mut s = storage_with(vec![parent, Todo::with_id("q", "", 3, 3)]);
    let b = s.get_todo(2).unwrap();
    let (text, pinned, parent_id, depth) = (b.text.clone(), b.pinned, b.parent_id, b.depth);
    assert_eq!(s.pin_task(2), Ok(()));
    assert!(s.get_todo(2).unwrap().pinned);
    assert_eq!(s.unpin_task(2), Ok(()));
    let after = s.get_todo(2).unwrap();
    assert_eq!(after.text, text);
    assert_eq!(after.pinned, pinned);
    assert_eq!(after.parent_id, parent_id);
    assert_eq!(after.depth, depth);
    assert_eq!(s.get_stats(), (3, 0, 3, 0));
}

#[test]
fn clearing_filters_keeps_tasks() {
    let mut s = storage_with(vec![Todo::with_id("a", "x", 1, 1)]);
    s.search = "a".to_string();
    s.filter_tag = "x".to_string();
    s.clear_filters();
    assert!(s.search.is_empty());
    assert!(s.filter_tag.is_empty());
    assert_eq!(s.todos.len(), 1);
}
