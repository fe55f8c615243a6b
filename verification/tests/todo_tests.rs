use nyado::todo::{compare_tasks, sort_forest, Edit, Todo};

fn task(text: &str, id: u64, created_at: u64) -> Todo {
    Todo::with_id(text, "", id, created_at)
}

#[test]
fn new_task_is_pending_top_level() {
    let t = Todo::new("write report", "work");
    assert_eq!(t.text, "write report");
    assert_eq!(t.tag, "work");
    assert!(!t.done);
    assert!(!t.pinned);
    assert_eq!(t.depth, 0);
    assert_eq!(t.parent_id, None);
    assert_eq!(t.due_date, 0);
    assert!(t.children.is_empty());
}

#[test]
fn new_subtask_sits_one_level_below() {
    let s = Todo::new_subtask("step", "x", 42, 1);
    assert_eq!(s.parent_id, Some(42));
    assert_eq!(s.depth, 2);
}

#[test]
fn counts_include_subtasks() {
    let mut root = task("root", 1, 10);
    let mut a = task("a", 2, 11);
    a.done = true;
    let mut b = task("b", 3, 12);
    b.pinned = true;
    root.children.push(a);
    root.children.push(b);
    assert_eq!(root.total_count(), 3);
    assert_eq!(root.done_count(), 1);
    assert_eq!(root.pending_count(), 2);
    assert_eq!(root.pinned_count(), 1);
}

#[test]
fn pinned_done_task_is_not_counted_as_pinned() {
    let mut t = task("t", 1, 1);
    t.pinned = true;
    t.done = true;
    assert_eq!(t.pinned_count(), 0);
}

#[test]
fn find_reaches_nested_tasks() {
    let mut root = task("root", 1, 10);
    let mut child = task("child", 2, 11);
    child.children.push(task("grandchild", 3, 12));
    root.children.push(child);
    assert_eq!(root.find(3).map(|t| t.text.clone()), Some("grandchild".to_string()));
    assert!(root.find(99).is_none());
}

#[test]
fn compare_orders_pending_before_done() {
    let a = task("a", 1, 1);
    let mut b = task("b", 2, 2);
    b.done = true;
    assert_eq!(compare_tasks(&a, &b, 100), -1);
    assert_eq!(compare_tasks(&b, &a, 100), 1);
}

#[test]
fn sort_forest_puts_pinned_then_due_then_newest() {
    let mut pinned = task("pinned", 1, 1);
    pinned.pinned = true;
    let mut due = task("due", 2, 2);
    due.due_date = 500;
    let old = task("old", 3, 3);
    let newer = task("newer", 4, 4);
    let mut done = task("done", 5, 5);
    done.done = true;
    done.done_at = 50;
    let sorted = sort_forest(vec![done, old, newer, due, pinned], 100);
    let names: Vec<&str> = sorted.iter().map(|t| t.text.as_str()).collect();
    assert_eq!(names, vec!["pinned", "due", "newer", "old", "done"]);
}

#[test]
fn overdue_task_comes_before_later_due_one() {
    let mut late = task("late", 1, 1);
    late.due_date = 50;
    let mut soon = task("soon", 2, 2);
    soon.due_date = 200;
    let sorted = sort_forest(vec![soon, late], 100);
    assert_eq!(sorted[0].text, "late");
}

#[test]
fn done_tasks_latest_first() {
    let mut a = task("a", 1, 1);
    a.done = true;
    a.done_at = 10;
    let mut b = task("b", 2, 2);
    b.done = true;
    b.done_at = 20;
    let sorted = sort_forest(vec![a, b], 100);
    assert_eq!(sorted[0].text, "b");
}

#[test]
fn rebuild_depth_sets_levels() {
    let mut root = task("root", 1, 1);
    let mut child = task("child", 2, 2);
    child.depth = 7;
    child.children.push(task("g", 3, 3));
    root.children.push(child);
    root.rebuild_depth(0);
    assert_eq!(root.depth, 0);
    assert_eq!(root.children[0].depth, 1);
    assert_eq!(root.children[0].children[0].depth, 2);
}

#[test]
fn collect_tags_counts_each_tag() {
    let mut root = Todo::with_id("root", "work", 1, 1);
    root.children.push(Todo::with_id("a", "home", 2, 2));
    root.children.push(Todo::with_id("b", "work", 3, 3));
    root.children.push(Todo::with_id("c", "", 4, 4));
    let mut counts: Vec<(String, usize)> = Vec::new();
    root.collect_tags(&mut counts);
    let work = counts.iter().find(|(t, _)| t == "work").map(|(_, n)| *n);
    let home = counts.iter().find(|(t, _)| t == "home").map(|(_, n)| *n);
    assert_eq!(work, Some(2));
    assert_eq!(home, Some(1));
    assert!(counts.iter().all(|(t, _)| !t.is_empty()));
}

#[test]
fn apply_edit_changes_only_the_task() {
    let mut root = task("root", 1, 1);
    root.children.push(task("child", 2, 2));
    assert!(root.apply_edit(2, Edit::SetText("renamed".to_string())));
    assert_eq!(root.children[0].text, "renamed");
    assert_eq!(root.text, "root");
    assert!(!root.apply_edit(9, Edit::SetPinned(true)));
}

#[test]
fn propagate_done_marks_subtree() {
    let mut root = task("root", 1, 1);
    root.children.push(task("child", 2, 2));
    root.propagate_done(true, 77);
    assert!(root.done && root.children[0].done);
    assert_eq!(root.children[0].done_at, 77);
}

#[test]
fn find_mut_changes_first_match_in_place() {
    let mut root = task("root", 1, 10);
    let mut a = task("a", 2, 11);
    a.children.push(task("deep", 3, 12));
    root.children.push(a);
    root.children.push(task("b", 4, 13));
    if let Some(t) = root.find_mut(3) {
        t.done = true;
    }
    assert!(root.children[0].children[0].done);
    assert!(!root.children[1].done);
    assert!(root.find_mut(9).is_none());
    assert_eq!(root.find_mut(1).map(|t| t.id), Some(1));
}

#[test]
fn sorting_twice_is_sorting_once() {
    let mut root = task("root", 1, 10);
    root.children.push(task("old", 2, 11));
    root.children.push(task("new", 3, 30));
    let mut pinned = task("pinned", 4, 5);
    pinned.pinned = true;
    root.children.push(pinned);
    root.sort();
    let once: Vec<u64> = root.children.iter().map(|t| t.id).collect();
    root.sort();
    let twice: Vec<u64> = root.children.iter().map(|t| t.id).collect();
    assert_eq!(once, twice);
    assert_eq!(root.id, 1);
    assert_eq!(root.text, "root");
}
