use nyado::projects::{
    create_project_allowed, delete_project_allowed, neighbor_project, project_names, rebuild_depth_in_todos,
    rename_project_allowed, sort_names, valid_project_name,
};
use nyado::storage::Storage;
use nyado::todo::Todo;

fn strings(v: &[&str]) -> Vec<String> {
    v.iter().map(|s| s.to_string()).collect()
}

#[test]
fn project_names_from_files() {
    let files = strings(&["work.yaml", "notes.txt", ".yaml", "a.b.yaml", "home.yaml", "yaml"]);
    assert_eq!(project_names(&files), strings(&["a.b", "home", "work"]));
}

#[test]
fn project_names_default_when_none() {
    assert_eq!(project_names(&strings(&["x.txt"])), strings(&["default"]));
}

#[test]
fn sort_names_text_order() {
    let v = strings(&["b", "a", "ab", "B", "я", "aa"]);
    let mut expect = v.clone();
    expect.sort();
    assert_eq!(sort_names(v), expect);
}

#[test]
fn project_name_rules() {
    assert!(valid_project_name("work"));
    assert!(!valid_project_name(""));
    assert!(!valid_project_name("a.b"));
    assert!(!valid_project_name("a/b"));
    assert!(!valid_project_name("a\\b"));
}

#[test]
fn project_request_rules() {
    assert!(create_project_allowed(3, 64, false));
    assert!(!create_project_allowed(64, 64, false));
    assert!(!create_project_allowed(3, 64, true));
    assert!(delete_project_allowed("work", true));
    assert!(!delete_project_allowed("default", true));
    assert!(!delete_project_allowed("work", false));
    assert!(rename_project_allowed("work", "job", true, false));
    assert!(!rename_project_allowed("default", "job", true, false));
    assert!(!rename_project_allowed("work", "", true, false));
    assert!(!rename_project_allowed("work", "job", false, false));
    assert!(!rename_project_allowed("work", "job", true, true));
}

#[test]
fn neighbor_projects_wrap_round() {
    let p = strings(&["a", "b", "c"]);
    assert_eq!(neighbor_project(&p, "a", true), Some(1));
    assert_eq!(neighbor_project(&p, "c", true), Some(0));
    assert_eq!(neighbor_project(&p, "a", false), Some(2));
    assert_eq!(neighbor_project(&p, "b", false), Some(0));
    assert_eq!(neighbor_project(&p, "zzz", true), Some(1));
    assert_eq!(neighbor_project(&strings(&["a"]), "a", true), None);
}

#[test]
fn set_project_refused_without_file() {
    let mut s = Storage::new("dir".to_string());
    s.search = "q".to_string();
    assert!(!s.set_project("work", None));
    assert_eq!(s.current_project, "default");
    assert_eq!(s.search, "q");
}

#[test]
fn set_project_loads_and_clears_filters() {
    let mut s = Storage::new("dir".to_string());
    s.search = "q".to_string();
    s.filter_tag = "t".to_string();
    let mut child = Todo::with_id("c", "x", 2, 2);
    child.depth = 5;
    let mut parent = Todo::with_id("p", "x", 1, 1);
    parent.children.push(child);
    assert!(s.set_project("work", Some(vec![parent])));
    assert_eq!(s.current_project, "work");
    assert_eq!(s.search, "");
    assert_eq!(s.filter_tag, "");
    assert_eq!(s.todos[0].children[0].depth, 1);
    assert_eq!(s.tags_available, vec![("x".to_string(), 2)]);
    assert!(!s.dirty_tags);
}

#[test]
fn default_project_without_file_is_empty() {
    let mut s = Storage::new("dir".to_string());
    s.todos.push(Todo::with_id("a", "", 1, 1));
    s.toggle_expand(1);
    assert!(s.set_project("default", None));
    assert!(s.todos.is_empty());
    assert!(!s.is_expanded(1));
}

#[test]
fn rebuild_depth_of_list() {
    let mut t = Todo::with_id("a", "", 1, 1);
    t.depth = 3;
    let mut v = vec![t];
    rebuild_depth_in_todos(&mut v);
    assert_eq!(v[0].depth, 0);
}
