use nyado::cli::{
    due_date_arg, early_exit, has_duplicate, list_filters, parse_args, random_pending_task, task_number, task_text_arg, today_plan,
    CliCommand, CliError, EarlyExit,
};
use nyado::storage::Storage;
use nyado::todo::Todo;

fn words(v: &[&str]) -> Vec<String> {
    v.iter().map(|s| s.to_string()).collect()
}

#[test]
fn help_and_version() {
    assert_eq!(early_exit(&words(&["nyado", "-h"])), Some(EarlyExit::Help));
    assert_eq!(early_exit(&words(&["nyado", "--version"])), Some(EarlyExit::Version));
    assert_eq!(early_exit(&words(&["nyado"])), None);
    assert_eq!(early_exit(&words(&["nyado", "--stats", "-h"])), None);
}

#[test]
fn parse_create_task_with_project_and_tag() {
    let a = parse_args(&words(&["--project-name", "work", "--create-task", "Write report", "--tag", "important"])).ok().unwrap();
    assert_eq!(a.project, "work");
    assert_eq!(a.command, Some(CliCommand::CreateTask));
    assert_eq!(a.tag, "important");
}

#[test]
fn parse_list_filters() {
    let a = parse_args(&words(&["--list-tasks", "--pending", "--pinned"])).ok().unwrap();
    assert_eq!(a.command, Some(CliCommand::ListTasks));
    assert!(a.pending && a.pinned && !a.done);
    let (d, p, t) = list_filters(&a);
    assert_eq!((d, p, t), (Some(false), Some(true), None));
    let b = parse_args(&words(&["--list-tasks", "--done", "--pending", "--tag", "x"])).ok().unwrap();
    assert_eq!(list_filters(&b), (Some(true), None, Some("x".to_string())));
}

#[test]
fn parse_export_with_outputs() {
    let a = parse_args(&words(&["--export", "default", "CSV", "--output", "/tmp/a", "--output", "/tmp/b"])).ok().unwrap();
    assert_eq!(a.command, Some(CliCommand::Export));
    assert_eq!(a.export_project, "default");
    assert_eq!(a.export_format, "csv");
    assert_eq!(a.export_output, Some("/tmp/b".to_string()));
}

#[test]
fn parse_errors() {
    assert_eq!(parse_args(&words(&["--project-name"])).err(), Some(CliError::ProjectNameArgument));
    assert_eq!(parse_args(&words(&["--export", "default"])).err(), Some(CliError::ExportArguments));
    assert_eq!(parse_args(&words(&["--export", "default", "-x"])).err(), Some(CliError::ExportArguments));
    assert_eq!(parse_args(&words(&["--export", "a", "json", "--output"])).err(), Some(CliError::OutputArgument));
    assert_eq!(parse_args(&words(&["--tag"])).err(), Some(CliError::TagArgument));
    assert_eq!(parse_args(&words(&["--stats", "--list-tasks"])).err(), Some(CliError::OneCommandOnly));
}

#[test]
fn parse_random_and_today() {
    let a = parse_args(&words(&["--random-task", "work"])).ok().unwrap();
    assert_eq!(a.command, Some(CliCommand::RandomTask));
    assert_eq!(a.random_project, Some("work".to_string()));
    let b = parse_args(&words(&["--today", "--done"])).ok().unwrap();
    assert_eq!(b.command, Some(CliCommand::Today));
    assert_eq!(b.today_project, None);
    assert!(b.done);
}

#[test]
fn task_text_and_numbers() {
    assert_eq!(task_text_arg(&words(&["--create-task", "--tag", "-x", "hello"])), Some("hello".to_string()));
    assert_eq!(task_text_arg(&words(&["--create-task"])), None);
    assert_eq!(
        task_text_arg(&words(&["--project-name", "work", "--create-task", "Write report", "--tag", "important"])),
        Some("Write report".to_string())
    );
    assert_eq!(task_text_arg(&words(&["--tag", "x", "--create-task", "--done", "buy milk"])), Some("buy milk".to_string()));
    assert_eq!(task_text_arg(&words(&["--list-tasks", "word"])), None);
    assert_eq!(task_number(&words(&["--delete-task", "2"]), 3), Ok(1));
    assert_eq!(task_number(&words(&["--delete-task", "0"]), 3), Err(CliError::IndexOutOfRange));
    assert_eq!(task_number(&words(&["--delete-task", "4"]), 3), Err(CliError::IndexOutOfRange));
    assert_eq!(task_number(&words(&["--delete-task", "x"]), 3), Err(CliError::InvalidIndex));
    assert_eq!(task_number(&words(&["--delete-task"]), 3), Err(CliError::MissingIndex));
}

#[test]
fn duplicates_and_today() {
    let mut s = Storage::new("d".to_string());
    let mut over = Todo::with_id("over", "", 1, 1);
    over.due_date = 100;
    let mut today = Todo::with_id("today", "t", 2, 2);
    today.due_date = 86400 + 10;
    let mut done = Todo::with_id("done", "", 3, 3);
    done.done = true;
    done.due_date = 5;
    s.todos = vec![over, today, done, Todo::with_id("none", "", 4, 4)];
    let flat = s.list_tasks_flat(None, None, None);
    assert!(has_duplicate(&flat, "today", "t"));
    assert!(!has_duplicate(&flat, "today", ""));
    assert!(has_duplicate(&flat, "none", ""));
    let plan = today_plan(&flat, 86400 + 500);
    assert_eq!(plan.pending, 3);
    assert_eq!(plan.overdue.iter().map(|t| t.id).collect::<Vec<_>>(), vec![1]);
    assert_eq!(plan.due_today.iter().map(|t| t.id).collect::<Vec<_>>(), vec![2]);
}

#[test]
fn random_task_is_pending() {
    let mut s = Storage::new("d".to_string());
    let mut done = Todo::with_id("done", "", 1, 1);
    done.done = true;
    s.todos = vec![done];
    assert!(random_pending_task(&s).is_none());
    s.todos.push(Todo::with_id("open", "", 2, 2));
    assert_eq!(random_pending_task(&s).map(|t| t.id), Some(2));
}

#[test]
fn index_and_date_follow_the_command() {
    let w = words(&["--project-name", "work", "--delete-task", "3"]);
    assert_eq!(task_number(&w, 5), Ok(2));
    let d = words(&["--project-name", "work", "--set-due", "2", "2025-03-01"]);
    assert_eq!(task_number(&d, 5), Ok(1));
    assert_eq!(due_date_arg(&d), Some("2025-03-01".to_string()));
    assert_eq!(due_date_arg(&words(&["--set-due", "2"])), None);
    assert_eq!(task_number(&words(&["--project-name", "work"]), 5), Err(CliError::MissingIndex));
}
