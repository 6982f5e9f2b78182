use todo_list::Outcome;
use todo_list::Todo;
use todo_list::add_task;
use todo_list::complete_task;
use todo_list::load_from_text;
use todo_list::parse_index;
use todo_list::render_lines;
use todo_list::run;
use todo_list::serialize_tasks;

fn args(parts: &[&str]) -> Vec<String> {
    parts.iter().map(|p| String::from(*p)).collect()
}

fn descs(todos: &[Todo]) -> Vec<String> {
    todos.iter().map(|t| t.task.clone()).collect()
}

fn flags(todos: &[Todo]) -> Vec<bool> {
    todos.iter().map(|t| t.completed).collect()
}

#[test]
fn todo_new_fields() {
    let t = Todo::new("buy milk");
    assert_eq!(t.task, "buy milk");
    assert!(!t.completed);
}

#[test]
fn add_grows_list() {
    let mut todos = vec![Todo::new("a"), Todo::new("b")];
    add_task(&mut todos, "X");
    assert_eq!(todos.len(), 3);
    assert_eq!(todos[2].task, "X");
    assert!(!todos[2].completed);
    assert_eq!(descs(&todos), vec!["a", "b", "X"]);
}

#[test]
fn run_add_appends_and_saves() {
    let todos = vec![Todo::new("a")];
    let r: Outcome = run(&args(&["add", "X"]), todos);
    assert!(r.save);
    assert!(!r.fatal);
    assert_eq!(descs(&r.todos), vec!["a", "X"]);
    assert_eq!(flags(&r.todos), vec![false, false]);
    assert_eq!(r.output, vec![String::from("Added task: X")]);
}

#[test]
fn complete_marks_only_nth() {
    let mut todos = vec![Todo::new("a"), Todo::new("b"), Todo::new("c")];
    let ok = complete_task(&mut todos, 2);
    assert!(ok);
    assert_eq!(descs(&todos), vec!["a", "b", "c"]);
    assert_eq!(flags(&todos), vec![false, true, false]);
}

#[test]
fn run_complete_saves_and_reports() {
    let todos = vec![Todo::new("a"), Todo::new("b")];
    let r = run(&args(&["complete", "2"]), todos);
    assert!(r.save);
    assert!(!r.fatal);
    assert_eq!(flags(&r.todos), vec![false, true]);
    assert_eq!(r.output, vec![String::from("Marked task 2 as completed.")]);
}

#[test]
fn complete_zero_rejected() {
    let todos = vec![Todo::new("a"), Todo::new("b")];
    let r = run(&args(&["complete", "0"]), todos);
    assert!(!r.save);
    assert!(!r.fatal);
    assert_eq!(descs(&r.todos), vec!["a", "b"]);
    assert_eq!(flags(&r.todos), vec![false, false]);
    assert_eq!(r.output, vec![String::from("Task number does not exist.")]);
}

#[test]
fn complete_past_end_rejected() {
    let todos = vec![Todo::new("a"), Todo::new("b")];
    let r = run(&args(&["complete", "3"]), todos);
    assert!(!r.save);
    assert!(!r.fatal);
    assert_eq!(flags(&r.todos), vec![false, false]);
    assert_eq!(r.output, vec![String::from("Task number does not exist.")]);
}

#[test]
fn complete_non_numeric_is_fatal() {
    let todos = vec![Todo::new("a")];
    let r = run(&args(&["complete", "abc"]), todos);
    assert!(r.fatal);
    assert!(!r.save);
    assert_eq!(flags(&r.todos), vec![false]);
    assert_eq!(r.output, vec![String::from("Invalid index")]);
}

#[test]
fn list_never_saves() {
    let todos = vec![Todo::new("a"), Todo::new("b")];
    let before = serialize_tasks(&todos);
    let r = run(&args(&["list"]), todos);
    assert!(!r.save);
    assert!(!r.fatal);
    assert_eq!(serialize_tasks(&r.todos), before);
}

#[test]
fn list_lines_are_numbered_and_marked() {
    let mut todos = vec![Todo::new("buy milk"), Todo::new("walk dog")];
    let ok = complete_task(&mut todos, 2);
    assert!(ok);
    let r = run(&args(&["list"]), todos);
    assert_eq!(
        r.output,
        vec![String::from("1: [ ] buy milk"), String::from("2: [x] walk dog")]
    );
}

#[test]
fn list_empty_prints_nothing() {
    let todos: Vec<Todo> = Vec::new();
    let r = run(&args(&["list"]), todos);
    assert!(!r.save);
    assert!(r.output.is_empty());
}

#[test]
fn render_lines_numbers_from_one() {
    let todos = vec![Todo::new("a")];
    let lines = render_lines(&todos);
    assert_eq!(lines, vec![String::from("1: [ ] a")]);
}

#[test]
fn usage_without_command() {
    let todos: Vec<Todo> = Vec::new();
    let r = run(&args(&[]), todos);
    assert!(!r.save);
    assert!(!r.fatal);
    assert_eq!(r.output, vec![String::from("Usage: todo <command> [task]")]);
}

#[test]
fn unknown_command_reported() {
    let todos: Vec<Todo> = Vec::new();
    let r = run(&args(&["frobnicate"]), todos);
    assert!(!r.save);
    assert!(!r.fatal);
    assert_eq!(
        r.output,
        vec![String::from("Unknown command. Use 'add', 'list', or 'complete'.")]
    );
}

#[test]
fn add_without_text_reported() {
    let todos: Vec<Todo> = Vec::new();
    let r = run(&args(&["add"]), todos);
    assert!(!r.save);
    assert!(!r.fatal);
    assert_eq!(r.output, vec![String::from("Please provide a task to add.")]);
}

#[test]
fn complete_without_number_reported() {
    let todos: Vec<Todo> = Vec::new();
    let r = run(&args(&["complete"]), todos);
    assert!(!r.save);
    assert!(!r.fatal);
    assert_eq!(
        r.output,
        vec![String::from("Please provide the task number to complete.")]
    );
}

#[test]
fn parse_index_reads_decimal() {
    assert_eq!(parse_index("0"), Some(0));
    assert_eq!(parse_index("42"), Some(42));
    assert_eq!(parse_index("007"), Some(7));
}

#[test]
fn parse_index_rejects_junk() {
    assert_eq!(parse_index(""), None);
    assert_eq!(parse_index("1a"), None);
    assert_eq!(parse_index("-1"), None);
    assert_eq!(parse_index(" 1"), None);
    assert_eq!(parse_index("99999999999999999999999999999999"), None);
}

#[test]
fn whole_session_example() {
    // start empty
    let todos = load_from_text("[]");
    assert!(todos.is_empty());
    // add "buy milk"
    let r = run(&args(&["add", "buy milk"]), todos);
    assert!(r.save);
    let stored = serialize_tasks(&r.todos);
    assert_eq!(stored, "[{\"task\":\"buy milk\",\"completed\":false}]");
    // list
    let r = run(&args(&["list"]), load_from_text(&stored));
    assert!(!r.save);
    assert_eq!(r.output, vec![String::from("1: [ ] buy milk")]);
    // complete 1
    let r = run(&args(&["complete", "1"]), load_from_text(&stored));
    assert!(r.save);
    let stored = serialize_tasks(&r.todos);
    assert_eq!(stored, "[{\"task\":\"buy milk\",\"completed\":true}]");
    // list again
    let r = run(&args(&["list"]), load_from_text(&stored));
    assert_eq!(r.output, vec![String::from("1: [x] buy milk")]);
}
