use todo_list::Todo;
use todo_list::add_task;
use todo_list::complete_task;
use todo_list::load_from_text;
use todo_list::parse_tasks;
use todo_list::serialize_tasks;

fn model(todos: &[Todo]) -> Vec<(String, bool)> {
    todos.iter().map(|t| (t.task.clone(), t.completed)).collect()
}

#[test]
fn round_trip_simple() {
    let mut todos: Vec<Todo> = Vec::new();
    add_task(&mut todos, "buy milk");
    add_task(&mut todos, "walk dog");
    let ok = complete_task(&mut todos, 1);
    assert!(ok);
    let text = serialize_tasks(&todos);
    let back = parse_tasks(&text).expect("canonical text must decode");
    assert_eq!(model(&todos), model(&back));
}

#[test]
fn round_trip_empty() {
    let todos: Vec<Todo> = Vec::new();
    let text = serialize_tasks(&todos);
    assert_eq!(text, "[]");
    let back = parse_tasks(&text).expect("canonical text must decode");
    assert!(back.is_empty());
}

#[test]
fn round_trip_with_escapes() {
    let mut todos: Vec<Todo> = Vec::new();
    add_task(&mut todos, "say \"hi\"");
    add_task(&mut todos, "back\\slash");
    add_task(&mut todos, "line\none\ttab");
    let text = serialize_tasks(&todos);
    let back = parse_tasks(&text).expect("canonical text must decode");
    assert_eq!(model(&todos), model(&back));
}

#[test]
fn escapes_written_exactly() {
    let mut todos: Vec<Todo> = Vec::new();
    add_task(&mut todos, "a\"b\\c\nd\te\u{b}f");
    let text = serialize_tasks(&todos);
    assert_eq!(
        text,
        "[{\"task\":\"a\\\"b\\\\c\\nd\\te\\u000bf\",\"completed\":false}]"
    );
}

#[test]
fn short_and_hex_escapes_decode() {
    let todos = load_from_text("[{\"task\":\"a\\nb\\rc\\u000ad\",\"completed\":false}]");
    assert_eq!(todos.len(), 1);
    assert_eq!(todos[0].task, "a\nb\rc\nd");
}

#[test]
fn canonical_text_decodes() {
    let text = "[{\"task\":\"a\",\"completed\":false},{\"task\":\"b\",\"completed\":true}]";
    let todos = load_from_text(text);
    assert_eq!(
        model(&todos),
        vec![(String::from("a"), false), (String::from("b"), true)]
    );
}

#[test]
fn empty_array_loads_empty() {
    assert!(load_from_text("[]").is_empty());
}

#[test]
fn corrupt_text_loads_empty() {
    assert!(load_from_text("not json at all").is_empty());
    assert!(load_from_text("").is_empty());
    assert!(load_from_text("{").is_empty());
    assert!(load_from_text("[{\"task\":\"x\",\"completed\":false}").is_empty());
    assert!(load_from_text("[1,2,3]").is_empty());
    assert!(load_from_text("[{\"task\":\"x\"}]").is_empty());
}

#[test]
fn whitespace_between_tokens_accepted() {
    assert!(load_from_text("[ ]").is_empty());
    assert!(load_from_text(" [ ] ").is_empty());
    let todos = load_from_text(" [ { \"task\" : \"x\" , \"completed\" : false } ] ");
    assert_eq!(model(&todos), vec![(String::from("x"), false)]);
    let todos = load_from_text("[\n  {\"task\": \"a\", \"completed\": true},\n  {\"task\": \"b\", \"completed\": false}\n]\n");
    assert_eq!(
        model(&todos),
        vec![(String::from("a"), true), (String::from("b"), false)]
    );
}

#[test]
fn either_field_order_accepted() {
    let todos = load_from_text("[{\"completed\":true,\"task\":\"x\"}]");
    assert_eq!(model(&todos), vec![(String::from("x"), true)]);
    let todos = load_from_text("[{\"completed\":false,\"task\":\"a\"},{\"task\":\"b\",\"completed\":true}]");
    assert_eq!(
        model(&todos),
        vec![(String::from("a"), false), (String::from("b"), true)]
    );
}

#[test]
fn general_unicode_escapes_accepted() {
    // four hex digits of either case, and an escaped slash
    let todos = load_from_text("[{\"task\":\"\\u0041\\u00e9\\u20AC\\/\",\"completed\":false}]");
    assert_eq!(model(&todos), vec![(String::from("A\u{e9}\u{20ac}/"), false)]);
}

#[test]
fn surrogate_pairs_accepted() {
    let todos = load_from_text("[{\"task\":\"\\uD83D\\uDE00\",\"completed\":false}]");
    assert_eq!(model(&todos), vec![(String::from("\u{1f600}"), false)]);
}

#[test]
fn lone_surrogates_load_empty() {
    assert!(load_from_text("[{\"task\":\"\\uD83D\",\"completed\":false}]").is_empty());
    assert!(load_from_text("[{\"task\":\"\\uDE00\",\"completed\":false}]").is_empty());
}

#[test]
fn unicode_descriptions_round_trip() {
    let mut todos: Vec<Todo> = Vec::new();
    add_task(&mut todos, "caf\u{e9} \u{1f600} \u{7d20}");
    let text = serialize_tasks(&todos);
    let back = parse_tasks(&text).expect("canonical text must decode");
    assert_eq!(model(&todos), model(&back));
}
