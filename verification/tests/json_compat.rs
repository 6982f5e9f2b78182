// The stored text must be real JSON: serde_json has to read back what
// the library writes.
use todo_list::Todo;
use todo_list::add_task;
use todo_list::complete_task;
use todo_list::load_from_text;
use todo_list::serialize_tasks;

#[test]
fn pretty_printed_text_loads() {
    let mut obj = serde_json::Map::new();
    obj.insert(
        String::from("task"),
        serde_json::Value::String(String::from("buy milk")),
    );
    obj.insert(String::from("completed"), serde_json::Value::Bool(true));
    let value = serde_json::Value::Array(vec![serde_json::Value::Object(obj)]);
    let pretty = serde_json::to_string_pretty(&value).expect("value encodes");
    let todos = load_from_text(&pretty);
    assert_eq!(todos.len(), 1);
    assert_eq!(todos[0].task, "buy milk");
    assert!(todos[0].completed);
}

#[test]
fn stored_text_is_valid_json() {
    let mut todos: Vec<Todo> = Vec::new();
    add_task(&mut todos, "buy milk");
    add_task(&mut todos, "say \"hi\"\n\tthen leave");
    let ok = complete_task(&mut todos, 2);
    assert!(ok);
    let text = serialize_tasks(&todos);
    let value: serde_json::Value = serde_json::from_str(&text).expect("stored text must be JSON");
    let items = value.as_array().expect("stored text must be a JSON array");
    assert_eq!(items.len(), 2);
    assert_eq!(items[0]["task"].as_str(), Some("buy milk"));
    assert_eq!(items[0]["completed"].as_bool(), Some(false));
    assert_eq!(items[1]["task"].as_str(), Some("say \"hi\"\n\tthen leave"));
    assert_eq!(items[1]["completed"].as_bool(), Some(true));
}

#[test]
fn string_escaping_matches_serde() {
    let samples = [
        "plain",
        "a\"b\\c",
        "\n\t\r\u{8}\u{c}",
        "\u{0}\u{1}\u{b}\u{1f}",
        "caf\u{e9} \u{1f600} \u{7f}",
    ];
    for s in samples {
        let mut todos: Vec<Todo> = Vec::new();
        add_task(&mut todos, s);
        let text = serialize_tasks(&todos);
        let expected = format!(
            "[{{\"task\":{},\"completed\":false}}]",
            serde_json::to_string(s).expect("strings always encode")
        );
        assert_eq!(text, expected);
    }
}

#[test]
fn serde_agrees_on_empty_list() {
    let todos: Vec<Todo> = Vec::new();
    let text = serialize_tasks(&todos);
    let value: serde_json::Value = serde_json::from_str(&text).expect("stored text must be JSON");
    assert_eq!(value.as_array().map(|a| a.len()), Some(0));
}

#[test]
fn serde_reads_control_characters_back() {
    let mut todos: Vec<Todo> = Vec::new();
    add_task(&mut todos, "bell\u{7} null\u{0} esc\u{1b}");
    let text = serialize_tasks(&todos);
    let value: serde_json::Value = serde_json::from_str(&text).expect("stored text must be JSON");
    assert_eq!(
        value[0]["task"].as_str(),
        Some("bell\u{7} null\u{0} esc\u{1b}")
    );
}
