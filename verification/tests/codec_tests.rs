use todo_store::codec::{encode_store, load_from_text, parse_store};
use todo_store::store::{add_task, view_tasks};
use todo_store::task::Task;

fn sample(id: usize, description: &str, completed: bool) -> Task {
    Task { id, description: String::from(description), completed }
}

#[test]
fn encode_of_empty_store() {
    let tasks: Vec<Task> = Vec::new();
    assert_eq!(encode_store(&tasks), "[]");
}

#[test]
fn encode_of_one_task() {
    let tasks = vec![sample(1, "Buy milk", false)];
    let expected = "[\n  {\n    \"id\": 1,\n    \"description\": \"Buy milk\",\n    \"completed\": false\n  }\n]";
    assert_eq!(encode_store(&tasks), expected);
}

#[test]
fn encode_of_two_tasks() {
    let tasks = vec![sample(1, "a", true), sample(2, "b", false)];
    let expected = "[\n  {\n    \"id\": 1,\n    \"description\": \"a\",\n    \"completed\": true\n  },\n  {\n    \"id\": 2,\n    \"description\": \"b\",\n    \"completed\": false\n  }\n]";
    assert_eq!(encode_store(&tasks), expected);
}

#[test]
fn encode_escapes_special_characters() {
    let tasks = vec![sample(1, "say \"hi\"\\\n\tdone\u{1}", false)];
    let text = encode_store(&tasks);
    assert!(text.contains("say \\\"hi\\\"\\\\\\n\\tdone\\u0001"));
}

#[test]
fn parse_of_encode_gives_the_store_back() {
    let tasks = vec![
        sample(1, "Buy milk", false),
        sample(2, "say \"hi\" \\ now", true),
        sample(9000, "line\nbreak\ttab\rret\u{1f}", false),
    ];
    let text = encode_store(&tasks);
    let back = parse_store(&text).expect("the encoder's text parses");
    assert_eq!(back, tasks);
}

#[test]
fn parse_of_empty_array() {
    assert_eq!(parse_store("[]"), Some(Vec::new()));
}

#[test]
fn parse_rejects_ill_formed_text() {
    assert!(parse_store("").is_none());
    assert!(parse_store("[").is_none());
    assert!(parse_store("{}").is_none());
    assert!(parse_store("[\n]").is_none());
    assert!(parse_store("[\n  {\n    \"id\": x\n  }\n]").is_none());
    assert!(parse_store("[\n  {\n    \"id\": 1,\n    \"description\": \"a\",\n    \"completed\": maybe\n  }\n]").is_none());
    // An unterminated string.
    assert!(parse_store("[\n  {\n    \"id\": 1,\n    \"description\": \"a").is_none());
    // Trailing text after the closing bracket.
    let tasks = vec![sample(1, "a", false)];
    let mut text = encode_store(&tasks);
    text.push(' ');
    assert!(parse_store(&text).is_none());
}

#[test]
fn parse_rejects_an_id_beyond_usize() {
    let text = "[\n  {\n    \"id\": 999999999999999999999999999999,\n    \"description\": \"a\",\n    \"completed\": false\n  }\n]";
    assert!(parse_store(text).is_none());
}

#[test]
fn load_of_missing_file_is_empty() {
    assert_eq!(load_from_text(None), Vec::new());
}

#[test]
fn load_of_ill_formed_text_is_empty() {
    let garbage = String::from("not json at all");
    assert_eq!(load_from_text(Some(&garbage)), Vec::new());
}

#[test]
fn add_save_load_view_shows_one_task() {
    let mut tasks: Vec<Task> = Vec::new();
    add_task(&mut tasks, String::from("Buy milk"));
    let text = encode_store(&tasks);
    let loaded = load_from_text(Some(&text));
    assert_eq!(loaded.len(), 1);
    assert_eq!(loaded[0].id, 1);
    assert_eq!(view_tasks(&loaded), "1 [ ]: Buy milk\n");
}
