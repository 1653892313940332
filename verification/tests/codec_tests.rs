use tasker::Task;
use tasker::TaskManager;

fn store(entries: &[(u32, &str, bool)]) -> TaskManager {
    let mut tasks: Vec<Task> = Vec::new();
    for (id, description, done) in entries {
        tasks.push(Task { id: *id, description: (*description).to_string(), done: *done });
    }
    TaskManager { tasks }
}

fn save_text(m: &TaskManager) -> String {
    String::from_utf8(m.save()).unwrap()
}

#[test]
fn empty_store_writes_the_exact_document() {
    let m = TaskManager::default();
    assert_eq!(save_text(&m), "{\n  \"tasks\": []\n}");
}

#[test]
fn one_task_writes_the_exact_document() {
    let m = store(&[(1, "buy milk", false)]);
    let expected = "{\n  \"tasks\": [\n    {\n      \"id\": 1,\n      \"description\": \"buy milk\",\n      \"done\": false\n    }\n  ]\n}";
    assert_eq!(save_text(&m), expected);
}

#[test]
fn two_tasks_write_the_exact_document() {
    let m = store(&[(1, "a", true), (2, "b", false)]);
    let expected = "{\n  \"tasks\": [\n    {\n      \"id\": 1,\n      \"description\": \"a\",\n      \"done\": true\n    },\n    {\n      \"id\": 2,\n      \"description\": \"b\",\n      \"done\": false\n    }\n  ]\n}";
    assert_eq!(save_text(&m), expected);
}

#[test]
fn round_trip_keeps_every_field() {
    let m = store(&[(1, "buy milk", false), (2, "walk dog", true), (7, "gap id", false)]);
    let bytes = m.save();
    let back = TaskManager::load(&bytes).unwrap();
    assert_eq!(back.tasks.len(), 3);
    for (a, b) in m.tasks.iter().zip(back.tasks.iter()) {
        assert_eq!(a.id, b.id);
        assert_eq!(a.description, b.description);
        assert_eq!(a.done, b.done);
    }
    assert_eq!(back.save(), bytes);
}

#[test]
fn round_trip_keeps_awkward_descriptions() {
    let m = store(&[
        (1, "quote \" backslash \\ slash /", false),
        (2, "tab\there\nnewline\rreturn", true),
        (3, "control \u{1} \u{1f} bell \u{7}", false),
        (4, "caf\u{e9} \u{1f600} \u{4e16}\u{754c}", true),
        (5, "", false),
    ]);
    let bytes = m.save();
    let back = TaskManager::load(&bytes).unwrap();
    assert_eq!(back.tasks.len(), 5);
    for (a, b) in m.tasks.iter().zip(back.tasks.iter()) {
        assert_eq!(a.description, b.description);
    }
    assert_eq!(back.save(), bytes);
}

#[test]
fn load_accepts_other_whitespace() {
    let text = "{ \"tasks\": [ { \"id\": 3, \"description\": \"x\", \"done\": true } ] }";
    let m = TaskManager::load(text.as_bytes()).unwrap();
    assert_eq!(m.tasks.len(), 1);
    assert_eq!(m.tasks[0].id, 3);
    assert_eq!(m.tasks[0].description, "x");
    assert!(m.tasks[0].done);

    let dense = "{\"tasks\":[{\"id\":1,\"description\":\"y\",\"done\":false}]}";
    let m2 = TaskManager::load(dense.as_bytes()).unwrap();
    assert_eq!(m2.tasks[0].description, "y");
}

#[test]
fn load_reads_escapes() {
    let text = "{\"tasks\":[{\"id\":1,\"description\":\"a\\n\\t\\\"\\\\\\/\\u0041\\u000a\",\"done\":false}]}";
    let m = TaskManager::load(text.as_bytes()).unwrap();
    assert_eq!(m.tasks[0].description, "a\n\t\"\\/A\n");
}

#[test]
fn load_rejects_malformed_documents() {
    let bad: &[&str] = &[
        "",
        "{",
        "{}",
        "{\"tasks\":}",
        "{\"tasks\":[}",
        "{\"tasks\":[]",
        "{\"tasks\":[]} trailing",
        "{\"tasks\":[{\"id\":1}]}",
        "{\"tasks\":[{\"id\":01,\"description\":\"a\",\"done\":false}]}",
        "{\"tasks\":[{\"id\":4294967296,\"description\":\"a\",\"done\":false}]}",
        "{\"tasks\":[{\"id\":1,\"description\":\"a,\"done\":false}]}",
        "{\"tasks\":[{\"id\":1,\"description\":\"a\",\"done\":maybe}]}",
        "{\"tasks\":[{\"id\":1,\"description\":\"\\q\",\"done\":false}]}",
        "{\"tasks\":[{\"id\":1,\"description\":\"a\",\"done\":false},]}",
        "[]",
    ];
    for text in bad {
        assert!(TaskManager::load(text.as_bytes()).is_err(), "accepted: {}", text);
    }
}

#[test]
fn load_accepts_the_largest_id() {
    let text = "{\"tasks\":[{\"id\":4294967295,\"description\":\"a\",\"done\":false}]}";
    let m = TaskManager::load(text.as_bytes()).unwrap();
    assert_eq!(m.tasks[0].id, u32::MAX);
}

#[test]
fn written_document_is_json_a_generic_reader_accepts() {
    let m = store(&[(1, "quote \" and \u{3} control", true), (2, "caf\u{e9}", false)]);
    let text = save_text(&m);
    let value: serde_json::Value = serde_json::from_str(&text).unwrap();
    let tasks = value.get("tasks").unwrap().as_array().unwrap();
    assert_eq!(tasks.len(), 2);
    assert_eq!(tasks[0].get("id").unwrap().as_u64().unwrap(), 1);
    assert_eq!(
        tasks[0].get("description").unwrap().as_str().unwrap(),
        "quote \" and \u{3} control"
    );
    assert!(tasks[0].get("done").unwrap().as_bool().unwrap());
    assert_eq!(tasks[1].get("description").unwrap().as_str().unwrap(), "caf\u{e9}");
}

#[test]
fn load_requires_the_written_field_order() {
    let reordered =
        "{\"tasks\":[{\"description\":\"a\",\"done\":false,\"id\":1}]}";
    assert!(TaskManager::load(reordered.as_bytes()).is_err());
    let written = "{\"tasks\":[{\"id\":1,\"description\":\"a\",\"done\":false}]}";
    assert!(TaskManager::load(written.as_bytes()).is_ok());
}
