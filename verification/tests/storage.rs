use todo_cli::TodoError;
use todo_cli::TodoList;

fn strings(items: &[&str]) -> Vec<String> {
    let mut v: Vec<String> = Vec::new();
    for s in items {
        v.push(s.to_string());
    }
    v
}

fn list_with(items: &[&str]) -> TodoList {
    let mut l = TodoList::new();
    l.add(&strings(items));
    l
}

#[test]
fn round_trip_preserves_items_exactly() {
    let mut l = list_with(&["buy milk", "walk dog", "call mom"]);
    l.done(strings(&["2"])).unwrap();
    let stored = l.serialize();
    let reloaded = TodoList::load(Some(stored.as_str())).unwrap();
    let before = l.list();
    let after = reloaded.list();
    assert_eq!(before.len(), after.len());
    for k in 0..before.len() {
        assert_eq!(before[k].0, after[k].0);
        assert_eq!(before[k].1, after[k].1);
    }
    assert_eq!(reloaded.serialize(), stored);
}

#[test]
fn serialized_form_is_the_documented_snapshot() {
    let mut l = list_with(&["buy milk", "walk dog"]);
    l.done(strings(&["2"])).unwrap();
    assert_eq!(
        l.serialize(),
        "{\"list\":[{\"content\":\"buy milk\",\"state\":\"NotFinished\"},{\"content\":\"walk dog\",\"state\":\"Finished\"}]}"
    );
    assert_eq!(TodoList::new().serialize(), "{\"list\":[]}");
}

#[test]
fn loading_absent_storage_bootstraps_an_empty_list() {
    let first = TodoList::load(None).unwrap();
    assert_eq!(first.list().len(), 0);
    // what the program writes out for that empty list loads as empty again
    let written = first.serialize();
    let second = TodoList::load(Some(written.as_str())).unwrap();
    assert_eq!(second.list().len(), 0);
}

#[test]
fn loading_a_zero_length_file_yields_an_empty_list() {
    let l = TodoList::load(Some("")).unwrap();
    assert_eq!(l.list().len(), 0);
}

#[test]
fn adding_nothing_leaves_the_stored_bytes_identical() {
    let mut l = list_with(&["a", "b"]);
    let before = l.serialize();
    let changed = l.add(&strings(&[]));
    assert!(!changed);
    assert_eq!(l.serialize(), before);
}

#[test]
fn quotes_and_backslashes_in_content_round_trip() {
    let l = list_with(&["say \"hi\"", "path\\to\\file", "mixed \\\" both"]);
    let stored = l.serialize();
    let reloaded = TodoList::load(Some(stored.as_str())).unwrap();
    let lines = reloaded.list();
    assert_eq!(lines[0].0, "1. say \"hi\"");
    assert_eq!(lines[1].0, "2. path\\to\\file");
    assert_eq!(lines[2].0, "3. mixed \\\" both");
}

#[test]
fn surrounding_whitespace_is_tolerated_when_loading() {
    let l = TodoList::load(Some(
        "  \n\t{\"list\":[{\"content\":\"a\",\"state\":\"Finished\"}]} \n",
    ))
    .unwrap();
    let lines = l.list();
    assert_eq!(lines.len(), 1);
    assert_eq!(lines[0].0, "1. a");
    assert!(lines[0].1);
}

#[test]
fn malformed_snapshots_are_parse_errors() {
    assert!(matches!(TodoList::load(Some("{")), Err(TodoError::ParseError)));
    assert!(matches!(TodoList::load(Some("not a snapshot")), Err(TodoError::ParseError)));
    assert!(matches!(TodoList::load(Some("{\"list\":[]} trailing")), Err(TodoError::ParseError)));
    assert!(matches!(
        TodoList::load(Some("{\"list\":[{\"content\":\"a\",\"state\":\"Done\"}]}")),
        Err(TodoError::ParseError)
    ));
    assert!(matches!(
        TodoList::load(Some("{\"list\":[{\"content\":\"a\",\"state\":\"NotFinished\"}")),
        Err(TodoError::ParseError)
    ));
}

#[test]
fn stored_snapshots_are_plain_json() {
    let mut l = list_with(&["buy \"special\" milk", "walk dog"]);
    l.done(strings(&["1"])).unwrap();
    let stored = l.serialize();
    let v: serde_json::Value = serde_json::from_str(&stored).unwrap();
    let items = v["list"].as_array().unwrap();
    assert_eq!(items.len(), 2);
    assert_eq!(items[0]["content"].as_str().unwrap(), "buy \"special\" milk");
    assert_eq!(items[0]["state"].as_str().unwrap(), "Finished");
    assert_eq!(items[1]["content"].as_str().unwrap(), "walk dog");
    assert_eq!(items[1]["state"].as_str().unwrap(), "NotFinished");
}

#[test]
fn json_written_by_serde_loads_back() {
    // the exact bytes serde_json produces for the stored shape
    let snapshot = "{\"list\":[{\"content\":\"a\",\"state\":\"NotFinished\"},{\"content\":\"b\",\"state\":\"Finished\"}]}";
    let l = TodoList::load(Some(snapshot)).unwrap();
    let lines = l.list();
    assert_eq!(lines.len(), 2);
    assert!(!lines[0].1);
    assert!(lines[1].1);
    assert_eq!(l.serialize(), snapshot);
}
