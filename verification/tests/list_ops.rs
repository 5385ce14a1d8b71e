use todo_cli::TodoError;
use todo_cli::TodoList;

fn strings(items: &[&str]) -> Vec<String> {
    let mut v: Vec<String> = Vec::new();
    for s in items {
        v.push(s.to_string());
    }
    v
}

fn list_with(items: &[&str]) -> TodoList {
    let mut l = TodoList::new();
    l.add(&strings(items));
    l
}

fn lines_of(l: &TodoList) -> Vec<(String, bool)> {
    l.list()
}

#[test]
fn add_is_order_preserving_append_only() {
    let mut l = TodoList::new();
    let changed = l.add(&strings(&["a", "b"]));
    assert!(changed);
    let lines = lines_of(&l);
    assert_eq!(lines.len(), 2);
    assert_eq!(lines[0].0, "1. a");
    assert_eq!(lines[1].0, "2. b");
    assert!(!lines[0].1);
    assert!(!lines[1].1);
}

#[test]
fn add_appends_after_existing_items() {
    let mut l = list_with(&["a"]);
    l.add(&strings(&["b", "c"]));
    let lines = lines_of(&l);
    assert_eq!(lines.len(), 3);
    assert_eq!(lines[0].0, "1. a");
    assert_eq!(lines[1].0, "2. b");
    assert_eq!(lines[2].0, "3. c");
}

#[test]
fn list_of_empty_list_has_no_lines() {
    let l = TodoList::new();
    assert_eq!(lines_of(&l).len(), 0);
}

#[test]
fn done_affects_only_the_targeted_position() {
    let mut l = list_with(&["a", "b", "c"]);
    let r = l.done(strings(&["2"]));
    assert_eq!(r, Ok(()));
    let lines = lines_of(&l);
    assert_eq!(lines.len(), 3);
    assert_eq!(lines[0].0, "1. a");
    assert_eq!(lines[1].0, "2. b");
    assert_eq!(lines[2].0, "3. c");
    assert!(!lines[0].1);
    assert!(lines[1].1);
    assert!(!lines[2].1);
}

#[test]
fn done_accepts_several_positions_at_once() {
    let mut l = list_with(&["a", "b", "c"]);
    let r = l.done(strings(&["3", "1"]));
    assert_eq!(r, Ok(()));
    let lines = lines_of(&l);
    assert!(lines[0].1);
    assert!(!lines[1].1);
    assert!(lines[2].1);
}

#[test]
fn remove_descending_regardless_of_input_order() {
    let mut l1 = list_with(&["a", "b", "c", "d"]);
    assert_eq!(l1.remove(strings(&["2", "4"])), Ok(()));
    let lines1 = lines_of(&l1);
    assert_eq!(lines1.len(), 2);
    assert_eq!(lines1[0].0, "1. a");
    assert_eq!(lines1[1].0, "2. c");

    let mut l2 = list_with(&["a", "b", "c", "d"]);
    assert_eq!(l2.remove(strings(&["4", "2"])), Ok(()));
    let lines2 = lines_of(&l2);
    assert_eq!(lines2.len(), 2);
    assert_eq!(lines2[0].0, "1. a");
    assert_eq!(lines2[1].0, "2. c");
}

#[test]
fn remove_duplicate_positions_act_once() {
    let mut l = list_with(&["a", "b", "c"]);
    assert_eq!(l.remove(strings(&["2", "2"])), Ok(()));
    let lines = lines_of(&l);
    assert_eq!(lines.len(), 2);
    assert_eq!(lines[0].0, "1. a");
    assert_eq!(lines[1].0, "2. c");
}

#[test]
fn done_rejects_a_malformed_position() {
    let mut l = list_with(&["a", "b"]);
    assert_eq!(l.done(strings(&["two"])), Err(TodoError::ParseError));
    let lines = lines_of(&l);
    assert_eq!(lines.len(), 2);
    assert!(!lines[0].1);
    assert!(!lines[1].1);
}

#[test]
fn done_rejects_out_of_range_positions() {
    let mut l = list_with(&["a", "b", "c"]);
    assert_eq!(l.done(strings(&["4"])), Err(TodoError::IndexOutOfRange));
    assert_eq!(l.done(strings(&["0"])), Err(TodoError::IndexOutOfRange));
    assert_eq!(l.done(strings(&["-1"])), Err(TodoError::IndexOutOfRange));
    let lines = lines_of(&l);
    assert!(!lines[0].1 && !lines[1].1 && !lines[2].1);
}

#[test]
fn remove_rejects_bad_batches_without_changing_anything() {
    let mut l = list_with(&["a", "b", "c"]);
    assert_eq!(l.remove(strings(&["1", "x"])), Err(TodoError::ParseError));
    assert_eq!(l.remove(strings(&["1", "9"])), Err(TodoError::IndexOutOfRange));
    let lines = lines_of(&l);
    assert_eq!(lines.len(), 3);
    assert_eq!(lines[0].0, "1. a");
    assert_eq!(lines[1].0, "2. b");
    assert_eq!(lines[2].0, "3. c");
}

#[test]
fn positions_outside_the_i32_range_are_parse_errors() {
    let mut l = list_with(&["a"]);
    assert_eq!(l.done(strings(&["2147483648"])), Err(TodoError::ParseError));
    assert_eq!(l.done(strings(&["2147483647"])), Err(TodoError::IndexOutOfRange));
    assert_eq!(l.done(strings(&["-2147483649"])), Err(TodoError::ParseError));
    assert_eq!(l.done(strings(&["-2147483648"])), Err(TodoError::IndexOutOfRange));
    assert_eq!(l.done(strings(&["+1"])), Ok(()));
    assert!(lines_of(&l)[0].1);
}

#[test]
fn full_scenario_add_list_done_remove() {
    let mut l = TodoList::new();
    l.add(&strings(&["buy milk", "walk dog"]));
    let lines = lines_of(&l);
    assert_eq!(lines.len(), 2);
    assert_eq!(lines[0].0, "1. buy milk");
    assert_eq!(lines[1].0, "2. walk dog");
    assert!(!lines[0].1 && !lines[1].1);

    assert_eq!(l.done(strings(&["1"])), Ok(()));
    let lines = lines_of(&l);
    assert!(lines[0].1);
    assert!(!lines[1].1);

    assert_eq!(l.remove(strings(&["2"])), Ok(()));
    let lines = lines_of(&l);
    assert_eq!(lines.len(), 1);
    assert_eq!(lines[0].0, "1. buy milk");
    assert!(lines[0].1);
}

#[test]
fn positions_past_nine_render_with_two_digits() {
    let mut l = TodoList::new();
    let mut items: Vec<String> = Vec::new();
    for k in 0..12 {
        items.push(format!("item{}", k));
    }
    l.add(&items);
    let lines = l.list();
    assert_eq!(lines.len(), 12);
    assert_eq!(lines[9].0, "10. item9");
    assert_eq!(lines[11].0, "12. item11");
}

#[test]
fn signed_zero_is_out_of_range_not_malformed() {
    let mut l = list_with(&["a"]);
    assert_eq!(l.done(strings(&["-0"])), Err(TodoError::IndexOutOfRange));
    assert_eq!(l.done(strings(&["+0"])), Err(TodoError::IndexOutOfRange));
    assert_eq!(l.done(strings(&["--1"])), Err(TodoError::ParseError));
    assert_eq!(l.done(strings(&["1 "])), Err(TodoError::ParseError));
}

#[test]
fn transform_params_reads_every_argument() {
    let r = todo_cli::todo::transform_params_into_index_list(&strings(&["1", "-7", "+20", "007"]));
    assert_eq!(r, Ok(vec![1, -7, 20, 7]));
    let bad = todo_cli::todo::transform_params_into_index_list(&strings(&["1", ""]));
    assert_eq!(bad, Err(TodoError::ParseError));
}
