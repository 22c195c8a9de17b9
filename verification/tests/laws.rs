use iced_prompt::commands::{ActionKind, Command, CommandKind, CommandResultError, Items, ShellProperties};
use iced_prompt::executor::{classify_output, ExecutionStep, FatalError, SubmitOutcome};
use iced_prompt::history::History;
use iced_prompt::loader::{load, ParseError};
use iced_prompt::palette::Selection;

fn leaf(value: &str, shell: Option<&str>, action: ActionKind) -> Command {
    Command {
        value: value.to_string(),
        kind: match shell {
            Some(line) => CommandKind::Shell(ShellProperties { command: line.to_string() }),
            None => CommandKind::Initial,
        },
        icon: None,
        action,
        items: Items { items: Vec::new(), order: Vec::new() },
    }
}

fn node_with(values: &[&str]) -> Command {
    Command {
        value: "root".to_string(),
        kind: CommandKind::Initial,
        icon: None,
        action: ActionKind::Exit,
        items: Items {
            items: values.iter().map(|v| leaf(v, None, ActionKind::Exit)).collect(),
            order: (0..values.len()).collect(),
        },
    }
}

#[test]
fn parsed_array_has_fresh_distinct_identifiers() {
    let data = r#"{
    "value": "Commands",
    "items": [
        { "value": "one" },
        { "value": "two" },
        { "value": "three" }
    ]
}"#;
    let v = load(data).unwrap();
    assert_eq!(v.items.order.len(), 3);
    for a in 0..3 {
        for b in 0..3 {
            if a != b {
                assert_ne!(v.items.order[a], v.items.order[b]);
            }
        }
    }
    assert_eq!(v.items.items.len(), 3);
}

#[test]
fn empty_query_restores_natural_order() {
    let command = node_with(&["beta", "alpha", "gamma"]);
    let filtered = command.filter_items_by_value("");
    assert_eq!(filtered, command.items.order);
}

#[test]
fn filter_excludes_and_ranks_by_distance() {
    let command = node_with(&["alpha", "beta", "xyz"]);
    let filtered = command.filter_items_by_value("a");
    // "xyz" holds no "a" and is excluded entirely; "beta" is closer to
    // "a" in edit distance than "alpha", so it ranks first.
    assert_eq!(filtered, vec![1, 0]);
}

#[test]
fn filter_is_case_insensitive() {
    let command = node_with(&["Files", "quit"]);
    let filtered = command.filter_items_by_value("FIL");
    assert_eq!(filtered, vec![0]);
}

#[test]
fn filter_keeps_equal_distances_in_original_order() {
    let command = node_with(&["pwd", "pwd", "ls"]);
    let filtered = command.filter_items_by_value("pwd");
    assert_eq!(filtered, vec![0, 1]);
}

#[test]
fn scroll_offset_steps_by_row_height() {
    let command = node_with(&["a", "b", "c"]);
    assert_eq!(command.scroll_offset_at_index(0), 0);
    let h = command.command_kind_height();
    for k in 1..=3usize {
        assert_eq!(
            command.scroll_offset_at_index(k),
            command.scroll_offset_at_index(k - 1) + h
        );
    }
}

#[test]
fn pop_with_minimum_keeps_the_root() {
    let single = History::default().push(node_with(&["a"]));
    assert_eq!(single.clone().len(), 1);
    assert_eq!(single.pop_with_minimum().len(), 1);

    let double = History::default().push(node_with(&["a"])).push(node_with(&["b"]));
    assert_eq!(double.clone().len(), 2);
    assert_eq!(double.pop_with_minimum().len(), 1);
}

#[test]
fn history_head_and_split() {
    assert!(History::default().head().is_none());
    let h = History::default().push(node_with(&["a"])).push(node_with(&["b", "c"]));
    let head = h.head().unwrap();
    assert_eq!(head.items.order.len(), 2);
    let (top, rest) = h.split().unwrap();
    assert_eq!(top.items.order.len(), 2);
    assert_eq!(rest.len(), 1);
}

#[test]
fn execute_initial_returns_value_unchanged() {
    let command = leaf("Commands", None, ActionKind::Exit);
    assert_eq!(command.execution_step(), ExecutionStep::Ready("Commands".to_string()));
}

#[test]
fn shell_success_trims_trailing_newline() {
    // What `sh -c "echo Success"` hands back: exit code 0 and a trailing
    // newline on standard output.
    let result = classify_output(Some(0), "Success\n".to_string(), String::new());
    assert_eq!(result, Ok("Success".to_string()));
}

#[test]
fn shell_exit_one_fails_with_code() {
    // What `sh -c "exit 1"` hands back: exit code 1 and empty streams.
    let result = classify_output(Some(1), String::new(), String::new());
    assert_eq!(result, Err(CommandResultError::FailedWithCode(String::new(), 1)));
}

#[test]
fn shell_signal_termination_is_an_execution_failure() {
    let result = classify_output(None, String::new(), String::new());
    assert_eq!(
        result,
        Err(CommandResultError::ExecutionFailed(
            "Command terminated by signal".to_string()
        ))
    );
}

#[test]
fn next_action_with_loadable_output_pushes_a_new_head() {
    let node = leaf("chain", Some("true"), ActionKind::Next);
    let output = r#"{
    "value": "submenu",
    "items": [ { "value": "one" }, { "value": "two" } ]
}"#;
    let history = History::default().push(node_with(&["chain"]));
    match node.resolve_action(Ok(output.to_string())) {
        SubmitOutcome::NewHead(new_tree) => {
            assert_eq!(new_tree.items.order.len(), 2);
            let next = history.push(new_tree);
            assert_eq!(next.clone().len(), 2);
            assert_eq!(next.head().unwrap().value, "submenu");
        }
        other => panic!("expected a new head, got {:?}", other),
    }
}

#[test]
fn exit_action_ends_the_session_with_the_output() {
    let node = leaf("done", None, ActionKind::Exit);
    let outcome = node.resolve_action(Ok("final value".to_string()));
    assert_eq!(outcome, SubmitOutcome::FinalValue("final value".to_string()));
}

#[test]
fn exit_action_failure_is_fatal() {
    let node = leaf("done", Some("false"), ActionKind::Exit);
    let err = CommandResultError::FailedWithCode("boom".to_string(), 3);
    let outcome = node.resolve_action(Err(err.clone()));
    assert_eq!(outcome, SubmitOutcome::FatalError(FatalError::Execution(err)));
}

#[test]
fn next_action_with_unparsable_output_is_fatal() {
    let node = leaf("chain", Some("true"), ActionKind::Next);
    match node.resolve_action(Ok("not json".to_string())) {
        SubmitOutcome::FatalError(FatalError::Parse(ParseError::InvalidSyntax)) => {}
        other => panic!("expected a syntax error, got {:?}", other),
    }
    match node.resolve_action(Ok("[1, 2]".to_string())) {
        SubmitOutcome::FatalError(FatalError::Parse(ParseError::InvalidShape)) => {}
        other => panic!("expected a shape error, got {:?}", other),
    }
}

#[test]
fn load_rejects_wrong_field_types() {
    assert_eq!(load(r#"{"value": 42}"#), Err(ParseError::InvalidShape));
    assert_eq!(load(r#"{"value": "ok", "action": "sideways"}"#), Err(ParseError::InvalidShape));
    assert_eq!(load(r#"{"value": "ok", "icon": []}"#), Err(ParseError::InvalidShape));
    assert_eq!(load(r#"{"value": "ok", "items": "nope"}"#), Err(ParseError::InvalidShape));
}

#[test]
fn load_accepts_kind_variants() {
    let structured = load(r#"{"value": "v", "kind": {"shell": "ls -la"}}"#).unwrap();
    assert_eq!(
        structured.kind,
        CommandKind::Shell(ShellProperties { command: "ls -la".to_string() })
    );
    let bare = load(r#"{"value": "v", "shell": "pwd"}"#).unwrap();
    assert_eq!(bare.kind, CommandKind::Shell(ShellProperties { command: "pwd".to_string() }));
    let none = load(r#"{"value": "v"}"#).unwrap();
    assert_eq!(none.kind, CommandKind::Initial);
    let ignored = load(r#"{"value": "v", "kind": {"nonsense": 1}, "unknown_field": true}"#)
        .unwrap();
    assert_eq!(ignored.kind, CommandKind::Initial);
}

#[test]
fn current_view_marks_the_selection() {
    let command = node_with(&["alpha", "beta"]);
    let rows = command.current_view("", &Selection::Initial);
    assert_eq!(rows.len(), 2);
    assert!(rows[0].selected);
    assert!(!rows[1].selected);
    assert_eq!(rows[0].value, "alpha");

    let rows = command.current_view("", &Selection::Selected(1));
    assert!(!rows[0].selected);
    assert!(rows[1].selected);
}

#[test]
fn submit_target_prefers_request_then_selection_then_first() {
    let command = node_with(&["alpha", "beta"]);
    assert_eq!(command.submit_target(&None, &Selection::Initial, Some(1)), Some(1));
    assert_eq!(command.submit_target(&None, &Selection::Selected(1), None), Some(1));
    assert_eq!(command.submit_target(&None, &Selection::Initial, None), Some(0));
    assert_eq!(command.submit_target(&Some(vec![1]), &Selection::Initial, None), Some(1));
    assert_eq!(command.submit_target(&None, &Selection::Initial, Some(9)), None);
    let empty = node_with(&[]);
    assert_eq!(empty.submit_target(&None, &Selection::Initial, None), None);
}

#[test]
fn select_shifted_clamps_at_the_edges() {
    let command = node_with(&["a", "b", "c"]);
    let h = command.command_kind_height();
    assert_eq!(command.select_shifted(&Selection::Initial, 1), Some((1, h)));
    assert_eq!(command.select_shifted(&Selection::Selected(1), 1), Some((2, 2 * h)));
    assert_eq!(command.select_shifted(&Selection::Selected(2), 1), None);
    assert_eq!(command.select_shifted(&Selection::Initial, -1), Some((0, 0)));
    assert_eq!(command.select_shifted(&Selection::Selected(9), 0), Some((0, 0)));
}

#[test]
fn system_shape_order_must_name_known_entries() {
    let missing = r#"{
    "value": "root",
    "items": {
        "items": { "a": { "value": "A" } },
        "order": ["a", "b"]
    }
}"#;
    assert_eq!(load(missing), Err(ParseError::InvalidShape));

    let non_string = r#"{
    "value": "root",
    "items": {
        "items": { "a": { "value": "A" } },
        "order": [0]
    }
}"#;
    assert_eq!(load(non_string), Err(ParseError::InvalidShape));
}

#[test]
fn system_shape_follows_the_order_array() {
    let data = r#"{
    "value": "root",
    "items": {
        "items": {
            "a": { "value": "A" },
            "b": { "value": "B" }
        },
        "order": ["b", "a"]
    }
}"#;
    let v = load(data).unwrap();
    assert_eq!(v.items.order.len(), 2);
    let (_, first) = v.get_child_command_by_index(0).unwrap();
    let (_, second) = v.get_child_command_by_index(1).unwrap();
    assert_eq!(first.value, "B");
    assert_eq!(second.value, "A");
}

#[test]
fn icon_is_kept_and_null_icon_is_none() {
    let v = load(r#"{"value": "v", "icon": "Directory"}"#).unwrap();
    assert_eq!(v.icon, Some("Directory".to_string()));
    let v = load(r#"{"value": "v", "icon": null}"#).unwrap();
    assert_eq!(v.icon, None);
}

#[test]
fn default_command_is_an_empty_exit_node() {
    let d = Command::default();
    assert_eq!(d.value, "");
    assert_eq!(d.kind, CommandKind::Initial);
    assert_eq!(d.action, ActionKind::Exit);
    assert_eq!(d.items.order.len(), 0);
}

#[test]
fn action_aliases_are_accepted() {
    assert_eq!(load(r#"{"value": "v", "action": "Next"}"#).unwrap().action, ActionKind::Next);
    assert_eq!(load(r#"{"value": "v", "action": "next"}"#).unwrap().action, ActionKind::Next);
    assert_eq!(load(r#"{"value": "v", "action": "Exit"}"#).unwrap().action, ActionKind::Exit);
    assert_eq!(load(r#"{"value": "v", "action": "exit"}"#).unwrap().action, ActionKind::Exit);
    assert_eq!(load(r#"{"value": "v"}"#).unwrap().action, ActionKind::Exit);
}
