use iced_prompt::commands::{ActionKind, Command, CommandKind, Items, ShellProperties};
use iced_prompt::executor::{classify_output, ExecutionStep};
use iced_prompt::loader::load;

fn leaf(value: &str, shell: Option<&str>, action: ActionKind) -> Command {
    Command {
        value: value.to_string(),
        kind: match shell {
            Some(line) => CommandKind::Shell(ShellProperties { command: line.to_string() }),
            None => CommandKind::Initial,
        },
        icon: None,
        action,
        items: Items { items: Vec::new(), order: Vec::new() },
    }
}

fn make_test_command() -> Command {
    Command {
        value: "Commands".to_string(),
        kind: CommandKind::Initial,
        icon: None,
        action: ActionKind::Exit,
        items: Items {
            items: vec![
                leaf("ls", Some("ls"), ActionKind::Next),
                leaf("pwd", Some("pwd"), ActionKind::Exit),
            ],
            order: vec![0, 1],
        },
    }
}

#[test]
fn it_works() {
    let child = leaf("ls", Some("ls"), ActionKind::Next);
    let command = Command {
        value: "Commands".to_string(),
        kind: CommandKind::Initial,
        icon: None,
        action: ActionKind::Exit,
        items: Items { items: vec![child], order: vec![0] },
    };
    assert_eq!(command.value, "Commands");
}

#[test]
fn deserializes_system_types_json() {
    let data = r#"{
    "type": "Command",
    "value": "Commands",
    "items": {
        "items": {
            "51a57e85-ab02-4111-a4e6-ed30a1dea7b6": {
                "value": "List files: ~",
                "shell": "bb ./scripts/src/file_explorer.clj ~",
                "action": "Next"
            }
        },
        "order": ["51a57e85-ab02-4111-a4e6-ed30a1dea7b6"]
    }
}"#;

    let v: Command = load(data).unwrap();

    assert_eq!(v.value, "Commands");
    assert_eq!(v.items.order.len(), 1);
    let (_, cmd) = v.get_child_command_by_index(0).unwrap();
    assert_eq!(cmd.value, "List files: ~");
}

#[test]
fn deserializes_user_friendly_json() {
    let data = r#"{
    "value": "Commands",
    "items": [
        {
            "value": "List files: ~",
            "shell": "bb ./scripts/src/file_explorer.clj ~",
            "action": "Next"
        }
    ]
}"#;

    let v: Command = load(data).unwrap();

    assert_eq!(v.value, "Commands");
    assert_eq!(v.items.order.len(), 1);
    let (_, cmd) = v.get_child_command_by_index(0).unwrap();
    assert_eq!(cmd.value, "List files: ~");
    assert_eq!(
        cmd.kind,
        CommandKind::Shell(ShellProperties {
            command: "bb ./scripts/src/file_explorer.clj ~".to_string()
        })
    );
}

#[test]
fn deserialize_command_with_defaults() {
    let data = r#"{
    "type": "Command",
    "value": "Commands",
    "kind": "Initial",
    "items": []
}"#;

    let v: Command = load(data).unwrap();

    assert_eq!(v.value, "Commands");
    assert_eq!(v.items.order.len(), 0);
}

#[test]
fn maps_over_items_to_extract_values() {
    let command = make_test_command();

    let command_values = command.map_filter_items(|_, _, cmd| Some(cmd.value.clone()));

    assert_eq!(command_values, vec!["ls".to_string(), "pwd".to_string()]);
}

#[test]
fn filters_by_value() {
    let command = make_test_command();
    let target_id = command.items.order[0];

    let command_values = command.filter_items_by_value("ls");

    assert_eq!(command_values.len(), 1);
    assert_eq!(command_values[0], target_id);
}

#[test]
fn execute_successful_command() {
    let command = leaf("Success", Some("echo \"Success\""), ActionKind::Exit);

    let step = command.execution_step();
    assert_eq!(step, ExecutionStep::NeedsShell("echo \"Success\"".to_string()));

    let result = classify_output(Some(0), "Success\n".to_string(), String::new());
    assert!(result.is_ok());

    let value = result.unwrap();
    assert_eq!(value, "Success");
}

#[test]
fn with_order_keeps_the_arena() {
    let command = make_test_command();
    let reordered = command.with_order(vec![1, 0]);
    assert_eq!(reordered.items.order, vec![1, 0]);
    assert_eq!(reordered.items.items.len(), 2);
    let (id, first) = reordered.get_child_command_by_index(0).unwrap();
    assert_eq!(id, 1);
    assert_eq!(first.value, "pwd");
}

#[test]
fn index_of_child_falls_to_none_when_absent() {
    let command = make_test_command();
    assert_eq!(command.index_of_item_with_id(1), Some(1));
    assert_eq!(command.index_of_item_with_id(7), None);
}
