use todo_list::action::Action;
use todo_list::action_handler::{
    create_table_data, handle_action, handle_add, handle_list, handle_remove, ActionOutcome,
};
use todo_list::config::Config;
use todo_list::parser::parse_task_file;
use todo_list::task::Task;
use todo_list::ActionError;

fn add_params(task: &Task) -> Vec<String> {
    let mut params = vec!["add".to_string()];
    params.extend(task.to_string_vector());
    params
}

fn assert_task(expected_task: &Task, actual_task: &Task) {
    assert_eq!(expected_task.priority, actual_task.priority);
    assert_eq!(expected_task.description, actual_task.description);
}

#[test]
fn tasks_get_written_to_file() {
    let task_one = Task {
        priority: 1,
        description: "First".to_string(),
    };
    let task_two = Task {
        priority: 2,
        description: "Second".to_string(),
    };

    let first = handle_action(
        Config {
            action: Action::Add,
            action_parameters: add_params(&task_one),
            file_directory: "w/e".to_string(),
        },
        None,
    )
    .unwrap();
    let content_after_one = match first {
        ActionOutcome::Write(content) => content,
        ActionOutcome::Table(_) => panic!("expected new file contents"),
    };

    let second = handle_action(
        Config {
            action: Action::Add,
            action_parameters: add_params(&task_two),
            file_directory: "w/e".to_string(),
        },
        Some(&content_after_one),
    )
    .unwrap();
    let content_after_two = match second {
        ActionOutcome::Write(content) => content,
        ActionOutcome::Table(_) => panic!("expected new file contents"),
    };

    let tasks = parse_task_file(&content_after_two).unwrap();

    assert!(tasks.len() == 2);
    assert_task(&task_one, &tasks[0]);
    assert_task(&task_two, &tasks[1]);
}

#[test]
fn creates_table_data() {
    let task_one = Task {
        priority: 1,
        description: "First".to_string(),
    };
    let task_two = Task {
        priority: 2,
        description: "Second".to_string(),
    };
    let tasks = vec![task_one.clone(), task_two.clone()];

    let table_data = create_table_data(tasks.clone());

    assert_eq!(2, table_data.len());
    assert_eq!(tasks.len(), table_data.len());
    assert_row(&table_data[0], task_one, 0);
    assert_row(&table_data[1], task_two, 1);
}

fn assert_row(table_row: &Vec<String>, task: Task, index: i32) {
    assert_eq!(3, table_row.len());
    assert_eq!(index.to_string(), table_row[0]);
    assert_eq!(task.priority.to_string(), table_row[1]);
    assert_eq!(task.description, table_row[2]);
}

#[test]
fn add_sorts_stably() {
    // Priorities added in the order 3, 1, 1, 2 come out 1, 1, 2, 3,
    // and the two priority-1 tasks keep their insertion order.
    let entries = [
        (3, "third"),
        (1, "first one"),
        (1, "first two"),
        (2, "second"),
    ];
    let mut content: Option<String> = None;
    for (priority, description) in entries {
        let params = vec![
            "add".to_string(),
            priority.to_string(),
            description.to_string(),
        ];
        content = Some(handle_add(content.as_deref(), params).unwrap());
    }
    let tasks = parse_task_file(&content.unwrap()).unwrap();
    let shown: Vec<(i32, &str)> = tasks
        .iter()
        .map(|t| (t.priority, t.description.as_str()))
        .collect();
    assert_eq!(
        shown,
        vec![
            (1, "first one"),
            (1, "first two"),
            (2, "second"),
            (3, "third")
        ]
    );
}

#[test]
fn list_is_idempotent() {
    let content = "2 beta\n1 alpha\n";
    let first = handle_list(Some(content)).unwrap();
    let second = handle_list(Some(content)).unwrap();
    assert_eq!(first, second);
}

#[test]
fn list_shows_sorted_display_ids() {
    let rows = handle_list(Some("1 First\n2 Second\n")).unwrap();
    assert_eq!(
        rows,
        vec![
            vec!["0".to_string(), "1".to_string(), "First".to_string()],
            vec!["1".to_string(), "2".to_string(), "Second".to_string()],
        ]
    );
}

#[test]
fn remove_by_displayed_id() {
    let content = "1 First\n2 Second\n";
    let rows = handle_list(Some(content)).unwrap();
    assert_eq!(rows[0][0], "0");
    assert_eq!(rows[0][2], "First");
    assert_eq!(rows[1][0], "1");
    assert_eq!(rows[1][2], "Second");

    let new_content = handle_remove(
        Some(content),
        vec!["remove".to_string(), "1".to_string()],
    )
    .unwrap();
    assert_eq!(new_content, "1 First\n");
}

#[test]
fn missing_file_reads_as_empty_list() {
    let rows = handle_list(None).unwrap();
    assert!(rows.is_empty());

    let created = handle_add(
        None,
        vec!["add".to_string(), "5".to_string(), "begin".to_string()],
    )
    .unwrap();
    assert_eq!(created, "5 begin\n");
}

#[test]
fn malformed_line_fails_list_and_add() {
    let content = "not a task\n";
    assert_eq!(
        handle_list(Some(content)),
        Err(ActionError::MalformedLine("not a task".to_string()))
    );
    assert_eq!(
        handle_add(
            Some(content),
            vec!["add".to_string(), "1".to_string(), "x".to_string()]
        ),
        Err(ActionError::MalformedLine("not a task".to_string()))
    );
}

#[test]
fn out_of_range_remove_fails() {
    let content = "1 First\n2 Second\n";
    let error = handle_remove(
        Some(content),
        vec!["remove".to_string(), "99".to_string()],
    );
    assert_eq!(error, Err(ActionError::IndexOutOfRange));
}

#[test]
fn remove_rejects_bad_arguments() {
    let content = "1 First\n";
    assert_eq!(
        handle_remove(Some(content), vec!["remove".to_string()]),
        Err(ActionError::InvalidArguments)
    );
    assert_eq!(
        handle_remove(
            Some(content),
            vec!["remove".to_string(), "0".to_string(), "extra".to_string()]
        ),
        Err(ActionError::InvalidArguments)
    );
    assert_eq!(
        handle_remove(Some(content), vec!["remove".to_string(), "zero".to_string()]),
        Err(ActionError::InvalidArguments)
    );
    assert_eq!(
        handle_remove(Some(content), vec!["remove".to_string(), "-1".to_string()]),
        Err(ActionError::InvalidArguments)
    );
}

#[test]
fn add_rejects_bad_arguments() {
    assert_eq!(
        handle_add(None, vec!["add".to_string()]),
        Err(ActionError::InvalidArguments)
    );
    assert_eq!(
        handle_add(None, vec!["add".to_string(), "1".to_string()]),
        Err(ActionError::InvalidArguments)
    );
    assert_eq!(
        handle_add(
            None,
            vec!["add".to_string(), "soon".to_string(), "x".to_string()]
        ),
        Err(ActionError::InvalidArguments)
    );
}

#[test]
fn handle_action_dispatches_to_listing() {
    let outcome = handle_action(
        Config {
            action: Action::List,
            action_parameters: vec!["list".to_string()],
            file_directory: "w/e".to_string(),
        },
        Some("1 only\n"),
    )
    .unwrap();
    match outcome {
        ActionOutcome::Table(rows) => {
            assert_eq!(
                rows,
                vec![vec![
                    "0".to_string(),
                    "1".to_string(),
                    "only".to_string()
                ]]
            );
        }
        ActionOutcome::Write(_) => panic!("expected table rows"),
    }
}

#[test]
fn handle_action_dispatches_to_removal() {
    let outcome = handle_action(
        Config {
            action: Action::Remove,
            action_parameters: vec!["remove".to_string(), "0".to_string()],
            file_directory: "w/e".to_string(),
        },
        Some("2 stays\n1 goes\n"),
    )
    .unwrap();
    match outcome {
        ActionOutcome::Write(content) => assert_eq!(content, "2 stays\n"),
        ActionOutcome::Table(_) => panic!("expected new file contents"),
    }
}
