use todo_list::parser::{parse_task, parse_task_file, ParseFileError};
use todo_list::task::Task;

#[test]
fn parses_task_file_correctly() {
    let task1 = Task {
        priority: 1,
        description: "First Task".to_string(),
    };
    let task2 = Task {
        priority: 1,
        description: "Second Task".to_string(),
    };
    let task3 = Task {
        priority: 2,
        description: "Third Task".to_string(),
    };

    let mut content = String::new();
    content.push_str(&format!("{} {}\n", task1.priority, task1.description));
    content.push_str(&format!("{} {}\n", task2.priority, task2.description));
    content.push_str(&format!("{} {}\n", task3.priority, task3.description));

    let tasks = parse_task_file(&content).unwrap();

    assert!(tasks.len() == 3);
    assert_eq!(task1, tasks[0]);
    assert_eq!(task2, tasks[1]);
    assert_eq!(task3, tasks[2]);
}

#[test]
fn returns_correct_error_if_line_parsing_fails() {
    let content = format!("{} {} {}\n", "a", "b", "description");

    let tasks_error = parse_task_file(&content);

    if let Err(ParseFileError::InvalidLine(_)) = tasks_error {
        assert!(true);
    } else {
        panic!("Expected an InvalidLine error");
    }
}

#[test]
fn rejects_a_line_with_no_tokens() {
    let error = parse_task_file("\n");
    assert_eq!(
        error,
        Err(ParseFileError::InvalidLine("".to_string()))
    );

    let blank = parse_task_file("   \n");
    assert_eq!(
        blank,
        Err(ParseFileError::InvalidLine("   ".to_string()))
    );
}

#[test]
fn rejects_a_line_with_only_a_priority() {
    let error = parse_task_file("7\n");
    assert_eq!(error, Err(ParseFileError::InvalidLine("7".to_string())));
}

#[test]
fn rejects_a_non_integer_first_token() {
    let error = parse_task_file("soon dentist\n");
    assert_eq!(
        error,
        Err(ParseFileError::InvalidLine("soon dentist".to_string()))
    );
}

#[test]
fn stops_at_the_first_bad_line() {
    let error = parse_task_file("1 fine\nbad line\n2 also fine\n");
    assert_eq!(
        error,
        Err(ParseFileError::InvalidLine("bad line".to_string()))
    );
}

#[test]
fn empty_contents_hold_no_tasks() {
    let tasks = parse_task_file("").unwrap();
    assert!(tasks.is_empty());
}

#[test]
fn parses_one_line() {
    let task = parse_task("-3 water   the plants").unwrap();
    assert_eq!(
        task,
        Task {
            priority: -3,
            description: "water the plants".to_string(),
        }
    );
}

#[test]
fn collapses_whitespace_runs_in_a_line() {
    let task = parse_task("  5\t\ttwo  words ").unwrap();
    assert_eq!(
        task,
        Task {
            priority: 5,
            description: "two words".to_string(),
        }
    );
}

#[test]
fn accepts_signed_and_zero_padded_priorities() {
    assert_eq!(parse_task("+4 up").unwrap().priority, 4);
    assert_eq!(parse_task("007 bond").unwrap().priority, 7);
    assert_eq!(parse_task("-2147483648 floor").unwrap().priority, i32::MIN);
    assert_eq!(parse_task("2147483647 ceiling").unwrap().priority, i32::MAX);
}

#[test]
fn rejects_a_priority_out_of_range() {
    assert!(parse_task("2147483648 too big").is_err());
    assert!(parse_task("-2147483649 too small").is_err());
    assert!(parse_task("99999999999999999999 way out").is_err());
}
