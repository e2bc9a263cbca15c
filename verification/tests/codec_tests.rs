use todo_list::codec::{encode_task, encode_tasks};
use todo_list::num::{i32_to_string, parse_i32, parse_usize, usize_to_string};
use todo_list::parser::parse_task;
use todo_list::task::Task;

#[test]
fn encodes_one_task_per_line() {
    let task = Task {
        priority: -12,
        description: "pay the bill".to_string(),
    };
    assert_eq!(encode_task(&task), "-12 pay the bill\n");
}

#[test]
fn encodes_tasks_in_the_order_given() {
    let tasks = vec![
        Task {
            priority: 1,
            description: "one".to_string(),
        },
        Task {
            priority: 2,
            description: "two".to_string(),
        },
    ];
    assert_eq!(encode_tasks(&tasks), "1 one\n2 two\n");
}

#[test]
fn decode_inverts_encode() {
    let cases = [
        (0, "zero"),
        (42, "a plain task"),
        (-7, "a negative priority"),
        (i32::MAX, "the largest priority"),
        (i32::MIN, "the smallest priority"),
    ];
    for (priority, description) in cases {
        let task = Task {
            priority,
            description: description.to_string(),
        };
        let line = encode_task(&task);
        let trimmed = line.strip_suffix('\n').unwrap();
        let reparsed = parse_task(trimmed).unwrap();
        assert_eq!(task, reparsed);
    }
}

#[test]
fn task_fields_become_display_strings() {
    let task = Task {
        priority: -3,
        description: "call home".to_string(),
    };
    assert_eq!(
        task.to_string_vector(),
        vec!["-3".to_string(), "call home".to_string()]
    );
}

#[test]
fn builds_a_task_from_action_parameters() {
    let params = vec![
        "add".to_string(),
        "4".to_string(),
        "walk".to_string(),
        "the dog".to_string(),
    ];
    let task = Task::build(params).unwrap();
    assert_eq!(task.priority, 4);
    assert_eq!(task.description, "walk the dog");
}

#[test]
fn prints_numerals_exactly() {
    assert_eq!(i32_to_string(0), "0");
    assert_eq!(i32_to_string(905), "905");
    assert_eq!(i32_to_string(-1), "-1");
    assert_eq!(i32_to_string(i32::MIN), "-2147483648");
    assert_eq!(i32_to_string(i32::MAX), "2147483647");
    assert_eq!(usize_to_string(0), "0");
    assert_eq!(usize_to_string(10), "10");
}

#[test]
fn parses_numerals_exactly() {
    assert_eq!(parse_i32("0"), Some(0));
    assert_eq!(parse_i32("-0"), Some(0));
    assert_eq!(parse_i32("+17"), Some(17));
    assert_eq!(parse_i32("-2147483648"), Some(i32::MIN));
    assert_eq!(parse_i32("2147483648"), None);
    assert_eq!(parse_i32(""), None);
    assert_eq!(parse_i32("+"), None);
    assert_eq!(parse_i32("1 2"), None);
    assert_eq!(parse_i32("12a"), None);

    assert_eq!(parse_usize("3"), Some(3));
    assert_eq!(parse_usize("+3"), Some(3));
    assert_eq!(parse_usize("-3"), None);
    assert_eq!(parse_usize(""), None);
    assert_eq!(parse_usize("007"), Some(7));
}
