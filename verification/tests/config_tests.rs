use todo_list::action::Action;
use todo_list::config::Config;

#[test]
fn builds() {
    let arguments = vec!["w/e".to_string(), "add".to_string()];
    let config = Config::build("w/e".to_string(), &arguments).unwrap();

    assert_eq!(Action::Add, config.action);
    assert_eq!(1, config.action_parameters.len());
}

#[test]
fn errors_with_too_few_arguments() {
    let arguments = vec!["w/e".to_string()];
    let config = Config::build("w/e".to_string(), &arguments);

    assert!(config.is_err());
    assert_eq!("No arguments. Nothing to do.", config.unwrap_err());
}

#[test]
fn error_with_unparsable_action() {
    let arguments = vec!["w/e".to_string(), "unknown action".to_string()];
    let config = Config::build("w/e".to_string(), &arguments);

    assert!(config.is_err());
    assert_eq!("Unknown action.", config.unwrap_err());
}

#[test]
fn recognizes_every_action_word_and_alias() {
    assert_eq!(Action::from_str("list"), Ok(Action::List));
    assert_eq!(Action::from_str("l"), Ok(Action::List));
    assert_eq!(Action::from_str("add"), Ok(Action::Add));
    assert_eq!(Action::from_str("a"), Ok(Action::Add));
    assert_eq!(Action::from_str("remove"), Ok(Action::Remove));
    assert_eq!(Action::from_str("r"), Ok(Action::Remove));
    assert_eq!(Action::from_str("complete"), Ok(Action::Complete));
    assert_eq!(Action::from_str("c"), Ok(Action::Complete));
    assert_eq!(Action::from_str("List"), Err("Unknown action."));
    assert_eq!(Action::from_str(""), Err("Unknown action."));
}

#[test]
fn keeps_every_argument_from_the_action_word_on() {
    let arguments = vec![
        "w/e".to_string(),
        "add".to_string(),
        "3".to_string(),
        "mow".to_string(),
        "the lawn".to_string(),
    ];
    let config = Config::build("here".to_string(), &arguments).unwrap();

    assert_eq!(Action::Add, config.action);
    assert_eq!(
        vec![
            "add".to_string(),
            "3".to_string(),
            "mow".to_string(),
            "the lawn".to_string()
        ],
        config.action_parameters
    );
    assert_eq!("here", config.file_directory);
}
