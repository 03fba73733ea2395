use todo_store::cli::{parse_command, parse_id, CliError, Command};

fn words(parts: &[&str]) -> Vec<String> {
    parts.iter().map(|p| String::from(*p)).collect()
}

#[test]
fn no_arguments_asks_for_help() {
    assert!(matches!(parse_command(&Vec::new()), Ok(Command::Help)));
    assert!(matches!(parse_command(&words(&["help"])), Ok(Command::Help)));
}

#[test]
fn add_joins_the_words() {
    match parse_command(&words(&["add", "Buy", "fresh", "milk"])) {
        Ok(Command::Add(d)) => assert_eq!(d, "Buy fresh milk"),
        _ => panic!("expected an add command"),
    }
}

#[test]
fn add_without_description_is_refused() {
    assert!(matches!(parse_command(&words(&["add"])), Err(CliError::NoDescription)));
}

#[test]
fn remove_takes_a_number() {
    assert!(matches!(parse_command(&words(&["remove", "12"])), Ok(Command::Remove(12))));
}

#[test]
fn remove_without_id_is_refused() {
    assert!(matches!(parse_command(&words(&["remove"])), Err(CliError::NoId)));
}

#[test]
fn remove_with_letters_is_refused() {
    assert!(matches!(parse_command(&words(&["remove", "abc"])), Err(CliError::InvalidId)));
    assert!(matches!(parse_command(&words(&["remove", ""])), Err(CliError::InvalidId)));
    assert!(matches!(parse_command(&words(&["remove", "-3"])), Err(CliError::InvalidId)));
    assert!(matches!(parse_command(&words(&["remove", "1x"])), Err(CliError::InvalidId)));
}

#[test]
fn view_is_recognised() {
    assert!(matches!(parse_command(&words(&["view"])), Ok(Command::View)));
}

#[test]
fn unknown_command_is_refused() {
    assert!(matches!(parse_command(&words(&["destroy"])), Err(CliError::UnknownCommand)));
}

#[test]
fn id_parsing_checks_digits_and_range() {
    assert_eq!(parse_id("0"), Some(0));
    assert_eq!(parse_id("007"), Some(7));
    assert_eq!(parse_id(&usize::MAX.to_string()), Some(usize::MAX));
    assert_eq!(parse_id("999999999999999999999999999999"), None);
    assert_eq!(parse_id("1.5"), None);
    assert_eq!(parse_id(" 1"), None);
}
