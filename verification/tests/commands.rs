use fiducia_cli::commands::Command;
use fiducia_cli::error::ErrorKind;
use fiducia_cli::CliError;

#[test]
fn closest_is_an_alias_for_region() {
    assert!(matches!(Command::parse("closest"), Ok(Command::Region)));
    assert!(matches!(Command::parse("region"), Ok(Command::Region)));
}

#[test]
fn unknown_commands_are_usage_errors() {
    let error = Command::parse("deploy").unwrap_err();
    assert_eq!(error.exit_code(), 2);
}

#[test]
fn every_command_parses_back_from_its_name() {
    for command in Command::ALL {
        assert_eq!(Command::parse(command.name()).unwrap(), command);
    }
    assert_eq!(
        Command::ALL.map(|c| c.name()),
        ["region", "regions", "health", "completion", "version"]
    );
}

#[test]
fn unknown_command_message_names_the_label() {
    let error = Command::parse("deploy").unwrap_err();
    assert_eq!(error.kind, ErrorKind::Usage);
    assert_eq!(error.message, "unknown command: deploy");
    assert!(error.wants_help());
}

#[test]
fn exit_codes_follow_the_error_kind() {
    let usage = CliError::usage("u".to_string());
    let config = CliError::config("c".to_string());
    let runtime = CliError::runtime("r".to_string());
    assert_eq!(usage.exit_code(), 2);
    assert_eq!(config.exit_code(), 3);
    assert_eq!(runtime.exit_code(), 1);
    assert!(usage.wants_help());
    assert!(!config.wants_help());
    assert!(!runtime.wants_help());
}
