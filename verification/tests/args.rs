use sleep_progress::{Args, CliError};

#[test]
fn parse_help() {
    let result = Args::try_parse_from(&[" ", "-h"]);
    assert!(result.is_err());
}

#[test]
fn parse_long_help() {
    let result = Args::try_parse_from(&[" ", "--help"]);
    assert!(result.is_err());
}

#[test]
fn parse_unknown_args() {
    let result = Args::try_parse_from(&[" ", "-t"]);
    assert!(result.is_err());
}

#[test]
fn parse_cli_arg() {
    let result = Args::try_parse_from(&[" ", "34"]);
    assert!(result.is_ok());
}

#[test]
fn parse_cli_args() {
    let result = Args::try_parse_from(&[" ", "34", "6.4"]);
    assert!(result.is_ok());
}

#[test]
fn parse_cli_arg_progress() {
    let result = Args::try_parse_from(&[" ", "34", "-p"]);
    assert!(result.is_ok());
}

#[test]
fn parse_cli_args_progress() {
    let result = Args::try_parse_from(&[" ", "34", "6.4", "-p"]);
    assert!(result.is_ok());
}

#[test]
fn parse_cli_arg_unknown_args() {
    let result = Args::try_parse_from(&[" ", "34", " ", "-t"]);
    assert!(result.is_err());
}

#[test]
fn parse_cli_args_unknown_args() {
    let result = Args::try_parse_from(&[" ", "34", "6.4", " ", "-t"]);
    assert!(result.is_err());
}

#[test]
fn parse_cli_arg_progress_unknown_args() {
    let result = Args::try_parse_from(&[" ", "34", "-p", " ", "-t"]);
    assert!(result.is_err());
}

#[test]
fn parse_cli_args_progress_unknown_args() {
    let result = Args::try_parse_from(&[" ", "34", "6.4", "-p", " ", "-t"]);
    assert!(result.is_err());
}

#[test]
fn parse_help_variant() {
    assert_eq!(Args::try_parse_from(&[" ", "-h"]).err(), Some(CliError::Help));
    assert_eq!(Args::try_parse_from(&[" ", "--help"]).err(), Some(CliError::Help));
}

#[test]
fn parse_version_variant() {
    assert_eq!(Args::try_parse_from(&[" ", "-V"]).err(), Some(CliError::Version));
    assert_eq!(Args::try_parse_from(&[" ", "--version"]).err(), Some(CliError::Version));
}

#[test]
fn parse_unknown_variant() {
    assert_eq!(Args::try_parse_from(&[" ", "-t"]).err(), Some(CliError::UnknownArgument));
    assert_eq!(Args::try_parse_from(&[" ", "--tempo", "1"]).err(), Some(CliError::UnknownArgument));
}

#[test]
fn parse_no_positional_is_rejected() {
    assert_eq!(Args::try_parse_from(&[" "]).err(), Some(CliError::MissingNumber));
    assert_eq!(Args::try_parse_from(&[" ", "-p"]).err(), Some(CliError::MissingNumber));
    assert_eq!(Args::try_parse_from(&[]).err(), Some(CliError::MissingNumber));
}

#[test]
fn parse_first_special_wins() {
    assert_eq!(Args::try_parse_from(&[" ", "-h", "-t"]).err(), Some(CliError::Help));
    assert_eq!(Args::try_parse_from(&[" ", "-t", "-h"]).err(), Some(CliError::UnknownArgument));
}

#[test]
fn parse_collects_positionals_in_order() {
    let args = Args::try_parse_from(&[" ", "34", "-p", "6.4"]).unwrap();
    assert_eq!(args.number, vec!["34".to_string(), "6.4".to_string()]);
    assert!(args.progress);
}

#[test]
fn parse_without_progress_flag() {
    let args = Args::try_parse_from(&[" ", "34"]).unwrap();
    assert_eq!(args.number, vec!["34".to_string()]);
    assert!(!args.progress);
}

#[test]
fn parse_single_dash_is_positional() {
    let args = Args::try_parse_from(&[" ", "-"]).unwrap();
    assert_eq!(args.number, vec!["-".to_string()]);
}
