use calmake::cli::{parse_args, Action, CliError};

fn args(v: &[&str]) -> Vec<String> {
    v.iter().map(|s| s.to_string()).collect()
}

#[test]
fn commands_and_defaults() {
    match parse_args(&args(&["init"])).unwrap() {
        (false, Action::Init { project }) => assert_eq!(project, "calmake-hello"),
        other => panic!("{other:?}"),
    }
    match parse_args(&args(&["init", "demo", "extra"])).unwrap() {
        (false, Action::Init { project }) => assert_eq!(project, "demo"),
        other => panic!("{other:?}"),
    }
    assert!(matches!(parse_args(&args(&["graph"])).unwrap(), (false, Action::Graph)));
    assert!(matches!(parse_args(&args(&["build"])).unwrap(), (false, Action::Build)));
    assert!(matches!(parse_args(&args(&["compdb"])).unwrap(), (false, Action::Compdb)));
    match parse_args(&args(&["clean"])).unwrap() {
        (false, Action::Clean { project, current_dir }) => {
            assert_eq!(project, "./");
            assert!(current_dir);
        }
        other => panic!("{other:?}"),
    }
    match parse_args(&args(&["clean", "proj"])).unwrap() {
        (false, Action::Clean { project, current_dir }) => {
            assert_eq!(project, "proj");
            assert!(!current_dir);
        }
        other => panic!("{other:?}"),
    }
}

#[test]
fn verbose_flags_anywhere() {
    assert!(matches!(parse_args(&args(&["-v", "build"])).unwrap(), (true, Action::Build)));
    match parse_args(&args(&["init", "--verbose", "p"])).unwrap() {
        (true, Action::Init { project }) => assert_eq!(project, "p"),
        other => panic!("{other:?}"),
    }
}

#[test]
fn unknown_or_missing_command() {
    match parse_args(&args(&["frobnicate"])) {
        Err(CliError::UnknownCommand { command }) => assert_eq!(command, "frobnicate"),
        other => panic!("{other:?}"),
    }
    assert!(matches!(parse_args(&args(&[])), Err(CliError::NoCommand)));
    assert!(matches!(parse_args(&args(&["-v"])), Err(CliError::NoCommand)));
}
