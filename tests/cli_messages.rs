use risl::args::Args;
use risl::cli_error::Error;

fn strings(xs: &[&str]) -> Vec<String> {
    xs.iter().map(|x| String::from(*x)).collect()
}

#[test]
fn help_wins_over_conflicts() {
    let result = Args::parse_from(&["risl", "-h", "file"]);
    assert_eq!(result, Err(Error::HelpRequested));
}

#[test]
fn no_argument_is_accepted() {
    let result = Args::parse_from(&["risl"]);
    assert_eq!(
        result,
        Ok(Args {
            input_file: None,
            input_command: None,
            input_is_stdin: false,
            interactive: false,
            help: false,
            version: false,
            script_arguments: vec![],
        })
    );
}

#[test]
fn missing_value_wins_over_unexpected() {
    let result = Args::parse_from(&["risl", "-x", "--command"]);
    assert_eq!(result, Err(Error::MissingArgValue(String::from("--command"))));
}

#[test]
fn message_for_one_unexpected_argument() {
    let e = Error::UnexpectedArgs(strings(&["--x"]));
    assert_eq!(e.to_string(), "unexpected argument '--x' found");
}

#[test]
fn message_for_unexpected_arguments() {
    let e = Error::UnexpectedArgs(strings(&["--x", "-y", "-z"]));
    assert_eq!(e.to_string(), "unexpected arguments found: '--x', '-y', '-z'");
}

#[test]
fn message_for_two_conflicting_arguments() {
    let e = Error::ConflictingArgs(strings(&["<file>", "--stdin"]));
    assert_eq!(e.to_string(), "the argument '<file>' cannot be used with '--stdin'");
}

#[test]
fn message_for_three_conflicting_arguments() {
    let e = Error::ConflictingArgs(strings(&["--command=<command>", "<file>", "--stdin"]));
    assert_eq!(
        e.to_string(),
        "the argument '--command=<command>' cannot be used with:\n  <file>\n  --stdin"
    );
}

#[test]
fn message_for_help_is_empty() {
    assert_eq!(Error::HelpRequested.to_string(), "");
}
