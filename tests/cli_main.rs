use risl::args::Args;
use risl::cli_error::Error;

fn strings(xs: &[&str]) -> Vec<String> {
    xs.iter().map(|x| String::from(*x)).collect()
}

fn from_stdin_expected() -> Result<Args, Error> {
    Ok(Args {
        input_file: None,
        input_command: None,
        input_is_stdin: true,
        interactive: true,
        help: true,
        version: true,
        script_arguments: vec![],
    })
}

fn from_command_expected() -> Result<Args, Error> {
    Ok(Args {
        input_file: None,
        input_command: Some(String::from("hello")),
        input_is_stdin: false,
        interactive: true,
        help: true,
        version: true,
        script_arguments: vec![],
    })
}

fn from_file_expected() -> Result<Args, Error> {
    Ok(Args {
        input_file: Some(String::from("file")),
        input_command: None,
        input_is_stdin: false,
        interactive: true,
        help: true,
        version: true,
        script_arguments: vec![],
    })
}

#[test]
fn main_short() {
    let result = Args::inner_parse_from(&["risl", "-v", "-h", "-i", "-s"]);
    assert_eq!(result, from_stdin_expected());
}

#[test]
fn main_long() {
    let result = Args::inner_parse_from(&[
        "risl",
        "--version",
        "--help",
        "--interactive",
        "--stdin",
    ]);
    assert_eq!(result, from_stdin_expected());
}

#[test]
fn main_short_from_command() {
    let result = Args::inner_parse_from(&["risl", "-v", "-h", "-i", "-c", "hello"]);
    assert_eq!(result, from_command_expected());
}

#[test]
fn main_long_from_command() {
    let result = Args::inner_parse_from(&[
        "risl",
        "--version",
        "--help",
        "--interactive",
        "--command",
        "hello",
    ]);
    assert_eq!(result, from_command_expected());
}

#[test]
fn main_short_from_file() {
    let result = Args::inner_parse_from(&["risl", "-v", "-h", "-i", "file"]);
    assert_eq!(result, from_file_expected());
}

#[test]
fn main_long_from_file() {
    let result = Args::inner_parse_from(&[
        "risl",
        "--version",
        "--help",
        "--interactive",
        "file",
    ]);
    assert_eq!(result, from_file_expected());
}

#[test]
fn main_one_unexpected() {
    let result: Result<Args, Error> = Args::parse_from(&["risl", "--unexpected"]);
    assert_eq!(result, Err(Error::UnexpectedArgs(strings(&["--unexpected"]))));
}

#[test]
fn main_multiple_unexpected() {
    let result: Result<Args, Error> = Args::parse_from(&["risl", "--unexpected1", "-u2"]);
    assert_eq!(
        result,
        Err(Error::UnexpectedArgs(strings(&["--unexpected1", "-u2"])))
    );
}

#[test]
fn main_multiple_unexpected_with_expected() {
    let result: Result<Args, Error> =
        Args::parse_from(&["risl", "-i", "--unexpected1", "-u2", "-v"]);
    assert_eq!(
        result,
        Err(Error::UnexpectedArgs(strings(&["--unexpected1", "-u2"])))
    );
}

#[test]
fn main_from_stdin() {
    let result = Args::inner_parse_from(&["risl", "-i", "-v", "-s", "-c", "hello"]);
    assert_eq!(
        result,
        Ok(Args {
            input_file: None,
            input_command: None,
            input_is_stdin: true,
            interactive: true,
            help: false,
            version: true,
            script_arguments: strings(&["-c", "hello"]),
        })
    );
}

#[test]
fn main_from_stdin_escaped() {
    let result = Args::inner_parse_from(&["risl", "-i", "-v", "-s", "--", "-c", "hello"]);
    assert_eq!(
        result,
        Ok(Args {
            input_file: None,
            input_command: None,
            input_is_stdin: true,
            interactive: true,
            help: false,
            version: true,
            script_arguments: strings(&["-c", "hello"]),
        })
    );
}

#[test]
fn main_from_command() {
    let result =
        Args::inner_parse_from(&["risl", "-i", "-v", "-c", "hello", "-s", "-u", "hello"]);
    assert_eq!(
        result,
        Ok(Args {
            input_file: None,
            input_command: Some(String::from("hello")),
            input_is_stdin: false,
            interactive: true,
            help: false,
            version: true,
            script_arguments: strings(&["-s", "-u", "hello"]),
        })
    );
}

#[test]
fn main_from_command_escaped() {
    let result = Args::inner_parse_from(&[
        "risl", "-i", "-v", "-c", "hello", "--", "-s", "-u", "hello",
    ]);
    assert_eq!(
        result,
        Ok(Args {
            input_file: None,
            input_command: Some(String::from("hello")),
            input_is_stdin: false,
            interactive: true,
            help: false,
            version: true,
            script_arguments: strings(&["-s", "-u", "hello"]),
        })
    );
}

#[test]
fn main_from_file() {
    let args = Args::parse_from(&["risl", "file", "hello", "-h"]);
    assert_eq!(
        args,
        Ok(Args {
            input_file: Some(String::from("file")),
            input_command: None,
            input_is_stdin: false,
            interactive: false,
            help: false,
            version: false,
            script_arguments: strings(&["hello", "-h"]),
        })
    );
}

#[test]
fn main_from_file_escaped() {
    let args = Args::parse_from(&["risl", "file", "--", "hello", "-h"]);
    assert_eq!(
        args,
        Ok(Args {
            input_file: Some(String::from("file")),
            input_command: None,
            input_is_stdin: false,
            interactive: false,
            help: false,
            version: false,
            script_arguments: strings(&["hello", "-h"]),
        })
    );
}

#[test]
fn main_missing_input_command() {
    let args = Args::parse_from(&["risl", "-c"]);
    assert_eq!(args, Err(Error::MissingArgValue(String::from("--command"))));
}

#[test]
fn main_file_stdin() {
    let result = Args {
        input_file: Some(String::from("file")),
        input_command: None,
        input_is_stdin: true,
        interactive: false,
        help: false,
        version: false,
        script_arguments: vec![],
    };
    assert_eq!(
        result.validate(),
        Err(Error::ConflictingArgs(strings(&["<file>", "--stdin"]))),
    );
}

#[test]
fn main_command_stdin() {
    let result = Args {
        input_file: None,
        input_command: Some(String::from("hello")),
        input_is_stdin: true,
        interactive: false,
        help: false,
        version: false,
        script_arguments: vec![],
    };
    assert_eq!(
        result.validate(),
        Err(Error::ConflictingArgs(strings(&[
            "--command=<command>",
            "--stdin"
        ]))),
    );
}

#[test]
fn main_command_file() {
    let result = Args {
        input_file: Some(String::from("file")),
        input_command: Some(String::from("hello")),
        input_is_stdin: false,
        interactive: false,
        help: false,
        version: false,
        script_arguments: vec![],
    };
    assert_eq!(
        result.validate(),
        Err(Error::ConflictingArgs(strings(&[
            "--command=<command>",
            "<file>"
        ]))),
    );
}

#[test]
fn main_command_file_stdin() {
    let result = Args {
        input_file: Some(String::from("file")),
        input_command: Some(String::from("hello")),
        input_is_stdin: true,
        interactive: false,
        help: false,
        version: false,
        script_arguments: vec![],
    };
    assert_eq!(
        result.validate(),
        Err(Error::ConflictingArgs(strings(&[
            "--command=<command>",
            "<file>",
            "--stdin"
        ]))),
    );
}
