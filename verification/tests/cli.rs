use mdview::cli::{command_line_action, inert_argument, CommandLineAction};

fn args(list: &[&str]) -> Vec<String> {
    list.iter().map(|argument| argument.to_string()).collect()
}

#[test]
fn help_and_version_options() {
    assert_eq!(command_line_action(&args(&["mdview", "-h"]), true), Ok(CommandLineAction::Help));
    assert_eq!(command_line_action(&args(&["mdview", "--help"]), true), Ok(CommandLineAction::Help));
    assert_eq!(command_line_action(&args(&["mdview", "-V"]), true), Ok(CommandLineAction::Version));
    assert_eq!(command_line_action(&args(&["mdview", "--version"]), false), Ok(CommandLineAction::Version));
}

#[test]
fn documents_come_from_a_path_or_standard_input() {
    assert_eq!(command_line_action(&args(&["mdview", "README.md"]), true), Ok(CommandLineAction::Path(1)));
    assert_eq!(command_line_action(&args(&["mdview", "-"]), true), Ok(CommandLineAction::StandardInput));
    assert_eq!(command_line_action(&args(&["mdview"]), false), Ok(CommandLineAction::StandardInput));
    assert_eq!(command_line_action(&args(&["mdview", "--", "-notes.md"]), true), Ok(CommandLineAction::Path(2)));
    assert_eq!(command_line_action(&args(&["mdview", "--", "-"]), true), Ok(CommandLineAction::StandardInput));
    assert_eq!(command_line_action(&args(&["mdview", "--"]), false), Ok(CommandLineAction::StandardInput));
}

#[test]
fn usage_errors() {
    let usage = Err("usage: mdview [<document-path> | -]".to_owned());
    assert_eq!(command_line_action(&args(&["mdview"]), true), usage);
    assert_eq!(command_line_action(&args(&["mdview", "--"]), true), usage);
    assert_eq!(command_line_action(&args(&[]), true), usage);
    assert_eq!(
        command_line_action(&args(&["mdview", "a.md", "b.md"]), true),
        Err("expected at most one Document input".to_owned())
    );
    assert_eq!(
        command_line_action(&args(&["mdview", "-h", "extra"]), true),
        Err("expected at most one Document input".to_owned())
    );
    assert_eq!(
        command_line_action(&args(&["mdview", "--bogus"]), true),
        Err("unknown option: --bogus".to_owned())
    );
    assert_eq!(
        command_line_action(&args(&["mdview", "-\u{1b}[31m"]), true),
        Err("unknown option: -\u{fffd}[31m".to_owned())
    );
}

#[test]
fn control_characters_are_made_inert() {
    assert_eq!(inert_argument("a\u{7}b\u{9f}c"), "a\u{fffd}b\u{fffd}c");
    assert_eq!(inert_argument("plain é"), "plain é");
}
