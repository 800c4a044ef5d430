//! The command line: which Document to read, or help and version.
use crate::text::{chars_eq, chars_of, is_control, is_control_char, string_of};
use vstd::prelude::*;

verus! {

/// What the command line asks for.
#[derive(Clone, Copy, Debug, PartialEq, Eq, Structural)]
pub enum CommandLineAction {
    Help,
    Version,
    /// Read the Document at the argument with this index.
    Path(usize),
    StandardInput,
}

/// The message for a command line without a Document.
pub open spec fn usage_error() -> Seq<char> {
    "usage: mdview [<document-path> | -]"@
}

/// The message for more than one Document.
pub open spec fn extra_input_error() -> Seq<char> {
    "expected at most one Document input"@
}

/// An argument made safe to show: control characters become U+FFFD.
pub open spec fn inert_text(s: Seq<char>) -> Seq<char> {
    Seq::new(s.len(), |i: int| if is_control(s[i]) { '\u{fffd}' } else { s[i] })
}

/// The action and how many arguments it takes, counting the program's name.
pub open spec fn parse_spec(args: Seq<Seq<char>>, stdin_is_terminal: bool) -> Result<(CommandLineAction, int), Seq<char>> {
    if args.len() <= 1 {
        if !stdin_is_terminal { Ok((CommandLineAction::StandardInput, 1)) } else { Err(usage_error()) }
    } else {
        let option = args[1];
        if option == "-h"@ || option == "--help"@ {
            Ok((CommandLineAction::Help, 2))
        } else if option == "-V"@ || option == "--version"@ {
            Ok((CommandLineAction::Version, 2))
        } else if option == "--"@ {
            if args.len() <= 2 {
                if !stdin_is_terminal { Ok((CommandLineAction::StandardInput, 2)) } else { Err(usage_error()) }
            } else if args[2] == "-"@ {
                Ok((CommandLineAction::StandardInput, 3))
            } else {
                Ok((CommandLineAction::Path(2), 3))
            }
        } else if option == "-"@ {
            Ok((CommandLineAction::StandardInput, 2))
        } else if option.len() > 0 && option[0] == '-' {
            Err("unknown option: "@ + inert_text(option))
        } else {
            Ok((CommandLineAction::Path(1), 2))
        }
    }
}

/// The action of a command line (the program's name first): help, the
/// version, a path, or standard input (`-`, or nothing when standard input
/// is not a terminal); `--` ends the options; unknown options, a missing
/// Document on a terminal, and extra arguments are refused.
pub open spec fn action_spec(args: Seq<Seq<char>>, stdin_is_terminal: bool) -> Result<CommandLineAction, Seq<char>> {
    match parse_spec(args, stdin_is_terminal) {
        Err(e) => Err(e),
        Ok((action, used)) => if args.len() > used { Err(extra_input_error()) } else { Ok(action) },
    }
}

/// An argument made safe to show in a message.
pub fn inert_argument(argument: &str) -> (r: String)
    ensures
        r@ == inert_text(argument@),
{
    let chars = chars_of(argument);
    let mut out: Vec<char> = Vec::new();
    let mut i: usize = 0;
    while i < chars.len()
        invariant
            i <= chars@.len(),
            out@ =~= inert_text(chars@.take(i as int)),
        decreases chars.len() - i,
    {
        let c = chars[i];
        out.push(if is_control_char(c) { '\u{fffd}' } else { c });
        i = i + 1;
    }
    assert(chars@.take(chars@.len() as int) =~= chars@);
    string_of(&out)
}

fn is_text(arg: &String, text: &str) -> (r: bool)
    ensures
        r == (arg@ == text@),
{
    chars_eq(&chars_of(arg.as_str()), &chars_of(text))
}

/// Decides what a command line asks for.
pub fn command_line_action(arguments: &Vec<String>, standard_input_is_terminal: bool) -> (r: Result<CommandLineAction, String>)
    ensures
        match (r, action_spec(arguments.deep_view(), standard_input_is_terminal)) {
            (Ok(a), Ok(b)) => a == b,
            (Err(m), Err(e)) => m@ == e,
            _ => false,
        },
{
    let ghost args = arguments.deep_view();
    let n = arguments.len();
    assert(args.len() == n);
    let parsed: Result<(CommandLineAction, usize), String> = if n <= 1 {
        if !standard_input_is_terminal {
            Ok((CommandLineAction::StandardInput, 1))
        } else {
            Err(string_of(&chars_of("usage: mdview [<document-path> | -]")))
        }
    } else {
        let option = &arguments[1];
        assert(args[1] == option@);
        if is_text(option, "-h") || is_text(option, "--help") {
            Ok((CommandLineAction::Help, 2))
        } else if is_text(option, "-V") || is_text(option, "--version") {
            Ok((CommandLineAction::Version, 2))
        } else if is_text(option, "--") {
            if n <= 2 {
                if !standard_input_is_terminal {
                    Ok((CommandLineAction::StandardInput, 2))
                } else {
                    Err(string_of(&chars_of("usage: mdview [<document-path> | -]")))
                }
            } else {
                assert(args[2] == arguments@[2]@);
                if is_text(&arguments[2], "-") {
                    Ok((CommandLineAction::StandardInput, 3))
                } else {
                    Ok((CommandLineAction::Path(2), 3))
                }
            }
        } else if is_text(option, "-") {
            Ok((CommandLineAction::StandardInput, 2))
        } else {
            let chars = chars_of(option.as_str());
            if chars.len() > 0 && chars[0] == '-' {
                let shown = inert_argument(option.as_str());
                let mut message = chars_of("unknown option: ");
                crate::text::push_all(&mut message, &chars_of(shown.as_str()));
                Err(string_of(&message))
            } else {
                Ok((CommandLineAction::Path(1), 2))
            }
        }
    };
    match parsed {
        Err(e) => Err(e),
        Ok((action, used)) => if n > used {
            Err(string_of(&chars_of("expected at most one Document input")))
        } else {
            Ok(action)
        },
    }
}

} // verus!
