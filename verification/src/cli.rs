//! The terminal program's decisions: which command the arguments ask for,
//! and when to hint that `sudo` would show more.

use vstd::prelude::*;
use crate::record::{Record, PID_UNKNOWN};
use crate::text::{chars_of, parse_unsigned, parse_unsigned_range, same_text};

verus! {

/// Default port for the web dashboard, used when `serve` gets no number.
pub const DEFAULT_SERVE_PORT: u16 = 7878;

/// What the command line asks for.
#[derive(Debug)]
pub enum Command {
    /// List the listening ports as a table.
    Print,
    /// Start the web dashboard on this port.
    Serve(u16),
    /// `serve` was given something that is not a port number.
    InvalidPort(String),
    /// Show the usage text.
    Help,
    /// An unknown command.
    Unknown(String),
}

/// What the command line asks for, as texts.
pub enum CommandView {
    Print,
    Serve(u16),
    InvalidPort(Seq<char>),
    Help,
    Unknown(Seq<char>),
}

impl View for Command {
    type V = CommandView;

    open spec fn view(&self) -> CommandView {
        match self {
            Command::Print => CommandView::Print,
            Command::Serve(p) => CommandView::Serve(*p),
            Command::InvalidPort(t) => CommandView::InvalidPort(t@),
            Command::Help => CommandView::Help,
            Command::Unknown(t) => CommandView::Unknown(t@),
        }
    }
}

/// The command of `serve`: the port after it, the default when there is
/// none, an error when it is not a decimal `u16`.
pub open spec fn serve_command(args: Seq<Seq<char>>) -> CommandView {
    if args.len() < 3 {
        CommandView::Serve(DEFAULT_SERVE_PORT)
    } else {
        match parse_unsigned(args[2], 10, 65535) {
            Some(p) => CommandView::Serve(p as u16),
            None => CommandView::InvalidPort(args[2]),
        }
    }
}

/// The command the arguments ask for; `args[0]` is the program name and no
/// command means `print`.
pub open spec fn command_spec(args: Seq<Seq<char>>) -> CommandView {
    if args.len() < 2 || args[1] == "print"@ {
        CommandView::Print
    } else if args[1] == "serve"@ {
        serve_command(args)
    } else if args[1] == "help"@ || args[1] == "-h"@ || args[1] == "--help"@ {
        CommandView::Help
    } else {
        CommandView::Unknown(args[1])
    }
}

/// Decide what the command line asks for.
pub fn parse_command(args: &Vec<String>) -> (c: Command)
    ensures
        c@ == command_spec(args@.map_values(|a: String| a@)),
{
    let ghost texts = args@.map_values(|a: String| a@);
    if args.len() < 2 {
        return Command::Print;
    }
    assert(texts[1] == args@[1]@);
    let command = &args[1];
    if same_text(command.as_str(), "print") {
        Command::Print
    } else if same_text(command.as_str(), "serve") {
        if args.len() < 3 {
            return Command::Serve(DEFAULT_SERVE_PORT);
        }
        assert(texts[2] == args@[2]@);
        let text = chars_of(args[2].as_str());
        assert(text@.subrange(0, text@.len() as int) =~= text@);
        match parse_unsigned_range(&text, 0, text.len(), 10, 65535) {
            Some(p) => Command::Serve(p as u16),
            None => Command::InvalidPort(args[2].clone()),
        }
    } else if same_text(command.as_str(), "help") || same_text(command.as_str(), "-h") || same_text(
        command,
        "--help",
    ) {
        Command::Help
    } else {
        Command::Unknown(command.clone())
    }
}

/// The words of the command line: no word or `print` lists the ports;
/// `help`, `-h` and `--help` show the usage; `serve` alone starts the
/// dashboard on port 7878, `serve` with a decimal port number on that port,
/// and `serve` with anything else is refused with the text it was given;
/// every other word is reported back as unknown.
pub proof fn law_command_words(args: Seq<Seq<char>>)
    ensures
        args.len() < 2 ==> command_spec(args) == CommandView::Print,
        args.len() >= 2 && args[1] == "print"@ ==> command_spec(args) == CommandView::Print,
        args.len() >= 2 && args[1] == "help"@ ==> command_spec(args) == CommandView::Help,
        args.len() >= 2 && args[1] == "-h"@ ==> command_spec(args) == CommandView::Help,
        args.len() >= 2 && args[1] == "--help"@ ==> command_spec(args) == CommandView::Help,
        args.len() == 2 && args[1] == "serve"@ ==> command_spec(args) == CommandView::Serve(7878),
        args.len() >= 3 && args[1] == "serve"@ && parse_unsigned(args[2], 10, 65535) is Some
            ==> command_spec(args) == CommandView::Serve(
            parse_unsigned(args[2], 10, 65535)->0 as u16,
        ),
        args.len() >= 3 && args[1] == "serve"@ && parse_unsigned(args[2], 10, 65535) is None
            ==> command_spec(args) == CommandView::InvalidPort(args[2]),
        args.len() >= 2 && args[1] != "print"@ && args[1] != "serve"@ && args[1] != "help"@
            && args[1] != "-h"@ && args[1] != "--help"@ ==> command_spec(args)
            == CommandView::Unknown(args[1]),
{
    reveal_strlit("print");
    reveal_strlit("serve");
    reveal_strlit("help");
    reveal_strlit("-h");
    reveal_strlit("--help");
    assert("help"@.len() == 4 && "-h"@.len() == 2 && "--help"@.len() == 6);
    assert("print"@[0] == 'p' && "serve"@[0] == 's');
}

/// Whether the table needs the note that some owners are hidden: we are not
/// root and some port has no known owner.
pub fn show_sudo_note(records: &[Record], root: bool) -> (b: bool)
    ensures
        b == (!root && exists|i: int|
            0 <= i < records@.len() && (#[trigger] records@[i]).pid == PID_UNKNOWN),
{
    if root {
        return false;
    }
    let mut i: usize = 0;
    while i < records.len()
        invariant
            0 <= i <= records@.len(),
            !root,
            forall|k: int| 0 <= k < i ==> (#[trigger] records@[k]).pid != PID_UNKNOWN,
        decreases records.len() - i,
    {
        if records[i].pid == PID_UNKNOWN {
            assert(records@[i as int].pid == PID_UNKNOWN);
            return true;
        }
        i = i + 1;
    }
    false
}

} // verus!
