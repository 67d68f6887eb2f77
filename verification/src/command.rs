use vstd::prelude::*;
use crate::text::{chars_of, chars_equal, trim, parse_unsigned, trim_at, parse_unsigned_at};

verus! {

broadcast use vstd::string::group_string_axioms;

/// A command of the interactive shell.
#[derive(Clone, Copy, Debug, PartialEq, Eq, Structural)]
pub enum CliCommand {
    /// `h` or `?`: list the commands.
    Help,
    /// `start`.
    Start,
    /// `stop`.
    Stop,
    /// `p <port>` with a valid port number.
    Port(u32),
    /// `p <port>` where the argument is not a `u32`.
    InvalidPort,
    /// `c`: show the connected servers.
    ShowServers,
    /// `q`: quit.
    Quit,
    /// Anything else.
    Unknown,
}

/// The command that the words of a shell line stand for; `args[0]` is the
/// program name and `args[1]` the command word.
pub open spec fn command_of(args: Seq<Seq<char>>) -> CliCommand {
    let word = args[1];
    if word == "h"@ || word == "?"@ {
        CliCommand::Help
    } else if word == "start"@ {
        CliCommand::Start
    } else if word == "stop"@ {
        CliCommand::Stop
    } else if word == "p"@ {
        match parse_unsigned(trim(args[2]), u32::MAX as nat) {
            Some(p) => CliCommand::Port(p as u32),
            None => CliCommand::InvalidPort,
        }
    } else if word == "c"@ {
        CliCommand::ShowServers
    } else if word == "q"@ {
        CliCommand::Quit
    } else {
        CliCommand::Unknown
    }
}

/// The text of each word.
pub open spec fn words_view(args: Seq<String>) -> Seq<Seq<char>> {
    args.map_values(|a: String| a@)
}

/// Reads the command word `args[1]` (and for `p` the port in `args[2]`).
pub fn parse_command(args: &Vec<String>) -> (c: CliCommand)
    requires
        args@.len() >= 2,
        args@[1]@ == "p"@ ==> args@.len() >= 3,
    ensures
        c == command_of(words_view(args@)),
{
    let ghost ws = words_view(args@);
    assert(ws[1] == args@[1]@);
    let word = chars_of(args[1].as_str());
    if chars_equal(&word, &chars_of("h")) || chars_equal(&word, &chars_of("?")) {
        CliCommand::Help
    } else if chars_equal(&word, &chars_of("start")) {
        CliCommand::Start
    } else if chars_equal(&word, &chars_of("stop")) {
        CliCommand::Stop
    } else if chars_equal(&word, &chars_of("p")) {
        assert(ws[2] == args@[2]@);
        let cs = chars_of(args[2].as_str());
        let n = cs.len();
        assert(cs@.subrange(0, n as int) =~= cs@);
        let (a, b) = trim_at(&cs, 0, n);
        match parse_unsigned_at(&cs, a, b, u32::MAX as u64) {
            Some(p) => CliCommand::Port(p as u32),
            None => CliCommand::InvalidPort,
        }
    } else if chars_equal(&word, &chars_of("c")) {
        CliCommand::ShowServers
    } else if chars_equal(&word, &chars_of("q")) {
        CliCommand::Quit
    } else {
        CliCommand::Unknown
    }
}

} // verus!
