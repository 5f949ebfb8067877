//! Command line arguments.

use clap::builder::PathBufValueParser;
use clap::{Arg, ArgAction, Command};
use std::path::PathBuf;
use vstd::prelude::*;

verus! {

/// `std::path::PathBuf`: an argument as the system hands it over, which need not
/// be text. It is passed through as it is.
#[verifier::external_type_specification]
#[verifier::external_body]
pub struct ExPathBuf(PathBuf);

/// The version that `--version` reports.
pub const VERSION: &'static str = "0.1.0";

/// A flag as a mathematical value.
#[verifier::ext_equal]
pub struct FlagView {
    pub long: Seq<char>,
    pub short: Option<char>,
    pub help: Seq<char>,
}

/// A flag without a value.
#[derive(Debug)]
pub struct FlagSpec {
    pub long: &'static str,
    pub short: Option<char>,
    pub help: &'static str,
}

impl View for FlagSpec {
    type V = FlagView;

    open spec fn view(&self) -> FlagView {
        FlagView { long: self.long@, short: self.short, help: self.help@ }
    }
}

/// A command as a mathematical value.
#[verifier::ext_equal]
pub struct CommandView {
    pub name: Seq<char>,
    pub version: Seq<char>,
    pub about: Seq<char>,
    pub operand: Seq<char>,
    pub operand_help: Seq<char>,
    pub flags: Seq<FlagView>,
}

/// True when `name` is one that every command uses for its help or version.
pub open spec fn is_reserved(name: Seq<char>) -> bool {
    name == "help"@ || name == "version"@
}

impl FlagView {
    /// True when the flag's names can be typed and are not reserved.
    pub open spec fn usable(self) -> bool {
        &&& self.long.len() > 0
        &&& self.long[0] != '-'
        &&& !is_reserved(self.long)
        &&& self.short != Some('-')
        &&& self.short != Some('h')
        &&& self.short != Some('V')
    }
}

impl CommandView {
    /// True when no two arguments can be confused.
    pub open spec fn unambiguous(self) -> bool {
        &&& self.operand.len() > 0
        &&& !is_reserved(self.operand)
        &&& forall|i: int|
            0 <= i < self.flags.len() ==> (#[trigger] self.flags[i]).usable() && self.flags[i].long
                != self.operand
        &&& forall|i: int, j: int|
            0 <= i < j < self.flags.len() ==> (#[trigger] self.flags[i]).long != (
            #[trigger] self.flags[j]).long && (self.flags[i].short is Some ==> self.flags[i].short
                != self.flags[j].short)
    }
}

/// A command with a required path operand and flags.
#[derive(Debug)]
pub struct CommandSpec {
    pub name: &'static str,
    pub version: &'static str,
    pub about: &'static str,
    pub operand: &'static str,
    pub operand_help: &'static str,
    pub flags: Vec<FlagSpec>,
}

impl View for CommandSpec {
    type V = CommandView;

    open spec fn view(&self) -> CommandView {
        CommandView {
            name: self.name@,
            version: self.version@,
            about: self.about@,
            operand: self.operand@,
            operand_help: self.operand_help@,
            flags: self.flags@.map_values(|flag: FlagSpec| flag@),
        }
    }
}

/// What a command line said, as a mathematical value: the operand, and which of
/// the flags were given.
#[verifier::ext_equal]
pub struct ParsedView {
    pub operand: PathBuf,
    pub flags: Seq<bool>,
}

/// Why a command line was not accepted, as a mathematical value.
#[verifier::ext_equal]
pub struct RefusalView {
    pub exit_code: i32,
    pub to_stderr: bool,
    pub text: Seq<char>,
    pub styled: Seq<char>,
}

/// Why a command line was not accepted: a mistake to report, or a text that was
/// asked for (help or version).
#[derive(Debug)]
pub struct Refusal {
    pub exit_code: i32,
    pub to_stderr: bool,
    /// What to print.
    pub text: String,
    /// The same with the escape sequences that color it on a terminal.
    pub styled: String,
}

impl View for Refusal {
    type V = RefusalView;

    open spec fn view(&self) -> RefusalView {
        RefusalView {
            exit_code: self.exit_code,
            to_stderr: self.to_stderr,
            text: self.text@,
            styled: self.styled@,
        }
    }
}

/// What parsing the command line `args` of `command` gives.
pub uninterp spec fn command_line_outcome(
    command: CommandView,
    args: Seq<PathBuf>,
) -> Result<ParsedView, RefusalView>;

/// `clap::Command::try_get_matches_from` on a command with one required path and
/// flags: what it returns depends on the command and the arguments alone. It says
/// for each flag whether it was given. The exit code of what is not accepted is 2
/// where it belongs on standard error, and 0 otherwise. Which command lines are
/// accepted, and what is said of the others, is not stated. Arguments that can be
/// confused make it panic.
#[verifier::external_body]
fn parse_command_line(c: &CommandSpec, args: &Vec<PathBuf>) -> (outcome: Result<
    (Option<PathBuf>, Vec<bool>),
    (i32, bool, String, String),
>)
    requires
        c@.unambiguous(),
    ensures
        command_line_outcome(c@, args@) == (match outcome {
            Ok((operand, flags)) => Ok(ParsedView { operand: operand->0, flags: flags@ }),
            Err((exit_code, to_stderr, text, styled)) => Err(
                RefusalView { exit_code, to_stderr, text: text@, styled: styled@ },
            ),
        }),
        match outcome {
            Ok((operand, flags)) => operand is Some && flags@.len() == c@.flags.len(),
            Err((exit_code, to_stderr, text, styled)) => exit_code == (if to_stderr {
                2i32
            } else {
                0i32
            }),
        },
{
    Command::new(c.name).version(c.version).about(c.about).arg(
        Arg::new(c.operand).help(c.operand_help).required(true).value_parser(
            PathBufValueParser::new()
        )
    ).args(c.flags.iter().map(|f|
        Arg::new(f.long).short(f.short).long(f.long).help(f.help).action(ArgAction::SetTrue)
    )).try_get_matches_from(args).map(|mut found| (
        found.remove_one(c.operand),
        c.flags.iter().map(|f| found.get_flag(f.long)).collect()
    )).map_err(|e| (
        e.exit_code(), e.use_stderr(), e.to_string(), e.render().ansi().to_string()
    ))
}

/// The program's command.
pub open spec fn program() -> CommandView {
    CommandView {
        name: "dropignore"@,
        version: VERSION@,
        about: "Watch a directory and tag matching paths with the Dropbox ignore attribute."@,
        operand: "DIRECTORY"@,
        operand_help: "Root directory to watch recursively"@,
        flags: seq![
            FlagView {
                long: "dry-run"@,
                short: Some('n'),
                help: "Skip calling setxattr and only log intended actions"@,
            },
            FlagView {
                long: "scan-once"@,
                short: None,
                help: "Scan the tree once, mark matches, and exit without watching"@,
            },
        ],
    }
}

/// Command line arguments.
#[derive(Debug)]
pub struct CliArgs {
    /// Root directory to watch recursively.
    pub root: PathBuf,
    /// Skip writing the attribute and only log intended actions.
    pub dry_run: bool,
    /// Scan the tree once, mark matches, and exit without watching.
    pub scan_once: bool,
}

impl CliArgs {
    /// The program's command.
    pub fn command() -> (command: CommandSpec)
        ensures
            command@ == program(),
    {
        let mut flags: Vec<FlagSpec> = Vec::new();
        flags.push(
            FlagSpec {
                long: "dry-run",
                short: Some('n'),
                help: "Skip calling setxattr and only log intended actions",
            },
        );
        flags.push(
            FlagSpec {
                long: "scan-once",
                short: None,
                help: "Scan the tree once, mark matches, and exit without watching",
            },
        );
        let command = CommandSpec {
            name: "dropignore",
            version: VERSION,
            about: "Watch a directory and tag matching paths with the Dropbox ignore attribute.",
            operand: "DIRECTORY",
            operand_help: "Root directory to watch recursively",
            flags,
        };
        assert(command@.flags =~= program().flags);
        command
    }

    /// Takes what the command line said: the operand is the root, the flags are
    /// those of the program, in order. A flag that is missing was not given.
    pub fn from_parsed(operand: PathBuf, flags: &[bool]) -> (args: CliArgs)
        ensures
            args.root == operand,
            args.dry_run == (flags@.len() > 0 && flags@[0]),
            args.scan_once == (flags@.len() > 1 && flags@[1]),
    {
        CliArgs {
            root: operand,
            dry_run: flags.len() > 0 && flags[0],
            scan_once: flags.len() > 1 && flags[1],
        }
    }

    /// Parses the command line `args`, the program's name first.
    pub fn parse_from(args: &Vec<PathBuf>) -> (result: Result<CliArgs, Refusal>)
        ensures
            match (result, command_line_outcome(program(), args@)) {
                (Ok(parsed), Ok(said)) => {
                    &&& said.flags.len() == 2
                    &&& parsed.root == said.operand
                    &&& parsed.dry_run == said.flags[0]
                    &&& parsed.scan_once == said.flags[1]
                },
                (Err(refusal), Err(reason)) => refusal@ == reason && reason.exit_code == (
                if reason.to_stderr {
                    2i32
                } else {
                    0i32
                }),
                _ => false,
            },
    {
        let command = CliArgs::command();
        proof {
            program_is_unambiguous();
        }
        match parse_command_line(&command, args) {
            Ok((operand, flags)) => Ok(
                CliArgs::from_parsed(operand.unwrap(), flags.as_slice()),
            ),
            Err((exit_code, to_stderr, text, styled)) => Err(
                Refusal { exit_code, to_stderr, text, styled },
            ),
        }
    }
}

/// The program's arguments cannot be confused.
proof fn program_is_unambiguous()
    ensures
        program().unambiguous(),
{
    reveal_strlit("DIRECTORY");
    reveal_strlit("dry-run");
    reveal_strlit("scan-once");
    reveal_strlit("help");
    reveal_strlit("version");
    assert("dry-run"@[0] != "version"@[0]);
    assert("scan-once"@[0] != "DIRECTORY"@[0]);
}

} // verus!
