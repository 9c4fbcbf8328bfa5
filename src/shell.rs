//! The shell's commands and what each does to the shell's state.
use vstd::prelude::*;

use crate::path::{navigated, RemotePath};

verus! {

/// A command of the shell.
pub enum Commands {
    /// Change the working directory.
    Cd { directory: String },
    /// List a directory.
    Ls { directory: Option<String> },
    /// Leave the shell.
    Exit,
}

/// Options and command given on the command line.
pub struct Cli {
    /// Account email (requires the password too).
    pub email: Option<String>,
    /// Account password (requires the email too).
    pub password: Option<String>,
    pub command: Option<Commands>,
}

/// Information returned by a command execution.
pub struct CommandResult {
    /// Change the shell's working path.
    pub working_path: Option<RemotePath>,
    /// Exit the shell.
    pub exit: bool,
}

impl Default for CommandResult {
    fn default() -> (r: CommandResult)
        ensures
            r.working_path is None,
            !r.exit,
    {
        CommandResult { working_path: None, exit: false }
    }
}

/// What `command` does to the shell, run at `working_path`: `cd` moves the
/// working path, `exit` ends the shell, `ls` changes neither.
pub fn command_result(working_path: &RemotePath, command: &Commands) -> (r: CommandResult)
    ensures
        match command {
            Commands::Cd { directory } => r.working_path is Some && r.working_path->0@
                == navigated(working_path@, directory@) && !r.exit,
            Commands::Ls { .. } => r.working_path is None && !r.exit,
            Commands::Exit => r.working_path is None && r.exit,
        },
{
    match command {
        Commands::Cd { directory } => CommandResult {
            working_path: Some(working_path.navigate(directory.as_str())),
            exit: false,
        },
        Commands::Ls { .. } => CommandResult::default(),
        Commands::Exit => CommandResult { working_path: None, exit: true },
    }
}

/// `s` without leading and trailing whitespace.
pub uninterp spec fn trimmed(s: Seq<char>) -> Seq<char>;

/// Relies on str::trim: `s` without leading and trailing white space.
#[verifier::external_body]
fn trim_text(s: &str) -> (r: String)
    ensures
        r@ == trimmed(s@),
{
    s.trim().to_string()
}

/// The answer is "y" in either case.
pub open spec fn is_yes(answer: Seq<char>) -> bool {
    answer.len() == 1 && (answer[0] == 'y' || answer[0] == 'Y')
}

/// The choice that a trimmed yes/no answer stands for: empty keeps `default`.
pub open spec fn confirmed(answer: Seq<char>, default: bool) -> bool {
    if answer.len() == 0 {
        default
    } else {
        is_yes(answer)
    }
}

/// The choice that an already trimmed answer to a yes/no prompt stands for.
pub fn confirm_trimmed(answer: &str, default: bool) -> (r: bool)
    ensures
        r == confirmed(answer@, default),
{
    let n = answer.unicode_len();
    if n == 0 {
        default
    } else if n == 1 {
        let c = answer.get_char(0);
        c == 'y' || c == 'Y'
    } else {
        false
    }
}

/// The choice that a line typed at a yes/no prompt stands for: an empty
/// answer keeps `default`, "y" or "Y" means yes, anything else no.
pub fn confirm_answer(response: &str, default: bool) -> (r: bool)
    ensures
        r == confirmed(trimmed(response@), default),
{
    let t = trim_text(response);
    confirm_trimmed(t.as_str(), default)
}

/// The choices offered by a yes/no prompt, the default in capitals.
pub fn confirm_choices(default: bool) -> (r: &'static str)
    ensures
        default ==> r@ == "Y/n"@,
        !default ==> r@ == "y/N"@,
{
    if default {
        "Y/n"
    } else {
        "y/N"
    }
}

/// Program name put in front of the words of a shell line, so that they
/// parse like a command line.
pub const PROGRAM_NAME: &'static str = "filen";

/// The words of `s` split as a POSIX shell would, or none when its quoting
/// is invalid.
pub uninterp spec fn shell_words(s: Seq<char>) -> Option<Seq<Seq<char>>>;

/// The text of each string.
pub open spec fn texts(v: Seq<String>) -> Seq<Seq<char>> {
    v.map_values(|w: String| w@)
}

/// Relies on shlex::split: the words of `s` with shell quoting removed, or
/// `None` when the quoting is invalid.
#[verifier::external_body]
fn split_words(s: &str) -> (r: Option<Vec<String>>)
    ensures
        r is Some <==> shell_words(s@) is Some,
        r is Some ==> texts(r->0@) == shell_words(s@)->0,
{
    shlex::split(s)
}

/// A line typed at the shell, read.
pub enum ShellLine {
    /// Nothing but white space.
    Blank,
    /// The quoting is invalid.
    BadQuoting,
    /// The program name, then the words of the line.
    Args(Vec<String>),
}

/// What a line whose trimmed text is `t` and whose words are `words` reads as.
pub open spec fn line_reads_as(t: Seq<char>, words: Option<Seq<Seq<char>>>, r: ShellLine) -> bool {
    if t.len() == 0 {
        r is Blank
    } else {
        match words {
            None => r is BadQuoting,
            Some(w) => r is Args && texts(r->Args_0@) == seq![PROGRAM_NAME@] + w,
        }
    }
}

/// Reads an already trimmed line `t`, given its split into words.
pub fn read_trimmed_line(t: &str, words: Option<Vec<String>>) -> (r: ShellLine)
    ensures
        line_reads_as(
            t@,
            match words {
                Some(w) => Some(texts(w@)),
                None => None,
            },
            r,
        ),
{
    if t.unicode_len() == 0 {
        return ShellLine::Blank;
    }
    match words {
        None => ShellLine::BadQuoting,
        Some(w) => {
            let mut args: Vec<String> = Vec::new();
            args.push(String::from_str(PROGRAM_NAME));
            let mut i: usize = 0;
            while i < w.len()
                invariant
                    i <= w@.len(),
                    texts(args@) =~= seq![PROGRAM_NAME@] + texts(w@.subrange(0, i as int)),
                decreases w@.len() - i,
            {
                let ghost before = args@;
                args.push(w[i].clone());
                assert(texts(args@) =~= texts(before).push(w@[i as int]@));
                assert(w@.subrange(0, i + 1) =~= w@.subrange(0, i as int).push(w@[i as int]));
                i = i + 1;
            }
            assert(w@.subrange(0, w@.len() as int) =~= w@);
            ShellLine::Args(args)
        },
    }
}

/// Reads a line typed at the shell: blank, badly quoted, or the words that
/// clap parses, behind the program name.
pub fn read_line(line: &str) -> (r: ShellLine)
    ensures
        line_reads_as(trimmed(line@), shell_words(trimmed(line@)), r),
{
    let t = trim_text(line);
    let words = split_words(t.as_str());
    read_trimmed_line(t.as_str(), words)
}

} // verus!
