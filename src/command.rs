//! The command that combinations are fed to, and what the enumeration does
//! with the answer of whatever consumed a combination.
use vstd::prelude::*;

verus! {

/// The words of a command line as `shellwords::split` reads it (quotes and
/// backslashes as the Bourne shell treats them), or `None` where its quotes
/// do not match.
pub uninterp spec fn shell_words(s: Seq<char>) -> Option<Seq<Seq<char>>>;

/// The texts of a sequence of strings.
pub open spec fn words_view(v: Seq<String>) -> Seq<Seq<char>> {
    v.map_values(|w: String| w@)
}

/// Relies on `shellwords::split`: the words of a command line, or an error
/// on mismatched quotes; the outcome depends on the text alone.
#[verifier::external_body]
fn split_words(cmd: &str) -> (r: Option<Vec<String>>)
    ensures
        match r {
            Some(v) => shell_words(cmd@) == Some(words_view(v@)),
            None => shell_words(cmd@) is None,
        },
{
    shellwords::split(cmd).ok()
}

/// Why a command line cannot be run.
#[derive(Debug, Clone, Copy, PartialEq, Eq, Structural)]
pub enum CommandError {
    /// A quoted string lacks its closing quote.
    MismatchedQuotes,
    /// The command line holds no word.
    Empty,
}

impl CommandError {
    /// A short description of the error.
    pub fn message(&self) -> (r: &'static str) {
        match self {
            CommandError::MismatchedQuotes => "Mismatched quotes in cmd",
            CommandError::Empty => "cmd argument can't be empty",
        }
    }
}

/// A program and its arguments.
#[derive(Debug)]
pub struct Exec {
    pub bin: String,
    pub args: Vec<String>,
}

impl Exec {
    /// The program named by the first word, with the other words as its
    /// arguments; `Empty` where there is no word.
    pub fn from_words(words: Vec<String>) -> (r: Result<Exec, CommandError>)
        ensures
            words@.len() == 0 ==> r == Err::<Exec, CommandError>(CommandError::Empty),
            words@.len() > 0 ==> (r matches Ok(e) && e.bin@ == words@[0]@ && words_view(e.args@)
                == words_view(words@).drop_first()),
    {
        let mut words = words;
        if words.len() == 0 {
            return Err(CommandError::Empty);
        }
        let ghost all = words@;
        let bin = words.remove(0);
        assert(words_view(words@) =~= words_view(all).drop_first());
        Ok(Exec { bin, args: words })
    }

    /// Splits a command line into a program and its arguments.
    pub fn new(cmd: &str) -> (r: Result<Exec, CommandError>)
        ensures
            match shell_words(cmd@) {
                None => r == Err::<Exec, CommandError>(CommandError::MismatchedQuotes),
                Some(ws) => if ws.len() == 0 {
                    r == Err::<Exec, CommandError>(CommandError::Empty)
                } else {
                    (r matches Ok(e) && e.bin@ == ws[0] && words_view(e.args@) == ws.drop_first())
                },
            },
    {
        match split_words(cmd) {
            Some(words) => Exec::from_words(words),
            None => Err(CommandError::MismatchedQuotes),
        }
    }
}

/// What consumed a combination reports back.
pub enum SolveStatus<'a> {
    /// It accepted the combination given here.
    KnownSolution(&'a [u8]),
    /// It stopped taking combinations, for a reason unknown.
    UnknownSolution,
    /// It did not accept the combination.
    Unsolved,
}

/// Whether the enumeration goes on after this answer: only where the
/// combination was not accepted and the consumer still takes more.
pub fn keep_going(status: &SolveStatus) -> (r: bool)
    ensures
        r == (status is Unsolved),
{
    match status {
        SolveStatus::Unsolved => true,
        _ => false,
    }
}

} // verus!
