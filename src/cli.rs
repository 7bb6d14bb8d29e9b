//! The command surface: the arguments of each subcommand and the decision
//! of what a parsed command line asks for.
use vstd::prelude::*;

pub mod copy;

pub use copy::CopyNotesArgs;

verus! {

/// A parsed command line.
#[derive(Debug)]
pub struct Cli {
    pub command: Commands,
}

/// The subcommands.
#[derive(Debug)]
pub enum Commands {
    /// Show attribution for each line of a file.
    Blame(BlameArgs),
    /// View the prompt that produced a line.
    Prompt(PromptArgs),
    /// Show the attribution record of a commit.
    Show(ShowArgs),
    /// Sum attribution over a range of commits.
    Summary(SummaryArgs),
    /// Capture an edit event.
    Capture(CaptureArgs),
    /// Finalize attribution after a commit.
    PostCommit,
    /// Show pending capture state.
    Status,
    /// Discard pending capture state.
    Clear,
    /// Install the post-commit hook and the notes refspecs.
    Init,
    /// Copy a record from one commit to another.
    CopyNotes(CopyNotesArgs),
}

/// Arguments of `blame`.
#[derive(Debug)]
pub struct BlameArgs {
    pub file: String,
    pub revision: Option<String>,
}

/// Arguments of `prompt`.
#[derive(Debug)]
pub struct PromptArgs {
    pub file: String,
    pub line: u64,
    pub revision: Option<String>,
}

/// Arguments of `show`.
#[derive(Debug)]
pub struct ShowArgs {
    pub commit: Option<String>,
}

/// Arguments of `summary`.
#[derive(Debug)]
pub struct SummaryArgs {
    pub range: String,
}

/// Arguments of `capture`.
#[derive(Debug)]
pub struct CaptureArgs {
    /// Read the hook payload from standard input.
    pub stdin: bool,
    pub file: Option<String>,
    pub tool: Option<String>,
    pub prompt: Option<String>,
}

/// What a command line asks the program to do.
#[derive(Debug)]
pub enum Action {
    Blame(BlameArgs),
    Prompt(PromptArgs),
    Show(ShowArgs),
    Summary(SummaryArgs),
    /// Capture the event described by the payload on standard input.
    CaptureFromStdin,
    PostCommit,
    Status,
    Clear,
    Init,
    CopyNotes(CopyNotesArgs),
}

/// Why a command line is refused.
#[derive(Debug, PartialEq, Eq, Structural, Clone, Copy)]
pub enum CliError {
    /// `capture` was invoked without `--stdin`.
    CaptureNeedsStdin,
}

impl CliError {
    pub fn message(&self) -> (r: &'static str) {
        match self {
            CliError::CaptureNeedsStdin => "Capture requires --stdin flag for hook input",
        }
    }
}

/// The action that `cli` asks for.
pub fn run(cli: Cli) -> (r: Result<Action, CliError>)
    ensures
        r is Err <==> (cli.command matches Commands::Capture(a) && !a.stdin),
        r is Err ==> r == Err::<Action, CliError>(CliError::CaptureNeedsStdin),
        r is Ok ==> match cli.command {
            Commands::Blame(a) => r->Ok_0 == Action::Blame(a),
            Commands::Prompt(a) => r->Ok_0 == Action::Prompt(a),
            Commands::Show(a) => r->Ok_0 == Action::Show(a),
            Commands::Summary(a) => r->Ok_0 == Action::Summary(a),
            Commands::Capture(_) => r->Ok_0 == Action::CaptureFromStdin,
            Commands::PostCommit => r->Ok_0 == Action::PostCommit,
            Commands::Status => r->Ok_0 == Action::Status,
            Commands::Clear => r->Ok_0 == Action::Clear,
            Commands::Init => r->Ok_0 == Action::Init,
            Commands::CopyNotes(a) => r->Ok_0 == Action::CopyNotes(a),
        },
{
    match cli.command {
        Commands::Blame(a) => Ok(Action::Blame(a)),
        Commands::Prompt(a) => Ok(Action::Prompt(a)),
        Commands::Show(a) => Ok(Action::Show(a)),
        Commands::Summary(a) => Ok(Action::Summary(a)),
        Commands::Capture(a) => run_capture(a),
        Commands::PostCommit => Ok(run_post_commit()),
        Commands::Status => Ok(Action::Status),
        Commands::Clear => Ok(Action::Clear),
        Commands::Init => Ok(Action::Init),
        Commands::CopyNotes(a) => Ok(Action::CopyNotes(a)),
    }
}

/// A capture reads its payload from standard input; without `--stdin` it
/// is refused.
pub fn run_capture(args: CaptureArgs) -> (r: Result<Action, CliError>)
    ensures
        args.stdin ==> r == Ok::<Action, CliError>(Action::CaptureFromStdin),
        !args.stdin ==> r == Err::<Action, CliError>(CliError::CaptureNeedsStdin),
{
    if args.stdin {
        Ok(Action::CaptureFromStdin)
    } else {
        Err(CliError::CaptureNeedsStdin)
    }
}

/// The post-commit hook finalizes the pending capture state.
pub fn run_post_commit() -> (r: Action)
    ensures
        r == Action::PostCommit,
{
    Action::PostCommit
}

} // verus!
