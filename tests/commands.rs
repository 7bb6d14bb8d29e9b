use ai_blame::cli::{run, run_capture, run_post_commit, Action, CaptureArgs, Cli, CliError, Commands};

fn capture_args(stdin: bool) -> CaptureArgs {
    CaptureArgs { stdin, file: None, tool: None, prompt: None }
}

#[test]
fn capture_without_stdin_is_refused() {
    let r = run_capture(capture_args(false));
    assert!(matches!(r, Err(CliError::CaptureNeedsStdin)));
    assert_eq!(
        CliError::CaptureNeedsStdin.message(),
        "Capture requires --stdin flag for hook input"
    );
}

#[test]
fn capture_with_stdin_reads_the_payload() {
    assert!(matches!(run_capture(capture_args(true)), Ok(Action::CaptureFromStdin)));
}

#[test]
fn run_dispatches_each_command() {
    assert!(matches!(run(Cli { command: Commands::PostCommit }), Ok(Action::PostCommit)));
    assert!(matches!(run(Cli { command: Commands::Status }), Ok(Action::Status)));
    assert!(matches!(run(Cli { command: Commands::Clear }), Ok(Action::Clear)));
    assert!(matches!(run(Cli { command: Commands::Init }), Ok(Action::Init)));
    assert!(matches!(
        run(Cli { command: Commands::Capture(capture_args(false)) }),
        Err(CliError::CaptureNeedsStdin)
    ));
    assert!(matches!(run_post_commit(), Action::PostCommit));
}
