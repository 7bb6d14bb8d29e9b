use ai_blame::cli::copy::{plan_copy, short_sha, CopyPlan};
use ai_blame::cli::CopyNotesArgs;

#[test]
fn test_copy_notes_args_structure() {
    let args = CopyNotesArgs {
        source: "abc123".to_string(),
        target: "def456".to_string(),
        dry_run: false,
    };

    assert_eq!(args.source, "abc123");
    assert_eq!(args.target, "def456");
    assert!(!args.dry_run);
}

#[test]
fn test_copy_notes_args_dry_run() {
    let args = CopyNotesArgs {
        source: "abc123".to_string(),
        target: "def456".to_string(),
        dry_run: true,
    };

    assert!(args.dry_run);
}

#[test]
fn test_short_sha_truncation() {
    let short = "abc";
    let result = short_sha(short);
    assert_eq!(result, "abc");

    let long = "abc123def456789";
    let result = short_sha(long);
    assert_eq!(result, "abc123de");

    let exact = "12345678";
    let result = short_sha(exact);
    assert_eq!(result, "12345678");
}

#[test]
fn short_sha_stops_at_a_character_boundary() {
    // "é" takes two bytes, so a cut at byte 8 would split it.
    assert_eq!(short_sha("abcdefgé"), "abcdefg");
    assert_eq!(short_sha(""), "");
}

#[test]
fn plan_copy_without_source_record() {
    let args = CopyNotesArgs {
        source: "abc123def456".to_string(),
        target: "0123456789ab".to_string(),
        dry_run: false,
    };
    assert!(matches!(plan_copy(&args, false), CopyPlan::NoAttribution));
}

#[test]
fn plan_copy_dry_run_and_copy() {
    let mut args = CopyNotesArgs {
        source: "abc123def456".to_string(),
        target: "0123456789ab".to_string(),
        dry_run: true,
    };
    match plan_copy(&args, true) {
        CopyPlan::DryRun { source_short, target_short } => {
            assert_eq!(source_short, "abc123de");
            assert_eq!(target_short, "01234567");
        }
        _ => panic!("expected a dry run"),
    }
    args.dry_run = false;
    match plan_copy(&args, true) {
        CopyPlan::Copy { source_short, target_short } => {
            assert_eq!(source_short, "abc123de");
            assert_eq!(target_short, "01234567");
        }
        _ => panic!("expected a copy"),
    }
}
