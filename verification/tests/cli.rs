//! The command line.

use dropignore::cli::{CliArgs, Refusal};
use std::path::PathBuf;

fn parse(args: &[&str]) -> Result<CliArgs, Refusal> {
    CliArgs::parse_from(&args.iter().map(PathBuf::from).collect())
}

#[test]
fn version_flag_reads_cargo_metadata() {
    let command = CliArgs::command();
    assert_eq!(command.version, "0.1.0", "--version must report the Cargo.toml version");

    let shown = parse(&["dropignore", "--version"]).expect_err("the version is shown");
    assert_eq!(shown.text, "dropignore 0.1.0\n");
    assert_eq!(shown.exit_code, 0);
    assert!(!shown.to_stderr);
}

#[test]
fn scan_once_flag_parses_and_defaults_off() {
    let on = parse(&["dropignore", "--scan-once", "/tmp"]).expect("must parse");
    assert!(on.scan_once, "--scan-once must set the flag");
    assert_eq!(on.root, PathBuf::from("/tmp"));

    let off = parse(&["dropignore", "/tmp"]).expect("must parse");
    assert!(!off.scan_once, "flag must default to false");
}

#[test]
fn dry_run_has_a_short_and_a_long_name() {
    for flag in ["-n", "--dry-run"] {
        let args = parse(&["dropignore", flag, "/tmp"]).expect("must parse");
        assert!(args.dry_run, "{flag}");
        assert!(!args.scan_once, "{flag}");
    }
    let both = parse(&["dropignore", "-n", "--scan-once", "/tmp"]).expect("must parse");
    assert!(both.dry_run);
    assert!(both.scan_once);
    assert!(!parse(&["dropignore", "/tmp"]).expect("must parse").dry_run);
}

#[test]
fn mistakes_are_refused() {
    for args in [
        vec!["dropignore"],
        vec!["dropignore", ""],
        vec!["dropignore", "--watch", "/tmp"],
        vec!["dropignore", "/tmp", "/home"],
    ] {
        let refusal = parse(&args).expect_err("must be refused");
        assert_eq!(refusal.exit_code, 2, "{args:?}");
        assert!(refusal.to_stderr, "{args:?}");
        assert!(refusal.text.starts_with("error: "), "{args:?}: {}", refusal.text);
    }
}

#[test]
fn refused_arguments_are_shown_whole() {
    for shown in ["-\u{e9}", "--caf\u{e9}", "-\u{4e00}"] {
        let refusal = parse(&["dropignore", shown, "/tmp"]).expect_err("must be refused");
        let quoted = format!("unexpected argument '{shown}' found");
        assert!(refusal.text.contains(&quoted), "{}", refusal.text);
    }
}

#[test]
fn refusals_are_styled_for_a_terminal() {
    let refusal = parse(&["dropignore"]).expect_err("must be refused");
    assert!(!refusal.text.contains('\u{1b}'), "{}", refusal.text);
    assert!(refusal.styled.contains("\u{1b}["), "{}", refusal.styled);
    assert!(refusal.styled.contains("error:"), "{}", refusal.styled);
}

#[test]
fn help_shows_the_arguments() {
    let shown = parse(&["dropignore", "--help"]).expect_err("the help is shown");
    assert_eq!(shown.exit_code, 0);
    for part in [
        "Watch a directory and tag matching paths with the Dropbox ignore attribute.",
        "Usage: dropignore [OPTIONS] <DIRECTORY>",
        "Root directory to watch recursively",
        "-n, --dry-run",
        "Skip calling setxattr and only log intended actions",
        "--scan-once",
        "Scan the tree once, mark matches, and exit without watching",
    ] {
        assert!(shown.text.contains(part), "{part} is missing in {}", shown.text);
    }
}

#[test]
fn parsed_values_are_taken_over() {
    let root = PathBuf::from("/t//./x");
    for (dry_run, scan_once) in [(false, false), (true, false), (false, true), (true, true)] {
        let args = CliArgs::from_parsed(root.clone(), &[dry_run, scan_once]);
        assert_eq!(args.root.as_os_str(), root.as_os_str());
        assert_eq!(args.dry_run, dry_run);
        assert_eq!(args.scan_once, scan_once);
    }
    let bare = CliArgs::from_parsed(root, &[]);
    assert!(!bare.dry_run);
    assert!(!bare.scan_once);
}
