use sirtea::cli::{
    classify, help_text, model_token, plain_token, segment_length_token, version_text, ArgToken,
    Args, Meaning, RawArg, Stop,
};
use std::path::PathBuf;

fn read(line: &[&str]) -> Args {
    let mut parser = lexopt::Parser::from_args(line.iter());
    let mut args = Args::new();
    while args.read_next(&mut parser) {}
    args
}

#[test]
fn empty_command_line_gives_nothing() {
    let args = read(&[]);
    assert!(args.files.is_empty());
    assert!(args.model.is_none());
    assert!(args.segment_lengths.is_empty());
    assert!(!args.dry_run && !args.quiet && !args.verbose && !args.one_file_system);
    assert!(args.stop.is_none());
}

#[test]
fn options_may_stand_anywhere() {
    let args = read(&[
        "a.mkv",
        "-qv",
        "--model=weights",
        "b.mp4",
        "--segment-length",
        "30",
        "--segment-length",
        "-5",
        "--dry-run",
        "-x",
        "--quiet",
        "--",
        "-c.mkv",
    ]);
    assert!(args.stop.is_none());
    assert_eq!(
        args.files,
        [
            PathBuf::from("a.mkv"),
            PathBuf::from("b.mp4"),
            PathBuf::from("-c.mkv")
        ]
    );
    assert_eq!(args.model, Some(PathBuf::from("weights")));
    assert_eq!(args.segment_lengths, ["30", "-5"]);
    assert!(args.dry_run && args.quiet && args.verbose && args.one_file_system);
}

#[test]
fn last_model_counts() {
    let args = read(&["--model", "first", "--model", "second"]);
    assert_eq!(args.model, Some(PathBuf::from("second")));
}

#[test]
fn long_flags_are_known() {
    let args = read(&["--verbose", "--one-file-system"]);
    assert!(args.verbose && args.one_file_system && !args.quiet && !args.dry_run);
}

#[test]
fn nothing_counts_after_help_or_version() {
    let args = read(&["a", "-h", "b", "--nonsense"]);
    assert!(matches!(args.stop, Some(Stop::Help)));
    assert_eq!(args.files.len(), 1);
    assert!(matches!(read(&["--help"]).stop, Some(Stop::Help)));
    assert!(matches!(read(&["-V", "-h"]).stop, Some(Stop::Version)));
    assert!(matches!(read(&["--version"]).stop, Some(Stop::Version)));
}

#[test]
fn bad_arguments_are_reported() {
    let report = |line: &[&str]| match read(line).stop {
        Some(Stop::Failed(error)) => error.to_string(),
        _ => panic!("accepted {line:?}"),
    };
    assert_eq!(report(&["--nonsense"]), "invalid option '--nonsense'");
    assert_eq!(report(&["-z"]), "invalid option '-z'");
    assert_eq!(report(&["--model"]), "missing argument for option '--model'");
    assert_eq!(
        report(&["--segment-length"]),
        "missing argument for option '--segment-length'"
    );
    assert_eq!(
        report(&["--quiet=yes"]),
        "unexpected argument for option '--quiet': \"yes\""
    );
    // Short forms exist for some options only.
    assert_eq!(report(&["-m"]), "invalid option '-m'");
}

#[test]
fn reading_goes_on_until_it_stops() {
    let mut parser = lexopt::Parser::from_args(["a", "-h"]);
    let mut args = Args::new();
    assert!(args.read_next(&mut parser));
    assert_eq!(args.files.len(), 1);
    assert!(!args.read_next(&mut parser));
    assert!(matches!(args.stop, Some(Stop::Help)));
    assert!(!args.read_next(&mut parser));
    assert_eq!(args.files.len(), 1);
}

#[test]
fn whole_command_line_is_read_at_once() {
    let line = [
        "a", "-qx", "--model", "m", "--segment-length=5", "b", "--model=n", "--help", "c",
    ];
    let mut parser = lexopt::Parser::from_args(line);
    let mut args = Args::new();
    assert!(!args.read_upto(&mut parser, usize::MAX));
    assert_eq!(args.files, [PathBuf::from("a"), PathBuf::from("b")]);
    assert_eq!(args.model, Some(PathBuf::from("n")));
    assert_eq!(args.segment_lengths, ["5"]);
    assert!(args.quiet && args.one_file_system && !args.verbose && !args.dry_run);
    assert!(matches!(args.stop, Some(Stop::Help)));
    assert!(!args.read_upto(&mut parser, usize::MAX));
    assert_eq!(args.files.len(), 2);
}

#[test]
fn no_more_is_read_than_asked_for() {
    let mut parser = lexopt::Parser::from_args(["a", "--model", "m", "b"]);
    let mut args = Args::new();
    assert!(args.read_upto(&mut parser, 0));
    assert!(args.files.is_empty());
    assert!(args.read_upto(&mut parser, 2));
    assert_eq!(args.files.len(), 1);
    assert_eq!(args.model, Some(PathBuf::from("m")));
    assert!(args.read_upto(&mut parser, 1));
    assert_eq!(args.files.len(), 2);
    assert!(!args.read_upto(&mut parser, 1));
    assert!(args.stop.is_none());
}

#[test]
fn arguments_are_classified() {
    let long = |name: &str| classify(&RawArg::Long(name.to_string()));
    assert_eq!(classify(&RawArg::Short('h')), Meaning::Help);
    assert_eq!(classify(&RawArg::Short('V')), Meaning::Version);
    assert_eq!(classify(&RawArg::Short('q')), Meaning::Quiet);
    assert_eq!(classify(&RawArg::Short('v')), Meaning::Verbose);
    assert_eq!(classify(&RawArg::Short('x')), Meaning::OneFileSystem);
    assert_eq!(classify(&RawArg::Short('d')), Meaning::Unexpected);
    assert_eq!(long("help"), Meaning::Help);
    assert_eq!(long("version"), Meaning::Version);
    assert_eq!(long("model"), Meaning::Model);
    assert_eq!(long("segment-length"), Meaning::SegmentLength);
    assert_eq!(long("dry-run"), Meaning::DryRun);
    assert_eq!(long("quiet"), Meaning::Quiet);
    assert_eq!(long("verbose"), Meaning::Verbose);
    assert_eq!(long("one-file-system"), Meaning::OneFileSystem);
    assert_eq!(long("Help"), Meaning::Unexpected);
    assert_eq!(
        classify(&RawArg::Value(PathBuf::from("help"))),
        Meaning::File
    );
}

#[test]
fn tokens_carry_their_values() {
    assert!(matches!(
        model_token(Ok(PathBuf::from("m"))),
        ArgToken::Model(path) if path == PathBuf::from("m")
    ));
    assert!(matches!(
        model_token(Err("no".into())),
        ArgToken::Failed(error) if error.to_string() == "no"
    ));
    assert!(matches!(
        segment_length_token(Ok("5".to_string())),
        ArgToken::SegmentLength(text) if text == "5"
    ));
    assert!(matches!(
        segment_length_token(Err("no".into())),
        ArgToken::Failed(_)
    ));
    assert!(matches!(
        plain_token(RawArg::Value(PathBuf::from("f"))),
        ArgToken::File(path) if path == PathBuf::from("f")
    ));
    assert!(matches!(plain_token(RawArg::Short('x')), ArgToken::OneFileSystem));
    assert!(matches!(plain_token(RawArg::Short('?')), ArgToken::Failed(_)));
}

#[test]
fn flags_are_idempotent() {
    let mut args = Args::new();
    args.take(ArgToken::Quiet);
    args.take(ArgToken::Quiet);
    args.take(ArgToken::File(PathBuf::from("f")));
    args.take(ArgToken::Version);
    args.take(ArgToken::DryRun);
    assert!(args.quiet && !args.dry_run);
    assert_eq!(args.files.len(), 1);
    assert!(matches!(args.stop, Some(Stop::Version)));
}

#[test]
fn help_names_the_program_and_its_model() {
    let help = help_text("sirtea", "1.2.3");
    assert!(help.starts_with("sirtea 1.2.3\nGenerate SRT subtitle files from video"));
    assert!(help.contains(
        "downloaded from https://huggingface.co/handy-computer/parakeet-tdt-0.6b-v3-gguf.\n\n\
         USAGE:\n    sirtea [OPTIONS] <PATH>...\n"
    ));
    assert!(help.contains("directory containing parakeet-tdt-0.6b-v3-Q8_0.gguf\n"));
    assert!(help.ends_with("(https://ffmpeg.org/download.html)\n"));
    assert_eq!(version_text("sirtea", "1.2.3"), "sirtea 1.2.3");
}
