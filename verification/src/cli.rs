//! The command line.

use std::path::PathBuf;

use vstd::prelude::*;

use crate::model::{MODEL_FILE, MODEL_REPO};
use crate::text::same_text;

verus! {

/// `std::path::PathBuf`, carried through unread.
#[verifier::external_type_specification]
#[verifier::external_body]
pub struct ExPathBuf(PathBuf);

/// `lexopt::Parser`: what is left of the command line.
#[verifier::external_type_specification]
#[verifier::external_body]
pub struct ExParser(lexopt::Parser);

/// `lexopt::Error`, carried through unread.
#[verifier::external_type_specification]
#[verifier::external_body]
pub struct ExLexoptError(lexopt::Error);

/// One argument of the command line.
pub enum RawArg {
    /// A short option, without its dash.
    Short(char),
    /// A long option, without its dashes.
    Long(String),
    /// A positional argument.
    Value(PathBuf),
}

/// What an argument of the command line says.
pub enum ArgSeen {
    Short(char),
    Long(Seq<char>),
    Value(PathBuf),
}

impl View for RawArg {
    type V = ArgSeen;

    open spec fn view(&self) -> ArgSeen {
        match self {
            RawArg::Short(c) => ArgSeen::Short(*c),
            RawArg::Long(name) => ArgSeen::Long(name@),
            RawArg::Value(path) => ArgSeen::Value(*path),
        }
    }
}

/// What `lexopt::Parser::next` finds on what is left of a command line, and what it leaves.
pub uninterp spec fn next_of(parser: lexopt::Parser) -> (Result<Option<ArgSeen>, lexopt::Error>, lexopt::Parser);

/// What `lexopt::Parser::value` finds on what is left of a command line, and what it leaves.
pub uninterp spec fn value_of(parser: lexopt::Parser) -> (Result<PathBuf, lexopt::Error>, lexopt::Parser);

/// What `lexopt::ValueExt::string` makes of a value.
pub uninterp spec fn text_of(value: PathBuf) -> Result<Seq<char>, lexopt::Error>;

/// What `lexopt::Arg::unexpected` makes of an argument.
pub uninterp spec fn unexpected_of(arg: ArgSeen) -> lexopt::Error;

/// `lexopt::Parser::next`: the next argument, if there is one. A parser holds the arguments
/// that are left, so what is found and what is left of them depend on the parser alone. How
/// arguments are told apart is only named here.
#[verifier::external_body]
fn next_arg(parser: &mut lexopt::Parser) -> (arg: Result<Option<RawArg>, lexopt::Error>)
    ensures
        next_of(*old(parser)).0 == (match arg {
            Ok(Some(arg)) => Ok(Some(arg@)),
            Ok(None) => Ok(None),
            Err(error) => Err(error),
        }),
        *final(parser) == next_of(*old(parser)).1,
{
    match parser.next()? {
        Some(lexopt::Arg::Short(c)) => Ok(Some(RawArg::Short(c))),
        Some(lexopt::Arg::Long(name)) => Ok(Some(RawArg::Long(name.to_owned()))),
        Some(lexopt::Arg::Value(value)) => Ok(Some(RawArg::Value(value.into()))),
        None => Ok(None),
    }
}

/// `lexopt::Parser::value`: the value of the option that came last, or an error where the
/// command line ends. What is found and what is left depend on the parser alone.
#[verifier::external_body]
fn option_value(parser: &mut lexopt::Parser) -> (value: Result<PathBuf, lexopt::Error>)
    ensures
        value == value_of(*old(parser)).0,
        *final(parser) == value_of(*old(parser)).1,
{
    parser.value().map(PathBuf::from)
}

/// `lexopt::ValueExt::string`: a value as text, or an error where it is no text. Which it
/// is depends on the value alone; a path is carried through unread, so it is only named.
#[verifier::external_body]
fn value_text(value: PathBuf) -> (text: Result<String, lexopt::Error>)
    ensures
        text_of(value) == (match text {
            Ok(text) => Ok(text@),
            Err(error) => Err(error),
        }),
{
    lexopt::ValueExt::string(value.into_os_string())
}

/// `lexopt::Arg::unexpected`: the error for an argument that means nothing here. It depends
/// on the argument alone; errors are carried through unread, so it is only named.
#[verifier::external_body]
fn unexpected_arg(arg: RawArg) -> (error: lexopt::Error)
    ensures
        error == unexpected_of(arg@),
{
    match arg {
        RawArg::Short(c) => lexopt::Arg::Short(c).unexpected(),
        RawArg::Long(name) => lexopt::Arg::Long(name.as_str()).unexpected(),
        RawArg::Value(value) => lexopt::Arg::Value(value.into()).unexpected(),
    }
}

/// What an argument asks for.
#[derive(Clone, Copy, Debug, PartialEq, Eq, Structural)]
pub enum Meaning {
    Help,
    Version,
    Model,
    SegmentLength,
    DryRun,
    Quiet,
    Verbose,
    OneFileSystem,
    File,
    Unexpected,
}

/// What a short option asks for.
pub open spec fn short_meaning(c: char) -> Meaning {
    if c == 'h' {
        Meaning::Help
    } else if c == 'V' {
        Meaning::Version
    } else if c == 'q' {
        Meaning::Quiet
    } else if c == 'v' {
        Meaning::Verbose
    } else if c == 'x' {
        Meaning::OneFileSystem
    } else {
        Meaning::Unexpected
    }
}

/// What a long option asks for.
pub open spec fn long_meaning(name: Seq<char>) -> Meaning {
    if name == "help"@ {
        Meaning::Help
    } else if name == "version"@ {
        Meaning::Version
    } else if name == "model"@ {
        Meaning::Model
    } else if name == "segment-length"@ {
        Meaning::SegmentLength
    } else if name == "dry-run"@ {
        Meaning::DryRun
    } else if name == "quiet"@ {
        Meaning::Quiet
    } else if name == "verbose"@ {
        Meaning::Verbose
    } else if name == "one-file-system"@ {
        Meaning::OneFileSystem
    } else {
        Meaning::Unexpected
    }
}

/// What an argument asks for.
pub open spec fn meaning_of(arg: ArgSeen) -> Meaning {
    match arg {
        ArgSeen::Short(c) => short_meaning(c),
        ArgSeen::Long(name) => long_meaning(name),
        ArgSeen::Value(_) => Meaning::File,
    }
}

/// What an argument asks for.
pub fn classify(arg: &RawArg) -> (meaning: Meaning)
    ensures
        meaning == meaning_of(arg@),
{
    match arg {
        RawArg::Short(c) => {
            let c = *c;
            if c == 'h' {
                Meaning::Help
            } else if c == 'V' {
                Meaning::Version
            } else if c == 'q' {
                Meaning::Quiet
            } else if c == 'v' {
                Meaning::Verbose
            } else if c == 'x' {
                Meaning::OneFileSystem
            } else {
                Meaning::Unexpected
            }
        },
        RawArg::Long(name) => {
            let name = name.as_str();
            if same_text(name, "help") {
                Meaning::Help
            } else if same_text(name, "version") {
                Meaning::Version
            } else if same_text(name, "model") {
                Meaning::Model
            } else if same_text(name, "segment-length") {
                Meaning::SegmentLength
            } else if same_text(name, "dry-run") {
                Meaning::DryRun
            } else if same_text(name, "quiet") {
                Meaning::Quiet
            } else if same_text(name, "verbose") {
                Meaning::Verbose
            } else if same_text(name, "one-file-system") {
                Meaning::OneFileSystem
            } else {
                Meaning::Unexpected
            }
        },
        RawArg::Value(_) => Meaning::File,
    }
}

/// An argument together with its value, if it takes one.
pub enum ArgToken {
    Help,
    Version,
    Model(PathBuf),
    SegmentLength(String),
    DryRun,
    Quiet,
    Verbose,
    OneFileSystem,
    File(PathBuf),
    /// Something that is no argument that is known here.
    Failed(lexopt::Error),
}

/// Why reading the command line stopped before its end.
pub enum Stop {
    /// Help was asked for.
    Help,
    /// The version was asked for.
    Version,
    /// Something is wrong with the command line.
    Failed(lexopt::Error),
}

/// Command-line arguments.
pub struct Args {
    /// The videos and directories, in order.
    pub files: Vec<PathBuf>,
    /// The model path that was given last, if any.
    pub model: Option<PathBuf>,
    /// The segment lengths that were given, as they were written, in order. The last one
    /// counts, but all of them must be numbers.
    pub segment_lengths: Vec<String>,
    pub dry_run: bool,
    pub quiet: bool,
    pub verbose: bool,
    pub one_file_system: bool,
    /// Set where reading stopped early.
    pub stop: Option<Stop>,
}

/// What is given on the command line.
pub struct ArgsView {
    pub files: Seq<PathBuf>,
    pub model: Option<PathBuf>,
    pub segment_lengths: Seq<String>,
    pub dry_run: bool,
    pub quiet: bool,
    pub verbose: bool,
    pub one_file_system: bool,
    pub stop: Option<Stop>,
}

impl View for Args {
    type V = ArgsView;

    open spec fn view(&self) -> ArgsView {
        ArgsView {
            files: self.files@,
            model: self.model,
            segment_lengths: self.segment_lengths@,
            dry_run: self.dry_run,
            quiet: self.quiet,
            verbose: self.verbose,
            one_file_system: self.one_file_system,
            stop: self.stop,
        }
    }
}

impl ArgsView {
    /// An empty command line.
    pub open spec fn none() -> ArgsView {
        ArgsView {
            files: Seq::empty(),
            model: None,
            segment_lengths: Seq::empty(),
            dry_run: false,
            quiet: false,
            verbose: false,
            one_file_system: false,
            stop: None,
        }
    }

    /// What is given once one more argument has been read. After a request for help or the
    /// version, or an error, nothing counts any more.
    pub open spec fn with(self, token: ArgToken) -> ArgsView {
        if self.stop is Some {
            self
        } else {
            match token {
                ArgToken::Help => ArgsView { stop: Some(Stop::Help), ..self },
                ArgToken::Version => ArgsView { stop: Some(Stop::Version), ..self },
                ArgToken::Model(path) => ArgsView { model: Some(path), ..self },
                ArgToken::SegmentLength(text) => ArgsView {
                    segment_lengths: self.segment_lengths.push(text),
                    ..self
                },
                ArgToken::DryRun => ArgsView { dry_run: true, ..self },
                ArgToken::Quiet => ArgsView { quiet: true, ..self },
                ArgToken::Verbose => ArgsView { verbose: true, ..self },
                ArgToken::OneFileSystem => ArgsView { one_file_system: true, ..self },
                ArgToken::File(path) => ArgsView { files: self.files.push(path), ..self },
                ArgToken::Failed(error) => ArgsView { stop: Some(Stop::Failed(error)), ..self },
            }
        }
    }

    /// What is given once more arguments have been read, one after the other.
    pub open spec fn with_all(self, tokens: Seq<ArgToken>) -> ArgsView
        decreases tokens.len(),
    {
        if tokens.len() == 0 {
            self
        } else {
            self.with_all(tokens.drop_last()).with(tokens.last())
        }
    }
}

impl Args {
    /// An empty command line.
    pub fn new() -> (args: Args)
        ensures
            args@ == ArgsView::none(),
    {
        Args {
            files: Vec::new(),
            model: None,
            segment_lengths: Vec::new(),
            dry_run: false,
            quiet: false,
            verbose: false,
            one_file_system: false,
            stop: None,
        }
    }

    /// Takes one more argument into account.
    pub fn take(&mut self, token: ArgToken)
        ensures
            final(self)@ == old(self)@.with(token),
    {
        if self.stop.is_some() {
            return ;
        }
        match token {
            ArgToken::Help => {
                self.stop = Some(Stop::Help);
            },
            ArgToken::Version => {
                self.stop = Some(Stop::Version);
            },
            ArgToken::Model(path) => {
                self.model = Some(path);
            },
            ArgToken::SegmentLength(text) => {
                self.segment_lengths.push(text);
            },
            ArgToken::DryRun => {
                self.dry_run = true;
            },
            ArgToken::Quiet => {
                self.quiet = true;
            },
            ArgToken::Verbose => {
                self.verbose = true;
            },
            ArgToken::OneFileSystem => {
                self.one_file_system = true;
            },
            ArgToken::File(path) => {
                self.files.push(path);
            },
            ArgToken::Failed(error) => {
                self.stop = Some(Stop::Failed(error));
            },
        }
    }

    /// Reads one more argument from the command line, and says whether there may be
    /// another one to read: there is none at the end of the command line, or once reading
    /// has stopped.
    pub fn read_next(&mut self, parser: &mut lexopt::Parser) -> (more: bool)
        ensures
            old(self)@.stop is Some ==> {
                &&& !more
                &&& final(self)@ == old(self)@
                &&& *final(parser) == *old(parser)
            },
            old(self)@.stop is None ==> {
                &&& *final(parser) == rest_after(*old(parser))
                &&& exists|token: Option<ArgToken>| #[trigger]
                    reads(*old(parser), token) && (match token {
                        Some(token) => final(self)@ == old(self)@.with(token) && more == (
                        final(self)@.stop is None),
                        None => final(self)@ == old(self)@ && !more,
                    })
            },
    {
        let ghost before = self@;
        if self.stop.is_some() {
            return false;
        }
        let read = read_token(parser);
        assert(reads(*old(parser), read));
        match read {
            Some(token) => {
                self.take(token);
                assert(self@ == before.with(token));
                self.stop.is_none()
            },
            None => false,
        }
    }

    /// Reads at most `most` arguments from the command line, and says whether there may be
    /// more to read: there are none past the end of the command line, or once reading has
    /// stopped.
    pub fn read_upto(&mut self, parser: &mut lexopt::Parser, most: usize) -> (more: bool)
        ensures
            exists|tokens: Seq<ArgToken>| #[trigger]
                is_reading(
                    old(self)@,
                    *old(parser),
                    most as int,
                    tokens,
                    final(self)@,
                    *final(parser),
                    more,
                ),
    {
        let ghost before = self@;
        let ghost start = *parser;
        let ghost mut tokens: Seq<ArgToken> = Seq::empty();
        let mut left: usize = most;
        while left > 0 && self.stop.is_none()
            invariant
                before == old(self)@,
                start == *old(parser),
                left <= most,
                tokens.len() == most - left,
                reads_all(start, tokens),
                stops_at_last(before, tokens),
                self@ == before.with_all(tokens),
                *parser == rest_after_all(start, tokens.len()),
            decreases left,
        {
            let read = read_token(parser);
            match read {
                Some(token) => {
                    let ghost longer = tokens.push(token);
                    proof {
                        lemma_one_more(before, start, tokens, token);
                    }
                    self.take(token);
                    proof {
                        tokens = longer;
                    }
                    left -= 1;
                },
                None => {
                    assert(is_reading(before, start, most as int, tokens, self@, *parser, false));
                    return false;
                },
            }
        }
        let more = self.stop.is_none();
        assert(is_reading(before, start, most as int, tokens, self@, *parser, more));
        more
    }
}

/// Whether an argument amounts to `token`, given what comes of reading a value after
/// it, if it takes one.
pub open spec fn amounts_to(
    arg: ArgSeen,
    value: Result<PathBuf, lexopt::Error>,
    token: ArgToken,
) -> bool {
    match meaning_of(arg) {
        Meaning::Help => token is Help,
        Meaning::Version => token is Version,
        Meaning::Model => match value {
            Ok(path) => token == ArgToken::Model(path),
            Err(error) => token == ArgToken::Failed(error),
        },
        Meaning::SegmentLength => match value {
            Ok(path) => match text_of(path) {
                Ok(text) => token matches ArgToken::SegmentLength(given) && given@ == text,
                Err(error) => token == ArgToken::Failed(error),
            },
            Err(error) => token == ArgToken::Failed(error),
        },
        Meaning::DryRun => token is DryRun,
        Meaning::Quiet => token is Quiet,
        Meaning::Verbose => token is Verbose,
        Meaning::OneFileSystem => token is OneFileSystem,
        Meaning::File => arg matches ArgSeen::Value(path) && token == ArgToken::File(path),
        Meaning::Unexpected => token == ArgToken::Failed(unexpected_of(arg)),
    }
}

/// Whether `token` is what comes next on the command line; there is none at its end.
pub open spec fn reads(parser: lexopt::Parser, token: Option<ArgToken>) -> bool {
    match next_of(parser).0 {
        Ok(Some(arg)) => token matches Some(token) && amounts_to(
            arg,
            value_of(next_of(parser).1).0,
            token,
        ),
        Ok(None) => token is None,
        Err(error) => token == Some(ArgToken::Failed(error)),
    }
}

/// What is left of the command line once the next argument has been read, and its value if
/// it takes one.
pub open spec fn rest_after(parser: lexopt::Parser) -> lexopt::Parser {
    let (arg, rest) = next_of(parser);
    match arg {
        Ok(Some(arg)) => if takes_value(meaning_of(arg)) {
            value_of(rest).1
        } else {
            rest
        },
        _ => rest,
    }
}

/// Reads an argument, and its value if it takes one. There is none at the end of the
/// command line.
fn read_token(parser: &mut lexopt::Parser) -> (token: Option<ArgToken>)
    ensures
        reads(*old(parser), token),
        *final(parser) == rest_after(*old(parser)),
{
    let arg = match next_arg(parser) {
        Err(error) => {
            return Some(ArgToken::Failed(error));
        },
        Ok(None) => {
            return None;
        },
        Ok(Some(arg)) => arg,
    };
    match classify(&arg) {
        Meaning::Model => Some(model_token(option_value(parser))),
        Meaning::SegmentLength => {
            let text = match option_value(parser) {
                Ok(value) => value_text(value),
                Err(error) => Err(error),
            };
            Some(segment_length_token(text))
        },
        _ => Some(plain_token(arg)),
    }
}

/// What is left of the command line once `count` arguments have been read.
pub open spec fn rest_after_all(parser: lexopt::Parser, count: nat) -> lexopt::Parser
    decreases count,
{
    if count == 0 {
        parser
    } else {
        rest_after(rest_after_all(parser, (count - 1) as nat))
    }
}

/// Whether `tokens` are the next arguments of the command line, in order.
pub open spec fn reads_all(parser: lexopt::Parser, tokens: Seq<ArgToken>) -> bool {
    forall|k: int|
        0 <= k < tokens.len() ==> reads(
            rest_after_all(parser, k as nat),
            Some(#[trigger] tokens[k]),
        )
}

/// Whether reading `tokens` one after the other stops, if at all, at the last of them.
pub open spec fn stops_at_last(args: ArgsView, tokens: Seq<ArgToken>) -> bool {
    forall|k: int| 0 <= k < tokens.len() ==> (#[trigger] args.with_all(tokens.take(k))).stop is None
}

/// What comes of reading at most `most` arguments: `tokens` were read, and there may be
/// more, or reading has stopped, or the end of the command line was found.
pub open spec fn is_reading(
    before: ArgsView,
    parser: lexopt::Parser,
    most: int,
    tokens: Seq<ArgToken>,
    after: ArgsView,
    rest: lexopt::Parser,
    more: bool,
) -> bool {
    &&& tokens.len() <= most
    &&& reads_all(parser, tokens)
    &&& stops_at_last(before, tokens)
    &&& after == before.with_all(tokens)
    &&& if more {
        &&& tokens.len() == most
        &&& after.stop is None
        &&& rest == rest_after_all(parser, tokens.len())
    } else if after.stop is Some {
        rest == rest_after_all(parser, tokens.len())
    } else {
        &&& tokens.len() < most
        &&& reads(rest_after_all(parser, tokens.len()), None)
        &&& rest == rest_after_all(parser, tokens.len() + 1)
    }
}

/// What `--model` amounts to, given what came of reading its value.
pub fn model_token(value: Result<PathBuf, lexopt::Error>) -> (token: ArgToken)
    ensures
        token == (match value {
            Ok(path) => ArgToken::Model(path),
            Err(error) => ArgToken::Failed(error),
        }),
{
    match value {
        Ok(path) => ArgToken::Model(path),
        Err(error) => ArgToken::Failed(error),
    }
}

/// What `--segment-length` amounts to, given what came of reading its value.
pub fn segment_length_token(value: Result<String, lexopt::Error>) -> (token: ArgToken)
    ensures
        token == (match value {
            Ok(text) => ArgToken::SegmentLength(text),
            Err(error) => ArgToken::Failed(error),
        }),
{
    match value {
        Ok(text) => ArgToken::SegmentLength(text),
        Err(error) => ArgToken::Failed(error),
    }
}

/// Whether an option takes a value.
pub open spec fn takes_value(meaning: Meaning) -> bool {
    meaning is Model || meaning is SegmentLength
}

/// What an argument that takes no value amounts to.
pub fn plain_token(arg: RawArg) -> (token: ArgToken)
    requires
        !takes_value(meaning_of(arg@)),
    ensures
        match meaning_of(arg@) {
            Meaning::Help => token is Help,
            Meaning::Version => token is Version,
            Meaning::DryRun => token is DryRun,
            Meaning::Quiet => token is Quiet,
            Meaning::Verbose => token is Verbose,
            Meaning::OneFileSystem => token is OneFileSystem,
            Meaning::File => arg matches RawArg::Value(path) && token == ArgToken::File(path),
            _ => token == ArgToken::Failed(unexpected_of(arg@)),
        },
{
    match classify(&arg) {
        Meaning::Help => ArgToken::Help,
        Meaning::Version => ArgToken::Version,
        Meaning::DryRun => ArgToken::DryRun,
        Meaning::Quiet => ArgToken::Quiet,
        Meaning::Verbose => ArgToken::Verbose,
        Meaning::OneFileSystem => ArgToken::OneFileSystem,
        _ => match arg {
            RawArg::Value(path) => ArgToken::File(path),
            option => ArgToken::Failed(unexpected_arg(option)),
        },
    }
}

/// The help text between the program's version and the model's repository.
pub const HELP_INTRODUCTION: &'static str = "
Generate SRT subtitle files from video using local speech-to-text.

Transcription runs fully locally using NVIDIA's Parakeet model via
transcribe.cpp (ggml); no audio ever leaves your machine. On first run, the
model (~740 MB) is downloaded from https://huggingface.co/";

/// The help text between the model's repository and the program's name.
pub const HELP_USAGE: &'static str = ".

USAGE:
    ";

/// The help text between the program's name and the name of the model file.
pub const HELP_OPTIONS: &'static str = " [OPTIONS] <PATH>...

ARGS:
    <PATH>...    Video files or directories to transcribe

OPTIONS:
    -h, --help                  Print help information
    -V, --version               Print version information
        --model <FILE>          Path to the Parakeet GGUF model file, or a
                                directory containing ";

/// The help text after the name of the model file.
pub const HELP_CONCLUSION: &'static str = "
                                (default: auto-download to the user data dir)
        --segment-length <SEC>  Max segment length in seconds (default: the
                                model's own per-inference-call audio limit;
                                lowering it mainly reduces memory use)
        --dry-run               List what would be transcribed without transcribing
    -q, --quiet                 Minimal output (errors only)
    -v, --verbose               Print split point details when segmenting long videos
    -x, --one-file-system       Don't cross filesystem boundaries when recursing directories

CONFIGURATION:
    Optional config file at $XDG_CONFIG_HOME/sirtea/config.toml (usually
    ~/.config/sirtea/config.toml); see config.example.toml for the available
    settings (model_path, segment_length).

REQUIREMENTS:
    - ffmpeg and ffprobe in PATH (https://ffmpeg.org/download.html)
";

/// The version of the program, as it is printed.
pub fn version_text(name: &str, version: &str) -> (text: String)
    ensures
        text@ == name@ + " "@ + version@,
{
    let mut text = name.to_owned();
    text.append(" ");
    text.append(version);
    text
}

/// The help text of the program.
pub fn help_text(name: &str, version: &str) -> (text: String)
    ensures
        text@ == name@ + " "@ + version@ + HELP_INTRODUCTION@ + MODEL_REPO@ + HELP_USAGE@ + name@
            + HELP_OPTIONS@ + MODEL_FILE@ + HELP_CONCLUSION@,
{
    let mut text = version_text(name, version);
    text.append(HELP_INTRODUCTION);
    text.append(MODEL_REPO);
    text.append(HELP_USAGE);
    text.append(name);
    text.append(HELP_OPTIONS);
    text.append(MODEL_FILE);
    text.append(HELP_CONCLUSION);
    text
}

/// Whether an argument ends the reading of the command line.
pub open spec fn stops(token: ArgToken) -> bool {
    token is Help || token is Version || token is Failed
}

/// Reading one more argument, where reading has not stopped.
proof fn lemma_one_more(
    args: ArgsView,
    parser: lexopt::Parser,
    tokens: Seq<ArgToken>,
    token: ArgToken,
)
    requires
        reads_all(parser, tokens),
        stops_at_last(args, tokens),
        args.with_all(tokens).stop is None,
        reads(rest_after_all(parser, tokens.len()), Some(token)),
    ensures
        reads_all(parser, tokens.push(token)),
        stops_at_last(args, tokens.push(token)),
        args.with_all(tokens.push(token)) == args.with_all(tokens).with(token),
{
    let longer = tokens.push(token);
    assert(longer.drop_last() =~= tokens);
    assert forall|k: int| 0 <= k < longer.len() implies reads(
        rest_after_all(parser, k as nat),
        Some(#[trigger] longer[k]),
    ) by {
        if k < tokens.len() {
            assert(longer[k] == tokens[k]);
        }
    }
    assert forall|k: int| 0 <= k < longer.len() implies (#[trigger] args.with_all(
        longer.take(k),
    )).stop is None by {
        if k < tokens.len() {
            assert(longer.take(k) =~= tokens.take(k));
        } else {
            assert(longer.take(k) =~= tokens);
        }
    }
}

/// Whether an argument is one of the flags.
pub open spec fn is_flag(token: ArgToken) -> bool {
    token is DryRun || token is Quiet || token is Verbose || token is OneFileSystem
}

/// Once reading has stopped, nothing that follows on the command line counts.
pub proof fn law_nothing_counts_after_stop(args: ArgsView, token: ArgToken, later: ArgToken)
    requires
        stops(token),
    ensures
        args.with(token).stop is Some,
        args.with(token).with(later) == args.with(token),
{
}

/// Files are taken in the order in which they are given, and none is lost.
pub proof fn law_files_are_kept(args: ArgsView, token: ArgToken)
    ensures
        args.files.is_prefix_of(args.with(token).files),
        args.stop is None ==> (token matches ArgToken::File(path) ==> args.with(token).files
            == args.files.push(path)),
{
    assert(args.files =~= args.with(token).files.take(args.files.len() as int));
}

/// Whether some of `tokens` ends the reading of the command line.
pub open spec fn any_stops(tokens: Seq<ArgToken>) -> bool {
    exists|k: int| 0 <= k < tokens.len() && stops(#[trigger] tokens[k])
}

/// The arguments that count: those before the first one that ends the reading.
pub open spec fn counted(tokens: Seq<ArgToken>) -> Seq<ArgToken>
    decreases tokens.len(),
{
    if tokens.len() == 0 || stops(tokens[0]) {
        Seq::empty()
    } else {
        seq![tokens[0]] + counted(tokens.drop_first())
    }
}

/// The positional arguments, in order.
pub open spec fn positional(tokens: Seq<ArgToken>) -> Seq<PathBuf>
    decreases tokens.len(),
{
    if tokens.len() == 0 {
        Seq::empty()
    } else {
        match tokens.last() {
            ArgToken::File(path) => positional(tokens.drop_last()).push(path),
            _ => positional(tokens.drop_last()),
        }
    }
}

/// The segment lengths, as they were written, in order.
pub open spec fn lengths_given(tokens: Seq<ArgToken>) -> Seq<String>
    decreases tokens.len(),
{
    if tokens.len() == 0 {
        Seq::empty()
    } else {
        match tokens.last() {
            ArgToken::SegmentLength(text) => lengths_given(tokens.drop_last()).push(text),
            _ => lengths_given(tokens.drop_last()),
        }
    }
}

/// The last of the model paths, if there is any.
pub open spec fn last_model(tokens: Seq<ArgToken>) -> Option<PathBuf>
    decreases tokens.len(),
{
    if tokens.len() == 0 {
        None
    } else {
        match tokens.last() {
            ArgToken::Model(path) => Some(path),
            _ => last_model(tokens.drop_last()),
        }
    }
}

/// How what counts grows with one more argument.
proof fn lemma_counted_push(tokens: Seq<ArgToken>, token: ArgToken)
    ensures
        counted(tokens.push(token)) == (if any_stops(tokens) || stops(token) {
            counted(tokens)
        } else {
            counted(tokens).push(token)
        }),
        !any_stops(tokens) ==> counted(tokens) == tokens,
    decreases tokens.len(),
{
    let longer = tokens.push(token);
    if tokens.len() == 0 {
        assert(longer.drop_first() =~= Seq::<ArgToken>::empty());
        assert(counted(longer.drop_first()) =~= Seq::<ArgToken>::empty());
        assert(counted(tokens) =~= tokens);
        if !stops(token) {
            assert(counted(longer) =~= seq![token]);
            assert(counted(longer) =~= counted(tokens).push(token));
        }
    } else {
        assert(longer[0] == tokens[0]);
        let rest = tokens.drop_first();
        assert(longer.drop_first() =~= rest.push(token));
        lemma_counted_push(rest, token);
        if stops(tokens[0]) {
            assert(any_stops(tokens));
        } else {
            assert(any_stops(tokens) == any_stops(rest)) by {
                if any_stops(tokens) {
                    let k = choose|k: int| 0 <= k < tokens.len() && stops(#[trigger] tokens[k]);
                    assert(stops(rest[k - 1]));
                }
                if any_stops(rest) {
                    let k = choose|k: int| 0 <= k < rest.len() && stops(#[trigger] rest[k]);
                    assert(stops(tokens[k + 1]));
                }
            }
            if !any_stops(tokens) {
                assert(seq![tokens[0]] + rest =~= tokens);
                if !stops(token) {
                    assert(counted(longer) =~= counted(tokens).push(token));
                }
            }
        }
    }
}

/// Whether something of a command line stops it is told by its last argument and the others.
proof fn lemma_any_stops_push(tokens: Seq<ArgToken>, token: ArgToken)
    ensures
        any_stops(tokens.push(token)) == (any_stops(tokens) || stops(token)),
{
    let longer = tokens.push(token);
    if any_stops(tokens) {
        let k = choose|k: int| 0 <= k < tokens.len() && stops(#[trigger] tokens[k]);
        assert(stops(longer[k]));
    }
    if stops(token) {
        assert(stops(longer[tokens.len() as int]));
    }
    if any_stops(longer) {
        let k = choose|k: int| 0 <= k < longer.len() && stops(#[trigger] longer[k]);
        if k < tokens.len() {
            assert(stops(tokens[k]));
        }
    }
}

/// What a whole command line gives, up to the first argument that ends the reading: the
/// files are the positional arguments and the segment lengths those that were given, in
/// order, the last model counts, and a flag is set if it is given anywhere. Reading stops
/// exactly if some argument ends it.
pub proof fn law_whole_command_line(args: ArgsView, tokens: Seq<ArgToken>)
    requires
        args.stop is None,
    ensures
        ({
            let given = counted(tokens);
            let after = args.with_all(tokens);
            &&& after.stop is Some <==> any_stops(tokens)
            &&& after.files == args.files + positional(given)
            &&& after.segment_lengths == args.segment_lengths + lengths_given(given)
            &&& after.model == prefer_given(last_model(given), args.model)
            &&& after.dry_run == (args.dry_run || gives(given, ArgToken::DryRun))
            &&& after.quiet == (args.quiet || gives(given, ArgToken::Quiet))
            &&& after.verbose == (args.verbose || gives(given, ArgToken::Verbose))
            &&& after.one_file_system == (args.one_file_system || gives(
                given,
                ArgToken::OneFileSystem,
            ))
        }),
    decreases tokens.len(),
{
    if tokens.len() == 0 {
        assert(counted(tokens) =~= Seq::<ArgToken>::empty());
    } else {
        let fewer = tokens.drop_last();
        let token = tokens.last();
        law_whole_command_line(args, fewer);
        lemma_counted_push(fewer, token);
        lemma_any_stops_push(fewer, token);
        assert(tokens =~= fewer.push(token));
        if !any_stops(fewer) && !stops(token) {
            let given = counted(fewer);
            assert(given.push(token).drop_last() =~= given);
            lemma_gives_push(given, token, ArgToken::DryRun);
            lemma_gives_push(given, token, ArgToken::Quiet);
            lemma_gives_push(given, token, ArgToken::Verbose);
            lemma_gives_push(given, token, ArgToken::OneFileSystem);
        }
    }
}

/// Whether `token` is among `tokens`.
pub open spec fn gives(tokens: Seq<ArgToken>, token: ArgToken) -> bool {
    exists|k: int| 0 <= k < tokens.len() && #[trigger] tokens[k] == token
}

/// `last` if it is there, and `otherwise` if not.
pub open spec fn prefer_given(last: Option<PathBuf>, otherwise: Option<PathBuf>) -> Option<PathBuf> {
    if last is Some {
        last
    } else {
        otherwise
    }
}

proof fn lemma_gives_push(tokens: Seq<ArgToken>, token: ArgToken, wanted: ArgToken)
    ensures
        gives(tokens.push(token), wanted) == (gives(tokens, wanted) || token == wanted),
{
    let longer = tokens.push(token);
    if gives(tokens, wanted) {
        let k = choose|k: int| 0 <= k < tokens.len() && #[trigger] tokens[k] == wanted;
        assert(longer[k] == wanted);
    }
    if token == wanted {
        assert(longer[tokens.len() as int] == wanted);
    }
    if gives(longer, wanted) {
        let k = choose|k: int| 0 <= k < longer.len() && #[trigger] longer[k] == wanted;
        if k < tokens.len() {
            assert(tokens[k] == wanted);
        }
    }
}

/// Nothing counts that follows the first argument that ends the reading, which says why.
pub proof fn law_first_stop_ends_reading(args: ArgsView, tokens: Seq<ArgToken>, k: int)
    requires
        args.stop is None,
        0 <= k < tokens.len(),
        stops(tokens[k]),
        forall|m: int| 0 <= m < k ==> !stops(#[trigger] tokens[m]),
    ensures
        args.with_all(tokens) == args.with_all(tokens.take(k)).with(tokens[k]),
        args.with_all(tokens).stop == (match tokens[k] {
            ArgToken::Help => Some(Stop::Help),
            ArgToken::Version => Some(Stop::Version),
            ArgToken::Failed(error) => Some(Stop::Failed(error)),
            _ => None,
        }),
    decreases tokens.len(),
{
    let fewer = tokens.drop_last();
    if k < tokens.len() - 1 {
        assert forall|m: int| 0 <= m < k implies !stops(#[trigger] fewer[m]) by {
            assert(fewer[m] == tokens[m]);
        }
        law_first_stop_ends_reading(args, fewer, k);
        assert(fewer.take(k) =~= tokens.take(k));
    } else {
        assert(tokens.take(k) =~= fewer);
        law_whole_command_line(args, fewer);
        assert(!any_stops(fewer)) by {
            if any_stops(fewer) {
                let m = choose|m: int| 0 <= m < fewer.len() && stops(#[trigger] fewer[m]);
                assert(stops(tokens[m]));
            }
        }
    }
}

/// Giving a flag twice is the same as giving it once.
pub proof fn law_flags_are_idempotent(args: ArgsView, token: ArgToken)
    requires
        is_flag(token),
    ensures
        args.with(token).with(token) == args.with(token),
{
}

/// A flag may stand before or after any argument that does not end the reading.
pub proof fn law_flags_stand_anywhere(args: ArgsView, flag: ArgToken, token: ArgToken)
    requires
        is_flag(flag),
        !stops(token),
    ensures
        args.with(flag).with(token) == args.with(token).with(flag),
{
}

/// Of several model paths, the last one counts.
pub proof fn law_last_model_counts(args: ArgsView, first: PathBuf, last: PathBuf)
    ensures
        args.with(ArgToken::Model(first)).with(ArgToken::Model(last)) == args.with(
            ArgToken::Model(last),
        ),
{
}

/// The options by their names: each of them has one long name, five of them have a short
/// one, and every other name is unexpected.
pub proof fn law_option_names(arg: ArgSeen)
    ensures
        meaning_of(arg) is Help <==> arg == ArgSeen::Short('h') || arg == ArgSeen::Long("help"@),
        meaning_of(arg) is Version <==> arg == ArgSeen::Short('V') || arg == ArgSeen::Long(
            "version"@,
        ),
        meaning_of(arg) is Quiet <==> arg == ArgSeen::Short('q') || arg == ArgSeen::Long("quiet"@),
        meaning_of(arg) is Verbose <==> arg == ArgSeen::Short('v') || arg == ArgSeen::Long(
            "verbose"@,
        ),
        meaning_of(arg) is OneFileSystem <==> arg == ArgSeen::Short('x') || arg == ArgSeen::Long(
            "one-file-system"@,
        ),
        meaning_of(arg) is Model <==> arg == ArgSeen::Long("model"@),
        meaning_of(arg) is SegmentLength <==> arg == ArgSeen::Long("segment-length"@),
        meaning_of(arg) is DryRun <==> arg == ArgSeen::Long("dry-run"@),
        meaning_of(arg) is File <==> arg is Value,
{
    reveal_strlit("help");
    reveal_strlit("version");
    reveal_strlit("quiet");
    reveal_strlit("verbose");
    reveal_strlit("one-file-system");
    reveal_strlit("model");
    reveal_strlit("segment-length");
    reveal_strlit("dry-run");
    assert("one-file-system"@.len() == 15);
    assert("segment-length"@.len() == 14);
    assert("quiet"@[0] != "model"@[0]);
    assert("version"@[4] != "verbose"@[4]);
    assert("version"@[0] != "dry-run"@[0]);
    assert("verbose"@[0] != "dry-run"@[0]);
}

/// An option takes the argument after it as its value exactly if it is `--model` or
/// `--segment-length`.
pub proof fn law_options_with_values(parser: lexopt::Parser, arg: ArgSeen)
    requires
        next_of(parser).0 == Ok::<Option<ArgSeen>, lexopt::Error>(Some(arg)),
    ensures
        arg == ArgSeen::Long("model"@) || arg == ArgSeen::Long("segment-length"@) ==> rest_after(
            parser,
        ) == value_of(next_of(parser).1).1,
        arg != ArgSeen::Long("model"@) && arg != ArgSeen::Long("segment-length"@) ==> rest_after(
            parser,
        ) == next_of(parser).1,
{
    law_option_names(arg);
}

/// What is read for an argument: a positional argument is a file, `--model` takes the value
/// after it, `--segment-length` the text of that value, a flag is itself, and everything else
/// is an error, the one that came of reading it.
pub proof fn law_arguments_are_read(
    arg: ArgSeen,
    value: Result<PathBuf, lexopt::Error>,
    token: ArgToken,
)
    requires
        amounts_to(arg, value, token),
    ensures
        arg matches ArgSeen::Value(path) ==> token == ArgToken::File(path),
        token is File ==> arg is Value,
        arg == ArgSeen::Long("model"@) ==> token == match value {
            Ok(path) => ArgToken::Model(path),
            Err(error) => ArgToken::Failed(error),
        },
        token is Model ==> arg == ArgSeen::Long("model"@),
        arg == ArgSeen::Long("segment-length"@) ==> match value {
            Ok(path) => match text_of(path) {
                Ok(text) => token is SegmentLength && token->SegmentLength_0@ == text,
                Err(error) => token == ArgToken::Failed(error),
            },
            Err(error) => token == ArgToken::Failed(error),
        },
        token is SegmentLength ==> arg == ArgSeen::Long("segment-length"@),
        token is Help <==> arg == ArgSeen::Short('h') || arg == ArgSeen::Long("help"@),
        token is Version <==> arg == ArgSeen::Short('V') || arg == ArgSeen::Long("version"@),
        token is Quiet <==> arg == ArgSeen::Short('q') || arg == ArgSeen::Long("quiet"@),
        token is Verbose <==> arg == ArgSeen::Short('v') || arg == ArgSeen::Long("verbose"@),
        token is OneFileSystem <==> arg == ArgSeen::Short('x') || arg == ArgSeen::Long(
            "one-file-system"@,
        ),
        token is DryRun <==> arg == ArgSeen::Long("dry-run"@),
        arg is Short && token is Failed ==> token == ArgToken::Failed(unexpected_of(arg)),
{
    law_option_names(arg);
}

} // verus!
