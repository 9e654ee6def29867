//! The command line of `docent`: four subcommands, `index-file <FILE>`,
//! `index-git <FILE>`, `serve` and `list-models`; the indexing ones take
//! `--config <CONFIG>`, `--rebuild` and `--verbose`, `serve` takes
//! `--config <CONFIG>`. `--config` defaults to `./config.toml`.
//!
//! The grammar is read the way the argument parser of the `clap` crate reads
//! it for these declarations: options in any order around the positional
//! argument, `--config=<CONFIG>` or `--config <CONFIG>`, `--` ends the
//! options, an option given twice is an error, `-h`/`--help` and the `help`
//! subcommand ask for help, and an empty path is refused.
use vstd::prelude::*;
use crate::text::{chars_of, find_char_in, push_range, range_eq, string_from_chars};

verus! {

/// Arguments of `index-file`.
pub struct IndexFileArgs {
    /// Path to a file or directory to index.
    pub file: String,
    /// Path to the config file.
    pub config: String,
    /// Wipe the existing index and re-embed everything.
    pub rebuild: bool,
    /// Show individual file paths as they are indexed.
    pub verbose: bool,
}

/// Arguments of `index-git`.
pub struct IndexGitArgs {
    /// Path to a git repository.
    pub file: String,
    /// Path to the config file.
    pub config: String,
    /// Re-index the full git history.
    pub rebuild: bool,
    /// Show individual commits as they are indexed.
    pub verbose: bool,
}

/// Arguments of `serve`.
pub struct ServeArgs {
    /// Path to the config file.
    pub config: String,
}

/// The subcommands.
pub enum Commands {
    /// Index files from a directory.
    IndexFile(IndexFileArgs),
    /// Index git history from a repository.
    IndexGit(IndexGitArgs),
    /// Start the MCP server.
    Serve(ServeArgs),
    /// List all supported embedding models.
    ListModels,
}

/// A parsed command line.
pub struct Cli {
    pub command: Commands,
}

/// Why a command line was refused.
#[derive(Clone, Copy, Debug, PartialEq, Eq, Structural)]
pub enum CliErrorKind {
    /// No subcommand was given.
    MissingSubcommand,
    /// The first argument is not a subcommand.
    UnknownSubcommand,
    /// Help was asked for (`-h`, `--help` or `help`).
    HelpRequested,
    /// An option that the subcommand does not have.
    UnknownArgument,
    /// A positional argument beyond those the subcommand takes.
    UnexpectedArgument,
    /// `--config` without a value.
    MissingValue,
    /// An empty path.
    EmptyValue,
    /// An option given twice.
    DuplicateArgument,
    /// A value attached to a flag, as in `--rebuild=yes`.
    UnexpectedValue,
    /// The required `<FILE>` is missing.
    MissingRequired,
}

/// A refused command line.
pub struct CliError {
    pub kind: CliErrorKind,
}

/// A parsed command as plain values.
pub enum CommandView {
    IndexFile { file: Seq<char>, config: Seq<char>, rebuild: bool, verbose: bool },
    IndexGit { file: Seq<char>, config: Seq<char>, rebuild: bool, verbose: bool },
    Serve { config: Seq<char> },
    ListModels,
}

impl View for Cli {
    type V = CommandView;

    open spec fn view(&self) -> CommandView {
        match self.command {
            Commands::IndexFile(a) => CommandView::IndexFile {
                file: a.file@,
                config: a.config@,
                rebuild: a.rebuild,
                verbose: a.verbose,
            },
            Commands::IndexGit(a) => CommandView::IndexGit {
                file: a.file@,
                config: a.config@,
                rebuild: a.rebuild,
                verbose: a.verbose,
            },
            Commands::Serve(a) => CommandView::Serve { config: a.config@ },
            Commands::ListModels => CommandView::ListModels,
        }
    }
}

/// The grammar of a subcommand.
#[derive(Clone, Copy, Debug, PartialEq, Eq, Structural)]
pub enum Grammar {
    /// `index-file` and `index-git`: `<FILE>`, `--config`, `--rebuild`, `--verbose`.
    Indexing,
    /// `serve`: `--config`.
    Serve,
    /// `list-models`: nothing.
    Bare,
}

/// The state of a subcommand's parse: the path, the config, the two flags,
/// whether `--config` waits for its value, whether `--` was seen.
pub type ArgState = (Option<Seq<char>>, Option<Seq<char>>, bool, bool, bool, bool);

/// The state before the subcommand's first argument.
pub open spec fn start_state() -> ArgState {
    (None, None, false, false, false, false)
}

/// `--`.
pub open spec fn is_escape(a: Seq<char>) -> bool {
    a.len() == 2 && a[0] == '-' && a[1] == '-'
}

/// `--name` or `--name=value`.
pub open spec fn is_long(a: Seq<char>) -> bool {
    a.len() > 2 && a[0] == '-' && a[1] == '-'
}

/// `-x...`: one or more short flags.
pub open spec fn is_short(a: Seq<char>) -> bool {
    a.len() >= 2 && a[0] == '-' && a[1] != '-'
}

/// The position of the `=` of a long option, if it has one.
pub open spec fn long_eq(a: Seq<char>) -> Option<int> {
    match crate::text::find_first(a.skip(2), crate::text::is_char('=')) {
        Some(i) => Some(i + 2),
        None => None,
    }
}

/// The name of a long option: between `--` and `=` or the end.
pub open spec fn long_name(a: Seq<char>) -> Seq<char> {
    match long_eq(a) {
        Some(e) => a.subrange(2, e),
        None => a.skip(2),
    }
}

/// The value attached to a long option with `=`.
pub open spec fn long_value(a: Seq<char>) -> Option<Seq<char>> {
    match long_eq(a) {
        Some(e) => Some(a.skip(e + 1)),
        None => None,
    }
}

/// A positional argument (after `--`, or not looking like an option).
pub open spec fn take_positional(g: Grammar, st: ArgState, a: Seq<char>) -> Result<
    ArgState,
    CliErrorKind,
> {
    let (file, config, rebuild, verbose, pending, trailing) = st;
    if g == Grammar::Indexing && file is None {
        if a.len() == 0 {
            Err(CliErrorKind::EmptyValue)
        } else {
            Ok((Some(a), config, rebuild, verbose, pending, trailing))
        }
    } else {
        Err(CliErrorKind::UnexpectedArgument)
    }
}

/// One argument of a subcommand.
pub open spec fn arg_step(g: Grammar, st: ArgState, a: Seq<char>) -> Result<ArgState, CliErrorKind> {
    let (file, config, rebuild, verbose, pending, trailing) = st;
    if trailing {
        take_positional(g, st, a)
    } else if pending {
        if is_escape(a) || is_long(a) || is_short(a) {
            Err(CliErrorKind::MissingValue)
        } else if a.len() == 0 {
            Err(CliErrorKind::EmptyValue)
        } else {
            Ok((file, Some(a), rebuild, verbose, false, trailing))
        }
    } else if is_escape(a) {
        Ok((file, config, rebuild, verbose, pending, true))
    } else if is_long(a) {
        let name = long_name(a);
        if name == "help"@ {
            Err(CliErrorKind::HelpRequested)
        } else if name == "config"@ && g != Grammar::Bare {
            if config is Some {
                Err(CliErrorKind::DuplicateArgument)
            } else {
                match long_value(a) {
                    Some(v) => if v.len() == 0 {
                        Err(CliErrorKind::EmptyValue)
                    } else {
                        Ok((file, Some(v), rebuild, verbose, false, trailing))
                    },
                    None => Ok((file, config, rebuild, verbose, true, trailing)),
                }
            }
        } else if name == "rebuild"@ && g == Grammar::Indexing {
            if long_value(a) is Some {
                Err(CliErrorKind::UnexpectedValue)
            } else if rebuild {
                Err(CliErrorKind::DuplicateArgument)
            } else {
                Ok((file, config, true, verbose, pending, trailing))
            }
        } else if name == "verbose"@ && g == Grammar::Indexing {
            if long_value(a) is Some {
                Err(CliErrorKind::UnexpectedValue)
            } else if verbose {
                Err(CliErrorKind::DuplicateArgument)
            } else {
                Ok((file, config, rebuild, true, pending, trailing))
            }
        } else {
            Err(CliErrorKind::UnknownArgument)
        }
    } else if is_short(a) {
        if a[1] == 'h' {
            Err(CliErrorKind::HelpRequested)
        } else {
            Err(CliErrorKind::UnknownArgument)
        }
    } else {
        take_positional(g, st, a)
    }
}

/// The arguments `args` of a subcommand, one after the other; the first
/// refusal stops the parse.
pub open spec fn args_fold(g: Grammar, st: ArgState, args: Seq<Seq<char>>) -> Result<
    ArgState,
    CliErrorKind,
>
    decreases args.len(),
{
    if args.len() == 0 {
        Ok(st)
    } else {
        match arg_step(g, st, args[0]) {
            Ok(next) => args_fold(g, next, args.drop_first()),
            Err(e) => Err(e),
        }
    }
}

/// The default config path.
pub open spec fn default_config() -> Seq<char> {
    "./config.toml"@
}

/// The subcommand's parse once all its arguments are read.
pub open spec fn finish_args(g: Grammar, name: Seq<char>, st: ArgState) -> Result<
    CommandView,
    CliErrorKind,
> {
    let (file, config, rebuild, verbose, pending, trailing) = st;
    let config = match config {
        Some(c) => c,
        None => default_config(),
    };
    if pending {
        Err(CliErrorKind::MissingValue)
    } else if g == Grammar::Indexing && file is None {
        Err(CliErrorKind::MissingRequired)
    } else if g == Grammar::Indexing && name == "index-file"@ {
        Ok(CommandView::IndexFile { file: file.unwrap(), config, rebuild, verbose })
    } else if g == Grammar::Indexing {
        Ok(CommandView::IndexGit { file: file.unwrap(), config, rebuild, verbose })
    } else if g == Grammar::Serve {
        Ok(CommandView::Serve { config })
    } else {
        Ok(CommandView::ListModels)
    }
}

/// The grammar of the subcommand called `name`, if there is one.
pub open spec fn grammar_of(name: Seq<char>) -> Option<Grammar> {
    if name == "index-file"@ || name == "index-git"@ {
        Some(Grammar::Indexing)
    } else if name == "serve"@ {
        Some(Grammar::Serve)
    } else if name == "list-models"@ {
        Some(Grammar::Bare)
    } else {
        None
    }
}

/// The command line `args`, the program's name first, as `docent` reads it.
pub open spec fn parse_command_line(args: Seq<Seq<char>>) -> Result<CommandView, CliErrorKind> {
    if args.len() < 2 {
        Err(CliErrorKind::MissingSubcommand)
    } else {
        let a = args[1];
        match grammar_of(a) {
            Some(g) => match args_fold(g, start_state(), args.skip(2)) {
                Ok(st) => finish_args(g, a, st),
                Err(e) => Err(e),
            },
            None => if a == "help"@ {
                Err(CliErrorKind::HelpRequested)
            } else if is_long(a) && long_name(a) == "help"@ {
                Err(CliErrorKind::HelpRequested)
            } else if is_short(a) && a[1] == 'h' {
                Err(CliErrorKind::HelpRequested)
            } else if is_escape(a) {
                if args.len() == 2 {
                    Err(CliErrorKind::MissingSubcommand)
                } else {
                    Err(CliErrorKind::UnexpectedArgument)
                }
            } else if is_long(a) || is_short(a) {
                Err(CliErrorKind::UnknownArgument)
            } else {
                Err(CliErrorKind::UnknownSubcommand)
            },
        }
    }
}

/// The arguments as plain text.
pub open spec fn args_view(args: Seq<&str>) -> Seq<Seq<char>> {
    args.map_values(|s: &str| s@)
}

/// Whether `v[lo..hi]` is the text `lit`.
fn lit_eq(v: &Vec<char>, lo: usize, hi: usize, lit: &str) -> (b: bool)
    requires
        lo <= hi <= v.len(),
    ensures
        b == (v@.subrange(lo as int, hi as int) == lit@),
{
    let w = chars_of(lit);
    range_eq(v, lo, hi, &w)
}

/// Whether `v` is the text `lit`.
fn is_lit(v: &Vec<char>, lit: &str) -> (b: bool)
    ensures
        b == (v@ == lit@),
{
    assert(v@.subrange(0, v@.len() as int) =~= v@);
    lit_eq(v, 0, v.len(), lit)
}

/// The characters `v[lo..hi]` as a vector.
fn slice_chars(v: &Vec<char>, lo: usize, hi: usize) -> (r: Vec<char>)
    requires
        lo <= hi <= v.len(),
    ensures
        r@ == v@.subrange(lo as int, hi as int),
{
    let mut r: Vec<char> = Vec::new();
    push_range(&mut r, v, lo, hi);
    r
}

/// The optional text as plain text.
pub open spec fn opt_view(o: Option<Vec<char>>) -> Option<Seq<char>> {
    match o {
        Some(v) => Some(v@),
        None => None,
    }
}

/// The running state of a subcommand's parse.
struct ArgParse {
    file: Option<Vec<char>>,
    config: Option<Vec<char>>,
    rebuild: bool,
    verbose: bool,
    pending: bool,
    trailing: bool,
}

impl ArgParse {
    spec fn state(&self) -> ArgState {
        (
            opt_view(self.file),
            opt_view(self.config),
            self.rebuild,
            self.verbose,
            self.pending,
            self.trailing,
        )
    }

    /// Takes `a` as a positional argument.
    fn positional(&mut self, g: Grammar, a: &Vec<char>) -> (r: Result<(), CliErrorKind>)
        ensures
            match take_positional(g, old(self).state(), a@) {
                Ok(s) => r is Ok && final(self).state() == s,
                Err(e) => r == Err::<(), CliErrorKind>(e),
            },
    {
        if g == Grammar::Indexing && self.file.is_none() {
            if a.len() == 0 {
                Err(CliErrorKind::EmptyValue)
            } else {
                self.file = Some(slice_chars(a, 0, a.len()));
                assert(a@.subrange(0, a@.len() as int) =~= a@);
                Ok(())
            }
        } else {
            Err(CliErrorKind::UnexpectedArgument)
        }
    }

    /// A long option `a`, not while `--config` waits for its value.
    fn long_option(&mut self, g: Grammar, a: &Vec<char>) -> (r: Result<(), CliErrorKind>)
        requires
            is_long(a@),
            !old(self).pending,
            !old(self).trailing,
        ensures
            match arg_step(g, old(self).state(), a@) {
                Ok(s) => r is Ok && final(self).state() == s,
                Err(e) => r == Err::<(), CliErrorKind>(e),
            },
    {
        let n = a.len();
        let eq = find_char_in(a, 2, n, '=');
        assert(a@.subrange(2, n as int) =~= a@.skip(2));
        let name_end = match eq {
            Some(e) => e,
            None => n,
        };
        assert(name_end == n ==> a@.subrange(2, n as int) =~= a@.skip(2));
        assert(long_name(a@) == a@.subrange(2, name_end as int));
        if lit_eq(a, 2, name_end, "help") {
            Err(CliErrorKind::HelpRequested)
        } else if lit_eq(a, 2, name_end, "config") && g != Grammar::Bare {
            if self.config.is_some() {
                Err(CliErrorKind::DuplicateArgument)
            } else {
                match eq {
                    Some(e) => {
                        assert(a@.subrange(e + 1, n as int) =~= a@.skip(e + 1));
                        if e + 1 == n {
                            Err(CliErrorKind::EmptyValue)
                        } else {
                            self.config = Some(slice_chars(a, e + 1, n));
                            Ok(())
                        }
                    },
                    None => {
                        self.pending = true;
                        Ok(())
                    },
                }
            }
        } else if lit_eq(a, 2, name_end, "rebuild") && g == Grammar::Indexing {
            if eq.is_some() {
                Err(CliErrorKind::UnexpectedValue)
            } else if self.rebuild {
                Err(CliErrorKind::DuplicateArgument)
            } else {
                self.rebuild = true;
                Ok(())
            }
        } else if lit_eq(a, 2, name_end, "verbose") && g == Grammar::Indexing {
            if eq.is_some() {
                Err(CliErrorKind::UnexpectedValue)
            } else if self.verbose {
                Err(CliErrorKind::DuplicateArgument)
            } else {
                self.verbose = true;
                Ok(())
            }
        } else {
            Err(CliErrorKind::UnknownArgument)
        }
    }

    /// One argument `a`.
    fn step(&mut self, g: Grammar, a: &Vec<char>) -> (r: Result<(), CliErrorKind>)
        ensures
            match arg_step(g, old(self).state(), a@) {
                Ok(s) => r is Ok && final(self).state() == s,
                Err(e) => r == Err::<(), CliErrorKind>(e),
            },
    {
        let n = a.len();
        let escape = n == 2 && a[0] == '-' && a[1] == '-';
        let long = n > 2 && a[0] == '-' && a[1] == '-';
        let short = n >= 2 && a[0] == '-' && a[1] != '-';
        if self.trailing {
            self.positional(g, a)
        } else if self.pending {
            if escape || long || short {
                Err(CliErrorKind::MissingValue)
            } else if n == 0 {
                Err(CliErrorKind::EmptyValue)
            } else {
                self.config = Some(slice_chars(a, 0, n));
                assert(a@.subrange(0, n as int) =~= a@);
                self.pending = false;
                Ok(())
            }
        } else if escape {
            self.trailing = true;
            Ok(())
        } else if long {
            self.long_option(g, a)
        } else if short {
            if a[1] == 'h' {
                Err(CliErrorKind::HelpRequested)
            } else {
                Err(CliErrorKind::UnknownArgument)
            }
        } else {
            self.positional(g, a)
        }
    }
}

/// The plain-text command after reading a subcommand's arguments.
fn finish(g: Grammar, is_index_file: bool, p: ArgParse) -> (r: Result<Cli, CliErrorKind>)
    requires
        g == Grammar::Indexing ==> is_index_file == (grammar_name(g, is_index_file) == "index-file"@),
    ensures
        match finish_args(g, grammar_name(g, is_index_file), p.state()) {
            Ok(c) => r matches Ok(cli) && cli@ == c,
            Err(e) => r matches Err(k) && k == e,
        },
{
    let config = match p.config {
        Some(c) => string_from_chars(&c),
        None => {
            let s = "./config.toml".to_owned();
            s
        },
    };
    if p.pending {
        Err(CliErrorKind::MissingValue)
    } else {
        match g {
            Grammar::Indexing => match p.file {
                None => Err(CliErrorKind::MissingRequired),
                Some(f) => {
                    let file = string_from_chars(&f);
                    if is_index_file {
                        Ok(
                            Cli {
                                command: Commands::IndexFile(
                                    IndexFileArgs {
                                        file,
                                        config,
                                        rebuild: p.rebuild,
                                        verbose: p.verbose,
                                    },
                                ),
                            },
                        )
                    } else {
                        Ok(
                            Cli {
                                command: Commands::IndexGit(
                                    IndexGitArgs {
                                        file,
                                        config,
                                        rebuild: p.rebuild,
                                        verbose: p.verbose,
                                    },
                                ),
                            },
                        )
                    }
                },
            },
            Grammar::Serve => Ok(Cli { command: Commands::Serve(ServeArgs { config }) }),
            Grammar::Bare => Ok(Cli { command: Commands::ListModels }),
        }
    }
}

/// A name of the subcommand with grammar `g` (for `Indexing`, `index-file`
/// when `is_index_file`, else `index-git`).
pub open spec fn grammar_name(g: Grammar, is_index_file: bool) -> Seq<char> {
    match g {
        Grammar::Indexing => if is_index_file {
            "index-file"@
        } else {
            "index-git"@
        },
        Grammar::Serve => "serve"@,
        Grammar::Bare => "list-models"@,
    }
}

impl Cli {
    /// Parses the command line `args`, the program's name first.
    pub fn try_parse_from(args: &[&str]) -> (r: Result<Cli, CliError>)
        ensures
            match parse_command_line(args_view(args@)) {
                Ok(c) => r matches Ok(cli) && cli@ == c,
                Err(e) => r matches Err(err) && err.kind == e,
            },
    {
        let ghost av = args_view(args@);
        if args.len() < 2 {
            return Err(CliError { kind: CliErrorKind::MissingSubcommand });
        }
        let a = chars_of(args[1]);
        assert(av[1] == a@);
        let is_index_file = is_lit(&a, "index-file");
        let grammar = if is_index_file || is_lit(&a, "index-git") {
            Some(Grammar::Indexing)
        } else if is_lit(&a, "serve") {
            Some(Grammar::Serve)
        } else if is_lit(&a, "list-models") {
            Some(Grammar::Bare)
        } else {
            None
        };
        match grammar {
            Some(g) => {
                assert(grammar_of(a@) == Some(g));
                assert(g == Grammar::Indexing ==> a@ == grammar_name(g, is_index_file));
                assert(g != Grammar::Indexing ==> a@ == grammar_name(g, is_index_file));
                let mut p = ArgParse {
                    file: None,
                    config: None,
                    rebuild: false,
                    verbose: false,
                    pending: false,
                    trailing: false,
                };
                let ghost rest = av.skip(2);
                let mut i: usize = 2;
                assert(av.skip(2).skip(0) =~= rest);
                while i < args.len()
                    invariant
                        2 <= i <= args.len(),
                        av == args_view(args@),
                        rest == av.skip(2),
                        av.len() == args.len(),
                        grammar_of(av[1]) == Some(g),
                        args_fold(g, start_state(), rest) == args_fold(
                            g,
                            p.state(),
                            av.skip(i as int),
                        ),
                    decreases args.len() - i,
                {
                    let arg = chars_of(args[i]);
                    assert(av.skip(i as int)[0] == arg@);
                    assert(av.skip(i as int).drop_first() =~= av.skip(i + 1));
                    let ghost st0 = p.state();
                    match p.step(g, &arg) {
                        Ok(()) => {},
                        Err(e) => {
                            assert(args_fold(g, st0, av.skip(i as int)) == Err::<ArgState, CliErrorKind>(e));
                            return Err(CliError { kind: e });
                        },
                    }
                    i = i + 1;
                }
                assert(av.skip(i as int) =~= Seq::<Seq<char>>::empty());
                match finish(g, is_index_file, p) {
                    Ok(cli) => Ok(cli),
                    Err(e) => Err(CliError { kind: e }),
                }
            },
            None => {
                let n = a.len();
                if is_lit(&a, "help") {
                    Err(CliError { kind: CliErrorKind::HelpRequested })
                } else if n > 2 && a[0] == '-' && a[1] == '-' {
                    let eq = find_char_in(&a, 2, n, '=');
                    assert(a@.subrange(2, n as int) =~= a@.skip(2));
                    let name_end = match eq {
                        Some(e) => e,
                        None => n,
                    };
                    assert(long_name(a@) == a@.subrange(2, name_end as int));
                    if lit_eq(&a, 2, name_end, "help") {
                        Err(CliError { kind: CliErrorKind::HelpRequested })
                    } else {
                        Err(CliError { kind: CliErrorKind::UnknownArgument })
                    }
                } else if n >= 2 && a[0] == '-' && a[1] != '-' {
                    if a[1] == 'h' {
                        Err(CliError { kind: CliErrorKind::HelpRequested })
                    } else {
                        Err(CliError { kind: CliErrorKind::UnknownArgument })
                    }
                } else if n == 2 && a[0] == '-' && a[1] == '-' {
                    if args.len() == 2 {
                        Err(CliError { kind: CliErrorKind::MissingSubcommand })
                    } else {
                        Err(CliError { kind: CliErrorKind::UnexpectedArgument })
                    }
                } else {
                    Err(CliError { kind: CliErrorKind::UnknownSubcommand })
                }
            },
        }
    }
}

} // verus!
