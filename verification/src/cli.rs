//! The command line, the choice of the configuration file, and `--init`.
use vstd::prelude::*;

verus! {

broadcast use vstd::string::group_string_axioms;

/// What the command line asks for.
pub enum CliCommand {
    /// Run the checks (or `--init`), with the configuration file given by
    /// the last `--config`, if any.
    Run { config_path: Option<String>, init: bool },
    /// `--help` or `-h`: print the usage and stop.
    Help,
    /// `--version` or `-V`: print the version and stop.
    Version,
    /// `--config` was the last argument.
    MissingConfigPath,
    /// An argument that is not an option of the tool.
    UnexpectedArgument(String),
}

/// A command as plain values.
pub enum CliModel {
    Run { config_path: Option<Seq<char>>, init: bool },
    Help,
    Version,
    MissingConfigPath,
    UnexpectedArgument(Seq<char>),
}

impl CliCommand {
    pub open spec fn model(self) -> CliModel {
        match self {
            CliCommand::Run { config_path, init } => CliModel::Run {
                config_path: match config_path {
                    Some(p) => Some(p@),
                    None => None,
                },
                init,
            },
            CliCommand::Help => CliModel::Help,
            CliCommand::Version => CliModel::Version,
            CliCommand::MissingConfigPath => CliModel::MissingConfigPath,
            CliCommand::UnexpectedArgument(a) => CliModel::UnexpectedArgument(a@),
        }
    }
}

/// Reading the arguments left to right: `--init` and `--config <path>` are
/// remembered, the first help, version or bad argument decides at once.
pub open spec fn scan_args(args: Seq<Seq<char>>, config_path: Option<Seq<char>>, init: bool) -> CliModel
    decreases args.len(),
{
    if args.len() == 0 {
        CliModel::Run { config_path, init }
    } else {
        let a = args[0];
        if a == "--init"@ {
            scan_args(args.drop_first(), config_path, true)
        } else if a == "--config"@ {
            if args.len() > 1 {
                scan_args(args.skip(2), Some(args[1]), init)
            } else {
                CliModel::MissingConfigPath
            }
        } else if a == "--help"@ || a == "-h"@ {
            CliModel::Help
        } else if a == "--version"@ || a == "-V"@ {
            CliModel::Version
        } else {
            CliModel::UnexpectedArgument(a)
        }
    }
}

/// The arguments after the program name, without the `feature-guard` that
/// Cargo passes first when the tool runs as `cargo feature-guard`.
pub open spec fn own_args(args: Seq<Seq<char>>) -> Seq<Seq<char>> {
    if args.len() > 0 && args[0] == "feature-guard"@ {
        args.drop_first()
    } else {
        args
    }
}

/// What a command line asks for.
pub open spec fn cli_model(args: Seq<Seq<char>>) -> CliModel {
    scan_args(own_args(args), None, false)
}

/// Interprets the arguments that follow the program name.
pub fn parse_cli_args(args: &Vec<String>) -> (r: CliCommand)
    ensures
        r.model() == cli_model(args.deep_view()),
{
    let subcommand = "feature-guard".to_string();
    let init_flag = "--init".to_string();
    let config_flag = "--config".to_string();
    let help_long = "--help".to_string();
    let help_short = "-h".to_string();
    let version_long = "--version".to_string();
    let version_short = "-V".to_string();
    let ghost all = args.deep_view();
    let mut i: usize = 0;
    if args.len() > 0 && args[0] == subcommand {
        i = 1;
        assert(own_args(all) == all.skip(1));
    } else {
        assert(own_args(all) == all.skip(0));
    }
    let mut config_path: Option<String> = None;
    let mut init = false;
    while i < args.len()
        invariant
            i <= args@.len(),
            all == args.deep_view(),
            init_flag@ == "--init"@,
            config_flag@ == "--config"@,
            help_long@ == "--help"@,
            help_short@ == "-h"@,
            version_long@ == "--version"@,
            version_short@ == "-V"@,
            cli_model(all) == scan_args(
                all.skip(i as int),
                match config_path {
                    Some(p) => Some(p@),
                    None => None,
                },
                init,
            ),
        decreases args@.len() - i,
    {
        let a = &args[i];
        let ghost rest = all.skip(i as int);
        assert(rest[0] == a@);
        if *a == init_flag {
            init = true;
            assert(rest.drop_first() == all.skip(i + 1));
            i += 1;
        } else if *a == config_flag {
            if i + 1 < args.len() {
                config_path = Some(args[i + 1].clone());
                assert(rest.skip(2) == all.skip(i + 2));
                assert(rest[1] == args[i + 1 as int]@);
                i += 2;
            } else {
                return CliCommand::MissingConfigPath;
            }
        } else if *a == help_long || *a == help_short {
            return CliCommand::Help;
        } else if *a == version_long || *a == version_short {
            return CliCommand::Version;
        } else {
            return CliCommand::UnexpectedArgument(a.clone());
        }
    }
    assert(all.skip(i as int).len() == 0);
    CliCommand::Run { config_path, init }
}

/// The configuration file to read: the one given on the command line, else
/// `feature-guard.toml` if it exists, else `check-features.toml` if that
/// exists, else none (an error).
pub fn resolve_config_choice(
    explicit: Option<String>,
    primary_path: String,
    primary_exists: bool,
    fallback_path: String,
    fallback_exists: bool,
) -> (r: Option<String>)
    ensures
        explicit is Some ==> r == explicit,
        explicit is None && primary_exists ==> r == Some(primary_path),
        explicit is None && !primary_exists && fallback_exists ==> r == Some(fallback_path),
        explicit is None && !primary_exists && !fallback_exists ==> r is None,
{
    match explicit {
        Some(p) => Some(p),
        None => if primary_exists {
            Some(primary_path)
        } else if fallback_exists {
            Some(fallback_path)
        } else {
            None
        },
    }
}

/// The configuration file that `--init` writes.
pub const INIT_TEMPLATE: &'static str = r#"# Feature Guard Configuration
# See: https://github.com/xdm67x/cargo-feature-guard
#
# [[entry-points]]    — packages + features to validate propagation for
# [[never-enables]]   — features that must never be activated

[[entry-points]]
package = "my-app"
features = ["default"]

# [[entry-points]]
# package = "my-lib"
# features = ["std", "serde"]

[[never-enables]]
package = "my-app"
forbidden = "mock"

# [[never-enables]]
# package = "my-lib"
# forbidden = ["test-only", "unstable"]
"#;

/// Why `--init` refuses to write a configuration file.
#[derive(Debug, PartialEq, Eq, Structural, Clone, Copy)]
pub enum InitError {
    /// The directory holds no `Cargo.toml`.
    NotACargoProject,
    /// `feature-guard.toml` is already there.
    ConfigExists,
}

impl InitError {
    /// The message the tool reports.
    pub fn message(&self) -> (m: String)
        ensures
            *self == InitError::NotACargoProject ==> m@ == "not a Cargo project (no Cargo.toml found)"@,
            *self == InitError::ConfigExists ==> m@ == "feature-guard.toml already exists"@,
    {
        match self {
            InitError::NotACargoProject => "not a Cargo project (no Cargo.toml found)".to_string(),
            InitError::ConfigExists => "feature-guard.toml already exists".to_string(),
        }
    }
}

/// Whether `--init` may write the configuration file: only in a Cargo
/// project, and never over an existing file.
pub fn check_init(cargo_toml_exists: bool, config_exists: bool) -> (r: Result<(), InitError>)
    ensures
        !cargo_toml_exists ==> r == Err::<(), InitError>(InitError::NotACargoProject),
        cargo_toml_exists && config_exists ==> r == Err::<(), InitError>(InitError::ConfigExists),
        cargo_toml_exists && !config_exists ==> r is Ok,
{
    if !cargo_toml_exists {
        Err(InitError::NotACargoProject)
    } else if config_exists {
        Err(InitError::ConfigExists)
    } else {
        Ok(())
    }
}

/// Prefixing the arguments with the `feature-guard` that Cargo passes
/// changes nothing, as long as the tool's own first argument is not itself
/// `feature-guard`.
pub proof fn law_cargo_subcommand_name_is_ignored(args: Seq<Seq<char>>)
    requires
        args.len() == 0 || args[0] != "feature-guard"@,
    ensures
        cli_model(seq!["feature-guard"@] + args) == cli_model(args),
{
    assert((seq!["feature-guard"@] + args).drop_first() == args);
}

/// A command with `--init` asked for: a run also writes the starter
/// configuration; any other command is unchanged.
pub open spec fn with_init(m: CliModel) -> CliModel {
    match m {
        CliModel::Run { config_path, init } => CliModel::Run { config_path, init: true },
        other => other,
    }
}

proof fn lemma_scan_with_init(args: Seq<Seq<char>>, config_path: Option<Seq<char>>)
    ensures
        scan_args(args, config_path, true) == with_init(scan_args(args, config_path, false)),
    decreases args.len(),
{
    if args.len() > 0 {
        let a = args[0];
        if a == "--init"@ {
            lemma_scan_with_init(args.drop_first(), config_path);
        } else if a == "--config"@ {
            if args.len() > 1 {
                lemma_scan_with_init(args.skip(2), Some(args[1]));
            }
        }
    }
}

proof fn lemma_scan_init_last(args: Seq<Seq<char>>, config_path: Option<Seq<char>>, init: bool)
    requires
        scan_args(args, config_path, init) !is MissingConfigPath,
    ensures
        scan_args(args.push("--init"@), config_path, init) == with_init(scan_args(args, config_path, init)),
    decreases args.len(),
{
    let x = args.push("--init"@);
    if args.len() == 0 {
        assert(x.drop_first() =~= Seq::<Seq<char>>::empty());
        assert(x[0] == "--init"@);
        assert(scan_args(x.drop_first(), config_path, true) == CliModel::Run { config_path, init: true });
    } else {
        let a = args[0];
        assert(x[0] == a);
        if a == "--init"@ {
            assert(x.drop_first() =~= args.drop_first().push("--init"@));
            lemma_scan_init_last(args.drop_first(), config_path, true);
        } else if a == "--config"@ {
            assert(args.len() > 1);
            assert(x[1] == args[1]);
            assert(x.skip(2) =~= args.skip(2).push("--init"@));
            lemma_scan_init_last(args.skip(2), Some(args[1]), init);
        }
    }
}

proof fn lemma_scan_without_init(args: Seq<Seq<char>>, config_path: Option<Seq<char>>)
    requires
        !args.contains("--init"@),
    ensures
        !(scan_args(args, config_path, false) matches CliModel::Run { init: true, .. }),
    decreases args.len(),
{
    if args.len() > 0 {
        let a = args[0];
        assert(args[0] == a);
        if a == "--config"@ && args.len() > 1 {
            assert forall|i: int| 0 <= i < args.skip(2).len() implies args.skip(2)[i] != "--init"@ by {
                assert(args.skip(2)[i] == args[i + 2]);
            }
            lemma_scan_without_init(args.skip(2), Some(args[1]));
        }
    }
}

/// `--init` first among the tool's arguments asks for the starter
/// configuration: the command is what the other arguments give, with a run
/// turned into one that writes it.
pub proof fn law_init_first_asks_for_init(args: Seq<Seq<char>>)
    requires
        args.len() == 0 || args[0] != "feature-guard"@,
    ensures
        cli_model(seq!["--init"@] + args) == with_init(cli_model(args)),
{
    reveal_strlit("--init");
    reveal_strlit("feature-guard");
    let x = seq!["--init"@] + args;
    assert(x[0] == "--init"@);
    assert(own_args(x) == x);
    assert(x.drop_first() =~= args);
    assert(own_args(args) == args);
    lemma_scan_with_init(args, None);
}

/// `--init` last on a command line that would otherwise run (or stop on
/// help, version or a bad argument) asks for the starter configuration:
/// the run gains `init`, any other command is unchanged.
pub proof fn law_init_last_asks_for_init(args: Seq<Seq<char>>)
    requires
        cli_model(args) !is MissingConfigPath,
    ensures
        cli_model(args.push("--init"@)) == with_init(cli_model(args)),
{
    reveal_strlit("--init");
    reveal_strlit("feature-guard");
    let x = args.push("--init"@);
    if args.len() > 0 && args[0] == "feature-guard"@ {
        assert(x[0] == args[0]);
        assert(own_args(x) =~= own_args(args).push("--init"@));
    } else {
        if args.len() == 0 {
            assert(x[0] == "--init"@);
        } else {
            assert(x[0] == args[0]);
        }
        assert(own_args(x) == x);
        assert(own_args(args) == args);
    }
    lemma_scan_init_last(own_args(args), None, false);
}

/// Without `--init` among the arguments, no run writes the starter
/// configuration.
pub proof fn law_no_init_without_the_flag(args: Seq<Seq<char>>)
    requires
        !args.contains("--init"@),
    ensures
        !(cli_model(args) matches CliModel::Run { init: true, .. }),
{
    if args.len() > 0 && args[0] == "feature-guard"@ {
        assert forall|i: int| 0 <= i < args.drop_first().len() implies args.drop_first()[i] != "--init"@ by {
            assert(args.drop_first()[i] == args[i + 1]);
        }
    }
    lemma_scan_without_init(own_args(args), None);
}

/// A command with a configuration path given: a run reads that file; any
/// other command is unchanged.
pub open spec fn with_config(m: CliModel, path: Seq<char>) -> CliModel {
    match m {
        CliModel::Run { config_path, init } => CliModel::Run { config_path: Some(path), init },
        other => other,
    }
}

proof fn lemma_scan_config_last(
    args: Seq<Seq<char>>,
    config_path: Option<Seq<char>>,
    init: bool,
    path: Seq<char>,
)
    requires
        scan_args(args, config_path, init) !is MissingConfigPath,
    ensures
        scan_args(args + seq!["--config"@, path], config_path, init) == with_config(
            scan_args(args, config_path, init),
            path,
        ),
    decreases args.len(),
{
    let x = args + seq!["--config"@, path];
    if args.len() == 0 {
        assert(x =~= seq!["--config"@, path]);
        assert(x[0] == "--config"@);
        assert(x[1] == path);
        assert(x.skip(2) =~= Seq::<Seq<char>>::empty());
        assert(scan_args(x.skip(2), Some(path), init) == CliModel::Run { config_path: Some(path), init });
        reveal_strlit("--config");
        reveal_strlit("--init");
        assert("--config"@ != "--init"@) by {
            assert("--config"@[2] != "--init"@[2]);
        }
    } else {
        let a = args[0];
        assert(x[0] == a);
        if a == "--init"@ {
            assert(x.drop_first() =~= args.drop_first() + seq!["--config"@, path]);
            lemma_scan_config_last(args.drop_first(), config_path, true, path);
        } else if a == "--config"@ {
            assert(args.len() > 1);
            assert(x[1] == args[1]);
            assert(x.skip(2) =~= args.skip(2) + seq!["--config"@, path]);
            lemma_scan_config_last(args.skip(2), Some(args[1]), init, path);
        }
    }
}

/// `--config <path>` last on a command line that would otherwise run (or
/// stop on help, version or a bad argument) makes a run read that file,
/// whatever `--config` came before; any other command is unchanged.
pub proof fn law_last_config_path_wins(args: Seq<Seq<char>>, path: Seq<char>)
    requires
        cli_model(args) !is MissingConfigPath,
    ensures
        cli_model(args + seq!["--config"@, path]) == with_config(cli_model(args), path),
{
    reveal_strlit("--config");
    reveal_strlit("feature-guard");
    let x = args + seq!["--config"@, path];
    if args.len() > 0 && args[0] == "feature-guard"@ {
        assert(x[0] == args[0]);
        assert(own_args(x) =~= own_args(args) + seq!["--config"@, path]);
    } else {
        if args.len() == 0 {
            assert(x[0] == "--config"@);
            assert("--config"@ != "feature-guard"@) by {
                assert("--config"@[0] != "feature-guard"@[0]);
            }
        } else {
            assert(x[0] == args[0]);
        }
        assert(own_args(x) == x);
        assert(own_args(args) == args);
    }
    lemma_scan_config_last(own_args(args), None, false, path);
}

/// `--config` as the last argument, with no path after it, is an error
/// whatever came before, unless an earlier argument already decided.
pub proof fn law_config_without_path_fails(args: Seq<Seq<char>>)
    requires
        cli_model(args) is Run,
    ensures
        cli_model(args.push("--config"@)) is MissingConfigPath,
{
    reveal_strlit("--config");
    reveal_strlit("feature-guard");
    let x = args.push("--config"@);
    if args.len() > 0 && args[0] == "feature-guard"@ {
        assert(x[0] == args[0]);
        assert(own_args(x) =~= own_args(args).push("--config"@));
    } else {
        if args.len() == 0 {
            assert(x[0] == "--config"@);
            assert("--config"@ != "feature-guard"@) by {
                assert("--config"@[0] != "feature-guard"@[0]);
            }
        } else {
            assert(x[0] == args[0]);
        }
        assert(own_args(x) == x);
        assert(own_args(args) == args);
    }
    lemma_scan_config_missing(own_args(args), None, false);
}

proof fn lemma_scan_config_missing(args: Seq<Seq<char>>, config_path: Option<Seq<char>>, init: bool)
    requires
        scan_args(args, config_path, init) is Run,
    ensures
        scan_args(args.push("--config"@), config_path, init) is MissingConfigPath,
    decreases args.len(),
{
    let x = args.push("--config"@);
    if args.len() == 0 {
        reveal_strlit("--config");
        reveal_strlit("--init");
        assert(x[0] == "--config"@);
        assert(x.len() == 1);
        assert("--config"@ != "--init"@) by {
            assert("--config"@[2] != "--init"@[2]);
        }
    } else {
        let a = args[0];
        assert(x[0] == a);
        if a == "--init"@ {
            assert(x.drop_first() =~= args.drop_first().push("--config"@));
            lemma_scan_config_missing(args.drop_first(), config_path, true);
        } else if a == "--config"@ {
            assert(x[1] == args[1]);
            assert(x.skip(2) =~= args.skip(2).push("--config"@));
            lemma_scan_config_missing(args.skip(2), Some(args[1]), init);
        }
    }
}

/// Help, version and any argument that is not an option of the tool decide
/// at once, whatever follows them.
pub proof fn law_first_deciding_argument_wins(a: Seq<char>, rest: Seq<Seq<char>>)
    requires
        a != "feature-guard"@,
        a != "--init"@,
        a != "--config"@,
    ensures
        cli_model(seq![a] + rest) == (if a == "--help"@ || a == "-h"@ {
            CliModel::Help
        } else if a == "--version"@ || a == "-V"@ {
            CliModel::Version
        } else {
            CliModel::UnexpectedArgument(a)
        }),
{
    let x = seq![a] + rest;
    assert(x[0] == a);
    assert(own_args(x) == x);
}

/// A command read after a `--config <path>`: a run that names no other
/// configuration file reads that one; any other command is unchanged.
pub open spec fn with_config_unless_later(m: CliModel, path: Seq<char>) -> CliModel {
    match m {
        CliModel::Run { config_path: None, init } => CliModel::Run { config_path: Some(path), init },
        other => other,
    }
}

proof fn lemma_scan_config_given(args: Seq<Seq<char>>, path: Seq<char>, init: bool)
    ensures
        scan_args(args, Some(path), init) == with_config_unless_later(scan_args(args, None, init), path),
    decreases args.len(),
{
    if args.len() == 0 {
        assert(scan_args(args, None, init) == CliModel::Run { config_path: None, init });
        assert(scan_args(args, Some(path), init) == CliModel::Run { config_path: Some(path), init });
    } else {
        let a = args[0];
        if a == "--init"@ {
            lemma_scan_config_given(args.drop_first(), path, true);
        } else if a == "--config"@ {
            if args.len() > 1 {
                let r = scan_args(args.skip(2), Some(args[1]), init);
                assert(scan_args(args, None, init) == r);
                assert(scan_args(args, Some(path), init) == r);
                lemma_scan_keeps_given_config(args.skip(2), args[1], init);
            }
        }
    }
}

proof fn lemma_scan_keeps_given_config(args: Seq<Seq<char>>, path: Seq<char>, init: bool)
    ensures
        !(scan_args(args, Some(path), init) matches CliModel::Run { config_path: None, .. }),
    decreases args.len(),
{
    if args.len() > 0 {
        let a = args[0];
        if a == "--init"@ {
            lemma_scan_keeps_given_config(args.drop_first(), path, true);
        } else if a == "--config"@ && args.len() > 1 {
            lemma_scan_keeps_given_config(args.skip(2), args[1], init);
        }
    }
}

/// `--config <path>` first among the tool's arguments makes a run read that
/// file, unless a later `--config` names another; any other command is
/// what the other arguments give.
pub proof fn law_first_config_path_holds_unless_replaced(path: Seq<char>, args: Seq<Seq<char>>)
    requires
        args.len() == 0 || args[0] != "feature-guard"@,
    ensures
        cli_model(seq!["--config"@, path] + args) == with_config_unless_later(cli_model(args), path),
{
    reveal_strlit("--config");
    reveal_strlit("feature-guard");
    reveal_strlit("--init");
    let x = seq!["--config"@, path] + args;
    assert(x[0] == "--config"@);
    assert(x[1] == path);
    assert("--config"@ != "feature-guard"@) by {
        assert("--config"@[0] != "feature-guard"@[0]);
    }
    assert("--config"@ != "--init"@) by {
        assert("--config"@[2] != "--init"@[2]);
    }
    assert(own_args(x) == x);
    assert(own_args(args) == args);
    assert(x.skip(2) =~= args);
    lemma_scan_config_given(args, path, false);
}

} // verus!
