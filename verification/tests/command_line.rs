use cargo_feature_guard::cli::{check_init, parse_cli_args, resolve_config_choice, CliCommand, InitError, INIT_TEMPLATE};

fn args(a: &[&str]) -> Vec<String> {
    a.iter().map(|s| s.to_string()).collect()
}

#[test]
fn cli_defaults() {
    assert!(matches!(parse_cli_args(&args(&[])), CliCommand::Run { config_path: None, init: false }));
    assert!(matches!(parse_cli_args(&args(&["feature-guard"])), CliCommand::Run { config_path: None, init: false }));
}

#[test]
fn cli_options() {
    match parse_cli_args(&args(&["feature-guard", "--config", "a.toml", "--init", "--config", "b.toml"])) {
        CliCommand::Run { config_path, init } => {
            assert_eq!(config_path, Some("b.toml".to_string()));
            assert!(init);
        }
        _ => panic!("expected a run"),
    }
    assert!(matches!(parse_cli_args(&args(&["--config"])), CliCommand::MissingConfigPath));
    assert!(matches!(parse_cli_args(&args(&["--init", "-h", "--bogus"])), CliCommand::Help));
    assert!(matches!(parse_cli_args(&args(&["-V"])), CliCommand::Version));
    assert!(matches!(parse_cli_args(&args(&["--version"])), CliCommand::Version));
    assert!(matches!(parse_cli_args(&args(&["--help"])), CliCommand::Help));
    match parse_cli_args(&args(&["--bogus", "--help"])) {
        CliCommand::UnexpectedArgument(a) => assert_eq!(a, "--bogus"),
        _ => panic!("expected an error"),
    }
    // Only the first `feature-guard` is Cargo's.
    match parse_cli_args(&args(&["feature-guard", "feature-guard"])) {
        CliCommand::UnexpectedArgument(a) => assert_eq!(a, "feature-guard"),
        _ => panic!("expected an error"),
    }
}

#[test]
fn config_path_choice() {
    let primary = || "d/feature-guard.toml".to_string();
    let fallback = || "d/check-features.toml".to_string();
    assert_eq!(
        resolve_config_choice(Some("x.toml".to_string()), primary(), true, fallback(), true),
        Some("x.toml".to_string())
    );
    assert_eq!(resolve_config_choice(None, primary(), true, fallback(), true), Some(primary()));
    assert_eq!(resolve_config_choice(None, primary(), false, fallback(), true), Some(fallback()));
    assert_eq!(resolve_config_choice(None, primary(), false, fallback(), false), None);
}

#[test]
fn init_decisions() {
    assert_eq!(check_init(false, false), Err(InitError::NotACargoProject));
    assert!(check_init(false, true).unwrap_err().message().contains("no Cargo.toml"));
    assert_eq!(check_init(true, true), Err(InitError::ConfigExists));
    assert!(check_init(true, true).unwrap_err().message().contains("already exists"));
    assert_eq!(check_init(true, false), Ok(()));
}

#[test]
fn init_template_sections() {
    assert!(INIT_TEMPLATE.contains("[[entry-points]]"));
    assert!(INIT_TEMPLATE.contains("[[never-enables]]"));
    let doc = cargo_feature_guard::toml_doc::parse_toml(INIT_TEMPLATE).unwrap();
    assert!(doc.get(&"entry-points".to_string()).is_some());
    assert!(doc.get(&"never-enables".to_string()).is_some());
}

#[test]
fn cargo_subcommand_name_is_ignored() {
    for tail in [vec![], vec!["--init"], vec!["--config", "x.toml"], vec!["--bogus"], vec!["-V"]] {
        let mut with = vec!["feature-guard"];
        with.extend(tail.iter());
        let a = format!("{:?}", describe(parse_cli_args(&args(&with))));
        let b = format!("{:?}", describe(parse_cli_args(&args(&tail))));
        assert_eq!(a, b);
    }
}

fn describe(c: CliCommand) -> (u8, Option<String>, bool) {
    match c {
        CliCommand::Run { config_path, init } => (0, config_path, init),
        CliCommand::Help => (1, None, false),
        CliCommand::Version => (2, None, false),
        CliCommand::MissingConfigPath => (3, None, false),
        CliCommand::UnexpectedArgument(a) => (4, Some(a), false),
    }
}
