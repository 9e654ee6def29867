use docent::cli::{Cli, Commands};
use std::path::PathBuf;

#[test]
fn test_index_file_minimal_positional() {
    let cli = Cli::try_parse_from(&["docent", "index-file", "./ddrs"]);
    assert!(cli.is_ok());
    let cli = cli.ok().unwrap();
    match cli.command {
        Commands::IndexFile(args) => {
            assert_eq!(PathBuf::from(args.file), PathBuf::from("./ddrs"));
            assert_eq!(PathBuf::from(args.config), PathBuf::from("./config.toml"));
            assert!(!args.rebuild);
        }
        _ => panic!("expected IndexFile command"),
    }
}

#[test]
fn test_index_file_with_config_flag() {
    let cli =
        Cli::try_parse_from(&["docent", "index-file", "./ddrs", "--config", "/etc/docent.toml"]);
    assert!(cli.is_ok());
    let cli = cli.ok().unwrap();
    match cli.command {
        Commands::IndexFile(args) => {
            assert_eq!(PathBuf::from(args.file), PathBuf::from("./ddrs"));
            assert_eq!(PathBuf::from(args.config), PathBuf::from("/etc/docent.toml"));
        }
        _ => panic!("expected IndexFile command"),
    }
}

#[test]
fn test_index_file_with_rebuild_flag() {
    let cli = Cli::try_parse_from(&["docent", "index-file", "./ddrs", "--rebuild"]);
    assert!(cli.is_ok());
    let cli = cli.ok().unwrap();
    match cli.command {
        Commands::IndexFile(args) => {
            assert_eq!(PathBuf::from(args.file), PathBuf::from("./ddrs"));
            assert!(args.rebuild);
        }
        _ => panic!("expected IndexFile command"),
    }
}

#[test]
fn test_index_file_all_flags() {
    let cli = Cli::try_parse_from(&[
        "docent",
        "index-file",
        "./ddrs",
        "--config",
        "custom.toml",
        "--rebuild",
    ]);
    assert!(cli.is_ok());
    let cli = cli.ok().unwrap();
    match cli.command {
        Commands::IndexFile(args) => {
            assert_eq!(PathBuf::from(args.file), PathBuf::from("./ddrs"));
            assert_eq!(PathBuf::from(args.config), PathBuf::from("custom.toml"));
            assert!(args.rebuild);
        }
        _ => panic!("expected IndexFile command"),
    }
}

#[test]
fn test_index_file_verbose_flag() {
    let cli = Cli::try_parse_from(&["docent", "index-file", "./ddrs", "--verbose"]);
    assert!(cli.is_ok());
    let cli = cli.ok().unwrap();
    match cli.command {
        Commands::IndexFile(args) => {
            assert!(args.verbose);
        }
        _ => panic!("expected IndexFile command"),
    }
}

#[test]
fn test_index_file_missing_file_fails() {
    let cli = Cli::try_parse_from(&["docent", "index-file"]);
    assert!(cli.is_err());
}

#[test]
fn test_index_git_minimal() {
    let cli = Cli::try_parse_from(&["docent", "index-git", "./my-repo"]);
    assert!(cli.is_ok());
    let cli = cli.ok().unwrap();
    match cli.command {
        Commands::IndexGit(args) => {
            assert_eq!(PathBuf::from(args.file), PathBuf::from("./my-repo"));
            assert_eq!(PathBuf::from(args.config), PathBuf::from("./config.toml"));
            assert!(!args.rebuild);
            assert!(!args.verbose);
        }
        _ => panic!("expected IndexGit command"),
    }
}

#[test]
fn test_index_git_with_rebuild() {
    let cli = Cli::try_parse_from(&["docent", "index-git", "./my-repo", "--rebuild"]);
    assert!(cli.is_ok());
    let cli = cli.ok().unwrap();
    match cli.command {
        Commands::IndexGit(args) => {
            assert_eq!(PathBuf::from(args.file), PathBuf::from("./my-repo"));
            assert!(args.rebuild);
        }
        _ => panic!("expected IndexGit command"),
    }
}

#[test]
fn test_index_git_requires_path() {
    let cli = Cli::try_parse_from(&["docent", "index-git"]);
    assert!(cli.is_err());
}

#[test]
fn test_serve_default_config() {
    let cli = Cli::try_parse_from(&["docent", "serve"]);
    assert!(cli.is_ok());
    let cli = cli.ok().unwrap();
    match cli.command {
        Commands::Serve(args) => {
            assert_eq!(PathBuf::from(args.config), PathBuf::from("./config.toml"));
        }
        _ => panic!("expected Serve command"),
    }
}

#[test]
fn test_serve_custom_config() {
    let cli = Cli::try_parse_from(&["docent", "serve", "--config", "prod.toml"]);
    assert!(cli.is_ok());
    let cli = cli.ok().unwrap();
    match cli.command {
        Commands::Serve(args) => {
            assert_eq!(PathBuf::from(args.config), PathBuf::from("prod.toml"));
        }
        _ => panic!("expected Serve command"),
    }
}

#[test]
fn test_unknown_subcommand_fails() {
    let cli = Cli::try_parse_from(&["docent", "unknown"]);
    assert!(cli.is_err());
}

#[test]
fn test_list_models() {
    let cli = Cli::try_parse_from(&["docent", "list-models"]);
    assert!(cli.is_ok());
    let cli = cli.ok().unwrap();
    match cli.command {
        Commands::ListModels => {}
        _ => panic!("expected ListModels command"),
    }
}

use docent::cli::CliErrorKind;

fn kind_of(args: &[&str]) -> CliErrorKind {
    match Cli::try_parse_from(args) {
        Err(e) => e.kind,
        Ok(_) => panic!("expected an error"),
    }
}

#[test]
fn config_with_equals_sign_and_flags_before_the_path() {
    let cli = Cli::try_parse_from(&["docent", "index-git", "--verbose", "--config=a.toml", "repo"])
        .ok()
        .unwrap();
    match cli.command {
        Commands::IndexGit(args) => {
            assert_eq!(args.file, "repo");
            assert_eq!(args.config, "a.toml");
            assert!(args.verbose);
            assert!(!args.rebuild);
        }
        _ => panic!("expected IndexGit command"),
    }
}

#[test]
fn double_dash_makes_the_rest_positional() {
    let cli = Cli::try_parse_from(&["docent", "index-file", "--", "--rebuild"]).ok().unwrap();
    match cli.command {
        Commands::IndexFile(args) => {
            assert_eq!(args.file, "--rebuild");
            assert!(!args.rebuild);
        }
        _ => panic!("expected IndexFile command"),
    }
}

#[test]
fn refused_command_lines() {
    assert_eq!(kind_of(&["docent"]), CliErrorKind::MissingSubcommand);
    assert_eq!(kind_of(&["docent", "help"]), CliErrorKind::HelpRequested);
    assert_eq!(kind_of(&["docent", "--help"]), CliErrorKind::HelpRequested);
    assert_eq!(kind_of(&["docent", "serve", "-h"]), CliErrorKind::HelpRequested);
    assert_eq!(kind_of(&["docent", "serve", "--rebuild"]), CliErrorKind::UnknownArgument);
    assert_eq!(kind_of(&["docent", "serve", "x"]), CliErrorKind::UnexpectedArgument);
    assert_eq!(kind_of(&["docent", "serve", "--config"]), CliErrorKind::MissingValue);
    assert_eq!(kind_of(&["docent", "serve", "--config", "--x"]), CliErrorKind::MissingValue);
    assert_eq!(kind_of(&["docent", "serve", "--config="]), CliErrorKind::EmptyValue);
    assert_eq!(
        kind_of(&["docent", "serve", "--config", "a", "--config", "b"]),
        CliErrorKind::DuplicateArgument
    );
    assert_eq!(kind_of(&["docent", "index-file", "p", "--rebuild=yes"]), CliErrorKind::UnexpectedValue);
    assert_eq!(kind_of(&["docent", "index-file", ""]), CliErrorKind::EmptyValue);
    assert_eq!(kind_of(&["docent", "index-file", "a", "b"]), CliErrorKind::UnexpectedArgument);
    assert_eq!(kind_of(&["docent", "list-models", "--config", "c"]), CliErrorKind::UnknownArgument);
    assert_eq!(kind_of(&["docent", "-x"]), CliErrorKind::UnknownArgument);
}
