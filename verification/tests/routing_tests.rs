use yact::config::BuiltinTransformer;
use yact::config::Configuration;
use yact::config::ConfigurationItem;
use yact::config::ShellCommandTransformer;
use yact::config::TransformerOptions;
use yact::errors::Error;
use yact::pipeline::plan_entry;
use yact::pipeline::ChangeEntry;
use yact::pipeline::EntryPlan;
use yact::router::route;

fn whitespace_chain() -> Vec<TransformerOptions> {
    vec![TransformerOptions::Builtin(BuiltinTransformer::TrailingWhitespace)]
}

fn item(pathspec: &str, transformers: Vec<TransformerOptions>) -> ConfigurationItem {
    ConfigurationItem { pathspec: pathspec.to_string(), transformers }
}

#[test]
fn route_finds_a_glob_match() {
    let config = Configuration::new(vec![item("*.md", whitespace_chain())]);
    let rule = route(&config, &"README.md".to_string()).unwrap();
    assert_eq!(rule, Some(0));
}

#[test]
fn route_reports_no_match() {
    let config = Configuration::new(vec![item("*.md", whitespace_chain())]);
    let rule = route(&config, &"notes.txt".to_string()).unwrap();
    assert_eq!(rule, None);
}

#[test]
fn route_matches_paths_under_directories() {
    let config = Configuration::new(vec![item("docs/**", whitespace_chain())]);
    let rule = route(&config, &"docs/deep/guide.md".to_string()).unwrap();
    assert_eq!(rule, Some(0));
}

#[test]
fn first_matching_rule_wins() {
    let config = Configuration::new(vec![
        item("*.txt", whitespace_chain()),
        item("*.md", whitespace_chain()),
        item("*", whitespace_chain()),
    ]);
    assert_eq!(route(&config, &"README.md".to_string()).unwrap(), Some(1));
    assert_eq!(route(&config, &"notes.txt".to_string()).unwrap(), Some(0));
    assert_eq!(route(&config, &"Makefile".to_string()).unwrap(), Some(2));
}

#[test]
fn invalid_pattern_is_a_backend_error() {
    // An interior NUL cannot be represented in a pathspec.
    let config = Configuration::new(vec![item("a\0b", whitespace_chain())]);
    match route(&config, &"README.md".to_string()) {
        Err(Error::GitError(_)) => {},
        _ => panic!("an invalid pattern must be a backend error"),
    }
}

#[test]
fn binary_entries_are_skipped_before_routing() {
    let config = Configuration::new(vec![item("*", whitespace_chain())]);
    let entry = ChangeEntry {
        path: "image.png".to_string(),
        content: vec![0, 159, 146, 150],
        mode: 0o100644,
        binary: true,
    };
    assert!(matches!(plan_entry(&config, &entry).unwrap(), EntryPlan::Skip));
}

#[test]
fn unmatched_entries_pass_through() {
    let config = Configuration::new(vec![item("*.md", whitespace_chain())]);
    let entry = ChangeEntry {
        path: "notes.txt".to_string(),
        content: b"text ".to_vec(),
        mode: 0o100644,
        binary: false,
    };
    assert!(matches!(plan_entry(&config, &entry).unwrap(), EntryPlan::PassThrough));
}

#[test]
fn matched_entries_name_their_rule() {
    let config = Configuration::new(vec![
        item("*.rs", vec![TransformerOptions::RawCommand(ShellCommandTransformer::Rustfmt)]),
        item("*.md", whitespace_chain()),
    ]);
    let entry = ChangeEntry {
        path: "README.md".to_string(),
        content: b"# hi ".to_vec(),
        mode: 0o100644,
        binary: false,
    };
    assert!(matches!(plan_entry(&config, &entry).unwrap(), EntryPlan::Transform { rule: 1 }));
}

#[test]
fn matched_rule_with_empty_chain_is_a_configuration_error() {
    let config = Configuration::new(vec![item("*.md", Vec::new())]);
    let entry = ChangeEntry {
        path: "README.md".to_string(),
        content: b"# hi ".to_vec(),
        mode: 0o100644,
        binary: false,
    };
    match plan_entry(&config, &entry) {
        Err(Error::ConfigurationParseError(_)) => {},
        _ => panic!("an empty chain on a matched rule must be a configuration error"),
    }
}

#[test]
fn validate_refuses_empty_transformer_lists() {
    let config = Configuration::new(vec![item("*.md", Vec::new())]);
    assert!(matches!(config.validate(), Err(Error::ConfigurationParseError(_))));
    let good = Configuration::new(vec![item("*.md", whitespace_chain())]);
    assert!(good.validate().is_ok());
}

#[test]
fn command_identities_match_their_programs() {
    assert_eq!(ShellCommandTransformer::Rustfmt.command_str(), "rustfmt");
    assert_eq!(ShellCommandTransformer::ClangFormat.command_str(), "clang-format");
    let sys = ShellCommandTransformer::System {
        command: "sed".to_string(),
        env: vec![("LC_ALL".to_string(), "C".to_string())],
        args: vec!["-e".to_string(), "s/a/b/".to_string()],
    };
    assert_eq!(sys.command_str(), "sed");
    assert_eq!(sys.command_args(), vec!["-e".to_string(), "s/a/b/".to_string()]);
    assert_eq!(sys.command_env(), vec![("LC_ALL".to_string(), "C".to_string())]);
    assert_eq!(
        ShellCommandTransformer::Rustfmt.command_args(),
        vec!["--emit".to_string(), "stdout".to_string()]
    );
    assert!(ShellCommandTransformer::ClangFormat.command_args().is_empty());
    assert!(ShellCommandTransformer::Rustfmt.command_env().is_empty());
}
