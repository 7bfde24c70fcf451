use wheres::config::{
    classify, parse_args, ConfigError, Invocation, Notice, Resolution, SearchConfig, Token,
};

fn args(tokens: &[&str]) -> Vec<String> {
    tokens.iter().map(|t| t.to_string()).collect()
}

fn resolve(tokens: &[&str]) -> Resolution {
    parse_args(&args(tokens))
}

fn config_of(tokens: &[&str]) -> SearchConfig {
    match resolve(tokens).outcome {
        Ok(Invocation::Search(config)) => config,
        other => panic!("expected a search, got {:?}", other),
    }
}

#[test]
fn query_alone_gives_the_defaults() {
    let config = config_of(&["foo"]);
    assert_eq!(config.query(), "foo");
    assert!(config.recursive());
    assert!(!config.verbose());
    assert_eq!(config.output(), None);
}

#[test]
fn no_tokens_is_a_missing_query() {
    let resolution = resolve(&[]);
    assert_eq!(resolution.outcome, Err(ConfigError::MissingQuery));
    assert!(resolution.notices.is_empty());
}

#[test]
fn flags_without_a_positional_are_a_missing_query() {
    assert_eq!(resolve(&["-v", "-r"]).outcome, Err(ConfigError::MissingQuery));
}

#[test]
fn empty_query_is_a_missing_query() {
    assert_eq!(resolve(&[""]).outcome, Err(ConfigError::MissingQuery));
}

#[test]
fn short_and_long_verbose_flags_agree() {
    assert!(config_of(&["-v", "foo"]).verbose());
    assert!(config_of(&["foo", "--verbose"]).verbose());
}

#[test]
fn both_recursion_tokens_switch_recursion_off() {
    assert!(!config_of(&["-r", "foo"]).recursive());
    assert!(!config_of(&["--recursive=false", "foo"]).recursive());
}

#[test]
fn recursive_true_spelling_is_an_unknown_flag() {
    let resolution = resolve(&["--recursive=true", "foo"]);
    assert_eq!(resolution.notices, vec![Notice::UnknownFlag("--recursive=true".to_string())]);
    match resolution.outcome {
        Ok(Invocation::Search(config)) => assert!(config.recursive()),
        other => panic!("expected a search, got {:?}", other),
    }
}

#[test]
fn output_flag_takes_the_next_token() {
    assert_eq!(config_of(&["-o", "out.txt", "foo"]).output(), Some("out.txt"));
    assert_eq!(config_of(&["foo", "--output", "out.txt"]).output(), Some("out.txt"));
}

#[test]
fn output_flag_takes_the_next_token_even_if_it_looks_like_a_flag() {
    let resolution = resolve(&["-o", "-h", "foo"]);
    assert!(resolution.notices.is_empty());
    match resolution.outcome {
        Ok(Invocation::Search(config)) => {
            assert_eq!(config.output(), Some("-h"));
            assert_eq!(config.query(), "foo");
        }
        other => panic!("expected a search, got {:?}", other),
    }
}

#[test]
fn later_output_flag_wins() {
    assert_eq!(config_of(&["-o", "a", "-o", "b", "foo"]).output(), Some("b"));
}

#[test]
fn output_flag_as_last_token_is_an_error() {
    assert_eq!(resolve(&["foo", "--output"]).outcome, Err(ConfigError::MissingOutputValue));
    assert_eq!(resolve(&["foo", "-o"]).outcome, Err(ConfigError::MissingOutputValue));
    assert_eq!(resolve(&["-o"]).outcome, Err(ConfigError::MissingOutputValue));
}

#[test]
fn short_help_stops_the_scan() {
    assert_eq!(resolve(&["-h"]).outcome, Ok(Invocation::ShortHelp));
    assert_eq!(resolve(&["-h", "-o"]).outcome, Ok(Invocation::ShortHelp));
    assert_eq!(resolve(&["foo", "-h", "bar"]).outcome, Ok(Invocation::ShortHelp));
}

#[test]
fn full_help_stops_the_scan() {
    assert_eq!(resolve(&["--help"]).outcome, Ok(Invocation::FullHelp));
    assert_eq!(resolve(&["--help", "-h"]).outcome, Ok(Invocation::FullHelp));
    assert_eq!(resolve(&["-h", "--help"]).outcome, Ok(Invocation::ShortHelp));
}

#[test]
fn unknown_flag_is_noted_and_parsing_goes_on() {
    let resolution = resolve(&["-x", "foo", "--what"]);
    assert_eq!(
        resolution.notices,
        vec![Notice::UnknownFlag("-x".to_string()), Notice::UnknownFlag("--what".to_string())]
    );
    match resolution.outcome {
        Ok(Invocation::Search(config)) => assert_eq!(config.query(), "foo"),
        other => panic!("expected a search, got {:?}", other),
    }
}

#[test]
fn lone_dash_is_an_unknown_flag() {
    let resolution = resolve(&["-"]);
    assert_eq!(resolution.notices, vec![Notice::UnknownFlag("-".to_string())]);
    assert_eq!(resolution.outcome, Err(ConfigError::MissingQuery));
}

#[test]
fn later_positionals_are_noted_as_extras() {
    let resolution = resolve(&["foo", "bar", "-v", "baz"]);
    assert_eq!(
        resolution.notices,
        vec![Notice::ExtraArgument("bar".to_string()), Notice::ExtraArgument("baz".to_string())]
    );
    match resolution.outcome {
        Ok(Invocation::Search(config)) => {
            assert_eq!(config.query(), "foo");
            assert!(config.verbose());
        }
        other => panic!("expected a search, got {:?}", other),
    }
}

#[test]
fn notices_before_an_early_stop_are_kept() {
    let help = resolve(&["-x", "-h", "-y"]);
    assert_eq!(help.outcome, Ok(Invocation::ShortHelp));
    assert_eq!(help.notices, vec![Notice::UnknownFlag("-x".to_string())]);
    let missing = resolve(&["-x", "foo", "bar", "-o"]);
    assert_eq!(missing.outcome, Err(ConfigError::MissingOutputValue));
    assert_eq!(
        missing.notices,
        vec![Notice::UnknownFlag("-x".to_string()), Notice::ExtraArgument("bar".to_string())]
    );
}

#[test]
fn all_flags_together() {
    let config = config_of(&["-v", "-r", "-o", "found.txt", "needle"]);
    assert_eq!(config.query(), "needle");
    assert!(config.verbose());
    assert!(!config.recursive());
    assert_eq!(config.output(), Some("found.txt"));
}

#[test]
fn tokens_are_classified() {
    assert_eq!(classify("-h"), Token::ShortHelp);
    assert_eq!(classify("--help"), Token::FullHelp);
    assert_eq!(classify("-v"), Token::Verbose);
    assert_eq!(classify("--verbose"), Token::Verbose);
    assert_eq!(classify("-r"), Token::NoRecursion);
    assert_eq!(classify("--recursive=false"), Token::NoRecursion);
    assert_eq!(classify("-o"), Token::Output);
    assert_eq!(classify("--output"), Token::Output);
    assert_eq!(classify("-z"), Token::UnknownFlag);
    assert_eq!(classify("--"), Token::UnknownFlag);
    assert_eq!(classify("-H"), Token::UnknownFlag);
    assert_eq!(classify("foo"), Token::Positional);
    assert_eq!(classify("a-b"), Token::Positional);
    assert_eq!(classify(""), Token::Positional);
    assert_eq!(classify("\u{2212}v"), Token::Positional);
}

#[test]
fn config_needs_a_query() {
    assert_eq!(SearchConfig::new(String::new(), true, false, None), None);
    let config = SearchConfig::new("q".to_string(), false, true, Some("o".to_string()))
        .expect("a query was given");
    assert_eq!(config.query(), "q");
    assert!(!config.recursive());
    assert!(config.verbose());
    assert_eq!(config.output(), Some("o"));
}

#[test]
fn config_errors_have_messages() {
    assert_eq!(ConfigError::MissingQuery.message(), "No search term given");
    assert_eq!(ConfigError::MissingOutputValue.message(), "No value specified for --output");
}

#[test]
fn notices_have_messages() {
    assert_eq!(Notice::UnknownFlag("-x".to_string()).message(), "Unknown flag -x");
    assert_eq!(
        Notice::ExtraArgument("bar".to_string()).message(),
        "Only one search term allowed. Ignoring extra input bar"
    );
}
