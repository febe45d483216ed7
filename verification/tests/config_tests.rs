use minigrep::{Config, ConfigError};

fn tokens(raw: &[&str]) -> Vec<String> {
    raw.iter().map(|t| t.to_string()).collect()
}

#[test]
fn build_with_no_tokens_fails() {
    let args = tokens(&[]);
    assert_eq!(
        Config::build(&args, false).map(|_| ()),
        Err(ConfigError::InsufficientArguments)
    );
}

#[test]
fn build_with_two_tokens_fails() {
    let args = tokens(&["minigrep", "query"]);
    assert_eq!(
        Config::build(&args, false).map(|_| ()),
        Err(ConfigError::InsufficientArguments)
    );
}

#[test]
fn build_with_three_tokens_is_normal_mode() {
    let args = tokens(&["minigrep", "duct", "poem.txt"]);
    let config = Config::build(&args, false).unwrap();
    assert_eq!(config.query, "duct");
    assert_eq!(config.file_path, "poem.txt");
    assert!(!config.ignore_case);
    assert!(!config.inverse);
}

#[test]
fn build_mode_token_inverse_flips_polarity() {
    let args = tokens(&["minigrep", "duct", "poem.txt", "inverse"]);
    let config = Config::build(&args, false).unwrap();
    assert!(config.inverse);
}

#[test]
fn build_mode_token_v_flips_polarity() {
    let args = tokens(&["minigrep", "duct", "poem.txt", "v"]);
    let config = Config::build(&args, false).unwrap();
    assert!(config.inverse);
}

#[test]
fn build_unrecognized_mode_token_is_normal_mode() {
    let args = tokens(&["minigrep", "duct", "poem.txt", "backwards"]);
    let config = Config::build(&args, false).unwrap();
    assert!(!config.inverse);
}

#[test]
fn build_mode_token_is_case_sensitive() {
    let args = tokens(&["minigrep", "duct", "poem.txt", "Inverse"]);
    let config = Config::build(&args, false).unwrap();
    assert!(!config.inverse);
}

#[test]
fn build_passes_the_ignore_case_signal_through() {
    let args = tokens(&["minigrep", "duct", "poem.txt"]);
    assert!(Config::build(&args, true).unwrap().ignore_case);
    assert!(!Config::build(&args, false).unwrap().ignore_case);
}
