use mtree::config::{Config, Host};

fn host(directories: &[&str]) -> Host {
    Host {
        directories: directories.iter().map(|d| d.to_string()).collect(),
        help_text: Some("usage: mtree [directory] [-D depth] [-L length] [-T total]".to_string()),
        version_text: Some("mtree <version>\ncompiled on <build_time>".to_string()),
        package_version: Some("0.1.0".to_string()),
    }
}

fn words(args: &[&str]) -> Vec<String> {
    args.iter().map(|a| a.to_string()).collect()
}

#[test]
fn test_parse_args_no_arguments() {
    let args: Vec<String> = vec!["mtree".to_string()];
    let config = Config::from(args, &host(&[]));
    assert_eq!(config, Config::new());
}

#[test]
fn test_parse_args_help() {
    let args: Vec<String> = vec!["mtree".to_string(), "--help".to_string()];
    let config = Config::from(args, &host(&[]));
    assert!(config.get_message().is_some());
}

#[test]
fn test_parse_args_version() {
    let args: Vec<String> = vec!["mtree".to_string(), "--version".to_string()];
    let config = Config::from(args, &host(&[]));
    assert!(config.get_message().is_some());
}

#[test]
fn test_parse_args_with_valid_base_dir() {
    let args: Vec<String> = vec!["mtree".to_string(), "C:/Windows".to_string()];
    let config = Config::from(args, &host(&["C:/Windows"]));
    assert_eq!(config.get_root_dir(), Some("C:/Windows".to_string()));
    assert_eq!(config.get_max_depth(), Some(2));
}

#[test]
fn test_parse_args_with_invalid_base_dir() {
    let args: Vec<String> = vec!["mtree".to_string(), "C:/awoooo0ooogaaaa".to_string()];
    let config = Config::from(args, &host(&["C:/Windows"]));
    assert!(config.get_error().is_some());
}

#[test]
fn test_parse_args_with_max_depth() {
    let args: Vec<String> = vec![
        "mtree".to_string(),
        "-D".to_string(),
        "5".to_string(),
        "C:/Windows".to_string(),
    ];
    let config = Config::from(args, &host(&["C:/Windows"]));
    assert_eq!(config.get_max_depth(), Some(5));
    assert_eq!(config.get_root_dir(), Some("C:/Windows".to_string()));
}

#[test]
fn test_parse_args_with_dir_len_limit() {
    let args: Vec<String> = vec![
        "mtree".to_string(),
        "-L".to_string(),
        "10".to_string(),
        "C:/Windows".to_string(),
    ];
    let config = Config::from(args, &host(&["C:/Windows"]));
    assert_eq!(config.get_dir_len_limit(), Some(10));
    assert_eq!(config.get_root_dir(), Some("C:/Windows".to_string()));
}

#[test]
fn test_parse_args_with_total_len_limit() {
    let args: Vec<String> = vec![
        "mtree".to_string(),
        "-T".to_string(),
        "100".to_string(),
        "C:/Windows".to_string(),
    ];
    let config = Config::from(args, &host(&["C:/Windows"]));
    assert_eq!(config.get_total_len_limit(), Some(100));
    assert_eq!(config.get_root_dir(), Some("C:/Windows".to_string()));
}

#[test]
fn test_parse_args_with_multiple_flags() {
    let args: Vec<String> = vec![
        "mtree".to_string(),
        "-D".to_string(),
        "3".to_string(),
        "-L".to_string(),
        "10".to_string(),
        "-T".to_string(),
        "50".to_string(),
        "C:/Windows".to_string(),
    ];
    let config = Config::from(args, &host(&["C:/Windows"]));
    assert_eq!(config.get_max_depth(), Some(3));
    assert_eq!(config.get_dir_len_limit(), Some(10));
    assert_eq!(config.get_total_len_limit(), Some(50));
    assert_eq!(config.get_root_dir(), Some("C:/Windows".to_string()));
}

#[test]
fn test_parse_args_missing_value_for_depth() {
    let args: Vec<String> = vec!["mtree".to_string(), "-D".to_string()];
    let config = Config::from(args, &host(&[]));
    assert!(config.get_error().is_some());
}

#[test]
fn test_parse_args_invalid_depth_value() {
    let args: Vec<String> = vec![
        "mtree".to_string(),
        "-D".to_string(),
        "invalid".to_string(),
        "C:/Windows".to_string(),
    ];
    let config = Config::from(args, &host(&["C:/Windows"]));
    assert!(config.get_error().is_some());
}

#[test]
fn test_parse_args_invalid_tag() {
    let args: Vec<String> = vec![
        "mtree".to_string(),
        "-X".to_string(),
        "10".to_string(),
        "C:/Windows".to_string(),
    ];
    let config = Config::from(args, &host(&["C:/Windows"]));
    assert!(config.get_error().is_some());
}

#[test]
fn test_parse_args_multiple_base_directories() {
    let args: Vec<String> = vec![
        "mtree".to_string(),
        "first_dir".to_string(),
        "-D".to_string(),
        "3".to_string(),
        "second_dir".to_string(),
    ];
    let config = Config::from(args, &host(&["first_dir", "second_dir"]));
    assert!(config.get_error().is_some());
}

#[test]
fn default_configuration_renders_the_current_directory() {
    let config = Config::new();
    assert_eq!(config.get_root_dir(), Some(".".to_string()));
    assert_eq!(config.get_max_depth(), Some(2));
    assert_eq!(config.get_dir_len_limit(), None);
    assert_eq!(config.get_total_len_limit(), None);
    assert_eq!(config.get_message(), None);
    assert_eq!(config.get_error(), None);
}

#[test]
fn message_and_error_configurations_hold_their_text() {
    let message = Config::new_message("hello".to_string());
    assert_eq!(message.get_message(), Some("hello".to_string()));
    assert_eq!(message.get_error(), None);
    assert_eq!(message.get_root_dir(), None);
    assert_eq!(message.get_max_depth(), None);
    assert_eq!(message.get_dir_len_limit(), None);
    assert_eq!(message.get_total_len_limit(), None);

    let error = Config::new_error("oops".to_string());
    assert_eq!(error.get_error(), Some("oops".to_string()));
    assert_eq!(error.get_message(), None);
    assert_eq!(error.get_root_dir(), None);
}

#[test]
fn help_message_is_the_help_file() {
    let config = Config::from(words(&["mtree", "--help"]), &host(&[]));
    assert_eq!(
        config.get_message(),
        Some("usage: mtree [directory] [-D depth] [-L length] [-T total]".to_string())
    );
}

#[test]
fn help_message_has_a_stand_in() {
    let mut bare = host(&[]);
    bare.help_text = None;
    let config = Config::from(words(&["mtree", "--help"]), &bare);
    assert_eq!(config.get_message(), Some("Error help version message.".to_string()));
    assert_eq!(Config::get_help_message(&bare), "Error help version message.");
}

#[test]
fn help_is_only_asked_for_in_first_place() {
    let config = Config::from(words(&["mtree", "-D", "--help"]), &host(&[]));
    assert_eq!(
        config.get_error(),
        Some("Invalid value `--help` after tag `-D`".to_string())
    );
    let config = Config::from(words(&["mtree", "-D", "4", "--help"]), &host(&[]));
    assert_eq!(config.get_error(), Some("The tag `--help` is invalid.".to_string()));
}

fn is_date(text: &str) -> bool {
    text.len() >= 10 && text.chars().all(|c| c.is_ascii_digit() || c == '-' || c == '+')
}

#[test]
fn version_message_fills_in_version_and_date() {
    let config = Config::from(words(&["mtree", "--version"]), &host(&[]));
    let message = config.get_message().unwrap();
    let mut lines = message.lines();
    assert_eq!(lines.next(), Some("mtree 0.1.0"));
    let second = lines.next().unwrap();
    assert!(second.starts_with("compiled on "));
    assert!(is_date(&second["compiled on ".len()..]));
    assert_eq!(lines.next(), None);
}

#[test]
fn version_message_replaces_every_occurrence() {
    let mut twice = host(&[]);
    twice.version_text = Some("<version>-<version>|<build_time>".to_string());
    twice.package_version = Some("9".to_string());
    let message = Config::get_version_message(&twice);
    let (versions, date) = message.split_once('|').unwrap();
    assert_eq!(versions, "9-9");
    assert!(is_date(date));
    assert_eq!(date.matches('-').count(), 2);
}

#[test]
fn version_message_has_a_stand_in() {
    let mut bare = host(&[]);
    bare.version_text = None;
    assert_eq!(Config::get_version_message(&bare), "Error reading version message.");
}

#[test]
fn wants_version_looks_at_the_second_argument() {
    assert!(Config::wants_version(&words(&["mtree", "--version"])));
    assert!(!Config::wants_version(&words(&["mtree", "--help"])));
    assert!(!Config::wants_version(&words(&["mtree", ".", "--version"])));
    assert!(!Config::wants_version(&words(&["mtree"])));
}

#[test]
fn missing_directory_is_named() {
    let config = Config::from(words(&["mtree", "nowhere"]), &host(&["somewhere"]));
    assert_eq!(
        config.get_error(),
        Some("The directory `nowhere` does not exist.".to_string())
    );
}

#[test]
fn second_directory_is_refused() {
    let config = Config::from(words(&["mtree", "a", "b"]), &host(&["a", "b"]));
    assert_eq!(
        config.get_error(),
        Some("The arguments can only contain up to one base directory.".to_string())
    );
}

#[test]
fn missing_second_directory_is_reported_as_missing() {
    let config = Config::from(words(&["mtree", "a", "b"]), &host(&["a"]));
    assert_eq!(config.get_error(), Some("The directory `b` does not exist.".to_string()));
}

#[test]
fn first_fault_wins() {
    let config = Config::from(words(&["mtree", "-X", "nowhere"]), &host(&[]));
    assert_eq!(config.get_error(), Some("The tag `-X` is invalid.".to_string()));
    let config = Config::from(words(&["mtree", "nowhere", "-X"]), &host(&[]));
    assert_eq!(
        config.get_error(),
        Some("The directory `nowhere` does not exist.".to_string())
    );
}

#[test]
fn tag_without_value_is_reported() {
    let config = Config::from(words(&["mtree", "a", "-T"]), &host(&["a"]));
    assert_eq!(config.get_error(), Some("No value after tag `-T`.".to_string()));
}

#[test]
fn value_that_is_no_number_is_reported() {
    for bad in ["", "+", "-1", "1.5", " 1", "1 ", "0x10", "1_000", "٣", "99999999999999999999999"] {
        let config = Config::from(words(&["mtree", "-L", bad]), &host(&[]));
        assert_eq!(
            config.get_error(),
            Some(format!("Invalid value `{bad}` after tag `-L`")),
            "{bad}"
        );
    }
}

#[test]
fn values_are_read_as_decimal_numbers() {
    let config = Config::from(words(&["mtree", "-D", "+7", "-L", "007", "-T", "0"]), &host(&[]));
    assert_eq!(config.get_max_depth(), Some(7));
    assert_eq!(config.get_dir_len_limit(), Some(7));
    assert_eq!(config.get_total_len_limit(), Some(0));
    let largest = usize::MAX.to_string();
    let config = Config::from(words(&["mtree", "-T", &largest]), &host(&[]));
    assert_eq!(config.get_total_len_limit(), Some(usize::MAX));
}

#[test]
fn later_tags_override_earlier_ones() {
    let config = Config::from(words(&["mtree", "-D", "3", "-D", "4"]), &host(&[]));
    assert_eq!(config.get_max_depth(), Some(4));
}

#[test]
fn a_dash_alone_is_a_tag() {
    let config = Config::from(words(&["mtree", "-"]), &host(&["-"]));
    assert_eq!(config.get_error(), Some("The tag `-` is invalid.".to_string()));
}

#[test]
fn an_empty_argument_is_a_directory() {
    let config = Config::from(words(&["mtree", ""]), &host(&[]));
    assert_eq!(config.get_error(), Some("The directory `` does not exist.".to_string()));
}

#[test]
fn setters_change_a_rendering_configuration() {
    let mut config = Config::new();
    assert_eq!(config.set_max_depth(9), Ok(()));
    assert_eq!(config.set_dir_len_limit(Some(4)), Ok(()));
    assert_eq!(config.set_total_len_limit(Some(40)), Ok(()));
    assert_eq!(config.set_root_dir("here".to_string(), true), Ok(()));
    assert_eq!(config.get_max_depth(), Some(9));
    assert_eq!(config.get_dir_len_limit(), Some(4));
    assert_eq!(config.get_total_len_limit(), Some(40));
    assert_eq!(config.get_root_dir(), Some("here".to_string()));
    assert_eq!(config.set_dir_len_limit(None), Ok(()));
    assert_eq!(config.get_dir_len_limit(), None);
}

#[test]
fn setters_refuse_other_configurations() {
    let refusal = "Tried to set the max depth while the Config was not in Render mode.";
    let mut config = Config::new_message("m".to_string());
    assert_eq!(config.set_max_depth(9), Err(refusal.to_string()));
    assert_eq!(config.set_dir_len_limit(Some(4)), Err(refusal.to_string()));
    assert_eq!(config.set_total_len_limit(Some(40)), Err(refusal.to_string()));
    assert_eq!(
        config.set_root_dir("here".to_string(), true),
        Err("Tried to set the root directory while the Config was not in Render mode.".to_string())
    );
    assert_eq!(config, Config::new_message("m".to_string()));
}

#[test]
fn set_root_dir_refuses_a_missing_directory_first() {
    let mut config = Config::new_error("e".to_string());
    assert_eq!(
        config.set_root_dir("gone".to_string(), false),
        Err("The directory `gone` does not exist.".to_string())
    );
    let mut config = Config::new();
    assert_eq!(
        config.set_root_dir("gone".to_string(), false),
        Err("The directory `gone` does not exist.".to_string())
    );
    assert_eq!(config, Config::new());
}

#[test]
fn host_knows_its_directories() {
    let host = host(&["a", "b/c"]);
    assert!(host.knows("a"));
    assert!(host.knows("b/c"));
    assert!(!host.knows("b"));
    assert!(!host.knows(""));
}
