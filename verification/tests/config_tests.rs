use sim::config::{build_config, parse_args_from, parse_count, ConfigError};
use sim::text::NumberError;

fn args(raw: &[&str]) -> Vec<String> {
    raw.iter().map(|s| s.to_string()).collect()
}

fn text(s: &str) -> Option<String> {
    Some(s.to_string())
}

#[test]
fn counts_read_as_usize() {
    assert_eq!(parse_count(&"0".to_string()), Ok(0));
    assert_eq!(parse_count(&"+42".to_string()), Ok(42));
    assert_eq!(parse_count(&"18446744073709551615".to_string()), Ok(usize::MAX));
    assert_eq!(parse_count(&"".to_string()), Err(NumberError::Empty));
    assert_eq!(parse_count(&"+".to_string()), Err(NumberError::InvalidDigit));
    assert_eq!(parse_count(&"-1".to_string()), Err(NumberError::InvalidDigit));
    assert_eq!(parse_count(&" 1".to_string()), Err(NumberError::InvalidDigit));
    assert_eq!(parse_count(&"1a".to_string()), Err(NumberError::InvalidDigit));
    assert_eq!(parse_count(&"18446744073709551616".to_string()), Err(NumberError::PosOverflow));
    assert_eq!(parse_count(&"99999999999999999999x".to_string()), Err(NumberError::PosOverflow));
}

#[test]
fn build_config_reports_first_problem() {
    assert_eq!(
        build_config(false, None, None, None, None, None, None, None).err(),
        Some(ConfigError::Missing('s'))
    );
    assert_eq!(
        build_config(false, text("x"), None, None, None, None, None, None).err(),
        Some(ConfigError::Number(NumberError::InvalidDigit))
    );
    assert_eq!(
        build_config(false, text("1"), None, None, None, None, None, None).err(),
        Some(ConfigError::Missing('E'))
    );
    assert_eq!(
        build_config(false, text("1"), text(""), None, None, None, None, None).err(),
        Some(ConfigError::Number(NumberError::Empty))
    );
    assert_eq!(
        build_config(false, text("1"), text("2"), None, None, None, None, None).err(),
        Some(ConfigError::Missing('b'))
    );
    assert_eq!(
        build_config(false, text("1"), text("2"), text("3"), None, None, None, None).err(),
        Some(ConfigError::Missing('t'))
    );
    assert_eq!(
        build_config(false, text("1"), text("2"), text("3"), text("t"), text("99999999999999999999"), None, None).err(),
        Some(ConfigError::Number(NumberError::PosOverflow))
    );
    assert_eq!(
        build_config(true, text("1"), text("2"), text("3"), text("t"), text("1"), None, text("1")).err(),
        Some(ConfigError::IncompleteHierarchy)
    );
}

#[test]
fn build_config_single_level_keeps_l2_counts_given() {
    let cfg = build_config(false, text("1"), text("2"), text("3"), text("f.trace"), text("4"), None, None)
        .expect("valid values");
    assert!(!cfg.multi);
    assert_eq!((cfg.s, cfg.e, cfg.b), (1, 2, 3));
    assert_eq!(cfg.l2_s, Some(4));
    assert_eq!(cfg.l2_e, None);
    assert_eq!(cfg.trace_file, "f.trace");
}

#[test]
fn parse_args_from_reports_option_errors() {
    let unknown = parse_args_from(&args(&["sim", "-x", "-s", "1", "-E", "1", "-b", "1", "-t", "f"]));
    assert!(matches!(unknown, Err(ConfigError::Options(_))));
    let twice = parse_args_from(&args(&["sim", "-s", "1", "-s", "2", "-E", "1", "-b", "1", "-t", "f"]));
    assert!(matches!(twice, Err(ConfigError::Options(_))));
    let no_value = parse_args_from(&args(&["sim", "-s", "1", "-E", "1", "-b", "1", "-t"]));
    assert!(matches!(no_value, Err(ConfigError::Options(_))));
    let bad_number = parse_args_from(&args(&["sim", "-s", "one", "-E", "1", "-b", "1", "-t", "f"]));
    assert_eq!(bad_number.err(), Some(ConfigError::Number(NumberError::InvalidDigit)));
    let missing = parse_args_from(&args(&["sim", "-s", "1", "-b", "1", "-t", "f"]));
    assert_eq!(missing.err(), Some(ConfigError::Missing('E')));
}

#[test]
fn parse_args_from_attached_values() {
    let cfg = parse_args_from(&args(&["sim", "-s2", "-E4", "-b3", "--l2-s=5", "-tfile"]))
        .expect("valid arguments");
    assert_eq!((cfg.s, cfg.e, cfg.b), (2, 4, 3));
    assert_eq!(cfg.l2_s, Some(5));
    assert_eq!(cfg.trace_file, "file");
}

#[test]
fn parse_args_from_keeps_getopts_message() {
    let unknown = parse_args_from(&args(&["sim", "-x"]));
    assert_eq!(unknown.err(), Some(ConfigError::Options("Unrecognized option: 'x'".to_string())));
    let missing = parse_args_from(&args(&["sim", "-s"]));
    assert_eq!(missing.err(), Some(ConfigError::Options("Argument to option 's' missing".to_string())));
}
