use subtitle_lint::config::{parse_bool, Config, ConfigError};

#[test]
fn defaults_when_empty() {
    let config = Config::parse("").unwrap();
    assert_eq!(config.max_line_length, 42);
    assert!(config.check_overlap);
    assert!(config.check_duplicate_text);
}

#[test]
fn overrides_and_ignores_comments_and_blank_lines() {
    let config = Config::parse(
        "\n# a comment\nmax_line_length = 60\ncheck_duplicate_text = false  # trailing comment\n",
    )
    .unwrap();
    assert_eq!(config.max_line_length, 60);
    assert!(config.check_overlap);
    assert!(!config.check_duplicate_text);
}

#[test]
fn rejects_unknown_key() {
    let err = Config::parse("frobnicate = true").unwrap_err();
    assert!(matches!(err, ConfigError::Parse { line: 1, .. }));
}

#[test]
fn rejects_bad_bool() {
    let err = Config::parse("check_overlap = maybe").unwrap_err();
    assert!(matches!(err, ConfigError::Parse { line: 1, .. }));
}

#[test]
fn rejects_bad_line_length() {
    let err = Config::parse("max_line_length = wide").unwrap_err();
    assert!(matches!(err, ConfigError::Parse { line: 1, .. }));
}

#[test]
fn rejects_line_without_equals() {
    let err = Config::parse("max_line_length").unwrap_err();
    assert!(matches!(err, ConfigError::Parse { line: 1, .. }));
}

fn parse_error(contents: &str) -> (usize, String) {
    match Config::parse(contents) {
        Err(ConfigError::Parse { line, reason }) => (line, reason),
        Err(ConfigError::Io(_)) => panic!("unexpected I/O error"),
        Ok(_) => panic!("expected an error"),
    }
}

#[test]
fn parse_error_reasons_quote_the_offending_text() {
    assert_eq!(
        parse_error("frobnicate = true"),
        (1, "unknown config key \"frobnicate\"".to_string())
    );
    assert_eq!(
        parse_error("check_overlap = maybe"),
        (1, "expected \"true\" or \"false\", found \"maybe\"".to_string())
    );
    assert_eq!(
        parse_error("max_line_length = wide"),
        (1, "max_line_length must be a positive integer, found \"wide\"".to_string())
    );
    assert_eq!(
        parse_error("  max_line_length  \r\n"),
        (1, "expected \"key = value\", found \"max_line_length\"".to_string())
    );
}

#[test]
fn error_line_is_counted_from_one_across_blank_and_comment_lines() {
    let (line, _) = parse_error("# header\n\ncheck_overlap = true\nbogus\n");
    assert_eq!(line, 4);
}

#[test]
fn first_refused_line_wins() {
    let (line, reason) = parse_error("a = 1\nb = 2\n");
    assert_eq!(line, 1);
    assert_eq!(reason, "unknown config key \"a\"");
}

#[test]
fn later_settings_override_earlier_ones() {
    let config = Config::parse("max_line_length = 10\nmax_line_length = +32\ncheck_overlap=false\r\n").unwrap();
    assert_eq!(config.max_line_length, 32);
    assert!(!config.check_overlap);
    assert!(config.check_duplicate_text);
}

#[test]
fn comment_only_and_whitespace_lines_keep_defaults() {
    let config = Config::parse("   # nothing here\n\t\n#max_line_length = 3\n").unwrap();
    assert_eq!(config.max_line_length, 42);
}

#[test]
fn max_line_length_out_of_range_is_refused() {
    let (line, reason) = parse_error("max_line_length = 99999999999999999999999");
    assert_eq!(line, 1);
    assert_eq!(
        reason,
        "max_line_length must be a positive integer, found \"99999999999999999999999\""
    );
}

#[test]
fn default_matches_empty_file() {
    let d = Config::default();
    assert_eq!(d.max_line_length, 42);
    assert!(d.check_overlap && d.check_duplicate_text);
}

#[test]
fn parse_bool_reads_exact_words() {
    assert!(matches!(parse_bool("true", 3), Ok(true)));
    assert!(matches!(parse_bool("false", 3), Ok(false)));
    match parse_bool("True", 7) {
        Err(ConfigError::Parse { line, reason }) => {
            assert_eq!(line, 7);
            assert_eq!(reason, "expected \"true\" or \"false\", found \"True\"");
        }
        _ => panic!("expected an error"),
    }
}

#[test]
fn config_error_text() {
    let err = Config::parse("x").unwrap_err();
    assert_eq!(err.to_string(), "line 1: expected \"key = value\", found \"x\"");
}
