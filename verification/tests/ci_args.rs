use mvis::ci::{parse_ci_args, try_parse_ci_args, AppError, CiTarget};
use mvis::export::FormatType;
use std::time::Duration;

// parse_ci_args skips indices 0 and 1 (the "mvis" and "ci" positions), so
// real flags start at index 2.
fn argv(rest: &[&str]) -> Vec<String> {
    let mut v = vec!["mvis".to_string(), "ci".to_string()];
    v.extend(rest.iter().map(|s| s.to_string()));
    v
}

#[test]
fn max_memory_converts_mb_to_bytes() {
    let args = argv(&["--max-memory", "64"]);
    let parsed = parse_ci_args(&args).unwrap();
    assert_eq!(parsed.max_memory, Some(64 * 1024 * 1024));
}

#[test]
fn max_memory_rejects_non_numeric() {
    let args = argv(&["--max-memory", "not-a-number"]);
    assert!(parse_ci_args(&args).is_err());
}

#[test]
fn max_memory_missing_value_errors() {
    let args = argv(&["--max-memory"]);
    assert!(parse_ci_args(&args).is_err());
}

#[test]
fn leak_check_and_diff_only_flags_set() {
    let args = argv(&["--leak-check", "--diff-only"]);
    let parsed = parse_ci_args(&args).unwrap();
    assert!(parsed.leak_check);
    assert!(parsed.diff_only);
}

#[test]
fn duration_parses_seconds() {
    let args = argv(&["--duration", "30"]);
    let parsed = parse_ci_args(&args).unwrap();
    assert_eq!(parsed.duration_secs.map(Duration::from_secs), Some(Duration::from_secs(30)));
}

#[test]
fn pid_target_parses() {
    let args = argv(&["--pid", "4242"]);
    let parsed = parse_ci_args(&args).unwrap();
    match parsed.target {
        CiTarget::AttachPid(pid) => assert_eq!(pid, 4242),
        _ => panic!("expected AttachPid target"),
    }
}

#[test]
fn pid_rejects_non_numeric() {
    let args = argv(&["--pid", "abc"]);
    assert!(parse_ci_args(&args).is_err());
}

#[test]
fn spawn_captures_command_and_trailing_args() {
    // --spawn takes everything after the command as its arguments and ends
    // the monitor's own flags.
    let args = argv(&["--spawn", "myprog", "--leak-check", "--foo", "bar"]);
    let parsed = parse_ci_args(&args).unwrap();
    match parsed.target {
        CiTarget::Spawn { command, args } => {
            assert_eq!(command, "myprog");
            assert_eq!(args, vec!["--leak-check", "--foo", "bar"]);
        }
        _ => panic!("expected Spawn target"),
    }
    assert!(!parsed.leak_check);
}

#[test]
fn spawn_with_no_trailing_args() {
    let args = argv(&["--spawn", "myprog"]);
    let parsed = parse_ci_args(&args).unwrap();
    match parsed.target {
        CiTarget::Spawn { command, args } => {
            assert_eq!(command, "myprog");
            assert!(args.is_empty());
        }
        _ => panic!("expected Spawn target"),
    }
}

#[test]
fn spawn_missing_command_errors() {
    let args = argv(&["--spawn"]);
    assert!(parse_ci_args(&args).is_err());
}

#[test]
fn format_json_parses() {
    let args = argv(&["--format", "json"]);
    let parsed = parse_ci_args(&args).unwrap();
    assert!(matches!(parsed.format, Some(FormatType::Json)));
}

#[test]
fn format_csv_parses() {
    let args = argv(&["--format", "csv"]);
    let parsed = parse_ci_args(&args).unwrap();
    assert!(matches!(parsed.format, Some(FormatType::CSV)));
}

#[test]
fn format_junit_parses() {
    let args = argv(&["--format", "junit"]);
    let parsed = parse_ci_args(&args).unwrap();
    assert!(matches!(parsed.format, Some(FormatType::Junit)));
}

#[test]
fn format_unknown_value_errors() {
    let args = argv(&["--format", "yaml"]);
    assert!(parse_ci_args(&args).is_err());
}

#[test]
fn format_missing_value_errors_and_does_not_hang() {
    let args = argv(&["--format"]);
    assert!(parse_ci_args(&args).is_err());
}

#[test]
fn output_path_parses() {
    let args = argv(&["--output", "report.xml"]);
    let parsed = parse_ci_args(&args).unwrap();
    assert_eq!(parsed.output, Some("report.xml".to_string()));
}

#[test]
fn growth_rate_parses() {
    let args = argv(&["--growth-rate", "1024"]);
    let parsed = parse_ci_args(&args).unwrap();
    assert_eq!(parsed.growth_rate, Some(1024));
}

#[test]
fn growth_rate_rejects_non_numeric() {
    let args = argv(&["--growth-rate", "fast"]);
    assert!(parse_ci_args(&args).is_err());
}

#[test]
fn sample_interval_parses_positive_value() {
    let args = argv(&["--sample-interval", "250"]);
    let parsed = parse_ci_args(&args).unwrap();
    assert_eq!(parsed.sample_interval, Some(250));
}

#[test]
fn sample_interval_rejects_zero() {
    let args = argv(&["--sample-interval", "0"]);
    assert!(parse_ci_args(&args).is_err());
}

#[test]
fn sample_interval_rejects_negative_and_non_numeric() {
    let args = argv(&["--sample-interval", "-5"]);
    assert!(parse_ci_args(&args).is_err());

    let args2 = argv(&["--sample-interval", "soon"]);
    assert!(parse_ci_args(&args2).is_err());
}

#[test]
fn sample_interval_missing_value_errors() {
    let args = argv(&["--sample-interval"]);
    assert!(parse_ci_args(&args).is_err());
}

#[test]
fn bare_word_becomes_attach_name_target() {
    let args = argv(&["my-process"]);
    let parsed = parse_ci_args(&args).unwrap();
    match parsed.target {
        CiTarget::AttachName(name) => assert_eq!(name, "my-process"),
        _ => panic!("expected AttachName target"),
    }
}

#[test]
fn no_target_defaults_to_empty_attach_name() {
    let args = argv(&["--leak-check"]);
    let parsed = parse_ci_args(&args).unwrap();
    match parsed.target {
        CiTarget::AttachName(name) => assert_eq!(name, ""),
        _ => panic!("expected default empty AttachName target"),
    }
}

#[test]
fn second_bare_word_after_target_errors() {
    let args = argv(&["my-process", "another-name"]);
    assert!(parse_ci_args(&args).is_err());
}

#[test]
fn combined_flags_all_populate_correctly() {
    let args = argv(&[
        "--pid", "99",
        "--leak-check",
        "--diff-only",
        "--max-memory", "128",
        "--duration", "10",
        "--format", "junit",
        "--output", "out.xml",
        "--growth-rate", "2048",
        "--sample-interval", "500",
    ]);
    let parsed = parse_ci_args(&args).unwrap();
    assert!(matches!(parsed.target, CiTarget::AttachPid(99)));
    assert!(parsed.leak_check);
    assert!(parsed.diff_only);
    assert_eq!(parsed.max_memory, Some(128 * 1024 * 1024));
    assert_eq!(parsed.duration_secs.map(Duration::from_secs), Some(Duration::from_secs(10)));
    assert!(matches!(parsed.format, Some(FormatType::Junit)));
    assert_eq!(parsed.output, Some("out.xml".to_string()));
    assert_eq!(parsed.growth_rate, Some(2048));
    assert_eq!(parsed.sample_interval, Some(500));
}

// Error kinds and messages.

fn error_of(rest: &[&str]) -> AppError {
    match parse_ci_args(&argv(rest)) {
        Err(e) => e,
        Ok(_) => panic!("expected an error"),
    }
}

#[test]
fn missing_value_is_a_missing_arg_error() {
    match error_of(&["--duration"]) {
        AppError::MissingArg(m) => assert_eq!(m, "--duration"),
        other => panic!("unexpected error {:?}", other),
    }
}

#[test]
fn malformed_value_is_an_invalid_arg_error() {
    match error_of(&["--pid", "12x"]) {
        AppError::InvalidArg(m) => assert_eq!(m, "invalid --pid"),
        other => panic!("unexpected error {:?}", other),
    }
}

#[test]
fn unknown_format_names_the_format() {
    match error_of(&["--format", "yaml"]) {
        AppError::InvalidArg(m) => assert_eq!(m, "Unknown format: yaml"),
        other => panic!("unexpected error {:?}", other),
    }
}

#[test]
fn second_target_names_the_argument() {
    match error_of(&["first", "second"]) {
        AppError::InvalidArg(m) => assert_eq!(m, "Unknown argument: second"),
        other => panic!("unexpected error {:?}", other),
    }
}

#[test]
fn pid_beyond_u32_is_rejected() {
    assert!(parse_ci_args(&argv(&["--pid", "4294967296"])).is_err());
    let parsed = parse_ci_args(&argv(&["--pid", "4294967295"])).unwrap();
    assert!(matches!(parsed.target, CiTarget::AttachPid(4294967295)));
}

#[test]
fn plus_sign_is_accepted_like_std_parse() {
    let parsed = parse_ci_args(&argv(&["--growth-rate", "+7"])).unwrap();
    assert_eq!(parsed.growth_rate, Some(7));
}

#[test]
fn max_memory_overflowing_bytes_is_reported_as_none() {
    // 2^44 MiB is 2^64 bytes, one more than u64 holds.
    let args = argv(&["--max-memory", "17592186044416"]);
    assert!(try_parse_ci_args(&args).is_none());
    let args = argv(&["--max-memory", "17592186044415"]);
    let parsed = try_parse_ci_args(&args).unwrap().unwrap();
    assert_eq!(parsed.max_memory, Some(17592186044415 * 1024 * 1024));
}

#[test]
fn flags_after_a_value_keep_parsing() {
    let parsed = parse_ci_args(&argv(&["--output", "--leak-check", "--diff-only"])).unwrap();
    assert_eq!(parsed.output, Some("--leak-check".to_string()));
    assert!(!parsed.leak_check);
    assert!(parsed.diff_only);
}
