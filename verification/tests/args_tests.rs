use platynui_spy::args::{parse_attr, ArgsError, Cli, OutputFormat, Win32CliOptions};
use platynui_spy::attributes::AttributeSet;
use platynui_spy::config::{BackendKind, Win32Root};

fn base_cli() -> Cli {
    Cli {
        backend: BackendKind::File,
        input: Some("tree.json".to_string()),
        format: OutputFormat::Tree,
        max_depth: None,
        filter_name: None,
        filter_role: None,
        filter_attrs: Vec::new(),
        include_ancestors: false,
        no_include_ancestors: false,
        show_attributes: false,
        attribute_set: AttributeSet::Essential,
        attributes: Vec::new(),
        xpath: None,
        win32: Win32CliOptions::default(),
    }
}

#[test]
fn conflicting_ancestor_flags_are_rejected() {
    let mut cli = base_cli();
    cli.include_ancestors = true;
    cli.no_include_ancestors = true;

    let err = cli.build_config().expect_err("conflict");
    assert!(matches!(err, ArgsError::ConflictingAncestorFlags));
}

#[test]
fn parse_attr_accepts_valid_pairs() {
    let pair = parse_attr("AutomationId=MainWindow").expect("pair");
    assert_eq!(pair, ("AutomationId".to_string(), "MainWindow".to_string()));
}

#[test]
fn parse_attr_rejects_invalid_pairs() {
    let err = parse_attr("no-equals").expect_err("error");
    assert!(matches!(err, ArgsError::InvalidAttributeFilter(_)));
}

#[test]
fn win32_specific_options_require_backend() {
    let mut cli = base_cli();
    cli.win32.process_id = Some(42);

    let err = cli
        .build_config()
        .expect_err("win32 options should require backend");
    assert!(matches!(err, ArgsError::Win32OptionsWithoutBackend));
}

#[test]
fn parse_attr_trims_both_sides() {
    let pair = parse_attr("  Name =  Calculator ").expect("pair");
    assert_eq!(pair, ("Name".to_string(), "Calculator".to_string()));
}

#[test]
fn parse_attr_rejects_blank_value() {
    let err = parse_attr("Name=   ").expect_err("blank value");
    match err {
        ArgsError::InvalidAttributeFilter(raw) => assert_eq!(raw, "Name=   "),
        other => panic!("unexpected error {:?}", other),
    }
}

#[test]
fn missing_input_is_rejected_for_file_backend() {
    let mut cli = base_cli();
    cli.input = None;
    let err = cli.build_config().expect_err("missing input");
    assert!(matches!(err, ArgsError::MissingInput));
    assert_eq!(err.message(), "missing --input for file backend");
}

#[test]
fn ancestors_are_kept_by_default() {
    let cli = base_cli();
    let config = cli.build_config().expect("config");
    assert!(config.filter.include_ancestors);
    let mut cli = base_cli();
    cli.no_include_ancestors = true;
    let config = cli.build_config().expect("config");
    assert!(!config.filter.include_ancestors);
}

#[test]
fn filters_are_trimmed_and_lowercased() {
    let mut cli = base_cli();
    cli.filter_name = Some("  CALC ".to_string());
    cli.filter_role = Some("   ".to_string());
    cli.filter_attrs = vec!["AutomationId=CalcWindow".to_string()];
    let config = cli.build_config().expect("config");
    assert_eq!(config.filter.name_substring.as_deref(), Some("calc"));
    assert_eq!(config.filter.role, None);
    assert_eq!(config.filter.attr_equals.len(), 1);
    assert_eq!(config.filter.attr_equals[0].0, "AutomationId");
    assert_eq!(config.filter.attr_equals[0].1, "calcwindow");
}

#[test]
fn win32_options_are_normalized_for_win32_backend() {
    let mut cli = base_cli();
    cli.backend = BackendKind::Win32;
    cli.input = None;
    cli.win32.window_title = Some("  My CALC ".to_string());
    cli.win32.root = Win32Root::Focused;
    let config = cli.build_config().expect("config");
    assert_eq!(config.win32.window_title.as_deref(), Some("my calc"));
    assert_eq!(config.win32.root, Win32Root::Focused);
}

#[test]
fn blank_window_title_is_not_a_win32_option() {
    let mut cli = base_cli();
    cli.win32.window_title = Some("   ".to_string());
    assert!(!cli.win32.has_win32_args());
    assert!(cli.build_config().is_ok());
    cli.win32.top_level_only = true;
    assert!(cli.win32.has_win32_args());
}

#[test]
fn args_error_messages() {
    assert_eq!(
        ArgsError::InvalidAttributeFilter("x".to_string()).message(),
        "invalid attribute filter 'x', expected key=value"
    );
    assert_eq!(
        ArgsError::ConflictingAncestorFlags.message(),
        "--include-ancestors and --no-include-ancestors cannot be used together"
    );
    assert_eq!(
        ArgsError::Win32OptionsWithoutBackend.message(),
        "win32-specific options require --backend win32"
    );
}

#[test]
fn invalid_xpath_is_rejected() {
    let mut cli = base_cli();
    cli.xpath = Some("Desktop/Calculator".to_string());
    let err = cli.build_config().expect_err("bad xpath");
    assert!(matches!(err, ArgsError::InvalidXPath(_)));
    assert_eq!(
        err.message(),
        "XPath must start with '/' and contain at least one segment"
    );
}

#[test]
fn attribute_options_reach_the_config() {
    let mut cli = base_cli();
    cli.attribute_set = AttributeSet::Full;
    cli.attributes = vec![" processId ".to_string(), "PROCESSID".to_string(), " ".to_string()];
    cli.xpath = Some("/Desktop/Calculator".to_string());
    let config = cli.build_config().expect("config");
    assert_eq!(config.attributes.set, AttributeSet::Full);
    assert_eq!(config.attributes.additional, vec!["processId".to_string()]);
    assert!(config.xpath.is_some());
}
