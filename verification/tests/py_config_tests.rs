use platynui_spy::attributes::AttributeSet;
use platynui_spy::config::{BackendKind, Win32Root};
use platynui_spy::py_config::{
    is_win32_backend, parse_attribute_set, parse_backend, parse_win32_root, SpyConfig,
};

#[test]
fn builds_core_config_from_defaults() {
    let cfg = SpyConfig::default();
    let result = cfg.to_core_config();
    assert!(result.is_err(), "file backend requires input");
}

#[test]
fn default_config_error_message() {
    let err = SpyConfig::new().to_core_config().expect_err("no input");
    assert_eq!(err, "file backend requires an input path via with_input()");
}

#[test]
fn parses_names_ignoring_ascii_case() {
    assert_eq!(parse_backend("FILE", true).unwrap(), BackendKind::File);
    assert_eq!(parse_backend("FILE", false).unwrap(), BackendKind::File);
    assert_eq!(parse_backend("Win32", true).unwrap(), BackendKind::Win32);
    assert_eq!(
        parse_backend("win32", false).unwrap_err(),
        "supported backends are 'file' and 'win32'"
    );
    assert_eq!(
        parse_backend("x11", true).unwrap_err(),
        "supported backends are 'file' and 'win32'"
    );
    assert_eq!(parse_attribute_set("None").unwrap(), AttributeSet::Nothing);
    assert_eq!(parse_attribute_set("ESSENTIAL").unwrap(), AttributeSet::Essential);
    assert_eq!(parse_attribute_set("full").unwrap(), AttributeSet::Full);
    assert_eq!(
        parse_attribute_set("some").unwrap_err(),
        "attribute set must be 'none', 'essential', or 'full'"
    );
    assert_eq!(parse_win32_root("Focused").unwrap(), Win32Root::Focused);
    assert_eq!(parse_win32_root("desktop").unwrap(), Win32Root::Desktop);
    assert_eq!(
        parse_win32_root("window").unwrap_err(),
        "win32 root must be 'desktop' or 'focused'"
    );
    assert!(is_win32_backend(&BackendKind::Win32, true));
    assert!(!is_win32_backend(&BackendKind::Win32, false));
    assert!(!is_win32_backend(&BackendKind::File, true));
}

#[test]
fn builders_normalize_their_input() {
    let cfg = SpyConfig::backend("file", true)
        .unwrap()
        .with_input("sample_tree.json")
        .unwrap()
        .with_name_filter("  CALC  ")
        .with_role_filter("   ")
        .add_attribute_filter(" AutomationId ", " Num5 ")
        .unwrap()
        .add_attribute_key("  ")
        .add_attribute_key(" processId ")
        .with_xpath("  /Desktop  ")
        .with_max_depth(Some(4))
        .include_ancestors(false);
    assert_eq!(cfg.input.as_deref(), Some("sample_tree.json"));
    assert_eq!(cfg.filter_name.as_deref(), Some("calc"));
    assert_eq!(cfg.filter_role, None);
    assert_eq!(cfg.filter_attrs, vec![("AutomationId".to_string(), "Num5".to_string())]);
    assert_eq!(cfg.attribute_keys, vec!["processId".to_string()]);
    assert_eq!(cfg.xpath.as_deref(), Some("/Desktop"));
    assert_eq!(cfg.max_depth, Some(4));
    assert!(!cfg.include_ancestors);

    let core = cfg.to_core_config().expect("config");
    assert_eq!(core.input.as_deref(), Some("sample_tree.json"));
    assert_eq!(core.filter.attr_equals[0].1, "num5");
    assert_eq!(core.attributes.additional, vec!["processId".to_string()]);
    assert!(core.xpath.is_some());

    let cleared = cfg.clear_attribute_filters().clear_attribute_keys().with_xpath(" ");
    assert!(cleared.filter_attrs.is_empty());
    assert!(cleared.attribute_keys.is_empty());
    assert_eq!(cleared.xpath, None);
}

#[test]
fn builders_reject_blank_values() {
    let cfg = SpyConfig::new();
    assert_eq!(cfg.with_input("   ").unwrap_err(), "input path cannot be empty");
    assert_eq!(
        cfg.add_attribute_filter("key", " ").unwrap_err(),
        "attribute filters require non-empty key and value"
    );
    assert_eq!(
        cfg.with_backend("nope", true).unwrap_err(),
        "supported backends are 'file' and 'win32'"
    );
}

#[test]
fn bad_xpath_is_reported_with_its_message() {
    let cfg = SpyConfig::new().with_input("a.json").unwrap().with_xpath("Desktop");
    assert_eq!(
        cfg.to_core_config().unwrap_err(),
        "XPath must start with '/' and contain at least one segment"
    );
}

#[test]
fn win32_settings_reach_the_core_config() {
    let cfg = SpyConfig::new()
        .with_backend("win32", true)
        .unwrap()
        .with_process_id(Some(77))
        .with_window_title(Some("  My Calc "))
        .with_top_level_only(true)
        .with_root("FOCUSED")
        .unwrap();
    let core = cfg.to_core_config().expect("win32 needs no input");
    assert_eq!(core.backend, BackendKind::Win32);
    assert_eq!(core.win32.process_id, Some(77));
    assert_eq!(core.win32.window_title.as_deref(), Some("my calc"));
    assert!(core.win32.top_level_only);
    assert_eq!(core.win32.root, Win32Root::Focused);
    let blank = cfg.with_window_title(Some("   ")).to_core_config().expect("config");
    assert_eq!(blank.win32.window_title, None);
}

#[test]
fn win32_backend_is_refused_where_it_is_unavailable() {
    assert_eq!(
        SpyConfig::backend("win32", false).unwrap_err(),
        "supported backends are 'file' and 'win32'"
    );
    assert_eq!(
        SpyConfig::new().with_backend("WIN32", false).unwrap_err(),
        "supported backends are 'file' and 'win32'"
    );
}
