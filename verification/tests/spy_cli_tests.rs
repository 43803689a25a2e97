use platynui_spy::model::JsonValue;
use platynui_spy::spy_cli::{
    filter_tree, format_tree_text, parse_property, payload_shape, FilterCriteria, PayloadShape,
    SpyError, UiNode,
};

fn leaf(id: &str, role: &str, name: &str, key: &str, value: &str) -> UiNode {
    let mut n = UiNode {
        id: id.to_string(),
        role: role.to_string(),
        name: Some(name.to_string()),
        properties: Vec::new(),
        children: Vec::new(),
    };
    if !key.is_empty() {
        n.insert_property(key.to_string(), JsonValue::Text(value.to_string()));
    }
    n
}

fn sample_tree() -> Vec<UiNode> {
    let mut root = leaf("root", "window", "Calculator", "AutomationId", "rootWindow");
    root.children.push(leaf("btn-1", "button", "One", "AutomationId", "num1Button"));
    root.children.push(leaf("btn-2", "button", "Two", "AutomationId", "num2Button"));
    let mut panel = leaf("panel", "group", "Memory", "", "");
    panel.children.push(leaf("lbl", "text", "M+", "Shortcut", "Ctrl+M"));
    root.children.push(panel);
    vec![root]
}

#[test]
fn filters_by_role() {
    let tree = sample_tree();
    let mut criteria = FilterCriteria::new();
    criteria.roles = vec!["button".to_string()];
    let filtered = filter_tree(&tree, &criteria).unwrap();
    assert_eq!(filtered.len(), 1);
    assert_eq!(filtered[0].children.len(), 2);
    assert!(filtered[0].children.iter().all(|node| node.role == "button"));
}

#[test]
fn filters_by_name_regex() {
    let tree = sample_tree();
    let mut criteria = FilterCriteria::new();
    criteria.name_pattern = Some("^M".to_string());
    let filtered = filter_tree(&tree, &criteria).unwrap();
    assert_eq!(filtered.len(), 1);
    assert_eq!(filtered[0].children.len(), 1);
    assert_eq!(filtered[0].children[0].name.as_deref(), Some("Memory"));
}

#[test]
fn respects_property_filters() {
    let tree = sample_tree();
    let mut criteria = FilterCriteria::new();
    criteria.insert_property("AutomationId".into(), "num2Button".into());
    let filtered = filter_tree(&tree, &criteria).unwrap();
    assert_eq!(filtered.len(), 1);
    assert_eq!(filtered[0].children.len(), 1);
    assert_eq!(filtered[0].children[0].id, "btn-2");
}

#[test]
fn prints_tree_in_text_format() {
    let tree = sample_tree();
    let criteria = FilterCriteria::new();
    let filtered = filter_tree(&tree, &criteria).unwrap();
    let output = format_tree_text(&filtered, true);
    assert!(output.contains("[window] Calculator"));
    assert!(output.contains("AutomationId: \"rootWindow\""));
}

#[test]
fn filters_with_role_and_max_depth() {
    let mut tree = sample_tree();
    let mut pad = leaf("pad", "group", "Number Pad", "", "");
    pad.children.push(leaf("plus", "button", "+", "", ""));
    tree[0].children.push(pad);
    let mut criteria = FilterCriteria::new();
    criteria.roles = vec!["button".to_string()];
    criteria.max_depth = Some(2);
    let filtered = filter_tree(&tree, &criteria).unwrap();
    let pad = filtered[0].children.iter().find(|n| n.id == "pad").expect("pad kept");
    assert_eq!(pad.children[0].role, "button");
    assert_eq!(pad.children[0].name.as_deref(), Some("+"));
    criteria.max_depth = Some(1);
    let filtered = filter_tree(&tree, &criteria).unwrap();
    assert!(filtered[0].children.iter().all(|n| n.id != "pad"));
}

#[test]
fn rejects_invalid_property_argument() {
    let err = parse_property("missing-value").expect_err("no equals sign");
    assert!(err.contains("key=value"));
}

#[test]
fn text_output_is_exact() {
    let tree = sample_tree();
    let output = format_tree_text(&tree, true);
    let expected = "[window] Calculator <root>\n    AutomationId: \"rootWindow\"\n├── [button] One <btn-1>\n│   AutomationId: \"num1Button\"\n├── [button] Two <btn-2>\n│   AutomationId: \"num2Button\"\n└── [group] Memory <panel>\n    └── [text] M+ <lbl>\n        Shortcut: \"Ctrl+M\"";
    assert_eq!(output, expected);
    let plain = format_tree_text(&tree, false);
    assert_eq!(
        plain,
        "[window] Calculator <root>\n├── [button] One <btn-1>\n├── [button] Two <btn-2>\n└── [group] Memory <panel>\n    └── [text] M+ <lbl>"
    );
}

#[test]
fn text_output_of_nameless_node_and_empty_forest() {
    let node = UiNode {
        id: "x".into(),
        role: "pane".into(),
        name: None,
        properties: Vec::new(),
        children: Vec::new(),
    };
    assert_eq!(format_tree_text(&vec![node], true), "[pane] <x>");
    assert_eq!(format_tree_text(&Vec::new(), false), "");
}

#[test]
fn role_case_can_be_ignored() {
    let tree = sample_tree();
    let mut criteria = FilterCriteria::new();
    criteria.roles = vec!["BUTTON".to_string()];
    assert!(filter_tree(&tree, &criteria).unwrap().is_empty());
    criteria.ignore_role_case = true;
    let filtered = filter_tree(&tree, &criteria).unwrap();
    assert_eq!(filtered[0].children.len(), 2);
}

#[test]
fn name_case_can_be_ignored() {
    let tree = sample_tree();
    let mut criteria = FilterCriteria::new();
    criteria.name_pattern = Some("^memory$".to_string());
    assert!(filter_tree(&tree, &criteria).unwrap().is_empty());
    criteria.ignore_name_case = true;
    let filtered = filter_tree(&tree, &criteria).unwrap();
    assert_eq!(filtered[0].children[0].id, "panel");
}

#[test]
fn invalid_pattern_is_reported() {
    let tree = sample_tree();
    let mut criteria = FilterCriteria::new();
    criteria.name_pattern = Some("(".to_string());
    match filter_tree(&tree, &criteria) {
        Err(SpyError::InvalidPattern(m)) => assert!(!m.is_empty()),
        other => panic!("unexpected {:?}", other),
    }
}

#[test]
fn non_string_property_compares_by_json_text() {
    let mut tree = sample_tree();
    tree[0].children[0].insert_property("Index".into(), JsonValue::Number("1".into()));
    let mut criteria = FilterCriteria::new();
    criteria.insert_property("Index".into(), "1".into());
    let filtered = filter_tree(&tree, &criteria).unwrap();
    assert_eq!(filtered[0].children.len(), 1);
    assert_eq!(filtered[0].children[0].id, "btn-1");
}

#[test]
fn nothing_matching_gives_empty_result() {
    let tree = sample_tree();
    let mut criteria = FilterCriteria::new();
    criteria.roles = vec!["slider".to_string()];
    assert!(filter_tree(&tree, &criteria).unwrap().is_empty());
}

#[test]
fn parse_property_splits_and_trims() {
    assert_eq!(
        parse_property(" Key = a=b ").unwrap(),
        ("Key".to_string(), "a=b".to_string())
    );
    assert_eq!(
        parse_property("  =x").unwrap_err(),
        "property key must not be empty"
    );
    assert_eq!(
        parse_property("novalue").unwrap_err(),
        "properties must be expressed as key=value"
    );
}

#[test]
fn payload_shapes() {
    assert_eq!(payload_shape("  [ {} ]"), PayloadShape::Forest);
    assert_eq!(payload_shape(" \n\t "), PayloadShape::Empty);
    assert_eq!(payload_shape(""), PayloadShape::Empty);
    assert_eq!(payload_shape(" {\"id\": \"a\"}"), PayloadShape::Single);
}

#[test]
fn spy_error_messages() {
    assert_eq!(
        SpyError::InvalidPattern("bad".into()).message(),
        "invalid name pattern: bad"
    );
    assert_eq!(
        SpyError::ParseError("eof".into()).message(),
        "failed to parse ui tree: eof"
    );
}

#[test]
fn filtering_a_filtered_snapshot_changes_nothing() {
    let tree = sample_tree();
    let mut criteria = FilterCriteria::new();
    criteria.roles = vec!["text".to_string()];
    criteria.max_depth = Some(2);
    let once = filter_tree(&tree, &criteria).unwrap();
    let twice = filter_tree(&once, &criteria).unwrap();
    assert_eq!(format_tree_text(&once, true), format_tree_text(&twice, true));
    assert_eq!(
        format_tree_text(&once, false),
        "[window] Calculator <root>\n└── [group] Memory <panel>\n    └── [text] M+ <lbl>"
    );
}
