use platynui_spy::attributes::{AttributeConfig, AttributeSet};
use platynui_spy::model::{JsonValue, UiNode};
use platynui_spy::output::{format_tree, node_label};

fn sample_node() -> UiNode {
    let mut child = UiNode {
        name: "Child".into(),
        role: Some("window".into()),
        attributes: Vec::new(),
        children: vec![],
    };
    child.insert_attribute("AutomationId".into(), JsonValue::Text("CalcWindow".into()));
    child.insert_attribute("processId".into(), JsonValue::Number("1234".into()));
    UiNode {
        name: "Root".into(),
        role: Some("desktop".into()),
        attributes: Vec::new(),
        children: vec![child],
    }
}

#[test]
fn formats_ascii_tree_with_essential_attributes() {
    let tree = sample_node();
    let config = AttributeConfig::new(AttributeSet::Essential, Vec::new());
    let formatted = format_tree(&tree, &config);
    assert!(formatted.contains("Root [desktop]"));
    assert!(formatted.contains("└── Child [window]"));
    assert!(formatted.contains("AutomationId=CalcWindow"));
    assert!(!formatted.contains("processId"));
}

#[test]
fn formats_ascii_tree_with_full_attributes() {
    let tree = sample_node();
    let config = AttributeConfig::new(AttributeSet::Full, Vec::new());
    let formatted = format_tree(&tree, &config);
    assert!(formatted.contains("Child [window] {AutomationId=CalcWindow, processId=1234}"));
}

#[test]
fn appends_additional_attributes() {
    let tree = sample_node();
    let config = AttributeConfig::new(AttributeSet::Essential, vec!["processId".into()]);
    let formatted = format_tree(&tree, &config);
    assert!(formatted.contains("processId=1234"));
}

#[test]
fn supports_none_attribute_set_with_overrides() {
    let tree = sample_node();
    let config = AttributeConfig::new(AttributeSet::Nothing, vec!["AutomationId".into()]);
    let formatted = format_tree(&tree, &config);
    assert!(formatted.contains("AutomationId=CalcWindow"));
    assert!(!formatted.contains("processId"));
}

#[test]
fn formats_whole_tree_exactly() {
    let mut tree = sample_node();
    tree.children.push(UiNode {
        name: String::new(),
        role: None,
        attributes: Vec::new(),
        children: vec![UiNode {
            name: "Leaf".into(),
            role: Some(String::new()),
            attributes: Vec::new(),
            children: vec![],
        }],
    });
    let config = AttributeConfig::new(AttributeSet::Nothing, Vec::new());
    let formatted = format_tree(&tree, &config);
    assert_eq!(
        formatted,
        "Root [desktop]\n├── Child [window]\n└── <unnamed>\n    └── Leaf"
    );
}

#[test]
fn attribute_keys_match_up_to_ascii_case() {
    let tree = sample_node();
    let config = AttributeConfig::new(AttributeSet::Nothing, vec!["PROCESSID".into()]);
    let label = node_label(&tree.children[0], &config);
    assert_eq!(label, "Child [window] {processId=1234}");
}

#[test]
fn non_string_values_render_as_json() {
    let mut node = UiNode {
        name: "N".into(),
        role: None,
        attributes: Vec::new(),
        children: vec![],
    };
    node.insert_attribute("IsEnabled".into(), JsonValue::Bool(true));
    node.insert_attribute(
        "BoundingRectangle".into(),
        JsonValue::Object(vec![("left".into(), JsonValue::Number("-5".into()))]),
    );
    node.insert_attribute("HelpText".into(), JsonValue::Text("say \"hi\"".into()));
    let config = AttributeConfig::new(AttributeSet::Full, Vec::new());
    let label = node_label(&node, &config);
    assert_eq!(
        label,
        "N {BoundingRectangle={\"left\":-5}, HelpText=say \"hi\", IsEnabled=true}"
    );
}
