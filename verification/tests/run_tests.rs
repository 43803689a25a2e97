use platynui_spy::args::{Cli, OutputFormat, Win32CliOptions};
use platynui_spy::attributes::AttributeSet;
use platynui_spy::capture::capture_tree;
use platynui_spy::config::BackendKind;
use platynui_spy::model::{JsonValue, UiNode};
use platynui_spy::py_config::SpyConfig;
use platynui_spy::run::{run, RunOutput};

fn leaf(name: &str, role: &str) -> UiNode {
    UiNode {
        name: name.to_string(),
        role: Some(role.to_string()),
        attributes: Vec::new(),
        children: vec![],
    }
}

fn sample_tree() -> UiNode {
    let mut one = leaf("One", "button");
    one.insert_attribute("AutomationId".into(), JsonValue::Text("num1Button".into()));
    let mut pad = leaf("Number Pad", "group");
    pad.children.push(one);
    let mut calc = leaf("Calculator", "window");
    calc.insert_attribute("AutomationId".into(), JsonValue::Text("CalcWindow".into()));
    calc.insert_attribute("processId".into(), JsonValue::Number("1234".into()));
    calc.children.push(pad);
    let mut root = leaf("Desktop", "desktop");
    root.children.push(calc);
    root
}

fn cli() -> Cli {
    Cli {
        backend: BackendKind::File,
        input: Some("tree.json".to_string()),
        format: OutputFormat::Tree,
        max_depth: None,
        filter_name: None,
        filter_role: None,
        filter_attrs: Vec::new(),
        include_ancestors: false,
        no_include_ancestors: false,
        show_attributes: false,
        attribute_set: AttributeSet::Essential,
        attributes: Vec::new(),
        xpath: None,
        win32: Win32CliOptions::default(),
    }
}

#[test]
fn readme_example_shows_every_attribute_of_kept_windows() {
    let mut line = cli();
    line.filter_role = Some("window".to_string());
    line.no_include_ancestors = true;
    line.attribute_set = AttributeSet::Full;
    let config = line.build_config().expect("config");
    match run(&config, &sample_tree()) {
        RunOutput::Text(text) => assert_eq!(
            text,
            "Desktop [desktop]\n└── Calculator [window] {AutomationId=CalcWindow, processId=1234}"
        ),
        _ => panic!("expected text output"),
    }
}

#[test]
fn essential_set_hides_other_attributes_and_extra_keys_add_them() {
    let mut line = cli();
    line.filter_role = Some("window".to_string());
    let config = line.build_config().expect("config");
    match run(&config, &sample_tree()) {
        RunOutput::Text(text) => {
            assert!(text.contains("Calculator [window] {AutomationId=CalcWindow}"));
            assert!(!text.contains("processId"));
        }
        _ => panic!("expected text output"),
    }
    line.attributes = vec!["processid".to_string()];
    let config = line.build_config().expect("config");
    match run(&config, &sample_tree()) {
        RunOutput::Text(text) => {
            assert!(text.contains("Calculator [window] {AutomationId=CalcWindow, processId=1234}"))
        }
        _ => panic!("expected text output"),
    }
}

#[test]
fn xpath_focuses_on_a_subtree() {
    let mut line = cli();
    line.xpath = Some("/Desktop/Calculator/Number Pad".to_string());
    line.attribute_set = AttributeSet::Nothing;
    let config = line.build_config().expect("config");
    match run(&config, &sample_tree()) {
        RunOutput::Text(text) => assert_eq!(text, "Number Pad [group]\n└── One [button]"),
        _ => panic!("expected text output"),
    }
    line.xpath = Some("/Desktop/Notepad".to_string());
    let config = line.build_config().expect("config");
    assert!(matches!(run(&config, &sample_tree()), RunOutput::Nothing));
}

#[test]
fn json_format_hands_back_the_filtered_tree() {
    let mut line = cli();
    line.format = OutputFormat::Json;
    line.filter_role = Some("button".to_string());
    line.no_include_ancestors = true;
    let config = line.build_config().expect("config");
    match run(&config, &sample_tree()) {
        RunOutput::Json(node) => {
            assert_eq!(node.name, "Desktop");
            assert_eq!(node.children.len(), 1);
            assert_eq!(node.children[0].name, "One");
        }
        _ => panic!("expected a tree"),
    }
    line.filter_role = Some("slider".to_string());
    let config = line.build_config().expect("config");
    assert!(matches!(run(&config, &sample_tree()), RunOutput::Nothing));
}

#[test]
fn capture_narrows_then_filters() {
    let cfg = SpyConfig::new()
        .with_input("tree.json")
        .unwrap()
        .with_xpath("/Desktop/*")
        .with_role_filter("BUTTON");
    let core = cfg.to_core_config().expect("config");
    let captured = capture_tree(&sample_tree(), &core).expect("tree");
    assert_eq!(captured.name, "Calculator");
    assert_eq!(captured.children[0].name, "Number Pad");
    assert_eq!(captured.children[0].children[0].name, "One");
    let none = SpyConfig::new()
        .with_input("tree.json")
        .unwrap()
        .with_xpath("/Window")
        .to_core_config()
        .expect("config");
    assert!(capture_tree(&sample_tree(), &none).is_none());
}
