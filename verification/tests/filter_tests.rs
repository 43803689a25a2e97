use platynui_spy::filter::{filter_tree, FilterConfig};
use platynui_spy::model::{JsonValue, UiNode};

fn node(name: &str, role: &str) -> UiNode {
    UiNode {
        name: name.to_string(),
        role: Some(role.to_string()),
        attributes: Vec::new(),
        children: vec![],
    }
}

#[test]
fn filters_on_name_and_role() {
    let mut root = node("root", "desktop");
    let mut child = node("Calculator", "window");
    child.children.push(node("Display", "text"));
    root.children.push(child.clone_node());
    root.children.push(node("Settings", "window"));

    let config = FilterConfig::new(
        Some(3),
        true,
        Some("calc".into()),
        Some("window".into()),
        vec![],
    );
    let filtered = filter_tree(&root, &config).expect("tree");
    assert_eq!(filtered.children.len(), 1);
    assert_eq!(filtered.children[0].name, "Calculator");
}

#[test]
fn promotes_children_when_not_keeping_ancestors() {
    let mut root = node("root", "desktop");
    let mut group = node("Group", "group");
    let mut button = node("Submit", "button");
    button.insert_attribute("Name".into(), JsonValue::Text("Submit".into()));
    group.children.push(button.clone_node());
    root.children.push(group);

    let config = FilterConfig::new(None, false, None, Some("button".into()), vec![]);
    let filtered = filter_tree(&root, &config).expect("tree");
    assert_eq!(filtered.children.len(), 1);
    assert_eq!(filtered.children[0].name, "Submit");
}

#[test]
fn attribute_filter_matches_case_insensitively() {
    let mut root = node("root", "desktop");
    let mut child = node("Calculator", "window");
    child.insert_attribute("AutomationId".into(), JsonValue::Text("CalcWindow".into()));
    root.children.push(child.clone_node());

    let config = FilterConfig::new(
        None,
        true,
        None,
        None,
        vec![("AutomationId".into(), "calcwindow".into())],
    );
    let filtered = filter_tree(&root, &config).expect("tree");
    assert_eq!(filtered.children.len(), 1);
}

fn three_levels() -> UiNode {
    let mut root = node("root", "desktop");
    let mut window = node("Calculator", "window");
    let mut pad = node("Number Pad", "group");
    pad.children.push(node("One", "button"));
    window.children.push(pad);
    root.children.push(window);
    root
}

#[test]
fn no_criteria_keeps_the_whole_tree() {
    let root = three_levels();
    let config = FilterConfig::new(None, true, None, None, vec![]);
    let filtered = filter_tree(&root, &config).expect("tree");
    assert_eq!(filtered.children[0].children[0].children[0].name, "One");
}

#[test]
fn depth_limit_cuts_deeper_nodes() {
    let root = three_levels();
    let config = FilterConfig::new(Some(1), true, None, None, vec![]);
    let filtered = filter_tree(&root, &config).expect("tree");
    assert_eq!(filtered.children.len(), 1);
    assert!(filtered.children[0].children.is_empty());
}

#[test]
fn root_without_match_is_dropped_when_nothing_matches() {
    let root = three_levels();
    let config = FilterConfig::new(None, true, None, Some("slider".into()), vec![]);
    assert!(filter_tree(&root, &config).is_none());
}

#[test]
fn ancestors_kept_when_asked() {
    let root = three_levels();
    let config = FilterConfig::new(None, true, None, Some("button".into()), vec![]);
    let filtered = filter_tree(&root, &config).expect("tree");
    assert_eq!(filtered.children[0].name, "Calculator");
    assert_eq!(filtered.children[0].children[0].name, "Number Pad");
    assert_eq!(filtered.children[0].children[0].children[0].name, "One");
}

#[test]
fn non_string_attribute_compares_by_json_text() {
    let mut root = node("root", "desktop");
    let mut child = node("Calculator", "window");
    child.insert_attribute("IsEnabled".into(), JsonValue::Bool(true));
    root.children.push(child);
    let config = FilterConfig::new(None, true, None, None, vec![("IsEnabled".into(), "TRUE".into())]);
    let filtered = filter_tree(&root, &config).expect("tree");
    assert_eq!(filtered.children.len(), 1);
}

#[test]
fn without_ancestors_only_matching_nodes_stay_below_the_root() {
    let mut root = node("root", "desktop");
    let mut group = node("Group", "group");
    group.children.push(node("Ok", "button"));
    let mut label = node("Label", "text");
    label.children.push(node("Cancel", "button"));
    group.children.push(label);
    root.children.push(group);
    let config = FilterConfig::new(None, false, None, Some("button".into()), vec![]);
    let filtered = filter_tree(&root, &config).expect("tree");
    assert_eq!(filtered.name, "root");
    let names: Vec<&str> = filtered.children.iter().map(|n| n.name.as_str()).collect();
    assert_eq!(names, vec!["Ok", "Cancel"]);
    assert!(filtered.children.iter().all(|n| n.children.is_empty()));
}

#[test]
fn filtering_twice_changes_nothing() {
    for keep in [true, false] {
        let mut root = node("root", "desktop");
        let mut group = node("Group", "group");
        group.children.push(node("Ok", "button"));
        let mut label = node("Label", "text");
        label.children.push(node("Cancel", "button"));
        group.children.push(label);
        root.children.push(group);
        let config = FilterConfig::new(Some(3), keep, None, Some("button".into()), vec![]);
        let once = filter_tree(&root, &config).expect("tree");
        let twice = filter_tree(&once, &config).expect("tree");
        let names = |n: &UiNode| -> Vec<String> {
            let mut out = vec![n.name.clone()];
            let mut stack: Vec<&UiNode> = n.children.iter().collect();
            while let Some(c) = stack.pop() {
                out.push(c.name.clone());
                stack.extend(c.children.iter());
            }
            out
        };
        assert_eq!(names(&once), names(&twice));
    }
}
