use platynui_spy::config::{Win32Config, Win32Root};
use platynui_spy::model::JsonValue;
use platynui_spy::win32::{
    describe_selectors, element_node, matches_selectors, BoundingBox, ElementProbe, ElementProps,
    RootSearch, SearchAction, SearchPhase, WindowHandle,
};

fn options(pid: Option<u32>, title: Option<&str>, top: bool) -> Win32Config {
    Win32Config {
        root: Win32Root::Desktop,
        process_id: pid,
        window_title: title.map(|t| t.to_string()),
        top_level_only: top,
    }
}

#[test]
fn describes_selectors() {
    assert_eq!(describe_selectors(&options(None, None, false)), "<none>");
    assert_eq!(describe_selectors(&options(Some(1234), None, false)), "process_id=1234");
    assert_eq!(
        describe_selectors(&options(None, Some("calc"), false)),
        "window_title contains 'calc'"
    );
    assert_eq!(
        describe_selectors(&options(Some(0), Some("calc"), false)),
        "process_id=0, window_title contains 'calc'"
    );
}

#[test]
fn selectors_match_process_and_title() {
    let probe = ElementProbe { process_id: Some(7), name: Some("My Calculator".into()) };
    assert!(matches_selectors(&probe, &options(Some(7), Some("calc"), false)));
    assert!(!matches_selectors(&probe, &options(Some(8), None, false)));
    assert!(!matches_selectors(&probe, &options(None, Some("notepad"), false)));
    let unreadable = ElementProbe { process_id: None, name: None };
    assert!(!matches_selectors(&unreadable, &options(Some(7), None, false)));
    assert!(!matches_selectors(&unreadable, &options(None, Some("calc"), false)));
    assert!(matches_selectors(&unreadable, &options(None, None, false)));
}

fn props() -> ElementProps {
    ElementProps {
        name: Some("Calculator".into()),
        localized_control_type: Some("window".into()),
        control_type: Some("Window".into()),
        automation_id: Some(String::new()),
        class_name: Some("ApplicationFrameWindow".into()),
        framework_id: None,
        help_text: Some(String::new()),
        process_id: Some(4242),
        native_window_handle: Some(WindowHandle { invalid: false, text: "Handle(0x1)".into() }),
        bounding_rectangle: Some(BoundingBox {
            left: -8,
            top: 0,
            right: 100,
            bottom: 50,
            width: 108,
            height: 50,
        }),
        is_enabled: Some(true),
        is_offscreen: None,
    }
}

#[test]
fn element_becomes_node_with_sorted_attributes() {
    let node = element_node(&props(), Vec::new());
    assert_eq!(node.name, "Calculator");
    assert_eq!(node.role.as_deref(), Some("window"));
    let keys: Vec<&str> = node.attributes.iter().map(|(k, _)| k.as_str()).collect();
    assert_eq!(
        keys,
        vec![
            "BoundingRectangle",
            "ClassName",
            "ControlType",
            "IsEnabled",
            "NativeWindowHandle",
            "ProcessId"
        ]
    );
    match node.attribute_value("ProcessId") {
        Some(JsonValue::Number(n)) => assert_eq!(n, "4242"),
        other => panic!("unexpected {:?}", other),
    }
    match node.attribute_value("BoundingRectangle") {
        Some(JsonValue::Object(entries)) => {
            let keys: Vec<&str> = entries.iter().map(|(k, _)| k.as_str()).collect();
            assert_eq!(keys, vec!["bottom", "height", "left", "right", "top", "width"]);
            match &entries[2].1 {
                JsonValue::Number(n) => assert_eq!(n, "-8"),
                other => panic!("unexpected {:?}", other),
            }
        },
        other => panic!("unexpected {:?}", other),
    }
}

#[test]
fn unreadable_element_gives_bare_node() {
    let p = ElementProps {
        name: None,
        localized_control_type: Some(String::new()),
        control_type: None,
        automation_id: None,
        class_name: None,
        framework_id: None,
        help_text: None,
        process_id: None,
        native_window_handle: Some(WindowHandle { invalid: true, text: "Handle(0x0)".into() }),
        bounding_rectangle: None,
        is_enabled: None,
        is_offscreen: Some(false),
    };
    let child = element_node(&props(), Vec::new());
    let node = element_node(&p, vec![child]);
    assert_eq!(node.name, "");
    assert_eq!(node.role, None);
    assert_eq!(node.attributes.len(), 1);
    assert_eq!(node.attributes[0].0, "IsOffscreen");
    assert_eq!(node.children.len(), 1);
}

#[test]
fn search_without_selectors_takes_the_base() {
    let (search, action) = RootSearch::start(5, &options(None, None, false));
    assert!(matches!(action, SearchAction::Found(5)));
    assert_eq!(search.phase, SearchPhase::Done);
}

#[test]
fn search_is_breadth_first() {
    let (mut search, action) = RootSearch::start(0, &options(Some(9), None, false));
    assert!(matches!(action, SearchAction::Probe(0)));
    let action = search.probed(false);
    assert!(matches!(action, SearchAction::Probe(0)));
    let action = search.probed(false);
    assert!(matches!(action, SearchAction::Expand(0)));
    let action = search.expanded(&vec![1, 2]);
    assert!(matches!(action, SearchAction::Probe(1)));
    let action = search.probed(false);
    assert!(matches!(action, SearchAction::Expand(1)));
    let action = search.expanded(&vec![3]);
    assert!(matches!(action, SearchAction::Probe(2)));
    let action = search.probed(false);
    assert!(matches!(action, SearchAction::Expand(2)));
    let action = search.expanded(&vec![]);
    assert!(matches!(action, SearchAction::Probe(3)));
    let action = search.probed(true);
    assert!(matches!(action, SearchAction::Found(3)));
}

#[test]
fn top_level_search_stops_below_the_children() {
    let (mut search, _) = RootSearch::start(0, &options(None, Some("calc"), true));
    assert!(matches!(search.probed(false), SearchAction::Expand(0)));
    assert!(matches!(search.expanded(&vec![1]), SearchAction::Probe(1)));
    match search.probed(false) {
        SearchAction::NotFound(s) => assert_eq!(s, "window_title contains 'calc'"),
        _ => panic!("the search should end"),
    }
    assert_eq!(search.phase, SearchPhase::Done);
}
