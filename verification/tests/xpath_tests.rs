use platynui_spy::model::{JsonValue, UiNode};
use platynui_spy::xpath::{XPath, XPathParseError};

fn sample_tree() -> UiNode {
    let mut calculator = UiNode {
        name: "Calculator".into(),
        role: Some("window".into()),
        attributes: Vec::new(),
        children: vec![UiNode {
            name: "Display".into(),
            role: Some("text".into()),
            attributes: Vec::new(),
            children: vec![],
        }],
    };
    calculator.insert_attribute("AutomationId".into(), JsonValue::Text("Calc".into()));
    UiNode {
        name: "Desktop".into(),
        role: Some("desktop".into()),
        attributes: Vec::new(),
        children: vec![calculator],
    }
}

#[test]
fn parses_simple_xpath() {
    let path = XPath::parse("/Desktop/Calculator").expect("parse");
    let matches = path.select(&sample_tree());
    assert_eq!(matches.len(), 1);
    assert_eq!(matches[0].name, "Calculator");
}

#[test]
fn matches_by_attribute_predicate() {
    let path = XPath::parse("/Desktop/*[@AutomationId='Calc']").expect("parse");
    let matches = path.select(&sample_tree());
    assert_eq!(matches.len(), 1);
    assert_eq!(matches[0].name, "Calculator");
}

#[test]
fn rejects_missing_root() {
    let err = XPath::parse("Calculator").expect_err("missing root");
    assert!(matches!(err, XPathParseError::MissingRoot));
}

#[test]
fn blank_path_has_no_root() {
    let err = XPath::parse("/ / ").expect_err("no segment");
    assert!(matches!(err, XPathParseError::MissingRoot));
    assert_eq!(
        err.message(),
        "XPath must start with '/' and contain at least one segment"
    );
}

#[test]
fn reports_unclosed_predicate() {
    let err = XPath::parse("/Desktop/*[@role='window'").expect_err("unclosed");
    match &err {
        XPathParseError::UnclosedPredicate(seg) => assert_eq!(seg, "*[@role='window'"),
        other => panic!("unexpected {:?}", other),
    }
    assert_eq!(err.message(), "unclosed predicate in segment '*[@role='window''");
}

#[test]
fn reports_invalid_predicates() {
    let err = XPath::parse("/Desktop/*[role='window']").expect_err("no @");
    assert!(matches!(err, XPathParseError::InvalidPredicate(_)));
    let err = XPath::parse("/Desktop/*[@role=window]").expect_err("unquoted");
    match &err {
        XPathParseError::InvalidQuotedValue(p) => assert_eq!(p, "@role=window"),
        other => panic!("unexpected {:?}", other),
    }
}

#[test]
fn role_and_name_predicates_ignore_case_of_the_value() {
    let path = XPath::parse("/desktop/*[@ROLE='WINDOW'][@name='calculator']").expect("parse");
    let matches = path.select(&sample_tree());
    assert_eq!(matches.len(), 1);
    assert_eq!(matches[0].name, "Calculator");
}

#[test]
fn wrong_root_selects_nothing() {
    let path = XPath::parse("/Window/Calculator").expect("parse");
    assert!(path.select(&sample_tree()).is_empty());
}

#[test]
fn path_prints_back_as_text() {
    let path = XPath::parse("/Desktop/ * [@AutomationId='Calc']/Display").expect("parse");
    assert_eq!(path.to_text(), "/Desktop/*[@automationid='Calc']/Display");
}

#[test]
fn printed_path_parses_back_to_the_same_path() {
    for raw in [
        "/Desktop/Calculator",
        "/ desktop / * [ @ROLE = 'window' ][@name='a[b]c'] / Display ",
        "/a]b[@k='x y']/*[@Name='Calc']",
    ] {
        let path = XPath::parse(raw).expect("parse");
        let text = path.to_text();
        let again = XPath::parse(&text).expect("parse printed text");
        assert_eq!(again.to_text(), text);
        assert_eq!(again.segments().len(), path.segments().len());
    }
}
