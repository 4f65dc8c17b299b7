use markup_dom::dom::{element, text, AttributeMap, ElementData, Node, NodeType};
use markup_dom::parser::{parse, ParseErrorKind};

fn as_element(n: &Node) -> &ElementData {
    match n.node_type() {
        NodeType::Element(ed) => ed,
        NodeType::Text(t) => panic!("expected an element, found text {:?}", t),
    }
}

fn get(m: &AttributeMap, name: &str) -> Option<String> {
    m.get(&name.to_string()).cloned()
}

#[test]
fn single_root_element() {
    let root = parse("<a></a>".to_string()).unwrap();
    let ed = as_element(&root);
    assert_eq!(ed.tag_name().as_str(), "a");
    assert_eq!(ed.attributes().len(), 0);
    assert_eq!(root.children().len(), 0);
}

#[test]
fn single_root_with_text() {
    let root = parse("<p>hello</p>".to_string()).unwrap();
    let expected = element(
        "p".to_string(),
        AttributeMap::new(),
        vec![text("hello".to_string())],
    );
    assert_eq!(root, expected);
}

#[test]
fn two_top_level_siblings_get_html_wrapper() {
    let root = parse("<a></a><b></b>".to_string()).unwrap();
    let ed = as_element(&root);
    assert_eq!(ed.tag_name().as_str(), "html");
    assert_eq!(ed.attributes().len(), 0);
    assert_eq!(root.children().len(), 2);
    assert_eq!(as_element(&root.children()[0]).tag_name().as_str(), "a");
    assert_eq!(as_element(&root.children()[1]).tag_name().as_str(), "b");
}

#[test]
fn empty_input_gives_empty_html_element() {
    let root = parse(String::new()).unwrap();
    let expected = element("html".to_string(), AttributeMap::new(), vec![]);
    assert_eq!(root, expected);
}

#[test]
fn attributes_are_parsed_into_a_map() {
    let root = parse("<a x=\"1\" y=\"2\"></a>".to_string()).unwrap();
    let ed = as_element(&root);
    assert_eq!(ed.attributes().len(), 2);
    assert_eq!(get(ed.attributes(), "x"), Some("1".to_string()));
    assert_eq!(get(ed.attributes(), "y"), Some("2".to_string()));
    assert_eq!(get(ed.attributes(), "z"), None);
}

#[test]
fn duplicate_attribute_last_write_wins() {
    let root = parse("<a x=\"1\" x=\"2\"></a>".to_string()).unwrap();
    let ed = as_element(&root);
    assert_eq!(ed.attributes().len(), 1);
    assert_eq!(get(ed.attributes(), "x"), Some("2".to_string()));
}

#[test]
fn single_quoted_attribute_values() {
    let root = parse("<a x='1'></a>".to_string()).unwrap();
    assert_eq!(get(as_element(&root).attributes(), "x"), Some("1".to_string()));
}

#[test]
fn mismatched_tags_fail_with_tag_mismatch() {
    let err = parse("<a></b>".to_string()).unwrap_err();
    assert_eq!(err.kind, ParseErrorKind::TagMismatch);
    assert_eq!(err.pos, 6);
}

#[test]
fn text_runs_become_children_in_order() {
    let root = parse("<a>hello<b></b>world</a>".to_string()).unwrap();
    let expected = element(
        "a".to_string(),
        AttributeMap::new(),
        vec![
            text("hello".to_string()),
            element("b".to_string(), AttributeMap::new(), vec![]),
            text("world".to_string()),
        ],
    );
    assert_eq!(root, expected);
}

#[test]
fn nested_elements_nest_in_the_tree() {
    let root = parse("<a><b><c></c></b></a>".to_string()).unwrap();
    let a = as_element(&root);
    assert_eq!(a.tag_name().as_str(), "a");
    assert_eq!(root.children().len(), 1);
    let b_node = &root.children()[0];
    assert_eq!(as_element(b_node).tag_name().as_str(), "b");
    assert_eq!(b_node.children().len(), 1);
    let c_node = &b_node.children()[0];
    assert_eq!(as_element(c_node).tag_name().as_str(), "c");
    assert_eq!(c_node.children().len(), 0);
}

#[test]
fn whitespace_between_tags_is_not_a_text_node() {
    let root = parse("<a>  <b></b>\n\t<c></c>  </a>".to_string()).unwrap();
    assert_eq!(root.children().len(), 2);
    assert_eq!(as_element(&root.children()[0]).tag_name().as_str(), "b");
    assert_eq!(as_element(&root.children()[1]).tag_name().as_str(), "c");
}

#[test]
fn whitespace_around_single_root_is_consumed() {
    let root = parse("  <a></a>\n".to_string()).unwrap();
    assert_eq!(as_element(&root).tag_name().as_str(), "a");
    assert_eq!(root.children().len(), 0);
}

#[test]
fn text_inside_element_keeps_inner_whitespace() {
    let root = parse("<a>hi there </a>".to_string()).unwrap();
    assert_eq!(
        root,
        element(
            "a".to_string(),
            AttributeMap::new(),
            vec![text("hi there ".to_string())]
        )
    );
}

#[test]
fn bare_text_is_a_single_text_root() {
    let root = parse("hello".to_string()).unwrap();
    assert_eq!(root, text("hello".to_string()));
}

#[test]
fn text_and_element_at_top_level_are_wrapped() {
    let root = parse("x<b></b>".to_string()).unwrap();
    let expected = element(
        "html".to_string(),
        AttributeMap::new(),
        vec![
            text("x".to_string()),
            element("b".to_string(), AttributeMap::new(), vec![]),
        ],
    );
    assert_eq!(root, expected);
}

#[test]
fn unquoted_attribute_value_is_an_unexpected_char() {
    let err = parse("<a x=1></a>".to_string()).unwrap_err();
    assert_eq!(err.kind, ParseErrorKind::UnexpectedChar);
    assert_eq!(err.pos, 5);
}

#[test]
fn unterminated_open_tag_is_an_unexpected_eof() {
    let err = parse("<a".to_string()).unwrap_err();
    assert_eq!(err.kind, ParseErrorKind::UnexpectedEof);
    assert_eq!(err.pos, 2);
}

#[test]
fn unterminated_quoted_value_is_an_unexpected_eof() {
    let err = parse("<a x=\"1".to_string()).unwrap_err();
    assert_eq!(err.kind, ParseErrorKind::UnexpectedEof);
    assert_eq!(err.pos, 7);
}

#[test]
fn quote_kinds_must_match() {
    let err = parse("<a x=\"1'></a>".to_string()).unwrap_err();
    assert_eq!(err.kind, ParseErrorKind::UnexpectedEof);
}

#[test]
fn missing_closing_tag_is_an_unexpected_eof() {
    let err = parse("<a><b></b>".to_string()).unwrap_err();
    assert_eq!(err.kind, ParseErrorKind::UnexpectedEof);
    assert_eq!(err.pos, 10);
}

#[test]
fn attribute_map_insert_overwrites() {
    let mut m = AttributeMap::new();
    m.insert("x".to_string(), "1".to_string());
    m.insert("y".to_string(), "2".to_string());
    m.insert("x".to_string(), "3".to_string());
    assert_eq!(m.len(), 2);
    assert_eq!(m.get(&"x".to_string()), Some(&"3".to_string()));
    assert_eq!(m.get(&"y".to_string()), Some(&"2".to_string()));
    assert_eq!(m.get(&"z".to_string()), None);
}

#[test]
fn constructors_build_the_expected_shapes() {
    let t = text("hi".to_string());
    assert_eq!(t.children().len(), 0);
    match t.node_type() {
        NodeType::Text(s) => assert_eq!(s.as_str(), "hi"),
        NodeType::Element(_) => panic!("expected a text node"),
    }
    let e = element("div".to_string(), AttributeMap::new(), vec![t]);
    assert_eq!(e.children().len(), 1);
    assert_eq!(as_element(&e).tag_name().as_str(), "div");
}

#[test]
fn non_ascii_text_is_preserved() {
    let root = parse("<a>héllo wörld</a>".to_string()).unwrap();
    assert_eq!(
        root,
        element(
            "a".to_string(),
            AttributeMap::new(),
            vec![text("héllo wörld".to_string())]
        )
    );
}
