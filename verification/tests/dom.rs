use gm_docs_parser::dom::{parse_page, Dom, DomAttr, DomNode, NodeKind, TreeEvent, Want};

fn text(t: &str) -> TreeEvent {
    TreeEvent::Text(t.to_string())
}

fn element(name: &str) -> TreeEvent {
    TreeEvent::Element(name.to_string(), vec![])
}

fn attr(local: &str, value: &str) -> DomAttr {
    DomAttr { prefix: None, ns: String::new(), local: local.to_string(), value: value.to_string() }
}

#[test]
fn events_build_a_tree() {
    let events = vec![
        TreeEvent::Other,
        element("a"),
        text("one"),
        TreeEvent::Close,
        element("b"),
        TreeEvent::Close,
        TreeEvent::Close,
        text("two"),
        TreeEvent::Close,
        TreeEvent::Close,
    ];
    let dom = Dom::from_events(&events).unwrap();
    let shape: Vec<(NodeKind, &str, &str, Option<usize>, usize, Vec<usize>)> = dom
        .nodes
        .iter()
        .map(|n| (n.kind, n.name.as_str(), n.text.as_str(), n.parent, n.position, n.children.clone()))
        .collect();
    assert_eq!(
        shape,
        vec![
            (NodeKind::Other, "", "", None, 0, vec![1, 4]),
            (NodeKind::Element, "a", "", Some(0), 0, vec![2, 3]),
            (NodeKind::Text, "", "one", Some(1), 0, vec![]),
            (NodeKind::Element, "b", "", Some(1), 1, vec![]),
            (NodeKind::Text, "", "two", Some(0), 1, vec![]),
        ]
    );
}

#[test]
fn events_out_of_order_build_nothing() {
    assert_eq!(Dom::from_events(&vec![]), None);
    assert_eq!(Dom::from_events(&vec![TreeEvent::Close]), None);
    assert_eq!(Dom::from_events(&vec![TreeEvent::Other]), None);
    assert_eq!(Dom::from_events(&vec![TreeEvent::Other, TreeEvent::Close, TreeEvent::Close]), None);
    assert_eq!(
        Dom::from_events(&vec![TreeEvent::Other, TreeEvent::Close, TreeEvent::Other, TreeEvent::Close]),
        None
    );
    assert_eq!(Dom::from_events(&vec![TreeEvent::Other, element("a"), TreeEvent::Close]), None);
    assert!(Dom::from_events(&vec![TreeEvent::Other, TreeEvent::Close]).is_some());
}

#[test]
fn page_is_parsed_into_a_tree() {
    let dom = parse_page("<p class=\"code\" id=x>a<b>c</b></p><!-- note -->").unwrap();
    let names: Vec<&str> = dom.nodes.iter().map(|n| n.name.as_str()).collect();
    assert_eq!(names, vec!["", "html", "head", "body", "p", "", "b", "", ""]);
    let kinds: Vec<NodeKind> = dom.nodes.iter().map(|n| n.kind).collect();
    assert_eq!(
        kinds,
        vec![
            NodeKind::Other,
            NodeKind::Element,
            NodeKind::Element,
            NodeKind::Element,
            NodeKind::Element,
            NodeKind::Text,
            NodeKind::Element,
            NodeKind::Text,
            NodeKind::Other,
        ]
    );
    let p = &dom.nodes[4];
    assert_eq!(p.attr("class"), Some("code".to_string()));
    assert_eq!(p.attr("id"), Some("x".to_string()));
    assert_eq!(p.attr("href"), None);
    assert_eq!(p.parent, Some(3));
    assert_eq!(p.children, vec![5, 6]);
    assert_eq!(dom.nodes[5].text, "a");
    assert_eq!(dom.nodes[7].text, "c");
    assert!(p.is_element_named("p"));
    assert!(!p.is_element_named("b"));
    assert!(!dom.nodes[5].is_element_named(""));
}

#[test]
fn attribute_with_a_namespace_is_not_found_by_name() {
    let node = DomNode {
        kind: NodeKind::Element,
        name: "a".to_string(),
        text: String::new(),
        attrs: vec![
            DomAttr {
                prefix: Some("xlink".to_string()),
                ns: "http://www.w3.org/1999/xlink".to_string(),
                local: "href".to_string(),
                value: "foreign".to_string(),
            },
            attr("href", "plain"),
            attr("href", "later"),
        ],
        parent: None,
        position: 0,
        children: vec![],
    };
    assert_eq!(node.attr("href"), Some("plain".to_string()));
    assert_eq!(node.attr("xlink:href"), None);
}

#[test]
fn children_and_siblings_are_searched() {
    let dom = parse_page("<div> <!-- c --><span>a</span>text<p>b</p> </div>").unwrap();
    let div = dom.nodes.iter().position(|n| n.name == "div").unwrap();
    let span = dom.nodes.iter().position(|n| n.name == "span").unwrap();
    let p = dom.nodes.iter().position(|n| n.name == "p").unwrap();
    let text = span + 2;
    assert_eq!(dom.nodes[text].text, "text");
    assert_eq!(dom.find_child(div, 0, Want::Content), Some(span));
    assert_eq!(dom.find_child(div, 0, Want::Element), Some(span));
    assert_eq!(dom.find_child(div, 0, Want::Named("p")), Some(p));
    assert_eq!(dom.find_child(div, 0, Want::Named("b")), None);
    assert_eq!(dom.find_child(div, 3, Want::Content), Some(text));
    assert_eq!(dom.find_child(div, 3, Want::Element), Some(p));
    assert_eq!(dom.find_child(div, 99, Want::Content), None);
    assert_eq!(dom.find_sibling(span, Want::Content), Some(text));
    assert_eq!(dom.find_sibling(span, Want::Element), Some(p));
    assert_eq!(dom.find_sibling(p, Want::Content), None);
    assert_eq!(dom.find_sibling(0, Want::Content), None);
    assert!(dom.is_wanted(text, Want::Content));
    assert!(!dom.is_wanted(text, Want::Element));
    assert!(!dom.is_wanted(div + 1, Want::Content));
}
