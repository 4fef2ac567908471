use minixml::node::{Query, XmlNode};
use minixml::xml::Xml;

#[test]
fn test_to_string() {
    let node = XmlNode::new_with_children("html", vec![XmlNode::new("a")]);
    let expected = format!("<html>\n{}<a>\n{}</a>\n</html>\n", " ", " ");
    assert_eq!(expected, node.to_string(0))
}

#[test]
fn text_node_renders_one_line() {
    let node = XmlNode::new_text("hi");
    assert_eq!(node.to_string(2), "  hi\n");
}

#[test]
fn attributes_render_in_order() {
    let node = XmlNode::new_with_attributes(
        "a",
        vec![("x".to_string(), "1".to_string()), ("y".to_string(), "2".to_string())],
    );
    assert_eq!(node.to_string(1), " <a x=\"1\" y=\"2\">\n </a>\n");
}

#[test]
fn document_renders_each_root() {
    let doc = Xml::parse("<a><b></b></a><z/>").unwrap();
    assert_eq!(doc.to_string(), "<a>\n <b>\n </b>\n</a>\n<z>\n</z>\n");
}

#[test]
fn round_trip_keeps_names_attributes_and_nesting() {
    let source = "<a k=\"v\"><b><c id=\"1\" class=\"x y\"></c></b><d/></a>";
    let doc = Xml::parse(source).unwrap();
    let again = Xml::parse(&doc.to_string()).unwrap();
    assert_eq!(doc, again);
    assert_eq!(doc.to_string(), again.to_string());
}

#[test]
fn parse_then_render_keeps_names_and_depth() {
    let doc = Xml::parse("<a><b><d></d></b><c></c></a>").unwrap();
    assert_eq!(doc.to_string(), "<a>\n <b>\n  <d>\n  </d>\n </b>\n <c>\n </c>\n</a>\n");
}

#[test]
fn push_appends_a_child() {
    let mut node = XmlNode::new("a");
    node.push(XmlNode::new("b"));
    assert_eq!(node, XmlNode::new_with_children("a", vec![XmlNode::new("b")]));
}

#[test]
fn class_query_matches_whole_words_only() {
    let doc = Xml::parse(
        "<r><p class=\"highlighter\"></p><q><s class=\"note highlight\">t</s></q></r>",
    )
    .unwrap();
    let found = doc.search_query(".highlight");
    let expected = Xml::new(vec![XmlNode::new_with_children(
        "s",
        vec![XmlNode::new_text("t")],
    )]);
    assert_eq!(found.to_string(), "<s class=\"note highlight\">\n t\n</s>\n");
    assert!(found.root().unwrap().has_class("note"));
    assert_ne!(found, expected);
    assert_eq!(found.search_query(".note"), found.search_query("s"));
    // The source document is left as it was.
    assert_eq!(doc.search_query("s"), found);
}

#[test]
fn name_query_in_pre_order() {
    let doc = Xml::parse("<b><a><b><b/></b></a><b></b></b>").unwrap();
    let found = doc.search_query("b");
    assert_eq!(
        found.to_string(),
        "<b>\n <a>\n  <b>\n   <b>\n   </b>\n  </b>\n </a>\n <b>\n </b>\n</b>\n\
         <b>\n <b>\n </b>\n</b>\n<b>\n</b>\n<b>\n</b>\n"
    );
}

#[test]
fn long_name_query_uses_whole_name() {
    let doc = Xml::parse("<root><item></item><ite></ite></root>").unwrap();
    assert_eq!(doc.search_query("item"), Xml::new(vec![XmlNode::new("item")]));
}

#[test]
fn empty_query_or_missing_root_gives_empty_document() {
    let doc = Xml::parse("<a></a>").unwrap();
    assert_eq!(doc.search_query(""), Xml::new(vec![]));
    let two = Xml::parse("<a></a><a></a>").unwrap();
    assert_eq!(two.search_query("a"), Xml::new(vec![]));
}

#[test]
fn search_with_query_value() {
    let node = XmlNode::new_with_children("a", vec![XmlNode::new("b"), XmlNode::new("a")]);
    let found = node.search(&Query::ByName("a".to_string()));
    assert_eq!(found, Xml::new(vec![node.clone(), XmlNode::new("a")]));
    let none = node.search(&Query::ByClass("a".to_string()));
    assert_eq!(none, Xml::new(vec![]));
}

#[test]
fn class_test_rejects_empty_and_spaced_words() {
    let node = XmlNode::new_with_attributes(
        "a",
        vec![("class".to_string(), " one\ttwo ".to_string())],
    );
    assert!(node.has_class("one"));
    assert!(node.has_class("two"));
    assert!(!node.has_class(""));
    assert!(!node.has_class("one two"));
    assert!(!node.has_class("on"));
}

#[test]
fn text_node_renders_trimmed() {
    assert_eq!(XmlNode::new_text(" x").to_string(0), "x\n");
    assert_eq!(XmlNode::new_text("\t a b \n").to_string(1), " a b\n");
}

#[test]
fn attribute_order_does_not_matter_for_equality() {
    let a = XmlNode::new_with_attributes(
        "a",
        vec![("x".to_string(), "1".to_string()), ("y".to_string(), "2".to_string())],
    );
    let b = XmlNode::new_with_attributes(
        "a",
        vec![("y".to_string(), "2".to_string()), ("x".to_string(), "1".to_string())],
    );
    assert_eq!(a, b);
    assert!(a.same_as(&b));
    let c = XmlNode::new_with_attributes(
        "a",
        vec![("y".to_string(), "3".to_string()), ("x".to_string(), "1".to_string())],
    );
    assert_ne!(a, c);
    assert_ne!(a, XmlNode::new("a"));
}
