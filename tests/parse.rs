use minixml::node::XmlNode;
use minixml::xml::{Xml, XmlError};

#[test]
fn test_simple_node() {
    let list = Xml::try_from("<a></a>").unwrap();
    let expected = Xml::new(vec![XmlNode::new("a")]);
    assert_eq!(list, expected)
}

#[test]
fn test_self_closing_node() {
    let list = Xml::try_from("<a/>").unwrap();
    let expected = Xml::new(vec![XmlNode::new("a")]);
    assert_eq!(list, expected)
}

#[test]
fn test_complex_node() {
    let list = Xml::try_from("<a><b><d></d></b><c><e></e></c></a><z></z>").unwrap();
    let a_node = XmlNode::new_with_children(
        "a",
        vec![
            XmlNode::new_with_children("b", vec![XmlNode::new("d")]),
            XmlNode::new_with_children("c", vec![XmlNode::new("e")]),
        ],
    );
    let expected = Xml::new(vec![a_node, XmlNode::new("z")]);
    assert_eq!(list, expected)
}

#[test]
fn test_simple_not_closed() {
    let err = Xml::try_from("<a>");
    assert!(err.is_err());
    if let Err(err) = err {
        assert_eq!(err, XmlError::NotClosed(2))
    }
}

#[test]
fn test_node_after_not_closed() {
    let err = Xml::try_from("<a><p></p>");
    assert!(err.is_err());
    if let Err(err) = err {
        assert_eq!(err, XmlError::NotClosed(2))
    }
}

#[test]
fn test_self_closing_after_not_closed() {
    let err = Xml::try_from("<a><p/>");
    assert!(err.is_err());
    if let Err(err) = err {
        assert_eq!(err, XmlError::NotClosed(2))
    }
}

#[test]
fn test_complex_not_closed() {
    let err = Xml::try_from("<a><b><d></d></b><c><e></e></c></a><z><p/>");
    assert!(err.is_err());
    if let Err(err) = err {
        assert_eq!(err, XmlError::NotClosed(37))
    }
}

#[test]
fn simple_node_has_one_root_without_children() {
    let doc = Xml::parse("<a></a>").unwrap();
    let root = doc.root().unwrap();
    assert_eq!(root.name(), "a");
    assert_eq!(root, &XmlNode::new("a"));
}

#[test]
fn two_roots_give_no_root() {
    let doc = Xml::parse("<a></a><z></z>").unwrap();
    assert!(doc.root().is_none());
    let empty = Xml::parse("").unwrap();
    assert!(empty.root().is_none());
    assert_eq!(empty, Xml::new(vec![]));
}

#[test]
fn self_closing_child_is_attached() {
    let doc = Xml::parse("<a><b/></a>").unwrap();
    let expected = Xml::new(vec![XmlNode::new_with_children("a", vec![XmlNode::new("b")])]);
    assert_eq!(doc, expected);
}

#[test]
fn innermost_open_element_is_reported() {
    assert_eq!(Xml::parse("<a><bb>"), Err(XmlError::NotClosed(6)));
}

#[test]
fn mismatched_close_reports_open_element() {
    assert_eq!(Xml::parse("<a><b></a></b>"), Err(XmlError::NotClosed(5)));
}

#[test]
fn stray_close_reports_its_own_offset() {
    assert_eq!(Xml::parse("</a>"), Err(XmlError::NotClosed(3)));
    assert_eq!(Xml::parse("<a></a></b>"), Err(XmlError::NotClosed(10)));
}

#[test]
fn attributes_are_read() {
    let doc = Xml::parse("<a id=\"x\" class=\"note big\"></a>").unwrap();
    let expected = Xml::new(vec![XmlNode::new_with_attributes(
        "a",
        vec![
            ("id".to_string(), "x".to_string()),
            ("class".to_string(), "note big".to_string()),
        ],
    )]);
    assert_eq!(doc, expected);
    let root = doc.root().unwrap();
    assert!(root.has_class("note"));
    assert!(root.has_class("big"));
    assert!(!root.has_class("no"));
}

#[test]
fn repeated_attribute_keeps_last_value() {
    let doc = Xml::parse("<a k=\"1\" k=\"2\"></a>").unwrap();
    let expected = Xml::new(vec![XmlNode::new_with_attributes(
        "a",
        vec![("k".to_string(), "2".to_string())],
    )]);
    assert_eq!(doc, expected);
}

#[test]
fn empty_attribute_value_is_dropped() {
    let doc = Xml::parse("<a k=\"\"></a>").unwrap();
    assert_eq!(doc, Xml::new(vec![XmlNode::new("a")]));
}

#[test]
fn text_is_trimmed_and_attached() {
    let doc = Xml::parse("<p>  hello world \n </p>").unwrap();
    let expected = Xml::new(vec![XmlNode::new_with_children(
        "p",
        vec![XmlNode::new_text("hello world")],
    )]);
    assert_eq!(doc, expected);
}

#[test]
fn text_without_open_element_is_dropped() {
    let doc = Xml::parse("hi<a></a>").unwrap();
    assert_eq!(doc, Xml::new(vec![XmlNode::new("a")]));
}

#[test]
fn white_space_before_close_of_tag_is_ignored() {
    let doc = Xml::parse("<a ></a>").unwrap();
    assert_eq!(doc, Xml::new(vec![XmlNode::new("a")]));
    let doc = Xml::parse("<a \n>x</a>").unwrap();
    let expected = Xml::new(vec![XmlNode::new_with_children("a", vec![XmlNode::new_text("x")])]);
    assert_eq!(doc, expected);
}

#[test]
fn tag_cut_at_end_of_input_is_not_an_error() {
    let doc = Xml::parse("<a></a><b ").unwrap();
    assert_eq!(doc, Xml::new(vec![XmlNode::new("a")]));
}

#[test]
fn offsets_count_characters() {
    assert_eq!(Xml::parse("<é>"), Err(XmlError::NotClosed(2)));
}
