use markup::{HtmlAttribute, HtmlElement};

#[test]
fn html_element() {
    let mut root = HtmlElement::new("html");
    root.add_child(HtmlElement::new("p"));

    assert_eq!(root.children.len(), 1);
    assert_eq!(
        root,
        HtmlElement {
            tag: "html",
            attributes: vec![],
            children: vec![HtmlElement {
                tag: "p",
                attributes: vec![],
                children: vec![],
                inner_text: None
            }],
            inner_text: None,
        }
    )
}

#[test]
fn add_attribute_keeps_order_and_duplicates() {
    let mut e = HtmlElement::new("a");
    e.add_attribute("x", Some("1"));
    e.add_attribute("y", None);
    e.add_attribute("x", Some("2"));
    assert_eq!(
        e.attributes,
        vec![
            HtmlAttribute::new("x", Some("1")),
            HtmlAttribute::new("y", None),
            HtmlAttribute::new("x", Some("2")),
        ]
    );
}

#[test]
fn set_inner_text_replaces() {
    let mut e = HtmlElement::new("p");
    e.set_inner_text("one");
    e.set_inner_text("two");
    assert_eq!(e.inner_text, Some("two"));
}
