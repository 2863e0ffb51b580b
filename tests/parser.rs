use markup::{
    build_html, html_to_string, parse_html, tokenize_html, HtmlAst, HtmlAttribute, HtmlElement,
    HtmlError, ReadError,
};

#[test]
fn single_tag_tokenize() {
    let html = "<button>Hello</button>";
    let tokens = tokenize_html(html).unwrap();
    assert_eq!(
        tokens,
        vec![
            HtmlAst::StartTag("button"),
            HtmlAst::Text("Hello"),
            HtmlAst::EndTag
        ]
    );
}

#[test]
fn tokenize_nested_tag() {
    let html = "<div><button>Hello</button></div>";
    let tokens = tokenize_html(html).unwrap();
    assert_eq!(
        tokens,
        vec![
            HtmlAst::StartTag("div"),
            HtmlAst::StartTag("button"),
            HtmlAst::Text("Hello"),
            HtmlAst::EndTag,
            HtmlAst::EndTag
        ]
    );
}

#[test]
fn tokenize_attr() {
    let html = "<button class=\"btn\">Hello</button>";
    let tokens = tokenize_html(html).unwrap();
    assert_eq!(
        tokens,
        vec![
            HtmlAst::StartTag("button"),
            HtmlAst::Attribute("class", "btn".into()),
            HtmlAst::Text("Hello"),
            HtmlAst::EndTag
        ]
    );
}

#[test]
fn tokenize_attr2() {
    let html = "<button class=\"btn\" disabled>Hello</button>";
    let tokens = tokenize_html(html).unwrap();
    assert_eq!(
        tokens,
        vec![
            HtmlAst::StartTag("button"),
            HtmlAst::Attribute("class", "btn".into()),
            HtmlAst::Attribute("disabled", None),
            HtmlAst::Text("Hello"),
            HtmlAst::EndTag
        ]
    );
}

#[test]
fn decode_html() {
    let html = "<div><button class=\"btn\">Hello</button></div>";
    let element = parse_html(html).unwrap();
    assert_eq!(
        element,
        vec![HtmlElement {
            tag: "div",
            attributes: vec![],
            children: vec![HtmlElement {
                tag: "button",
                attributes: vec![HtmlAttribute::new("class", "btn".into())],
                children: vec![],
                inner_text: Some("Hello")
            }],
            inner_text: None
        }]
    );
}

#[test]
fn decode_html_attr() {
    let html = "<button class=\"btn\" disabled>Hello</button>";
    let element = parse_html(html).unwrap();
    assert_eq!(
        element,
        vec![HtmlElement {
            tag: "button",
            attributes: vec![
                HtmlAttribute::new("class", Some("btn")),
                HtmlAttribute::new("disabled", None)
            ],
            children: vec![],
            inner_text: Some("Hello")
        }]
    );
}

#[test]
fn decode_comment() {
    let html = "<!-- comment -->";
    let element = parse_html(html).unwrap();
    assert_eq!(element, vec![]);
}

#[test]
fn encode_html() {
    let elements = vec![HtmlElement {
        tag: "div",
        attributes: vec![],
        children: vec![HtmlElement {
            tag: "button",
            attributes: vec![HtmlAttribute::new("class", Some("btn"))],
            children: vec![],
            inner_text: Some("Hello"),
        }],
        inner_text: None,
    }];
    let html = html_to_string(elements);
    assert_eq!(html, "<div><button class=\"btn\">Hello</button></div>");
}

#[test]
fn encode_html_attr() {
    let elements = vec![HtmlElement {
        tag: "button",
        attributes: vec![
            HtmlAttribute::new("class", Some("btn")),
            HtmlAttribute::new("disabled", None),
        ],
        children: vec![],
        inner_text: Some("Hello"),
    }];
    let html = html_to_string(elements);
    assert_eq!(html, "<button class=\"btn\" disabled>Hello</button>");
}

#[test]
fn unclosed_tags_fail() {
    assert_eq!(parse_html("<div><button>"), Err(HtmlError::InvalidAst));
}

#[test]
fn bare_text_tokenizes_but_does_not_build() {
    assert_eq!(
        tokenize_html("text<b></b>"),
        Ok(vec![HtmlAst::Text("text"), HtmlAst::StartTag("b"), HtmlAst::EndTag])
    );
    assert_eq!(parse_html("text<b></b>"), Err(HtmlError::InvalidAst));
    assert_eq!(
        build_html(vec![HtmlAst::Attribute("a", None), HtmlAst::EndTag]),
        Err(HtmlError::InvalidAst)
    );
    assert_eq!(
        build_html(vec![HtmlAst::Text("t")]),
        Err(HtmlError::InvalidAst)
    );
}

#[test]
fn trailing_text_without_tag_is_reader_error() {
    assert_eq!(
        tokenize_html("text"),
        Err(HtmlError::ReaderError(ReadError::DelimNotFound))
    );
    assert_eq!(
        parse_html("<a>x</a>tail"),
        Err(HtmlError::ReaderError(ReadError::DelimNotFound))
    );
}

#[test]
fn missing_close_bracket_is_reader_error() {
    assert_eq!(
        tokenize_html("<div"),
        Err(HtmlError::ReaderError(ReadError::DelimNotFound))
    );
    assert_eq!(
        tokenize_html("<a></a"),
        Err(HtmlError::ReaderError(ReadError::DelimNotFound))
    );
}

#[test]
fn stray_end_tag_is_invalid() {
    assert_eq!(parse_html("</a>"), Err(HtmlError::InvalidAst));
}

#[test]
fn empty_input_is_empty_forest() {
    assert_eq!(tokenize_html(""), Ok(vec![]));
    assert_eq!(parse_html("  \n\t "), Ok(vec![]));
}

#[test]
fn mismatched_close_names_close_innermost() {
    let forest = parse_html("<div><p>x</span></b>").unwrap();
    assert_eq!(forest.len(), 1);
    assert_eq!(forest[0].tag, "div");
    assert_eq!(forest[0].children[0].tag, "p");
}

#[test]
fn quoted_space_is_split_into_fragments() {
    let tokens = tokenize_html("<a t=\"x y\"></a>").unwrap();
    assert_eq!(
        tokens,
        vec![
            HtmlAst::StartTag("a"),
            HtmlAst::Attribute("t", Some("\"x")),
            HtmlAst::Attribute("y\"", None),
            HtmlAst::EndTag
        ]
    );
}

#[test]
fn attribute_value_trimmed_and_one_quote_pair_stripped() {
    let tokens = tokenize_html("<a k=v q=\"\"w\"\">").unwrap();
    assert_eq!(
        tokens,
        vec![
            HtmlAst::StartTag("a"),
            HtmlAst::Attribute("k", Some("v")),
            HtmlAst::Attribute("q", Some("\"w\"")),
        ]
    );
}

#[test]
fn unterminated_comment_ends_input() {
    assert_eq!(tokenize_html("<a></a><!-- open"), Ok(vec![HtmlAst::StartTag("a"), HtmlAst::EndTag]));
}

#[test]
fn top_level_siblings_in_close_order() {
    let forest = parse_html("<a>1</a> <b>2</b>").unwrap();
    assert_eq!(forest.len(), 2);
    assert_eq!(forest[0].tag, "a");
    assert_eq!(forest[1].tag, "b");
    assert_eq!(forest[1].inner_text, Some("2"));
}

#[test]
fn text_wins_over_children_when_serializing() {
    let mut e = HtmlElement::new("a");
    e.add_child(HtmlElement::new("b"));
    e.set_inner_text("t");
    assert_eq!(html_to_string(vec![e]), "<a>t</a>");
    assert_eq!(html_to_string(vec![]), "");
}

#[test]
fn serialize_then_parse_again_is_stable() {
    let input = "<div id=x><p a b=\"c\">hi</p><br></br></div><span></span>";
    let first = parse_html(input).unwrap();
    let text = html_to_string(parse_html(input).unwrap());
    assert_eq!(text, "<div id=\"x\"><p a b=\"c\">hi</p><br></br></div><span></span>");
    let second = parse_html(&text).unwrap();
    assert_eq!(first, second);
}

#[test]
fn encode_single_attribute_with_text() {
    let elements = vec![HtmlElement {
        tag: "button",
        attributes: vec![HtmlAttribute::new("class", Some("btn"))],
        children: vec![],
        inner_text: Some("Hello"),
    }];
    assert_eq!(html_to_string(elements), "<button class=\"btn\">Hello</button>");
}

#[test]
fn empty_tag_and_lone_trailing_space() {
    let forest = parse_html("<a ></a><></>").unwrap();
    assert_eq!(forest.len(), 2);
    assert_eq!(forest[0].attributes, vec![HtmlAttribute::new("", None)]);
    assert_eq!(forest[1].tag, "");
    let text = html_to_string(parse_html("<a ></a><></>").unwrap());
    assert_eq!(text, "<a ></a><></>");
}

#[test]
fn whitespace_before_text_is_skipped_but_trailing_kept() {
    let forest = parse_html("<p>\n  hi there \n</p>").unwrap();
    assert_eq!(forest[0].inner_text, Some("hi there \n"));
}

#[test]
fn later_text_replaces_earlier() {
    let forest = parse_html("<p>a<b></b>c</p>").unwrap();
    assert_eq!(forest[0].inner_text, Some("c"));
    assert_eq!(forest[0].children.len(), 1);
}
