use vstd::prelude::*;

pub mod parser;
pub mod reader;
pub mod roundtrip;

pub use parser::{build_html, html_to_string, parse_html, tokenize_html, HtmlAst};
pub use reader::{ReadError, SliceReader, StrReader};

verus! {

/// The value of an attribute as the contracts see it: its name and, when
/// present, its value.
pub type AttributeModel = (Seq<char>, Option<Seq<char>>);

/// The characters of an optional span.
pub open spec fn span_opt(o: Option<&str>) -> Option<Seq<char>> {
    match o {
        Some(t) => Some(t@),
        None => None,
    }
}

/// The mathematical value of an element tree.
pub struct ElementModel {
    pub tag: Seq<char>,
    pub attributes: Seq<AttributeModel>,
    pub children: Seq<ElementModel>,
    pub inner_text: Option<Seq<char>>,
}

/// The tree values of a sequence of elements.
pub open spec fn element_models<'a>(v: Seq<HtmlElement<'a>>) -> Seq<ElementModel> {
    v.map_values(|e: HtmlElement<'a>| e.model())
}

/// One attribute of an element, borrowed from the parsed buffer.
#[derive(Debug, PartialEq, Eq)]
pub struct HtmlAttribute<'a> {
    pub name: &'a str,
    pub value: Option<&'a str>,
}

impl<'a> View for HtmlAttribute<'a> {
    type V = AttributeModel;

    open spec fn view(&self) -> AttributeModel {
        (self.name@, span_opt(self.value))
    }
}

impl<'a> HtmlAttribute<'a> {
    pub fn new(name: &'a str, value: Option<&'a str>) -> (r: Self)
        ensures
            r.name == name,
            r.value == value,
    {
        Self { name, value }
    }
}

/// An element: tag name, attributes in document order, child elements and
/// optional inner text.
#[derive(Debug, PartialEq, Eq)]
pub struct HtmlElement<'a> {
    pub tag: &'a str,
    pub attributes: Vec<HtmlAttribute<'a>>,
    pub children: Vec<HtmlElement<'a>>,
    pub inner_text: Option<&'a str>,
}

impl<'a> HtmlElement<'a> {
    /// The tree value of this element.
    pub open spec fn model(&self) -> ElementModel
        decreases self,
    {
        ElementModel {
            tag: self.tag@,
            attributes: self.attributes@.map_values(|a: HtmlAttribute<'a>| a@),
            children: Seq::new(
                self.children.len() as nat,
                |i: int|
                    if 0 <= i < self.children.len() {
                        self.children[i].model()
                    } else {
                        arbitrary()
                    },
            ),
            inner_text: span_opt(self.inner_text),
        }
    }

    pub fn new(tag: &'a str) -> (r: Self)
        ensures
            r.model() == (ElementModel {
                tag: tag@,
                attributes: Seq::empty(),
                children: Seq::empty(),
                inner_text: None,
            }),
    {
        let r = Self { tag, attributes: Vec::new(), children: Vec::new(), inner_text: None };
        assert(r.model().attributes =~= Seq::empty());
        assert(r.model().children =~= Seq::empty());
        r
    }

    pub fn add_attribute(&mut self, name: &'a str, value: Option<&'a str>)
        ensures
            final(self).model() == (ElementModel {
                attributes: old(self).model().attributes.push((name@, span_opt(value))),
                ..old(self).model()
            }),
    {
        let a = HtmlAttribute::new(name, value);
        self.attributes.push(a);
        assert(self.model().attributes =~= old(self).model().attributes.push(
            (name@, span_opt(value)),
        ));
        assert(self.model().children =~= old(self).model().children);
    }

    pub fn add_child(&mut self, child: HtmlElement<'a>)
        ensures
            final(self).model() == (ElementModel {
                children: old(self).model().children.push(child.model()),
                ..old(self).model()
            }),
    {
        let ghost m = child.model();
        self.children.push(child);
        assert(self.model().attributes =~= old(self).model().attributes);
        assert(self.model().children =~= old(self).model().children.push(m));
    }

    /// Sets the inner text, replacing any earlier one.
    pub fn set_inner_text(&mut self, text: &'a str)
        ensures
            final(self).model() == (ElementModel {
                inner_text: Some(text@),
                ..old(self).model()
            }),
    {
        self.inner_text = Some(text);
        assert(self.model().attributes =~= old(self).model().attributes);
        assert(self.model().children =~= old(self).model().children);
    }
}

/// Why a parse failed.
#[derive(Debug, PartialEq, Eq, Structural)]
pub enum HtmlError {
    ReaderError(ReadError),
    InvalidAst,
    DecodeFailed,
}

} // verus!
