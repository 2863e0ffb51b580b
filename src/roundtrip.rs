use vstd::prelude::*;

use crate::parser::{
    assemble, assemble_all, assemble_step, attributes_text, element_text, forest_prefix_text,
    forest_text, is_white_space, lemma_find_from_at, lemma_skip_space, parse, prepend,
    skip_space, space_end, split_space, strip_quotes, tag_tokens, tokenize, tokens_from, trim,
    attribute_of, attributes_of, attribute_text, with_top, Assembly, TokenModel,
};
use crate::reader::find_from;
use crate::{AttributeModel, ElementModel};

verus! {

/// The building state after `ts`, applied in order to `a`.
pub open spec fn assemble_from(a: Assembly, ts: Seq<TokenModel>) -> Option<Assembly>
    decreases ts.len(),
{
    if ts.len() == 0 {
        Some(a)
    } else {
        match assemble_step(a, ts[0]) {
            Some(b) => assemble_from(b, ts.subrange(1, ts.len() as int)),
            None => None,
        }
    }
}

/// The attribute tokens of an attribute list.
pub open spec fn attribute_tokens(attrs: Seq<AttributeModel>) -> Seq<TokenModel> {
    attrs.map_values(|a: AttributeModel| TokenModel::Attribute(a.0, a.1))
}

/// The tokens that an element's markup gives.
pub open spec fn element_tokens(e: ElementModel) -> Seq<TokenModel>
    decreases e, 0nat,
{
    let body = match e.inner_text {
        Some(t) => seq![TokenModel::Text(t)],
        None => forest_prefix_tokens(e.children, e.children.len() as int),
    };
    seq![TokenModel::StartTag(e.tag)] + attribute_tokens(e.attributes) + body + seq![
        TokenModel::EndTag,
    ]
}

/// The tokens of the first `n` elements of `f`.
pub open spec fn forest_prefix_tokens(f: Seq<ElementModel>, n: int) -> Seq<TokenModel>
    decreases f, n,
{
    if n <= 0 || n > f.len() {
        Seq::empty()
    } else {
        forest_prefix_tokens(f, n - 1) + element_tokens(f[n - 1])
    }
}

/// An element whose inner text, where present, leaves it without children,
/// and so all the way down.
pub open spec fn text_or_children(e: ElementModel) -> bool
    decreases e,
{
    &&& (e.inner_text is Some ==> e.children.len() == 0)
    &&& forall|i: int| 0 <= i < e.children.len() ==> text_or_children(#[trigger] e.children[i])
}

/// `a` once `e` has been closed: a child of the innermost open element, or a
/// top-level element.
pub open spec fn attach(a: Assembly, e: ElementModel) -> Assembly {
    if a.open.len() == 0 {
        Assembly { open: a.open, done: a.done.push(e) }
    } else {
        let top = a.open[a.open.len() - 1];
        Assembly {
            open: with_top(a.open, ElementModel { children: top.children.push(e), ..top }),
            done: a.done,
        }
    }
}

proof fn lemma_assemble_from_concat(a: Assembly, x: Seq<TokenModel>, y: Seq<TokenModel>)
    ensures
        assemble_from(a, x + y) == match assemble_from(a, x) {
            Some(b) => assemble_from(b, y),
            None => None,
        },
    decreases x.len(),
{
    if x.len() > 0 {
        assert((x + y)[0] == x[0]);
        assert((x + y).subrange(1, (x + y).len() as int) =~= x.subrange(1, x.len() as int) + y);
        if let Some(b) = assemble_step(a, x[0]) {
            lemma_assemble_from_concat(b, x.subrange(1, x.len() as int), y);
        }
    } else {
        assert(x + y =~= y);
    }
}

proof fn lemma_assemble_one(a: Assembly, t: TokenModel)
    ensures
        assemble_from(a, seq![t]) == assemble_step(a, t),
{
    reveal_with_fuel(assemble_from, 2);
    assert(seq![t].subrange(1, 1) =~= Seq::<TokenModel>::empty());
}

proof fn lemma_assemble_all_from(ts: Seq<TokenModel>)
    ensures
        assemble_all(ts) == assemble_from(
            Assembly { open: Seq::empty(), done: Seq::empty() },
            ts,
        ),
    decreases ts.len(),
{
    let init = Assembly { open: Seq::empty(), done: Seq::empty() };
    if ts.len() > 0 {
        let x = ts.drop_last();
        lemma_assemble_all_from(x);
        lemma_assemble_from_concat(init, x, seq![ts.last()]);
        assert(x + seq![ts.last()] =~= ts);
        if let Some(b) = assemble_from(init, x) {
            lemma_assemble_one(b, ts.last());
        }
    }
}

proof fn lemma_assemble_attributes(a: Assembly, attrs: Seq<AttributeModel>)
    requires
        a.open.len() > 0,
    ensures
        assemble_from(a, attribute_tokens(attrs)) == Some(
            Assembly {
                open: with_top(
                    a.open,
                    ElementModel {
                        attributes: a.open[a.open.len() - 1].attributes + attrs,
                        ..a.open[a.open.len() - 1]
                    },
                ),
                done: a.done,
            },
        ),
    decreases attrs.len(),
{
    let n = a.open.len();
    let top = a.open[n - 1];
    if attrs.len() == 0 {
        assert(top.attributes + attrs =~= top.attributes);
        assert(with_top(a.open, ElementModel { attributes: top.attributes + attrs, ..top })
            =~= a.open);
    } else {
        let ts = attribute_tokens(attrs);
        let b = assemble_step(a, ts[0])->Some_0;
        let rest = attrs.subrange(1, attrs.len() as int);
        assert(ts.subrange(1, ts.len() as int) =~= attribute_tokens(rest));
        lemma_assemble_attributes(b, rest);
        let top1 = ElementModel { attributes: top.attributes.push(attrs[0]), ..top };
        assert(b.open[n - 1] == top1);
        assert(top1.attributes + rest =~= top.attributes + attrs);
        assert(with_top(b.open, ElementModel { attributes: top1.attributes + rest, ..top1 })
            =~= with_top(a.open, ElementModel { attributes: top.attributes + attrs, ..top }));
    }
}

proof fn lemma_assemble_element(a: Assembly, e: ElementModel)
    requires
        text_or_children(e),
    ensures
        assemble_from(a, element_tokens(e)) == Some(attach(a, e)),
    decreases e, 0nat,
{
    let n = a.open.len();
    let blank = ElementModel {
        tag: e.tag,
        attributes: Seq::empty(),
        children: Seq::empty(),
        inner_text: None,
    };
    let a1 = Assembly { open: a.open.push(blank), done: a.done };
    let head = seq![TokenModel::StartTag(e.tag)];
    let attrs = attribute_tokens(e.attributes);
    let body = match e.inner_text {
        Some(t) => seq![TokenModel::Text(t)],
        None => forest_prefix_tokens(e.children, e.children.len() as int),
    };
    let tail = seq![TokenModel::EndTag];
    assert(element_tokens(e) == head + attrs + body + tail);
    lemma_assemble_from_concat(a, head + attrs + body, tail);
    lemma_assemble_from_concat(a, head + attrs, body);
    lemma_assemble_from_concat(a, head, attrs);
    lemma_assemble_one(a, TokenModel::StartTag(e.tag));
    assert(assemble_from(a, head) == Some(a1));
    lemma_assemble_attributes(a1, e.attributes);
    let with_attrs = ElementModel { attributes: e.attributes, ..blank };
    assert(blank.attributes + e.attributes =~= e.attributes);
    let a2 = Assembly { open: a.open.push(with_attrs), done: a.done };
    assert(with_top(a1.open, with_attrs) =~= a2.open);
    assert(assemble_from(a, head + attrs) == Some(a2));
    match e.inner_text {
        Some(t) => {
            let full = ElementModel { inner_text: Some(t), ..with_attrs };
            let a3 = Assembly { open: a.open.push(full), done: a.done };
            assert(with_top(a2.open, full) =~= a3.open);
            lemma_assemble_one(a2, TokenModel::Text(t));
            assert(assemble_from(a2, body) == Some(a3));
            assert(full == e) by {
                assert(e.children =~= Seq::<ElementModel>::empty());
            }
            close_attaches(a, e);
            lemma_assemble_one(a3, TokenModel::EndTag);
        },
        None => {
            lemma_assemble_forest(a2, e.children, e.children.len() as int);
            let full = ElementModel { children: e.children.take(e.children.len() as int), ..with_attrs };
            assert(with_attrs.children + e.children.take(e.children.len() as int) =~= e.children);
            assert(full == e) by {
                assert(e.children.take(e.children.len() as int) =~= e.children);
            }
            let a3 = Assembly { open: a.open.push(full), done: a.done };
            assert(with_top(a2.open, full) =~= a3.open);
            close_attaches(a, e);
            lemma_assemble_one(a3, TokenModel::EndTag);
        },
    }
}

/// Closing `e` on top of `a`'s open elements attaches it.
proof fn close_attaches(a: Assembly, e: ElementModel)
    ensures
        assemble_step(Assembly { open: a.open.push(e), done: a.done }, TokenModel::EndTag) == Some(
            attach(a, e),
        ),
{
    let b = Assembly { open: a.open.push(e), done: a.done };
    assert(b.open.drop_last() =~= a.open);
}

proof fn lemma_assemble_forest(a: Assembly, f: Seq<ElementModel>, n: int)
    requires
        a.open.len() > 0,
        0 <= n <= f.len(),
        forall|i: int| 0 <= i < f.len() ==> text_or_children(#[trigger] f[i]),
    ensures
        assemble_from(a, forest_prefix_tokens(f, n)) == Some(
            Assembly {
                open: with_top(
                    a.open,
                    ElementModel {
                        children: a.open[a.open.len() - 1].children + f.take(n),
                        ..a.open[a.open.len() - 1]
                    },
                ),
                done: a.done,
            },
        ),
    decreases f, n,
{
    let k = a.open.len();
    let top = a.open[k - 1];
    if n == 0 {
        assert(top.children + f.take(0) =~= top.children);
        assert(with_top(a.open, ElementModel { children: top.children + f.take(0), ..top })
            =~= a.open);
    } else {
        lemma_assemble_forest(a, f, n - 1);
        let b = Assembly {
            open: with_top(a.open, ElementModel { children: top.children + f.take(n - 1), ..top }),
            done: a.done,
        };
        lemma_assemble_from_concat(a, forest_prefix_tokens(f, n - 1), element_tokens(f[n - 1]));
        lemma_assemble_element(b, f[n - 1]);
        let x = ElementModel { children: top.children + f.take(n - 1), ..top };
        let y = ElementModel { children: top.children + f.take(n), ..top };
        assert(b.open[k - 1] == x);
        assert(x.children.push(f[n - 1]) =~= y.children);
        assert(ElementModel { children: x.children.push(f[n - 1]), ..x } == y);
        assert(attach(b, f[n - 1]).open =~= with_top(
            a.open,
            ElementModel { children: top.children + f.take(n), ..top },
        ));
    }
}

/// Where `s` holds no `c`.
pub open spec fn no_char(s: Seq<char>, c: char) -> bool {
    forall|i: int| 0 <= i < s.len() ==> s[i] != c
}

/// The content of an element's start tag, between `<` and `>`.
pub open spec fn header_text(e: ElementModel) -> Seq<char> {
    e.tag + attributes_text(e.attributes)
}

/// The tokens of an element's start tag.
pub open spec fn header_tokens(e: ElementModel) -> Seq<TokenModel> {
    seq![TokenModel::StartTag(e.tag)] + attribute_tokens(e.attributes)
}

/// An element whose start tag, once written, reads back as its name and
/// attributes.
pub open spec fn header_reads_back(e: ElementModel) -> bool {
    let c = header_text(e);
    &&& no_char(c, '>')
    &&& c.len() > 0 ==> c[0] != '/' && c[0] != '!'
    &&& tag_tokens(c) == header_tokens(e)
}

/// Text that reads back as one text token.
pub open spec fn text_reads_back(t: Seq<char>) -> bool {
    &&& t.len() > 0
    &&& !is_white_space(t[0])
    &&& no_char(t, '<')
}

/// An element whose markup reads back as itself, and so all the way down.
pub open spec fn element_reads_back(e: ElementModel) -> bool
    decreases e,
{
    &&& header_reads_back(e)
    &&& match e.inner_text {
        Some(t) => text_reads_back(t) && e.children.len() == 0,
        None => forall|i: int|
            0 <= i < e.children.len() ==> element_reads_back(#[trigger] e.children[i]),
    }
}

proof fn lemma_reads_back_text_or_children(e: ElementModel)
    requires
        element_reads_back(e),
    ensures
        text_or_children(e),
    decreases e,
{
    assert forall|i: int| 0 <= i < e.children.len() implies text_or_children(
        #[trigger] e.children[i],
    ) by {
        lemma_reads_back_text_or_children(e.children[i]);
    }
}

proof fn lemma_prepend_assoc(a: Seq<TokenModel>, b: Seq<TokenModel>, x: Option<Seq<TokenModel>>)
    ensures
        prepend(a, prepend(b, x)) == prepend(a + b, x),
{
    if let Some(t) = x {
        assert(a + (b + t) =~= a + b + t);
    }
}

proof fn lemma_prepend_empty(x: Option<Seq<TokenModel>>)
    ensures
        prepend(Seq::empty(), x) == x,
{
    if let Some(t) = x {
        assert(Seq::<TokenModel>::empty() + t =~= t);
    }
}

/// Where `s` holds `w` at `p`, each of its positions holds the matching item.
proof fn lemma_holds_at(s: Seq<char>, p: int, w: Seq<char>)
    requires
        0 <= p,
        p + w.len() <= s.len(),
        s.subrange(p, p + w.len()) == w,
    ensures
        forall|i: int| 0 <= i < w.len() ==> s[p + i] == w[i],
{
    assert forall|i: int| 0 <= i < w.len() implies s[p + i] == w[i] by {
        assert(s.subrange(p, p + w.len())[i] == s[p + i]);
    }
}

/// The end tag `</tag>` at `p` reads as one end token.
proof fn lemma_tokens_end_tag(s: Seq<char>, p: int, tag: Seq<char>)
    requires
        0 <= p,
        p + tag.len() + 3 <= s.len(),
        s.subrange(p, p + tag.len() + 3) == seq!['<', '/'] + tag + seq!['>'],
        no_char(tag, '>'),
    ensures
        tokens_from(s, p) == prepend(seq![TokenModel::EndTag], tokens_from(s, p + tag.len() + 3)),
{
    let w = seq!['<', '/'] + tag + seq!['>'];
    lemma_holds_at(s, p, w);
    assert(w[0] == '<');
    assert(w[1] == '/');
    assert(s[p] == '<');
    assert(s[p + 1] == '/');
    assert(skip_space(s, p) == p);
    assert forall|j: int| p + 1 <= j < p + tag.len() + 2 implies s[j] != '>' by {
        assert(s[j] == w[j - p]);
        if j > p + 1 {
            assert(w[j - p] == tag[j - p - 2]);
        }
    }
    assert(s[p + tag.len() + 2] == w[tag.len() + 2int]);
    lemma_find_from_at(s, p + 1, '>', p + tag.len() + 2);
}

/// Text at `p` reads as one text token.
proof fn lemma_tokens_text(s: Seq<char>, p: int, t: Seq<char>)
    requires
        0 <= p,
        p + t.len() < s.len(),
        s.subrange(p, p + t.len()) == t,
        s[p + t.len()] == '<',
        text_reads_back(t),
    ensures
        tokens_from(s, p) == prepend(seq![TokenModel::Text(t)], tokens_from(s, p + t.len())),
{
    lemma_holds_at(s, p, t);
    assert(s[p] == t[0]);
    assert(skip_space(s, p) == p);
    assert forall|j: int| p <= j < p + t.len() implies s[j] != '<' by {
        assert(s[j] == t[j - p]);
    }
    lemma_find_from_at(s, p, '<', p + t.len());
}

/// The markup of a well-shaped element at `p` reads as its tokens.
proof fn lemma_tokens_element(s: Seq<char>, p: int, e: ElementModel)
    requires
        0 <= p,
        p + element_text(e).len() <= s.len(),
        s.subrange(p, p + element_text(e).len()) == element_text(e),
        element_reads_back(e),
    ensures
        tokens_from(s, p) == prepend(element_tokens(e), tokens_from(s, p + element_text(e).len())),
    decreases e, 0nat,
{
    let c = header_text(e);
    let body = match e.inner_text {
        Some(t) => t,
        None => forest_prefix_text(e.children, e.children.len() as int),
    };
    let end = seq!['<', '/'] + e.tag + seq!['>'];
    let w = element_text(e);
    assert(w =~= seq!['<'] + c + seq!['>'] + body + end);
    let p2 = p + c.len() + 2;
    let p3 = p2 + body.len();
    lemma_holds_at(s, p, w);
    // the start tag
    assert(w[0] == '<');
    assert(s[p] == '<');
    assert(skip_space(s, p) == p);
    assert(s[p + 1] == w[1]);
    if c.len() > 0 {
        assert(w[1] == c[0]);
    }
    assert forall|j: int| p + 1 <= j < p + 1 + c.len() implies s[j] != '>' by {
        assert(s[j] == w[j - p]);
        assert(w[j - p] == c[j - p - 1]);
    }
    assert(s[p + 1 + c.len()] == w[c.len() + 1int]);
    lemma_find_from_at(s, p + 1, '>', p + 1 + c.len());
    assert(s.subrange(p + 1, p + 1 + c.len()) =~= c) by {
        assert forall|j: int| 0 <= j < c.len() implies s.subrange(p + 1, p + 1 + c.len())[j]
            == c[j] by {
            assert(s[p + 1 + j] == w[j + 1]);
        }
    }
    assert(tokens_from(s, p) == prepend(header_tokens(e), tokens_from(s, p2)));
    // the end tag
    assert(no_char(e.tag, '>')) by {
        assert forall|i: int| 0 <= i < e.tag.len() implies e.tag[i] != '>' by {
            assert(c[i] == e.tag[i]);
        }
    }
    assert(s.subrange(p3, p3 + e.tag.len() + 3) =~= end) by {
        assert forall|j: int| 0 <= j < end.len() implies s.subrange(p3, p3 + e.tag.len() + 3)[j]
            == end[j] by {
            assert(s[p3 + j] == w[p3 - p + j]);
        }
    }
    lemma_tokens_end_tag(s, p3, e.tag);
    assert(s.subrange(p2, p3) =~= body) by {
        assert forall|j: int| 0 <= j < body.len() implies s.subrange(p2, p3)[j] == body[j] by {
            assert(s[p2 + j] == w[p2 - p + j]);
        }
    }
    // the body
    let body_tokens = match e.inner_text {
        Some(t) => seq![TokenModel::Text(t)],
        None => forest_prefix_tokens(e.children, e.children.len() as int),
    };
    match e.inner_text {
        Some(t) => {
            assert(s[p3] == w[p3 - p]);
            lemma_tokens_text(s, p2, t);
        },
        None => {
            lemma_tokens_forest(s, p2, e.children, e.children.len() as int);
        },
    }
    assert(tokens_from(s, p2) == prepend(body_tokens, tokens_from(s, p3)));
    lemma_prepend_assoc(body_tokens, seq![TokenModel::EndTag], tokens_from(s, p3 + e.tag.len() + 3));
    lemma_prepend_assoc(
        header_tokens(e),
        body_tokens + seq![TokenModel::EndTag],
        tokens_from(s, p3 + e.tag.len() + 3),
    );
    assert(header_tokens(e) + (body_tokens + seq![TokenModel::EndTag]) =~= element_tokens(e));
    assert(p3 + e.tag.len() + 3 == p + w.len());
}

/// The markup of the first `n` elements of a well-shaped forest at `p`
/// reads as their tokens.
proof fn lemma_tokens_forest(s: Seq<char>, p: int, f: Seq<ElementModel>, n: int)
    requires
        0 <= p,
        0 <= n <= f.len(),
        p + forest_prefix_text(f, n).len() <= s.len(),
        s.subrange(p, p + forest_prefix_text(f, n).len()) == forest_prefix_text(f, n),
        forall|i: int| 0 <= i < f.len() ==> element_reads_back(#[trigger] f[i]),
    ensures
        tokens_from(s, p) == prepend(
            forest_prefix_tokens(f, n),
            tokens_from(s, p + forest_prefix_text(f, n).len()),
        ),
    decreases f, n,
{
    if n == 0 {
        lemma_prepend_empty(tokens_from(s, p));
    } else {
        let t = forest_prefix_text(f, n - 1);
        let et = element_text(f[n - 1]);
        let w = forest_prefix_text(f, n);
        assert(w == t + et);
        lemma_holds_at(s, p, w);
        assert(s.subrange(p, p + t.len()) =~= t) by {
            assert forall|j: int| 0 <= j < t.len() implies s.subrange(p, p + t.len())[j] == t[j] by {
                assert(s[p + j] == w[j]);
            }
        }
        assert(s.subrange(p + t.len(), p + w.len()) =~= et) by {
            assert forall|j: int| 0 <= j < et.len() implies s.subrange(p + t.len(), p + w.len())[j]
                == et[j] by {
                assert(s[p + t.len() + j] == w[t.len() + j]);
            }
        }
        lemma_tokens_forest(s, p, f, n - 1);
        lemma_tokens_element(s, p + t.len(), f[n - 1]);
        lemma_prepend_assoc(
            forest_prefix_tokens(f, n - 1),
            element_tokens(f[n - 1]),
            tokens_from(s, p + w.len()),
        );
    }
}

proof fn lemma_assemble_top_forest(a: Assembly, f: Seq<ElementModel>, n: int)
    requires
        a.open.len() == 0,
        0 <= n <= f.len(),
        forall|i: int| 0 <= i < f.len() ==> text_or_children(#[trigger] f[i]),
    ensures
        assemble_from(a, forest_prefix_tokens(f, n)) == Some(
            Assembly { open: a.open, done: a.done + f.take(n) },
        ),
    decreases n,
{
    if n == 0 {
        assert(a.done + f.take(0) =~= a.done);
    } else {
        lemma_assemble_top_forest(a, f, n - 1);
        let b = Assembly { open: a.open, done: a.done + f.take(n - 1) };
        lemma_assemble_from_concat(a, forest_prefix_tokens(f, n - 1), element_tokens(f[n - 1]));
        lemma_assemble_element(b, f[n - 1]);
        assert(b.done.push(f[n - 1]) =~= a.done + f.take(n));
    }
}

/// Writing out a forest whose elements all read back, and parsing the
/// result, gives the same forest.
pub proof fn lemma_parse_forest_text(f: Seq<ElementModel>)
    requires
        forall|i: int| 0 <= i < f.len() ==> element_reads_back(#[trigger] f[i]),
    ensures
        parse(forest_text(f)) == Ok::<Seq<ElementModel>, crate::HtmlError>(f),
{
    let s = forest_text(f);
    let n = f.len() as int;
    assert(s.subrange(0, s.len() as int) =~= s);
    lemma_tokens_forest(s, 0, f, n);
    assert(tokens_from(s, s.len() as int) == Some(Seq::<TokenModel>::empty()));
    let ts = forest_prefix_tokens(f, n);
    assert(ts + Seq::<TokenModel>::empty() =~= ts);
    assert(tokenize(s) == Some(ts));
    assert forall|i: int| 0 <= i < f.len() implies text_or_children(#[trigger] f[i]) by {
        lemma_reads_back_text_or_children(f[i]);
    }
    let init = Assembly { open: Seq::empty(), done: Seq::empty() };
    lemma_assemble_all_from(ts);
    lemma_assemble_top_forest(init, f, n);
    assert(init.done + f.take(n) =~= f);
}

/// The name and value that one fragment of a tag's content gives.
pub open spec fn attribute_pair(frag: Seq<char>) -> AttributeModel {
    match find_from(frag, 0, '=') {
        Some(j) => (
            trim(frag.subrange(0, j)),
            Some(strip_quotes(trim(frag.subrange(j + 1, frag.len() as int)))),
        ),
        None => (trim(frag), None),
    }
}

/// An attribute as written, without the space before it.
pub open spec fn attribute_markup(a: AttributeModel) -> Seq<char> {
    match a.1 {
        Some(v) => a.0 + seq!['=', '"'] + v + seq!['"'],
        None => a.0,
    }
}

/// The pieces `ws` joined by single spaces.
pub open spec fn join_space(ws: Seq<Seq<char>>) -> Seq<char>
    decreases ws.len(),
{
    if ws.len() <= 1 {
        if ws.len() == 1 {
            ws[0]
        } else {
            Seq::empty()
        }
    } else {
        join_space(ws.drop_last()) + seq![' '] + ws.last()
    }
}

/// The element that a start tag with content `c` opens.
pub open spec fn opened_element(c: Seq<char>) -> ElementModel {
    match find_from(c, 0, ' ') {
        Some(i) => ElementModel {
            tag: c.subrange(0, i),
            attributes: split_space(trim(c.subrange(i, c.len() as int))).map_values(
                |f: Seq<char>| attribute_pair(f),
            ),
            children: Seq::empty(),
            inner_text: None,
        },
        None => ElementModel {
            tag: c,
            attributes: Seq::empty(),
            children: Seq::empty(),
            inner_text: None,
        },
    }
}

proof fn lemma_no_char_subrange(x: Seq<char>, a: int, b: int, ch: char)
    requires
        no_char(x, ch),
        0 <= a <= b <= x.len(),
    ensures
        no_char(x.subrange(a, b), ch),
{
    assert forall|i: int| 0 <= i < b - a implies x.subrange(a, b)[i] != ch by {
        assert(x.subrange(a, b)[i] == x[a + i]);
    }
}

proof fn lemma_space_end(s: Seq<char>, q: int)
    requires
        0 <= q <= s.len(),
    ensures
        0 <= space_end(s, q) <= q,
        space_end(s, q) > 0 ==> !is_white_space(s[space_end(s, q) - 1]),
        forall|j: int| space_end(s, q) <= j < q ==> is_white_space(s[j]),
    decreases q,
{
    if 0 < q && is_white_space(s[q - 1]) {
        lemma_space_end(s, q - 1);
    }
}

/// `trim` keeps a subrange; where the result is not empty its ends are not
/// white space.
proof fn lemma_trim(x: Seq<char>)
    ensures
        trim(x).len() > 0 ==> !is_white_space(trim(x)[0]) && !is_white_space(
            trim(x)[trim(x).len() - 1],
        ),
        forall|ch: char| no_char(x, ch) ==> #[trigger] no_char(trim(x), ch),
        x.len() > 0 && !is_white_space(x[0]) ==> trim(x).len() > 0 && trim(x)[0] == x[0],
        x.len() > 0 && !is_white_space(x[x.len() - 1]) ==> trim(x).len() > 0 && trim(x)[trim(
            x,
        ).len() - 1] == x[x.len() - 1],
        x.len() > 0 && !is_white_space(x[0]) && !is_white_space(x[x.len() - 1]) ==> trim(x)
            == x,
{
    let a = skip_space(x, 0);
    let b = space_end(x, x.len() as int);
    lemma_skip_space(x, 0);
    lemma_space_end(x, x.len() as int);
    if x.len() > 0 {
        if a < x.len() {
            assert(!is_white_space(x[a]));
        }
    }
    assert forall|ch: char| no_char(x, ch) implies #[trigger] no_char(trim(x), ch) by {
        if a < b {
            lemma_no_char_subrange(x, a, b, ch);
        }
    }
    if x.len() > 0 && !is_white_space(x[0]) {
        assert(a == 0);
        assert(b > 0) by {
            if b == 0 {
                assert(is_white_space(x[0]));
            }
        }
    }
    if x.len() > 0 && !is_white_space(x[x.len() - 1]) {
        assert(b == x.len());
        assert(a < b) by {
            if a >= x.len() {
                assert(is_white_space(x[x.len() - 1]));
            }
        }
    }
    if x.len() > 0 && !is_white_space(x[0]) && !is_white_space(x[x.len() - 1]) {
        assert(trim(x) =~= x);
    }
}

proof fn lemma_trim_twice(x: Seq<char>)
    ensures
        trim(trim(x)) == trim(x),
{
    lemma_trim(x);
    lemma_trim(trim(x));
    if trim(x).len() == 0 {
        assert(trim(trim(x)) =~= trim(x));
    }
}

/// The pieces that splitting gives.
proof fn lemma_split_pieces(x: Seq<char>)
    ensures
        split_space(x).len() >= 1,
        forall|i: int| 0 <= i < split_space(x).len() ==> no_char(#[trigger] split_space(x)[i], ' '),
        forall|ch: char, i: int|
            no_char(x, ch) && 0 <= i < split_space(x).len() ==> #[trigger] no_char(
                split_space(x)[i],
                ch,
            ),
        x.len() > 0 && x[0] != ' ' ==> split_space(x)[0].len() > 0 && split_space(x)[0][0]
            == x[0],
        x.len() > 0 && x[x.len() - 1] != ' ' ==> split_space(x).last().len() > 0 && split_space(
            x,
        ).last().last() == x[x.len() - 1],
    decreases x.len(),
{
    crate::reader::lemma_find_from_bounds(x, 0, ' ');
    match find_from(x, 0, ' ') {
        Some(i) => {
            let head = x.subrange(0, i);
            let tail = x.subrange(i + 1, x.len() as int);
            lemma_split_pieces(tail);
            assert(split_space(x) == seq![head] + split_space(tail));
            assert forall|ch: char, k: int|
                no_char(x, ch) && 0 <= k < split_space(x).len() implies #[trigger] no_char(
                split_space(x)[k],
                ch,
            ) by {
                lemma_no_char_subrange(x, 0, i, ch);
                lemma_no_char_subrange(x, i + 1, x.len() as int, ch);
                if k > 0 {
                    assert(split_space(x)[k] == split_space(tail)[k - 1]);
                }
            }
            assert forall|k: int| 0 <= k < split_space(x).len() implies no_char(
                #[trigger] split_space(x)[k],
                ' ',
            ) by {
                if k > 0 {
                    assert(split_space(x)[k] == split_space(tail)[k - 1]);
                } else {
                    assert forall|j: int| 0 <= j < head.len() implies head[j] != ' ' by {
                        assert(head[j] == x[j]);
                    }
                }
            }
            if x.len() > 0 && x[x.len() - 1] != ' ' {
                assert(tail.len() > 0 && tail[tail.len() - 1] == x[x.len() - 1]);
            }
        },
        None => {
            assert(split_space(x) == seq![x]);
        },
    }
}

/// Splitting pieces that were joined by single spaces gives them back.
proof fn lemma_split_join(ws: Seq<Seq<char>>)
    requires
        ws.len() >= 1,
        forall|i: int| 0 <= i < ws.len() ==> no_char(#[trigger] ws[i], ' '),
    ensures
        split_space(join_space(ws)) == ws,
    decreases ws.len(),
{
    if ws.len() == 1 {
        lemma_find_from_at(ws[0], 0, ' ', ws[0].len() as int);
        assert(split_space(ws[0]) == seq![ws[0]]);
        assert(seq![ws[0]] =~= ws);
    } else {
        let init = ws.drop_last();
        assert forall|i: int| 0 <= i < init.len() implies no_char(#[trigger] init[i], ' ') by {
            assert(init[i] == ws[i]);
        }
        lemma_split_join(init);
        lemma_split_append(join_space(init), ws.last());
        assert(init.push(ws.last()) =~= ws);
    }
}

/// Splitting `x`, a space and a piece without spaces gives the pieces of `x`
/// and that piece.
proof fn lemma_split_append(x: Seq<char>, w: Seq<char>)
    requires
        no_char(w, ' '),
    ensures
        split_space(x + seq![' '] + w) == split_space(x).push(w),
    decreases x.len(),
{
    let y = x + seq![' '] + w;
    crate::reader::lemma_find_from_bounds(x, 0, ' ');
    match find_from(x, 0, ' ') {
        Some(i) => {
            lemma_find_from_at(y, 0, ' ', i);
            let tail = x.subrange(i + 1, x.len() as int);
            assert(y.subrange(0, i) =~= x.subrange(0, i));
            assert(y.subrange(i + 1, y.len() as int) =~= tail + seq![' '] + w);
            lemma_split_append(tail, w);
            assert(split_space(x) == seq![x.subrange(0, i)] + split_space(tail));
            assert(seq![x.subrange(0, i)] + split_space(tail).push(w) =~= (seq![x.subrange(0, i)]
                + split_space(tail)).push(w));
        },
        None => {
            lemma_find_from_at(x, 0, ' ', x.len() as int);
            assert forall|j: int| 0 <= j < x.len() implies y[j] != ' ' by {
                assert(y[j] == x[j]);
            }
            assert(y[x.len() as int] == ' ');
            lemma_find_from_at(y, 0, ' ', x.len() as int);
            assert(y.subrange(0, x.len() as int) =~= x);
            assert(y.subrange(x.len() + 1int, y.len() as int) =~= w);
            lemma_find_from_at(w, 0, ' ', w.len() as int);
            assert(split_space(w) == seq![w]);
            assert(split_space(x) == seq![x]);
            assert(seq![x] + seq![w] =~= seq![x].push(w));
        },
    }
}

/// The markup of a non-empty attribute list is a space and the attributes
/// joined by spaces.
proof fn lemma_attributes_text_join(attrs: Seq<AttributeModel>)
    requires
        attrs.len() >= 1,
    ensures
        attributes_text(attrs) == seq![' '] + join_space(
            attrs.map_values(|a: AttributeModel| attribute_markup(a)),
        ),
    decreases attrs.len(),
{
    let ms = attrs.map_values(|a: AttributeModel| attribute_markup(a));
    let init = attrs.drop_last();
    assert(attribute_text(attrs.last()) =~= seq![' '] + attribute_markup(attrs.last()));
    if attrs.len() == 1 {
        assert(init.len() == 0);
        assert(attributes_text(init) =~= Seq::<char>::empty());
    } else {
        lemma_attributes_text_join(init);
        assert(init.map_values(|a: AttributeModel| attribute_markup(a)) =~= ms.drop_last());
        assert(attributes_text(attrs) =~= seq![' '] + join_space(ms));
    }
}

proof fn lemma_no_char_concat(x: Seq<char>, y: Seq<char>, ch: char)
    requires
        no_char(x, ch),
        no_char(y, ch),
    ensures
        no_char(x + y, ch),
{
    assert forall|i: int| 0 <= i < (x + y).len() implies (x + y)[i] != ch by {
        if i >= x.len() {
            assert((x + y)[i] == y[i - x.len()]);
        }
    }
}

/// The ends and the characters of pieces joined by spaces.
proof fn lemma_join_space(ws: Seq<Seq<char>>, ch: char)
    requires
        ws.len() >= 1,
    ensures
        ws[0].len() > 0 ==> join_space(ws).len() > 0 && join_space(ws)[0] == ws[0][0],
        ws.last().len() > 0 ==> join_space(ws).len() > 0 && join_space(ws).last()
            == ws.last().last(),
        ch != ' ' && (forall|i: int| 0 <= i < ws.len() ==> no_char(#[trigger] ws[i], ch))
            ==> no_char(join_space(ws), ch),
    decreases ws.len(),
{
    if ws.len() > 1 {
        let init = ws.drop_last();
        lemma_join_space(init, ch);
        assert(init[0] == ws[0]);
        if ch != ' ' && (forall|i: int| 0 <= i < ws.len() ==> no_char(#[trigger] ws[i], ch)) {
            assert(no_char(init.last(), ch));
            assert(no_char(join_space(init), ch)) by {
                assert forall|i: int| 0 <= i < init.len() implies no_char(#[trigger] init[i], ch) by {
                    assert(init[i] == ws[i]);
                }
            }
            lemma_no_char_concat(join_space(init), seq![' '], ch);
            lemma_no_char_concat(join_space(init) + seq![' '], ws.last(), ch);
        }
    }
}

/// Writing out the attribute of a fragment and reading it again gives the
/// same attribute.
proof fn lemma_attribute_markup(frag: Seq<char>)
    requires
        no_char(frag, ' '),
    ensures
        attribute_pair(attribute_markup(attribute_pair(frag))) == attribute_pair(frag),
        no_char(attribute_markup(attribute_pair(frag)), ' '),
        no_char(frag, '>') ==> no_char(attribute_markup(attribute_pair(frag)), '>'),
        frag.len() > 0 && !is_white_space(frag[0]) ==> attribute_markup(attribute_pair(frag)).len()
            > 0 && !is_white_space(attribute_markup(attribute_pair(frag))[0]),
        frag.len() > 0 && !is_white_space(frag[frag.len() - 1]) ==> attribute_markup(
            attribute_pair(frag),
        ).len() > 0 && !is_white_space(attribute_markup(attribute_pair(frag)).last()),
{
    let a = attribute_pair(frag);
    let m = attribute_markup(a);
    crate::reader::lemma_find_from_bounds(frag, 0, '=');
    match find_from(frag, 0, '=') {
        Some(j) => {
            let head = frag.subrange(0, j);
            let tail = frag.subrange(j + 1, frag.len() as int);
            let name = trim(head);
            let v = strip_quotes(trim(tail));
            assert(no_char(head, '=')) by {
                assert forall|k: int| 0 <= k < head.len() implies head[k] != '=' by {
                    assert(head[k] == frag[k]);
                }
            }
            lemma_trim(head);
            lemma_trim(tail);
            lemma_trim_twice(head);
            lemma_no_char_subrange(frag, 0, j, ' ');
            lemma_no_char_subrange(frag, j + 1, frag.len() as int, ' ');
            assert(no_char(name, '='));
            assert(no_char(v, ' ')) by {
                assert(no_char(trim(tail), ' '));
                if trim(tail).len() >= 2 && trim(tail)[0] == '"' && trim(tail)[trim(tail).len() - 1]
                    == '"' {
                    lemma_no_char_subrange(trim(tail), 1, trim(tail).len() - 1, ' ');
                }
            }
            let q = seq!['"'] + v + seq!['"'];
            assert(m =~= name + seq!['='] + q);
            // reading `m` again
            assert forall|k: int| 0 <= k < name.len() implies m[k] != '=' by {
                assert(m[k] == name[k]);
            }
            assert(m[name.len() as int] == '=');
            lemma_find_from_at(m, 0, '=', name.len() as int);
            assert(m.subrange(0, name.len() as int) =~= name);
            assert(m.subrange(name.len() + 1int, m.len() as int) =~= q);
            lemma_trim(q);
            assert(trim(q) == q);
            assert(strip_quotes(q) =~= v);
            // characters of `m`
            lemma_no_char_concat(name, seq!['=', '"'], ' ');
            lemma_no_char_concat(name + seq!['=', '"'], v, ' ');
            lemma_no_char_concat(name + seq!['=', '"'] + v, seq!['"'], ' ');
            if no_char(frag, '>') {
                lemma_no_char_subrange(frag, 0, j, '>');
                lemma_no_char_subrange(frag, j + 1, frag.len() as int, '>');
                assert(no_char(trim(head), '>'));
                assert(no_char(trim(tail), '>'));
                assert(no_char(v, '>')) by {
                    if trim(tail).len() >= 2 && trim(tail)[0] == '"' && trim(tail)[trim(tail).len()
                        - 1] == '"' {
                        lemma_no_char_subrange(trim(tail), 1, trim(tail).len() - 1, '>');
                    }
                }
                lemma_no_char_concat(name, seq!['=', '"'], '>');
                lemma_no_char_concat(name + seq!['=', '"'], v, '>');
                lemma_no_char_concat(name + seq!['=', '"'] + v, seq!['"'], '>');
            }
            if frag.len() > 0 && !is_white_space(frag[0]) {
                if j > 0 {
                    assert(head[0] == frag[0]);
                    assert(m[0] == name[0]);
                } else {
                    assert(head.len() == 0);
                    assert(name.len() == 0);
                    assert(m[0] == '=');
                }
            }
            assert(m.last() == '"');
        },
        None => {
            lemma_find_from_at(frag, 0, '=', frag.len() as int);
            lemma_trim(frag);
            lemma_trim_twice(frag);
            assert(no_char(frag, '=')) by {
                assert forall|k: int| 0 <= k < frag.len() implies frag[k] != '=' by {
                    assert(find_from(frag, 0, '=') is None);
                }
            }
            assert(no_char(m, '='));
            lemma_find_from_at(m, 0, '=', m.len() as int);
        },
    }
}

/// The element a start tag opens, and that its content reads back.
proof fn lemma_opened_element(c: Seq<char>)
    requires
        no_char(c, '>'),
        c.len() > 0 ==> c[0] != '/' && c[0] != '!',
    ensures
        tag_tokens(c) == header_tokens(opened_element(c)),
        header_reads_back(opened_element(c)),
{
    let e = opened_element(c);
    crate::reader::lemma_find_from_bounds(c, 0, ' ');
    match find_from(c, 0, ' ') {
        None => {
            assert(attributes_text(e.attributes) =~= Seq::<char>::empty());
            assert(header_text(e) =~= c);
            assert(attribute_tokens(e.attributes) =~= Seq::<TokenModel>::empty());
            assert(header_tokens(e) =~= seq![TokenModel::StartTag(c)]);
        },
        Some(i) => {
            let tag = c.subrange(0, i);
            let r = trim(c.subrange(i, c.len() as int));
            let frags = split_space(r);
            let attrs = e.attributes;
            let ms = attrs.map_values(|a: AttributeModel| attribute_markup(a));
            lemma_split_pieces(r);
            lemma_trim(c.subrange(i, c.len() as int));
            lemma_no_char_subrange(c, i, c.len() as int, '>');
            assert(no_char(r, '>'));
            assert(no_char(tag, ' ')) by {
                assert forall|k: int| 0 <= k < tag.len() implies tag[k] != ' ' by {
                    assert(tag[k] == c[k]);
                }
            }
            lemma_no_char_subrange(c, 0, i, '>');
            assert forall|k: int| 0 <= k < frags.len() implies #[trigger] attribute_of(frags[k])
                == TokenModel::Attribute(attrs[k].0, attrs[k].1) by {}
            assert(attributes_of(frags) =~= attribute_tokens(attrs));
            assert(tag_tokens(c) == header_tokens(e));
            // the markup of the attributes
            assert forall|k: int| 0 <= k < ms.len() implies no_char(#[trigger] ms[k], ' ')
                && no_char(ms[k], '>') && attribute_pair(ms[k]) == attrs[k] by {
                assert(no_char(frags[k], ' '));
                assert(no_char(frags[k], '>'));
                lemma_attribute_markup(frags[k]);
            }
            lemma_split_join(ms);
            lemma_join_space(ms, '>');
            lemma_attributes_text_join(attrs);
            let j = join_space(ms);
            let h = header_text(e);
            assert(h =~= tag + (seq![' '] + j));
            assert(no_char(seq![' '] + j, '>')) by {
                lemma_no_char_concat(seq![' '], j, '>');
            }
            lemma_no_char_concat(tag, seq![' '] + j, '>');
            assert(h[tag.len() as int] == ' ');
            assert forall|k: int| 0 <= k < tag.len() implies h[k] != ' ' by {
                assert(h[k] == tag[k]);
            }
            lemma_find_from_at(h, 0, ' ', tag.len() as int);
            assert(h.subrange(0, tag.len() as int) =~= tag);
            assert(h.subrange(tag.len() as int, h.len() as int) =~= seq![' '] + j);
            if tag.len() > 0 {
                assert(h[0] == c[0]);
            }
            let x = seq![' '] + j;
            if r.len() == 0 {
                assert(split_space(r) == seq![r]);
                assert(r =~= Seq::<char>::empty());
                lemma_trim(Seq::<char>::empty());
                assert(attrs[0] == attribute_pair(Seq::<char>::empty()));
                assert(ms[0] =~= Seq::<char>::empty());
                assert(j =~= Seq::<char>::empty());
                assert(skip_space(x, 1) == 1);
                assert(skip_space(x, 0) == 1);
                assert(space_end(x, 0) == 0);
                assert(space_end(x, 1) == 0);
                assert(trim(x) =~= r);
            } else {
                assert(r[0] != ' ');
                assert(r[r.len() - 1] != ' ');
                lemma_attribute_markup(frags[0]);
                lemma_attribute_markup(frags.last());
                assert(ms[0] == attribute_markup(attribute_pair(frags[0])));
                assert(ms.last() == attribute_markup(attribute_pair(frags.last())));
                assert(x.len() == j.len() + 1);
                assert(x[1] == j[0]);
                assert(skip_space(x, 1) == 1);
                assert(skip_space(x, 0) == 1);
                assert(x[x.len() - 1] == j.last());
                assert(space_end(x, x.len() as int) == x.len());
                assert(trim(x) =~= j);
            }
            assert(attributes_of(ms) =~= attributes_of(frags)) by {
                assert forall|k: int| 0 <= k < ms.len() implies #[trigger] attribute_of(ms[k])
                    == attribute_of(frags[k]) by {}
            }
            assert(tag_tokens(h) == seq![TokenModel::StartTag(tag)] + attributes_of(split_space(trim(x))));
        },
    }
}

/// An element whose start tag and inner text read back, and so all the way
/// down.
pub open spec fn element_shaped(e: ElementModel) -> bool
    decreases e,
{
    &&& header_reads_back(e)
    &&& (e.inner_text matches Some(t) ==> text_reads_back(t))
    &&& forall|i: int| 0 <= i < e.children.len() ==> element_shaped(#[trigger] e.children[i])
}

/// A building state whose elements are all shaped.
pub open spec fn assembly_shaped(a: Assembly) -> bool {
    &&& forall|i: int| 0 <= i < a.open.len() ==> element_shaped(#[trigger] a.open[i])
    &&& forall|i: int| 0 <= i < a.done.len() ==> element_shaped(#[trigger] a.done[i])
}

proof fn lemma_shaped_reads_back(e: ElementModel)
    requires
        element_shaped(e),
        text_or_children(e),
    ensures
        element_reads_back(e),
    decreases e,
{
    assert forall|i: int| 0 <= i < e.children.len() implies element_reads_back(
        #[trigger] e.children[i],
    ) by {
        lemma_shaped_reads_back(e.children[i]);
    }
}

proof fn lemma_step_end_shaped(a: Assembly)
    requires
        assembly_shaped(a),
        assemble_step(a, TokenModel::EndTag) is Some,
    ensures
        assembly_shaped(assemble_step(a, TokenModel::EndTag)->Some_0),
{
    let n = a.open.len();
    let e = a.open[n - 1];
    let rest = a.open.drop_last();
    assert(element_shaped(e));
    if n > 1 {
        let parent = rest[n - 2];
        assert(element_shaped(parent));
        let p2 = ElementModel { children: parent.children.push(e), ..parent };
        assert(element_shaped(p2)) by {
            assert forall|i: int| 0 <= i < p2.children.len() implies element_shaped(
                #[trigger] p2.children[i],
            ) by {
                if i < parent.children.len() {
                    assert(p2.children[i] == parent.children[i]);
                }
            }
        }
    }
}

proof fn lemma_step_text_shaped(a: Assembly, t: Seq<char>)
    requires
        assembly_shaped(a),
        text_reads_back(t),
        assemble_step(a, TokenModel::Text(t)) is Some,
    ensures
        assembly_shaped(assemble_step(a, TokenModel::Text(t))->Some_0),
{
    let n = a.open.len();
    let top = a.open[n - 1];
    assert(element_shaped(top));
    let top2 = ElementModel { inner_text: Some(t), ..top };
    assert(element_shaped(top2));
}

/// Opening the element of a start tag with content `c`.
proof fn lemma_open_shaped(a: Assembly, c: Seq<char>)
    requires
        assembly_shaped(a),
        no_char(c, '>'),
        c.len() > 0 ==> c[0] != '/' && c[0] != '!',
    ensures
        assemble_from(a, tag_tokens(c)) == Some(
            Assembly { open: a.open.push(opened_element(c)), done: a.done },
        ),
        assembly_shaped(Assembly { open: a.open.push(opened_element(c)), done: a.done }),
{
    let e = opened_element(c);
    lemma_opened_element(c);
    let blank = ElementModel {
        tag: e.tag,
        attributes: Seq::empty(),
        children: Seq::empty(),
        inner_text: None,
    };
    let a1 = Assembly { open: a.open.push(blank), done: a.done };
    lemma_assemble_from_concat(
        a,
        seq![TokenModel::StartTag(e.tag)],
        attribute_tokens(e.attributes),
    );
    lemma_assemble_one(a, TokenModel::StartTag(e.tag));
    lemma_assemble_attributes(a1, e.attributes);
    assert(blank.attributes + e.attributes =~= e.attributes);
    assert(e.children =~= Seq::<ElementModel>::empty());
    assert(ElementModel { attributes: blank.attributes + e.attributes, ..blank } == e);
    assert(with_top(a1.open, e) =~= a.open.push(e));
    let b = Assembly { open: a.open.push(e), done: a.done };
    assert(element_shaped(e));
    assert forall|i: int| 0 <= i < b.open.len() implies element_shaped(#[trigger] b.open[i]) by {
        if i < a.open.len() {
            assert(b.open[i] == a.open[i]);
        }
    }
}

/// Building from the tokens of `s` after position `p` keeps every element
/// shaped.
proof fn lemma_tokens_build_shaped(s: Seq<char>, p: int, a: Assembly)
    requires
        assembly_shaped(a),
        tokens_from(s, p) is Some,
        assemble_from(a, tokens_from(s, p)->Some_0) is Some,
    ensures
        assembly_shaped(assemble_from(a, tokens_from(s, p)->Some_0)->Some_0),
    decreases s.len() + 1 - p,
{
    let q = skip_space(s, p);
    let ts = tokens_from(s, p)->Some_0;
    if p < 0 || q >= s.len() {
        assert(ts.len() == 0);
    } else {
        lemma_skip_space(s, p);
        if s[q] == '<' {
            if q + 1 < s.len() && s[q + 1] == '/' {
                crate::reader::lemma_find_from_bounds(s, q + 1, '>');
                let k = find_from(s, q + 1, '>')->Some_0;
                let rest = tokens_from(s, k + 1)->Some_0;
                lemma_assemble_from_concat(a, seq![TokenModel::EndTag], rest);
                lemma_assemble_one(a, TokenModel::EndTag);
                lemma_step_end_shaped(a);
                lemma_tokens_build_shaped(s, k + 1, assemble_step(a, TokenModel::EndTag)->Some_0);
            } else if q + 1 < s.len() && s[q + 1] == '!' {
                crate::reader::lemma_find_from_bounds(s, q + 2, '>');
                if let Some(k) = find_from(s, q + 2, '>') {
                    lemma_tokens_build_shaped(s, k + 1, a);
                }
            } else {
                crate::reader::lemma_find_from_bounds(s, q + 1, '>');
                let k = find_from(s, q + 1, '>')->Some_0;
                let c = s.subrange(q + 1, k);
                let rest = tokens_from(s, k + 1)->Some_0;
                assert(no_char(c, '>')) by {
                    assert forall|j: int| 0 <= j < c.len() implies c[j] != '>' by {
                        assert(c[j] == s[q + 1 + j]);
                    }
                }
                if c.len() > 0 {
                    assert(c[0] == s[q + 1]);
                }
                lemma_open_shaped(a, c);
                lemma_assemble_from_concat(a, tag_tokens(c), rest);
                lemma_tokens_build_shaped(
                    s,
                    k + 1,
                    Assembly { open: a.open.push(opened_element(c)), done: a.done },
                );
            }
        } else {
            crate::reader::lemma_find_from_bounds(s, q, '<');
            let k = find_from(s, q, '<')->Some_0;
            let t = s.subrange(q, k);
            let rest = tokens_from(s, k)->Some_0;
            assert(text_reads_back(t)) by {
                assert(t[0] == s[q]);
                assert forall|j: int| 0 <= j < t.len() implies t[j] != '<' by {
                    assert(t[j] == s[q + j]);
                }
            }
            lemma_assemble_from_concat(a, seq![TokenModel::Text(t)], rest);
            lemma_assemble_one(a, TokenModel::Text(t));
            lemma_step_text_shaped(a, t);
            lemma_tokens_build_shaped(s, k, assemble_step(a, TokenModel::Text(t))->Some_0);
        }
    }
}

/// Parsing markup, writing the forest out and parsing that again gives the
/// same forest, wherever no parsed element holds both inner text and
/// children (writing keeps only the text of such an element).
pub proof fn lemma_parse_write_parse(s: Seq<char>)
    requires
        parse(s) is Ok,
        forall|i: int|
            0 <= i < parse(s)->Ok_0.len() ==> text_or_children(#[trigger] parse(s)->Ok_0[i]),
    ensures
        parse(forest_text(parse(s)->Ok_0)) == parse(s),
{
    let f = parse(s)->Ok_0;
    let ts = tokenize(s)->Some_0;
    let init = Assembly { open: Seq::empty(), done: Seq::empty() };
    lemma_assemble_all_from(ts);
    lemma_tokens_build_shaped(s, 0, init);
    let b = assemble_all(ts)->Some_0;
    assert(b.done == f);
    assert forall|i: int| 0 <= i < f.len() implies element_reads_back(#[trigger] f[i]) by {
        assert(element_shaped(b.done[i]));
        lemma_shaped_reads_back(f[i]);
    }
    lemma_parse_forest_text(f);
}

} // verus!
