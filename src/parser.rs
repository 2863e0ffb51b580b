use vstd::prelude::*;

use crate::reader::{find_from, lemma_find_from_bounds, ReadError, StrReader};
use crate::{element_models, span_opt, AttributeModel, ElementModel, HtmlElement, HtmlError};

verus! {

/// The value of a token as the contracts see it.
pub enum TokenModel {
    StartTag(Seq<char>),
    Attribute(Seq<char>, Option<Seq<char>>),
    EndTag,
    Text(Seq<char>),
}

/// One lexical unit of markup; every span borrows from the scanned buffer.
#[derive(Debug, Clone, Copy, PartialEq, Eq)]
pub enum HtmlAst<'a> {
    StartTag(&'a str),
    Attribute(&'a str, Option<&'a str>),
    EndTag,
    Text(&'a str),
}

impl<'a> View for HtmlAst<'a> {
    type V = TokenModel;

    open spec fn view(&self) -> TokenModel {
        match *self {
            HtmlAst::StartTag(n) => TokenModel::StartTag(n@),
            HtmlAst::Attribute(n, v) => TokenModel::Attribute(n@, span_opt(v)),
            HtmlAst::EndTag => TokenModel::EndTag,
            HtmlAst::Text(t) => TokenModel::Text(t@),
        }
    }
}

/// The values of a sequence of tokens.
pub open spec fn token_models<'a>(v: Seq<HtmlAst<'a>>) -> Seq<TokenModel> {
    v.map_values(|t: HtmlAst<'a>| t@)
}

/// Unicode's White_Space property, which `char::is_whitespace` follows.
pub open spec fn is_white_space(c: char) -> bool {
    let u = c as u32;
    ||| 0x9 <= u <= 0xd
    ||| u == 0x20
    ||| u == 0x85
    ||| u == 0xa0
    ||| u == 0x1680
    ||| 0x2000 <= u <= 0x200a
    ||| u == 0x2028
    ||| u == 0x2029
    ||| u == 0x202f
    ||| u == 0x205f
    ||| u == 0x3000
}

/// The first position at or after `p` that does not hold white space.
pub open spec fn skip_space(s: Seq<char>, p: int) -> int
    decreases s.len() - p,
{
    if 0 <= p < s.len() && is_white_space(s[p]) {
        skip_space(s, p + 1)
    } else {
        p
    }
}

/// The end of `s.subrange(0, q)` once trailing white space is dropped.
pub open spec fn space_end(s: Seq<char>, q: int) -> int
    decreases q,
{
    if 0 < q <= s.len() && is_white_space(s[q - 1]) {
        space_end(s, q - 1)
    } else {
        q
    }
}

/// `s` without leading and trailing white space.
pub open spec fn trim(s: Seq<char>) -> Seq<char> {
    let a = skip_space(s, 0);
    let b = space_end(s, s.len() as int);
    if a >= b {
        Seq::empty()
    } else {
        s.subrange(a, b)
    }
}

/// The pieces of `s` between single spaces; an empty `s` gives one empty piece.
pub open spec fn split_space(s: Seq<char>) -> Seq<Seq<char>>
    decreases s.len(),
{
    match find_from(s, 0, ' ') {
        Some(i) => {
            proof {
                lemma_find_from_bounds(s, 0, ' ');
            }
            seq![s.subrange(0, i)] + split_space(s.subrange(i + 1, s.len() as int))
        },
        None => seq![s],
    }
}

/// `v` without one pair of enclosing double quotes, where it has them.
pub open spec fn strip_quotes(v: Seq<char>) -> Seq<char> {
    if v.len() >= 2 && v[0] == '"' && v[v.len() - 1] == '"' {
        v.subrange(1, v.len() - 1)
    } else {
        v
    }
}

/// The attribute that one fragment of a tag's content stands for.
pub open spec fn attribute_of(frag: Seq<char>) -> TokenModel {
    match find_from(frag, 0, '=') {
        Some(j) => TokenModel::Attribute(
            trim(frag.subrange(0, j)),
            Some(strip_quotes(trim(frag.subrange(j + 1, frag.len() as int)))),
        ),
        None => TokenModel::Attribute(trim(frag), None),
    }
}

/// The attributes that a sequence of fragments stands for.
pub open spec fn attributes_of(frags: Seq<Seq<char>>) -> Seq<TokenModel> {
    frags.map_values(|f: Seq<char>| attribute_of(f))
}

/// The tokens of a start tag whose content between `<` and `>` is `c`.
pub open spec fn tag_tokens(c: Seq<char>) -> Seq<TokenModel> {
    match find_from(c, 0, ' ') {
        Some(i) => seq![TokenModel::StartTag(c.subrange(0, i))] + attributes_of(split_space(
            trim(c.subrange(i, c.len() as int)),
        )),
        None => seq![TokenModel::StartTag(c)],
    }
}

/// `t` after `a`, where `t` is there.
pub open spec fn prepend(a: Seq<TokenModel>, t: Option<Seq<TokenModel>>) -> Option<
    Seq<TokenModel>,
> {
    match t {
        Some(t) => Some(a + t),
        None => None,
    }
}

/// The tokens of `s` from position `p` on, or `None` where a `>` or `<` that
/// is needed never comes.
pub open spec fn tokens_from(s: Seq<char>, p: int) -> Option<Seq<TokenModel>>
    decreases s.len() + 1 - p,
{
    let q = skip_space(s, p);
    if p < 0 || q >= s.len() {
        Some(Seq::empty())
    } else {
        proof {
            lemma_skip_space(s, p);
        }
        if s[q] == '<' {
            if q + 1 < s.len() && s[q + 1] == '/' {
                proof {
                    lemma_find_from_bounds(s, q + 1, '>');
                }
                match find_from(s, q + 1, '>') {
                    Some(k) => prepend(seq![TokenModel::EndTag], tokens_from(s, k + 1)),
                    None => None,
                }
            } else if q + 1 < s.len() && s[q + 1] == '!' {
                proof {
                    lemma_find_from_bounds(s, q + 2, '>');
                }
                match find_from(s, q + 2, '>') {
                    Some(k) => tokens_from(s, k + 1),
                    None => Some(Seq::empty()),
                }
            } else {
                proof {
                    lemma_find_from_bounds(s, q + 1, '>');
                }
                match find_from(s, q + 1, '>') {
                    Some(k) => prepend(tag_tokens(s.subrange(q + 1, k)), tokens_from(s, k + 1)),
                    None => None,
                }
            }
        } else {
            proof {
                lemma_find_from_bounds(s, q, '<');
            }
            match find_from(s, q, '<') {
                Some(k) => prepend(seq![TokenModel::Text(s.subrange(q, k))], tokens_from(s, k)),
                None => None,
            }
        }
    }
}

/// The tokens of the whole of `s`.
pub open spec fn tokenize(s: Seq<char>) -> Option<Seq<TokenModel>> {
    tokens_from(s, 0)
}

pub proof fn lemma_skip_space(s: Seq<char>, p: int)
    ensures
        p <= skip_space(s, p),
        p < s.len() ==> skip_space(s, p) <= s.len(),
        forall|j: int| p <= j < skip_space(s, p) ==> is_white_space(s[j]),
        0 <= p && skip_space(s, p) < s.len() ==> !is_white_space(s[skip_space(s, p)]),
    decreases s.len() - p,
{
    if 0 <= p < s.len() && is_white_space(s[p]) {
        lemma_skip_space(s, p + 1);
    }
}

/// Where a scan that stops at the first item that is not white space ends.
proof fn lemma_skip_space_at(s: Seq<char>, p: int, e: int)
    requires
        0 <= p <= e,
        p >= s.len() ==> e == p,
        p < s.len() ==> e <= s.len(),
        forall|j: int| p <= j < e ==> is_white_space(s[j]),
        e < s.len() ==> !is_white_space(s[e]),
    ensures
        skip_space(s, p) == e,
    decreases e - p,
{
    if p < e {
        lemma_skip_space_at(s, p + 1, e);
    }
}

/// Where a scan that stops at the first `d` ends.
pub proof fn lemma_find_from_at(s: Seq<char>, p: int, d: char, e: int)
    requires
        0 <= p <= e <= s.len(),
        forall|j: int| p <= j < e ==> s[j] != d,
        e < s.len() ==> s[e] == d,
    ensures
        e < s.len() ==> find_from(s, p, d) == Some(e),
        e == s.len() ==> find_from(s, p, d) is None,
    decreases e - p,
{
    if p < e {
        lemma_find_from_at(s, p + 1, d, e);
    }
}

fn is_whitespace(c: char) -> (r: bool)
    ensures
        r == is_white_space(c),
{
    let u = c as u32;
    (0x9 <= u && u <= 0xd) || u == 0x20 || u == 0x85 || u == 0xa0 || u == 0x1680 || (0x2000 <= u
        && u <= 0x200a) || u == 0x2028 || u == 0x2029 || u == 0x202f || u == 0x205f || u == 0x3000
}

fn is_not_tag_close(c: char) -> (r: bool)
    ensures
        r == (c != '>'),
{
    c != '>'
}

/// The first position at or after `from` that holds `c`.
fn index_of(s: &str, from: usize, c: char) -> (r: Option<usize>)
    ensures
        r matches Some(k) ==> find_from(s@, from as int, c) == Some(k as int),
        r is None ==> find_from(s@, from as int, c) is None,
{
    let len = s.unicode_len();
    let mut i: usize = from;
    while i < len
        invariant
            len == s@.len(),
            from <= i,
            find_from(s@, from as int, c) == find_from(s@, i as int, c),
        decreases len - i,
    {
        if s.get_char(i) == c {
            return Some(i);
        }
        i = i + 1;
    }
    None
}

fn trim_str<'a>(s: &'a str) -> (r: &'a str)
    ensures
        r@ == trim(s@),
{
    let len = s.unicode_len();
    let mut a: usize = 0;
    while a < len && is_whitespace(s.get_char(a))
        invariant
            a <= len,
            len == s@.len(),
            skip_space(s@, 0) == skip_space(s@, a as int),
        decreases len - a,
    {
        a = a + 1;
    }
    let mut b: usize = len;
    while b > 0 && is_whitespace(s.get_char(b - 1))
        invariant
            b <= len,
            len == s@.len(),
            space_end(s@, len as int) == space_end(s@, b as int),
        decreases b,
    {
        b = b - 1;
    }
    if a >= b {
        s.substring_char(0, 0)
    } else {
        s.substring_char(a, b)
    }
}

fn strip_quotes_str<'a>(v: &'a str) -> (r: &'a str)
    ensures
        r@ == strip_quotes(v@),
{
    let len = v.unicode_len();
    if len >= 2 && v.get_char(0) == '"' && v.get_char(len - 1) == '"' {
        v.substring_char(1, len - 1)
    } else {
        v
    }
}

fn attribute_token<'a>(frag: &'a str) -> (r: HtmlAst<'a>)
    ensures
        r@ == attribute_of(frag@),
{
    match index_of(frag, 0, '=') {
        Some(j) => {
            proof {
                lemma_find_from_bounds(frag@, 0, '=');
            }
            let len = frag.unicode_len();
            let name = trim_str(frag.substring_char(0, j));
            let value = strip_quotes_str(trim_str(frag.substring_char(j + 1, len)));
            HtmlAst::Attribute(name, Some(value))
        },
        None => HtmlAst::Attribute(trim_str(frag), None),
    }
}

proof fn lemma_push_models<'a>(v: Seq<HtmlAst<'a>>, t: HtmlAst<'a>)
    ensures
        token_models(v.push(t)) == token_models(v) + seq![t@],
{
    assert(token_models(v.push(t)) =~= token_models(v) + seq![t@]);
}

/// Appends the tokens of a start tag whose content is `content`.
fn push_tag_tokens<'a>(content: &'a str, ast: &mut Vec<HtmlAst<'a>>)
    ensures
        token_models(final(ast)@) == token_models(old(ast)@) + tag_tokens(content@),
{
    match index_of(content, 0, ' ') {
        None => {
            proof {
                lemma_push_models(ast@, HtmlAst::StartTag(content));
            }
            ast.push(HtmlAst::StartTag(content));
        },
        Some(i) => {
            proof {
                lemma_find_from_bounds(content@, 0, ' ');
            }
            let len = content.unicode_len();
            let name = content.substring_char(0, i);
            proof {
                lemma_push_models(ast@, HtmlAst::StartTag(name));
            }
            ast.push(HtmlAst::StartTag(name));
            let t = trim_str(content.substring_char(i, len));
            let ghost base = token_models(ast@);
            let ghost whole = attributes_of(split_space(t@));
            assert(tag_tokens(content@) == seq![TokenModel::StartTag(content@.subrange(0, i as int))] + whole);
            let mut rest: &'a str = t;
            assert(base + whole =~= base + attributes_of(split_space(rest@)));
            loop
                invariant
                    token_models(old(ast)@) + tag_tokens(content@) == base + whole,
                    token_models(ast@) + attributes_of(split_space(rest@)) == base + whole,
                decreases rest@.len(),
            {
                let rlen = rest.unicode_len();
                match index_of(rest, 0, ' ') {
                    Some(k) => {
                        proof {
                            lemma_find_from_bounds(rest@, 0, ' ');
                        }
                        let frag = rest.substring_char(0, k);
                        let next = rest.substring_char(k + 1, rlen);
                        let tok = attribute_token(frag);
                        proof {
                            lemma_push_models(ast@, tok);
                            assert(split_space(rest@) == seq![frag@] + split_space(next@));
                            assert(attributes_of(seq![frag@] + split_space(next@)) =~= seq![tok@]
                                + attributes_of(split_space(next@)));
                            assert(attributes_of(split_space(rest@)) =~= seq![tok@]
                                + attributes_of(split_space(next@)));
                            assert(token_models(ast@) + attributes_of(split_space(rest@))
                                =~= token_models(ast@) + seq![tok@] + attributes_of(split_space(next@)));
                        }
                        ast.push(tok);
                        rest = next;
                    },
                    None => {
                        let tok = attribute_token(rest);
                        proof {
                            lemma_push_models(ast@, tok);
                            assert(split_space(rest@) =~= seq![rest@]);
                            assert(attributes_of(split_space(rest@)) =~= seq![tok@]);
                        }
                        ast.push(tok);
                        return;
                    },
                }
            }
        },
    }
}

/// Splits `data` into tokens in document order: start tags with their
/// attributes, end tags and runs of text. Comments are dropped. The content
/// of a start tag is split at every single space, quoted or not, and an end
/// tag keeps no name. Text after the last tag, with no `<` to end it, is an
/// error rather than a trailing text token.
pub fn tokenize_html<'a>(data: &'a str) -> (r: Result<Vec<HtmlAst<'a>>, HtmlError>)
    ensures
        match tokenize(data@) {
            Some(t) => r matches Ok(v) && token_models(v@) == t,
            None => r == Err::<Vec<HtmlAst<'a>>, HtmlError>(
                HtmlError::ReaderError(ReadError::DelimNotFound),
            ),
        },
{
    let mut reader = StrReader::new(data);
    let mut ast: Vec<HtmlAst<'a>> = Vec::new();
    let len = data.unicode_len();
    let ghost s = data@;
    assert(token_models(ast@) =~= Seq::<TokenModel>::empty());
    assert(prepend(Seq::empty(), tokens_from(s, 0)) =~= tokens_from(s, 0)) by {
        if let Some(t) = tokens_from(s, 0) {
            assert(Seq::<TokenModel>::empty() + t =~= t);
        }
    }
    loop
        invariant
            s == data@,
            len == s.len(),
            reader.source() == s,
            reader.position() <= s.len(),
            tokenize(s) == prepend(token_models(ast@), tokens_from(s, reader.position() as int)),
        decreases s.len() - reader.position(),
    {
        let ghost p = reader.position() as int;
        reader.skip_while(is_whitespace);
        proof {
            lemma_skip_space_at(s, p, reader.position() as int);
        }
        match reader.seek() {
            None => {
                assert(tokens_from(s, p) == Some(Seq::<TokenModel>::empty()));
                assert(token_models(ast@) + Seq::<TokenModel>::empty() =~= token_models(ast@));
                return Ok(ast);
            },
            Some(c) => {
                if c == '<' {
                    reader.skip(1);
                    let next = reader.seek();
                    if next == Some('/') {
                        proof {
                            lemma_push_models(ast@, HtmlAst::EndTag);
                        }
                        ast.push(HtmlAst::EndTag);
                        match reader.read_until('>') {
                            Ok(_) => {},
                            Err(e) => {
                                return Err(HtmlError::ReaderError(e));
                            },
                        }
                        reader.skip(1);
                        proof {
                            let k = reader.position() as int - 1;
                            let old_models = token_models(ast@).drop_last();
                            assert(old_models =~= token_models(ast@).subrange(0, ast@.len() - 1));
                            if let Some(t) = tokens_from(s, k + 1) {
                                assert(old_models + (seq![TokenModel::EndTag] + t) =~= token_models(ast@) + t);
                            }
                        }
                    } else if next == Some('!') {
                        reader.skip(1);
                        let ghost start = reader.position() as int;
                        reader.skip_while(is_not_tag_close);
                        proof {
                            lemma_find_from_at(s, start, '>', reader.position() as int);
                        }
                        if !reader.is_eof() {
                            reader.skip(1);
                        } else {
                            assert(tokens_from(s, reader.position() as int) == Some(Seq::<TokenModel>::empty()));
                        }
                    } else {
                        let content = match reader.read_until('>') {
                            Ok(content) => content,
                            Err(e) => {
                                return Err(HtmlError::ReaderError(e));
                            },
                        };
                        reader.skip(1);
                        let ghost before = token_models(ast@);
                        push_tag_tokens(content, &mut ast);
                        proof {
                            let k = reader.position() as int - 1;
                            if let Some(t) = tokens_from(s, k + 1) {
                                assert(before + (tag_tokens(content@) + t) =~= token_models(ast@) + t);
                            }
                        }
                    }
                } else {
                    let text = match reader.read_until('<') {
                        Ok(text) => text,
                        Err(e) => {
                            return Err(HtmlError::ReaderError(e));
                        },
                    };
                    proof {
                        lemma_push_models(ast@, HtmlAst::Text(text));
                        let k = reader.position() as int;
                        if let Some(t) = tokens_from(s, k) {
                            assert(token_models(ast@) + (seq![TokenModel::Text(text@)] + t)
                                =~= token_models(ast@.push(HtmlAst::Text(text))) + t);
                        }
                    }
                    ast.push(HtmlAst::Text(text));
                }
            },
        }
    }
}

/// The state of tree building: the elements still open, innermost last, and
/// the top-level elements closed so far.
pub struct Assembly {
    pub open: Seq<ElementModel>,
    pub done: Seq<ElementModel>,
}

/// `open` with its innermost element replaced by `e`.
pub open spec fn with_top(open: Seq<ElementModel>, e: ElementModel) -> Seq<ElementModel> {
    open.update(open.len() - 1, e)
}

/// One token applied to a building state; `None` where it has no open
/// element to act on.
pub open spec fn assemble_step(a: Assembly, t: TokenModel) -> Option<Assembly> {
    let n = a.open.len();
    match t {
        TokenModel::StartTag(tag) => Some(
            Assembly {
                open: a.open.push(
                    ElementModel {
                        tag,
                        attributes: Seq::empty(),
                        children: Seq::empty(),
                        inner_text: None,
                    },
                ),
                done: a.done,
            },
        ),
        TokenModel::Attribute(name, value) => if n == 0 {
            None
        } else {
            let top = a.open[n - 1];
            Some(
                Assembly {
                    open: with_top(
                        a.open,
                        ElementModel { attributes: top.attributes.push((name, value)), ..top },
                    ),
                    done: a.done,
                },
            )
        },
        TokenModel::Text(text) => if n == 0 {
            None
        } else {
            let top = a.open[n - 1];
            Some(
                Assembly {
                    open: with_top(a.open, ElementModel { inner_text: Some(text), ..top }),
                    done: a.done,
                },
            )
        },
        TokenModel::EndTag => if n == 0 {
            None
        } else {
            let e = a.open[n - 1];
            let rest = a.open.drop_last();
            if n == 1 {
                Some(Assembly { open: rest, done: a.done.push(e) })
            } else {
                let parent = rest[n - 2];
                Some(
                    Assembly {
                        open: with_top(rest, ElementModel { children: parent.children.push(e), ..parent }),
                        done: a.done,
                    },
                )
            }
        },
    }
}

/// The building state after all of `ts`, from nothing open and nothing done.
pub open spec fn assemble_all(ts: Seq<TokenModel>) -> Option<Assembly>
    decreases ts.len(),
{
    if ts.len() == 0 {
        Some(Assembly { open: Seq::empty(), done: Seq::empty() })
    } else {
        match assemble_all(ts.drop_last()) {
            Some(a) => assemble_step(a, ts.last()),
            None => None,
        }
    }
}

/// The forest that `ts` builds, or `InvalidAst`.
pub open spec fn assemble(ts: Seq<TokenModel>) -> Result<Seq<ElementModel>, HtmlError> {
    match assemble_all(ts) {
        Some(a) => if a.open.len() == 0 {
            Ok(a.done)
        } else {
            Err(HtmlError::InvalidAst)
        },
        None => Err(HtmlError::InvalidAst),
    }
}

/// The forest that the markup `s` parses to.
pub open spec fn parse(s: Seq<char>) -> Result<Seq<ElementModel>, HtmlError> {
    match tokenize(s) {
        Some(t) => assemble(t),
        None => Err(HtmlError::ReaderError(ReadError::DelimNotFound)),
    }
}

/// What a parse result stands for.
pub open spec fn result_model<'a>(r: Result<Vec<HtmlElement<'a>>, HtmlError>) -> Result<
    Seq<ElementModel>,
    HtmlError,
> {
    match r {
        Ok(v) => Ok(element_models(v@)),
        Err(e) => Err(e),
    }
}

proof fn lemma_models_push<'a>(v: Seq<HtmlElement<'a>>, e: HtmlElement<'a>)
    ensures
        element_models(v.push(e)) == element_models(v).push(e.model()),
{
    assert(element_models(v.push(e)) =~= element_models(v).push(e.model()));
}

/// Once building is stuck, no later token frees it.
proof fn lemma_assemble_stuck(ts: Seq<TokenModel>, j: int)
    requires
        0 <= j <= ts.len(),
        assemble_all(ts.take(j)) is None,
    ensures
        assemble_all(ts) is None,
    decreases ts.len() - j,
{
    if j < ts.len() {
        assert(ts.take(j + 1).drop_last() =~= ts.take(j));
        lemma_assemble_stuck(ts, j + 1);
    } else {
        assert(ts.take(j) =~= ts);
    }
}

/// Builds the element forest from a token sequence with a stack of open
/// elements. An end tag closes the innermost open element whatever its name;
/// an attribute, text or end tag with no element open, or an element still
/// open at the end, is `InvalidAst`.
pub fn build_html<'a>(tokens: Vec<HtmlAst<'a>>) -> (r: Result<Vec<HtmlElement<'a>>, HtmlError>)
    ensures
        result_model(r) == assemble(token_models(tokens@)),
{
    let ghost ts = token_models(tokens@);
    let mut stack: Vec<HtmlElement<'a>> = Vec::new();
    let mut elements: Vec<HtmlElement<'a>> = Vec::new();
    let mut i: usize = 0;
    assert(ts.take(0) =~= Seq::<TokenModel>::empty());
    assert(element_models(stack@) =~= Seq::<ElementModel>::empty());
    while i < tokens.len()
        invariant
            ts == token_models(tokens@),
            i <= tokens.len(),
            assemble_all(ts.take(i as int)) == Some(
                Assembly { open: element_models(stack@), done: element_models(elements@) },
            ),
        decreases tokens.len() - i,
    {
        let ghost a = Assembly { open: element_models(stack@), done: element_models(elements@) };
        assert(ts.take(i + 1).drop_last() =~= ts.take(i as int));
        assert(ts.take(i + 1).last() == tokens@[i as int]@);
        let tok = tokens[i];
        match tok {
            HtmlAst::StartTag(tag) => {
                let e = HtmlElement::new(tag);
                proof {
                    lemma_models_push(stack@, e);
                }
                stack.push(e);
            },
            HtmlAst::Attribute(name, value) => {
                match stack.pop() {
                    None => {
                        proof {
                            lemma_assemble_stuck(ts, i + 1);
                        }
                        return Err(HtmlError::InvalidAst);
                    },
                    Some(mut top) => {
                        top.add_attribute(name, value);
                        proof {
                            lemma_models_push(stack@, top);
                            assert(element_models(stack@.push(top)) =~= with_top(a.open, top.model()));
                        }
                        stack.push(top);
                    },
                }
            },
            HtmlAst::Text(text) => {
                match stack.pop() {
                    None => {
                        proof {
                            lemma_assemble_stuck(ts, i + 1);
                        }
                        return Err(HtmlError::InvalidAst);
                    },
                    Some(mut top) => {
                        top.set_inner_text(text);
                        proof {
                            lemma_models_push(stack@, top);
                            assert(element_models(stack@.push(top)) =~= with_top(a.open, top.model()));
                        }
                        stack.push(top);
                    },
                }
            },
            HtmlAst::EndTag => {
                match stack.pop() {
                    None => {
                        proof {
                            lemma_assemble_stuck(ts, i + 1);
                        }
                        return Err(HtmlError::InvalidAst);
                    },
                    Some(e) => {
                        match stack.pop() {
                            None => {
                                proof {
                                    lemma_models_push(elements@, e);
                                    assert(element_models(stack@) =~= a.open.drop_last());
                                }
                                elements.push(e);
                            },
                            Some(mut parent) => {
                                parent.add_child(e);
                                proof {
                                    lemma_models_push(stack@, parent);
                                    assert(element_models(stack@.push(parent)) =~= with_top(
                                        a.open.drop_last(),
                                        parent.model(),
                                    ));
                                }
                                stack.push(parent);
                            },
                        }
                    },
                }
            },
        }
        i = i + 1;
    }
    assert(ts.take(i as int) =~= ts);
    if stack.len() == 0 {
        Ok(elements)
    } else {
        Err(HtmlError::InvalidAst)
    }
}

/// Parses `data` into its forest of top-level elements.
pub fn parse_html<'a>(data: &'a str) -> (r: Result<Vec<HtmlElement<'a>>, HtmlError>)
    ensures
        result_model(r) == parse(data@),
{
    let tokens = tokenize_html(data)?;
    build_html(tokens)
}

/// The markup of one attribute, with the space before it.
pub open spec fn attribute_text(a: AttributeModel) -> Seq<char> {
    match a.1 {
        Some(v) => seq![' '] + a.0 + seq!['=', '"'] + v + seq!['"'],
        None => seq![' '] + a.0,
    }
}

/// The markup of a list of attributes, in order.
pub open spec fn attributes_text(attrs: Seq<AttributeModel>) -> Seq<char>
    decreases attrs.len(),
{
    if attrs.len() == 0 {
        Seq::empty()
    } else {
        attributes_text(attrs.drop_last()) + attribute_text(attrs.last())
    }
}

/// The markup of an element: its inner text where it has one, else its
/// children.
pub open spec fn element_text(e: ElementModel) -> Seq<char>
    decreases e, 0nat,
{
    let body = match e.inner_text {
        Some(t) => t,
        None => forest_prefix_text(e.children, e.children.len() as int),
    };
    seq!['<'] + e.tag + attributes_text(e.attributes) + seq!['>'] + body + seq!['<', '/'] + e.tag
        + seq!['>']
}

/// The markup of the first `n` elements of `f`, one after another.
pub open spec fn forest_prefix_text(f: Seq<ElementModel>, n: int) -> Seq<char>
    decreases f, n,
{
    if n <= 0 || n > f.len() {
        Seq::empty()
    } else {
        forest_prefix_text(f, n - 1) + element_text(f[n - 1])
    }
}

/// The markup of a forest.
pub open spec fn forest_text(f: Seq<ElementModel>) -> Seq<char> {
    forest_prefix_text(f, f.len() as int)
}

/// What the literal pieces of markup hold.
proof fn lemma_markup_literals()
    ensures
        "<"@ == seq!['<'],
        " "@ == seq![' '],
        "=\""@ == seq!['=', '"'],
        "\""@ == seq!['"'],
        ">"@ == seq!['>'],
        "</"@ == seq!['<', '/'],
{
    reveal_strlit("<");
    reveal_strlit(" ");
    reveal_strlit("=\"");
    reveal_strlit("\"");
    reveal_strlit(">");
    reveal_strlit("</");
    assert("<"@ =~= seq!['<']);
    assert(" "@ =~= seq![' ']);
    assert("=\""@ =~= seq!['=', '"']);
    assert("\""@ =~= seq!['"']);
    assert(">"@ =~= seq!['>']);
    assert("</"@ =~= seq!['<', '/']);
}

fn write_element<'a>(out: &mut String, e: &HtmlElement<'a>)
    ensures
        final(out)@ == old(out)@ + element_text(e.model()),
    decreases e, 0nat,
{
    let ghost m = e.model();
    proof {
        lemma_markup_literals();
    }
    out.append("<");
    out.append(e.tag);
    let ghost head = out@;
    let mut i: usize = 0;
    assert(m.attributes.take(0) =~= Seq::<AttributeModel>::empty());
    assert(head + attributes_text(m.attributes.take(0)) =~= head);
    while i < e.attributes.len()
        invariant
            m == e.model(),
            i <= e.attributes.len(),
            head == old(out)@ + seq!['<'] + m.tag,
            out@ == head + attributes_text(m.attributes.take(i as int)),
        decreases e.attributes.len() - i,
    {
        let a = &e.attributes[i];
        let ghost before = out@;
        proof {
            lemma_markup_literals();
        }
        out.append(" ");
        out.append(a.name);
        match a.value {
            Some(v) => {
                out.append("=\"");
                out.append(v);
                out.append("\"");
                assert(out@ =~= before + (seq![' '] + a.name@ + seq!['=', '"'] + v@ + seq!['"']));
            },
            None => {
                assert(out@ =~= before + (seq![' '] + a.name@));
            },
        }
        assert(m.attributes.take(i + 1).drop_last() =~= m.attributes.take(i as int));
        assert(m.attributes[i as int] == a@);
        assert(out@ =~= before + attribute_text(a@));
        i = i + 1;
    }
    assert(m.attributes.take(i as int) =~= m.attributes);
    out.append(">");
    let ghost open_text = out@;
    assert(open_text =~= old(out)@ + (seq!['<'] + m.tag + attributes_text(m.attributes) + seq!['>']));
    match e.inner_text {
        Some(t) => {
            out.append(t);
        },
        None => {
            write_elements(out, &e.children);
            assert(forest_text(element_models(e.children@)) == forest_prefix_text(
                m.children,
                m.children.len() as int,
            )) by {
                assert(element_models(e.children@) =~= m.children);
            }
        },
    }
    let ghost body = match m.inner_text {
        Some(t) => t,
        None => forest_prefix_text(m.children, m.children.len() as int),
    };
    assert(out@ == open_text + body);
    out.append("</");
    out.append(e.tag);
    out.append(">");
    assert(out@ =~= old(out)@ + element_text(m));
}

fn write_elements<'a>(out: &mut String, v: &Vec<HtmlElement<'a>>)
    ensures
        final(out)@ == old(out)@ + forest_text(element_models(v@)),
    decreases v, 0nat,
{
    let ghost f = element_models(v@);
    let mut i: usize = 0;
    assert(old(out)@ + forest_prefix_text(f, 0) =~= old(out)@);
    while i < v.len()
        invariant
            f == element_models(v@),
            i <= v.len(),
            out@ == old(out)@ + forest_prefix_text(f, i as int),
        decreases v.len() - i,
    {
        let ghost before = out@;
        write_element(out, &v[i]);
        assert(out@ =~= before + element_text(f[i as int]));
        i = i + 1;
    }
}

/// The markup of `elements`, one after another.
pub fn html_to_string<'a>(elements: Vec<HtmlElement<'a>>) -> (r: String)
    ensures
        r@ == forest_text(element_models(elements@)),
{
    let mut html = String::new();
    write_elements(&mut html, &elements);
    assert(html@ =~= forest_text(element_models(elements@)));
    html
}

} // verus!
