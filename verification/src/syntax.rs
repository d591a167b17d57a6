//! The syntax of templates: the tree that a template describes, and the
//! tokens that spell each part of it.

use vstd::prelude::*;

use crate::tokens::Token;

verus! {

/// A name of a tag or attribute: identifiers joined by `-`.
pub struct KeyV {
    pub first: Seq<char>,
    pub parts: Seq<Seq<char>>,
}

/// An attribute after the tag name, with an optional string value.
pub struct TagAttrV {
    pub key: KeyV,
    pub val: Option<Seq<char>>,
}

/// The name of a tag and its attributes.
pub struct TagAttrsV {
    pub key: KeyV,
    pub others: Seq<TagAttrV>,
}

/// An opening tag, `<name attr="..">`, or `<name .. />` when `closing`.
pub struct OpenTagV {
    pub attrs: Option<TagAttrsV>,
    pub closing: bool,
}

/// A closing tag, `</name>`, where the name may be left out.
pub struct CloseTagV {
    pub key: Option<Seq<char>>,
}

/// A tag with its contents, or one that closes itself.
pub enum TagV {
    Block { open: OpenTagV, contents: Seq<ContentV>, close: CloseTagV },
    Inline { open: OpenTagV },
}

/// What stands between an opening and a closing tag.
pub enum ContentV {
    /// A string literal.
    Text(Seq<char>),
    /// A bare identifier, taken as text.
    Word(Seq<char>),
    /// An expression in braces, by its number.
    Param(nat),
    /// A nested tag.
    Tag(TagV),
}

/// A whole template: a sequence of tags.
pub struct TemplateV {
    pub tags: Seq<TagV>,
}

pub open spec fn parts_toks(ps: Seq<Seq<char>>) -> Seq<Token>
    decreases ps.len(),
{
    if ps.len() == 0 {
        Seq::empty()
    } else {
        parts_toks(ps.drop_last()) + seq![Token::Dash, Token::Ident(ps.last())]
    }
}

pub open spec fn key_toks(k: KeyV) -> Seq<Token> {
    seq![Token::Ident(k.first)] + parts_toks(k.parts)
}

pub open spec fn attr_toks(a: TagAttrV) -> Seq<Token> {
    key_toks(a.key) + match a.val {
        Some(v) => seq![Token::Eq, Token::Str(v)],
        None => Seq::empty(),
    }
}

pub open spec fn attr_list_toks(s: Seq<TagAttrV>) -> Seq<Token>
    decreases s.len(),
{
    if s.len() == 0 {
        Seq::empty()
    } else {
        attr_list_toks(s.drop_last()) + attr_toks(s.last())
    }
}

pub open spec fn attrs_toks(a: TagAttrsV) -> Seq<Token> {
    key_toks(a.key) + attr_list_toks(a.others)
}

pub open spec fn open_toks(o: OpenTagV) -> Seq<Token> {
    seq![Token::Lt] + match o.attrs {
        Some(a) => attrs_toks(a),
        None => Seq::empty(),
    } + if o.closing {
        seq![Token::Slash]
    } else {
        Seq::empty()
    } + seq![Token::Gt]
}

pub open spec fn close_toks(c: CloseTagV) -> Seq<Token> {
    seq![Token::Lt, Token::Slash] + match c.key {
        Some(k) => seq![Token::Ident(k)],
        None => Seq::empty(),
    } + seq![Token::Gt]
}

/// The opening tag of a tag.
pub open spec fn tag_open(t: TagV) -> OpenTagV {
    match t {
        TagV::Block { open, .. } => open,
        TagV::Inline { open } => open,
    }
}

/// The tokens that spell a tag.
pub open spec fn tag_toks(t: TagV) -> Seq<Token>
    decreases t,
{
    match t {
        TagV::Inline { open } => open_toks(open),
        TagV::Block { open, contents, close } => open_toks(open) + contents_toks(contents)
            + close_toks(close),
    }
}

/// The tokens that spell a sequence of contents.
pub open spec fn contents_toks(cs: Seq<ContentV>) -> Seq<Token>
    decreases cs,
{
    if cs.len() == 0 {
        Seq::empty()
    } else {
        contents_toks(cs.subrange(0, cs.len() - 1)) + content_toks(cs[cs.len() - 1])
    }
}

/// The tokens that spell one content.
pub open spec fn content_toks(c: ContentV) -> Seq<Token>
    decreases c,
{
    match c {
        ContentV::Text(s) => seq![Token::Str(s)],
        ContentV::Word(s) => seq![Token::Ident(s)],
        ContentV::Param(n) => seq![Token::Brace(n)],
        ContentV::Tag(t) => tag_toks(t),
    }
}

pub open spec fn tags_toks(ts: Seq<TagV>) -> Seq<Token>
    decreases ts.len(),
{
    if ts.len() == 0 {
        Seq::empty()
    } else {
        tags_toks(ts.drop_last()) + tag_toks(ts.last())
    }
}

/// The tokens that spell a template.
pub open spec fn template_toks(t: TemplateV) -> Seq<Token> {
    tags_toks(t.tags)
}

/// A tag that would be read as a closing tag where contents are expected:
/// `</>`, a self-closing tag without a name.
pub open spec fn reads_as_close(c: ContentV) -> bool {
    c matches ContentV::Tag(TagV::Inline { open }) && open.attrs is None
}

/// A tag that the tokens it is spelled with give back: a self-closing tag is
/// marked as one, a tag with contents is not, and no content is `</>`.
pub open spec fn wf_tag(t: TagV) -> bool
    decreases t,
{
    match t {
        TagV::Inline { open } => open.closing,
        TagV::Block { open, contents, close } => {
            &&& !open.closing
            &&& forall|i: int|
                0 <= i < contents.len() ==> {
                    &&& !reads_as_close(#[trigger] contents[i])
                    &&& wf_content(contents[i])
                }
        },
    }
}

pub open spec fn wf_content(c: ContentV) -> bool
    decreases c,
{
    match c {
        ContentV::Tag(t) => wf_tag(t),
        _ => true,
    }
}

pub open spec fn wf_template(t: TemplateV) -> bool {
    forall|i: int| 0 <= i < t.tags.len() ==> wf_tag(#[trigger] t.tags[i])
}


pub proof fn lemma_attr_list_toks_concat(a: Seq<TagAttrV>, b: Seq<TagAttrV>)
    ensures
        attr_list_toks(a + b) == attr_list_toks(a) + attr_list_toks(b),
    decreases b.len(),
{
    if b.len() == 0 {
        assert(a + b == a);
    } else {
        assert((a + b).drop_last() == a + b.drop_last());
        lemma_attr_list_toks_concat(a, b.drop_last());
    }
}

/// The tokens of a list of attributes, split around the one at `k`.
pub proof fn lemma_attr_list_toks_split(ys: Seq<TagAttrV>, k: int)
    requires
        0 <= k < ys.len(),
    ensures
        attr_list_toks(ys) == attr_list_toks(ys.take(k)) + attr_toks(ys[k]) + attr_list_toks(
            ys.skip(k + 1),
        ),
        attr_list_toks(ys.take(k + 1)) == attr_list_toks(ys.take(k)) + attr_toks(ys[k]),
{
    assert(ys.take(k + 1).drop_last() == ys.take(k));
    assert(ys == ys.take(k + 1) + ys.skip(k + 1));
    lemma_attr_list_toks_concat(ys.take(k + 1), ys.skip(k + 1));
}

pub proof fn lemma_contents_toks_concat(a: Seq<ContentV>, b: Seq<ContentV>)
    ensures
        contents_toks(a + b) == contents_toks(a) + contents_toks(b),
    decreases b.len(),
{
    if b.len() == 0 {
        assert(a + b == a);
    } else {
        assert((a + b).subrange(0, (a + b).len() - 1) == a + b.subrange(0, b.len() - 1));
        lemma_contents_toks_concat(a, b.subrange(0, b.len() - 1));
    }
}

/// The tokens of a list of contents, split around the one at `k`.
pub proof fn lemma_contents_toks_split(ys: Seq<ContentV>, k: int)
    requires
        0 <= k < ys.len(),
    ensures
        contents_toks(ys) == contents_toks(ys.take(k)) + content_toks(ys[k]) + contents_toks(
            ys.skip(k + 1),
        ),
        contents_toks(ys.take(k + 1)) == contents_toks(ys.take(k)) + content_toks(ys[k]),
{
    assert(ys.take(k + 1).subrange(0, k) == ys.take(k));
    assert(ys == ys.take(k + 1) + ys.skip(k + 1));
    lemma_contents_toks_concat(ys.take(k + 1), ys.skip(k + 1));
}

pub proof fn lemma_tags_toks_concat(a: Seq<TagV>, b: Seq<TagV>)
    ensures
        tags_toks(a + b) == tags_toks(a) + tags_toks(b),
    decreases b.len(),
{
    if b.len() == 0 {
        assert(a + b == a);
    } else {
        assert((a + b).drop_last() == a + b.drop_last());
        lemma_tags_toks_concat(a, b.drop_last());
    }
}

/// The tokens of a list of tags, split around the one at `k`.
pub proof fn lemma_tags_toks_split(ys: Seq<TagV>, k: int)
    requires
        0 <= k < ys.len(),
    ensures
        tags_toks(ys) == tags_toks(ys.take(k)) + tag_toks(ys[k]) + tags_toks(ys.skip(k + 1)),
        tags_toks(ys.take(k + 1)) == tags_toks(ys.take(k)) + tag_toks(ys[k]),
{
    assert(ys.take(k + 1).drop_last() == ys.take(k));
    assert(ys == ys.take(k + 1) + ys.skip(k + 1));
    lemma_tags_toks_concat(ys.take(k + 1), ys.skip(k + 1));
}

} // verus!
