//! The parsed form of a template, as executable data.

use vstd::prelude::*;

use crate::syntax::{CloseTagV, ContentV, KeyV, OpenTagV, TagAttrV, TagAttrsV, TagV, TemplateV};

verus! {

pub struct Key {
    pub first: String,
    pub parts: Vec<String>,
}

pub struct TagAttr {
    pub key: Key,
    pub val: Option<String>,
}

pub struct TagAttrs {
    pub key: Key,
    pub others: Vec<TagAttr>,
}

pub struct OpenTag {
    pub attrs: Option<TagAttrs>,
    pub closing: bool,
}

pub struct CloseTag {
    pub key: Option<String>,
}

pub struct BlockTag {
    pub open: OpenTag,
    pub contents: Vec<Content>,
    pub close: CloseTag,
}

pub struct InlineTag {
    pub open: OpenTag,
}

pub enum Tag {
    Block(BlockTag),
    Inline(InlineTag),
}

pub enum Content {
    Text(String),
    Word(String),
    Param(usize),
    Tag(Tag),
}

pub struct Template {
    pub tags: Vec<Tag>,
}

pub open spec fn strings_view(s: Seq<String>) -> Seq<Seq<char>> {
    Seq::new(s.len(), |i: int| s[i]@)
}

impl View for Key {
    type V = KeyV;

    open spec fn view(&self) -> KeyV {
        KeyV { first: self.first@, parts: strings_view(self.parts@) }
    }
}

impl View for TagAttr {
    type V = TagAttrV;

    open spec fn view(&self) -> TagAttrV {
        TagAttrV {
            key: self.key@,
            val: match self.val {
                Some(v) => Some(v@),
                None => None,
            },
        }
    }
}

impl View for TagAttrs {
    type V = TagAttrsV;

    open spec fn view(&self) -> TagAttrsV {
        TagAttrsV { key: self.key@, others: Seq::new(self.others@.len(), |i: int| self.others@[i]@) }
    }
}

impl View for OpenTag {
    type V = OpenTagV;

    open spec fn view(&self) -> OpenTagV {
        OpenTagV {
            attrs: match self.attrs {
                Some(a) => Some(a@),
                None => None,
            },
            closing: self.closing,
        }
    }
}

impl View for CloseTag {
    type V = CloseTagV;

    open spec fn view(&self) -> CloseTagV {
        CloseTagV {
            key: match self.key {
                Some(k) => Some(k@),
                None => None,
            },
        }
    }
}

pub open spec fn tag_view(t: Tag) -> TagV
    decreases t,
{
    match t {
        Tag::Block(b) => TagV::Block {
            open: b.open@,
            contents: contents_view(b.contents@),
            close: b.close@,
        },
        Tag::Inline(i) => TagV::Inline { open: i.open@ },
    }
}

pub open spec fn contents_view(cs: Seq<Content>) -> Seq<ContentV>
    decreases cs,
{
    if cs.len() == 0 {
        Seq::empty()
    } else {
        contents_view(cs.subrange(0, cs.len() - 1)).push(content_view(cs[cs.len() - 1]))
    }
}

pub open spec fn content_view(c: Content) -> ContentV
    decreases c,
{
    match c {
        Content::Text(s) => ContentV::Text(s@),
        Content::Word(s) => ContentV::Word(s@),
        Content::Param(n) => ContentV::Param(n as nat),
        Content::Tag(t) => ContentV::Tag(tag_view(t)),
    }
}

impl View for Tag {
    type V = TagV;

    open spec fn view(&self) -> TagV {
        tag_view(*self)
    }
}

impl View for Content {
    type V = ContentV;

    open spec fn view(&self) -> ContentV {
        content_view(*self)
    }
}

impl View for Template {
    type V = TemplateV;

    open spec fn view(&self) -> TemplateV {
        TemplateV { tags: Seq::new(self.tags@.len(), |i: int| self.tags@[i]@) }
    }
}


pub proof fn lemma_contents_view_push(v: Seq<Content>, c: Content)
    ensures
        contents_view(v.push(c)) == contents_view(v).push(content_view(c)),
{
    assert(v.push(c).subrange(0, v.len() as int) == v);
}

pub proof fn lemma_contents_view_empty()
    ensures
        contents_view(Seq::<Content>::empty()) == Seq::<ContentV>::empty(),
{
}


pub proof fn lemma_contents_view_index(v: Seq<Content>)
    ensures
        contents_view(v).len() == v.len(),
        forall|i: int| 0 <= i < v.len() ==> #[trigger] contents_view(v)[i] == content_view(v[i]),
    decreases v.len(),
{
    if v.len() > 0 {
        let w = v.subrange(0, v.len() - 1);
        lemma_contents_view_index(w);
        assert forall|i: int| 0 <= i < v.len() implies #[trigger] contents_view(v)[i]
            == content_view(v[i]) by {
            if i < v.len() - 1 {
                assert(w[i] == v[i]);
            }
        }
    }
}

} // verus!
