//! What reading the tokens of a template gives, step by step: the part read
//! and the index where it ends, or the index of the token where reading
//! fails (the number of tokens where they end too early).

use vstd::prelude::*;

use crate::parse::{dash_at, eq_at, gt_at, ident_tok_at, lt_at, slash_at};
use crate::syntax::{
    CloseTagV, ContentV, KeyV, OpenTagV, TagAttrV, TagAttrsV, TagV, TemplateV,
};
use crate::tokens::Token;

verus! {

/// The result of reading a part: the part and where it ends, or where
/// reading fails.
pub type Read<V> = Result<(V, int), int>;

/// The text of the identifier at `p`.
pub open spec fn ident_text(s: Seq<Token>, p: int) -> Seq<char> {
    s[p]->Ident_0
}

pub open spec fn str_tok_at(s: Seq<Token>, p: int) -> bool {
    0 <= p < s.len() && s[p] is Str
}

/// Reading the rest of a name from `p`, its parts so far being `parts`.
pub open spec fn read_key_from(s: Seq<Token>, p: int, first: Seq<char>, parts: Seq<Seq<char>>) -> Read<KeyV>
    decreases s.len() - p,
{
    if dash_at(s, p) {
        if ident_tok_at(s, p + 1) {
            read_key_from(s, p + 2, first, parts.push(ident_text(s, p + 1)))
        } else {
            Err(p + 1)
        }
    } else {
        Ok((KeyV { first, parts }, p))
    }
}

/// Reading a name at `pos`.
pub open spec fn read_key(s: Seq<Token>, pos: int) -> Read<KeyV> {
    if ident_tok_at(s, pos) {
        read_key_from(s, pos + 1, ident_text(s, pos), Seq::empty())
    } else {
        Err(pos)
    }
}

/// Reading an attribute at `pos`.
pub open spec fn read_attr(s: Seq<Token>, pos: int) -> Read<TagAttrV> {
    match read_key(s, pos) {
        Err(e) => Err(e),
        Ok((key, p)) => if eq_at(s, p) {
            if str_tok_at(s, p + 1) {
                Ok((TagAttrV { key, val: Some(s[p + 1]->Str_0) }, p + 2))
            } else {
                Err(p + 1)
            }
        } else {
            Ok((TagAttrV { key, val: None }, p))
        },
    }
}

/// Reading the rest of the attributes from `p`, those so far being `others`.
pub open spec fn read_attrs_from(s: Seq<Token>, p: int, key: KeyV, others: Seq<TagAttrV>) -> Read<TagAttrsV>
    decreases s.len() - p,
{
    if ident_tok_at(s, p) {
        match read_attr(s, p) {
            Err(e) => Err(e),
            Ok((a, q)) => if p < q <= s.len() {
                read_attrs_from(s, q, key, others.push(a))
            } else {
                Err(p)
            },
        }
    } else {
        Ok((TagAttrsV { key, others }, p))
    }
}

/// Reading the name of a tag and its attributes at `pos`.
pub open spec fn read_attrs(s: Seq<Token>, pos: int) -> Read<TagAttrsV> {
    match read_key(s, pos) {
        Err(e) => Err(e),
        Ok((key, p)) => read_attrs_from(s, p, key, Seq::empty()),
    }
}

/// Reading an opening tag at `pos`.
pub open spec fn read_open(s: Seq<Token>, pos: int) -> Read<OpenTagV> {
    if !lt_at(s, pos) {
        Err(pos)
    } else {
        let a: Read<Option<TagAttrsV>> = if ident_tok_at(s, pos + 1) {
            match read_attrs(s, pos + 1) {
                Err(e) => Err(e),
                Ok((a, q)) => Ok((Some(a), q)),
            }
        } else {
            Ok((None, pos + 1))
        };
        match a {
            Err(e) => Err(e),
            Ok((attrs, p)) => {
                let closing = slash_at(s, p);
                let q = if closing { p + 1 } else { p };
                if gt_at(s, q) {
                    Ok((OpenTagV { attrs, closing }, q + 1))
                } else {
                    Err(q)
                }
            },
        }
    }
}

/// Reading a closing tag at `pos`.
pub open spec fn read_close(s: Seq<Token>, pos: int) -> Read<CloseTagV> {
    if !lt_at(s, pos) {
        Err(pos)
    } else if !slash_at(s, pos + 1) {
        Err(pos + 1)
    } else {
        let key = if ident_tok_at(s, pos + 2) {
            Some(ident_text(s, pos + 2))
        } else {
            None
        };
        let p = if key is Some { pos + 3 } else { pos + 2 };
        if gt_at(s, p) {
            Ok((CloseTagV { key }, p + 1))
        } else {
            Err(p)
        }
    }
}

/// Reading a tag at `pos`.
pub open spec fn read_tag(s: Seq<Token>, pos: int) -> Read<TagV>
    decreases s.len() - pos, 0nat,
{
    if pos > s.len() {
        Err(pos)
    } else {
        match read_open(s, pos) {
            Err(e) => Err(e),
            Ok((open, p)) => if open.closing {
                Ok((TagV::Inline { open }, p))
            } else if pos < p <= s.len() {
                read_contents_from(s, p, open, Seq::empty())
            } else {
                Err(pos)
            },
        }
    }
}

/// Reading the rest of a tag with contents from `p`: contents until `<` and
/// `/` follow, then the closing tag.
pub open spec fn read_contents_from(
    s: Seq<Token>,
    p: int,
    open: OpenTagV,
    contents: Seq<ContentV>,
) -> Read<TagV>
    decreases s.len() - p, 2nat,
{
    if p > s.len() {
        Err(p)
    } else if lt_at(s, p) && slash_at(s, p + 1) {
        match read_close(s, p) {
            Err(e) => Err(e),
            Ok((close, e)) => Ok((TagV::Block { open, contents, close }, e)),
        }
    } else {
        match read_content(s, p) {
            Err(e) => Err(e),
            Ok((c, q)) => if p < q <= s.len() {
                read_contents_from(s, q, open, contents.push(c))
            } else {
                Err(p)
            },
        }
    }
}

/// Reading a content at `pos`.
pub open spec fn read_content(s: Seq<Token>, pos: int) -> Read<ContentV>
    decreases s.len() - pos, 1nat,
{
    if pos < 0 || pos >= s.len() {
        Err(pos)
    } else if lt_at(s, pos) {
        match read_tag(s, pos) {
            Err(e) => Err(e),
            Ok((t, e)) => Ok((ContentV::Tag(t), e)),
        }
    } else {
        match s[pos] {
            Token::Brace(n) => Ok((ContentV::Param(n), pos + 1)),
            Token::Str(v) => Ok((ContentV::Text(v), pos + 1)),
            Token::Ident(v) => Ok((ContentV::Word(v), pos + 1)),
            _ => Err(pos),
        }
    }
}

/// Reading the rest of a template from `p`, its tags so far being `tags`.
pub open spec fn read_tags_from(s: Seq<Token>, p: int, tags: Seq<TagV>) -> Result<TemplateV, int>
    decreases s.len() - p,
{
    if p < 0 || p > s.len() {
        Err(p)
    } else if lt_at(s, p) {
        match read_tag(s, p) {
            Err(e) => Err(e),
            Ok((t, q)) => if p < q <= s.len() {
                read_tags_from(s, q, tags.push(t))
            } else {
                Err(p)
            },
        }
    } else if p < s.len() {
        Err(p)
    } else {
        Ok(TemplateV { tags })
    }
}

/// Reading a whole template.
pub open spec fn read_template(s: Seq<Token>) -> Result<TemplateV, int> {
    read_tags_from(s, 0, Seq::empty())
}


/// What an executable reader gives back, as a mathematical result.
pub open spec fn read_result<T: View>(r: Result<(T, usize), crate::parse::ParseError>) -> Read<T::V> {
    match r {
        Ok((x, e)) => Ok((x@, e as int)),
        Err(err) => Err(err.at as int),
    }
}

} // verus!
