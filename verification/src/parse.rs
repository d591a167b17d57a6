//! Reading the tokens of a template into its tree.

use vstd::prelude::*;

use crate::syntax::{
    attr_list_toks, attr_toks, attrs_toks, close_toks, content_toks, contents_toks, key_toks,
    lemma_attr_list_toks_split, lemma_contents_toks_split, lemma_tags_toks_split, tags_toks,
    template_toks, wf_template, TemplateV, open_toks, parts_toks, reads_as_close,
    tag_open, tag_toks, wf_content, wf_tag, CloseTagV, ContentV, KeyV, OpenTagV, TagAttrV, TagAttrsV, TagV,
};
use crate::reading::{
    read_attr, read_attrs, read_attrs_from, read_close, read_content, read_contents_from,
    read_key, read_key_from, read_open, read_result, read_tag, read_tags_from, read_template,
};
use crate::tokens::{tokens, Tok, Token};
use crate::tree::{
    contents_view, lemma_contents_view_empty, lemma_contents_view_push, strings_view, BlockTag,
    CloseTag, Content, InlineTag, Key, OpenTag, Tag, TagAttr, TagAttrs, Template,
};

verus! {

/// Where the tokens stop matching the grammar: the index of the token that
/// was not expected, or the number of tokens where they ended too early.
pub struct ParseError {
    pub at: usize,
}

/// `w` is spelled in `s` from `pos` on.
pub open spec fn spelled_at(s: Seq<Token>, pos: int, w: Seq<Token>) -> bool {
    &&& 0 <= pos
    &&& pos + w.len() <= s.len()
    &&& s.subrange(pos, pos + w.len()) == w
}

pub open spec fn dash_at(s: Seq<Token>, p: int) -> bool {
    0 <= p < s.len() && s[p] is Dash
}

/// `y` is spelled at `pos` and reading it there stops at its end.
pub open spec fn key_cand(s: Seq<Token>, pos: int, y: KeyV) -> bool {
    &&& spelled_at(s, pos, key_toks(y))
    &&& !dash_at(s, pos + key_toks(y).len())
}

proof fn lemma_parts_toks(ps: Seq<Seq<char>>)
    ensures
        parts_toks(ps).len() == 2 * ps.len(),
        forall|i: int| 0 <= i < ps.len() ==> (#[trigger] parts_toks(ps)[2 * i]) == Token::Dash,
        forall|i: int|
            0 <= i < ps.len() ==> (#[trigger] parts_toks(ps)[2 * i + 1]) == Token::Ident(ps[i]),
    decreases ps.len(),
{
    if ps.len() > 0 {
        lemma_parts_toks(ps.drop_last());
        let q = parts_toks(ps.drop_last());
        let t = seq![Token::Dash, Token::Ident(ps.last())];
        assert(parts_toks(ps) == q + t);
        assert forall|i: int| 0 <= i < ps.len() implies (#[trigger] parts_toks(ps)[2 * i])
            == Token::Dash && parts_toks(ps)[2 * i + 1] == Token::Ident(ps[i]) by {
            if i < ps.len() - 1 {
                assert(ps.drop_last()[i] == ps[i]);
                assert(q[2 * i] == Token::Dash);
                assert(q[2 * i + 1] == Token::Ident(ps[i]));
                assert((q + t)[2 * i] == q[2 * i]);
                assert((q + t)[2 * i + 1] == q[2 * i + 1]);
                assert(parts_toks(ps)[2 * i] == Token::Dash);
            } else {
                assert(2 * i == q.len());
                assert((q + t)[2 * i] == t[0]);
                assert((q + t)[2 * i + 1] == t[1]);
            }
        }
    }
}

proof fn lemma_spelled_extend(s: Seq<Token>, pos: int, w: Seq<Token>, x: Seq<Token>)
    requires
        spelled_at(s, pos, w),
        spelled_at(s, pos + w.len(), x),
    ensures
        spelled_at(s, pos, w + x),
{
    assert(s.subrange(pos, pos + (w + x).len()) =~= s.subrange(pos, pos + w.len()) + s.subrange(
        pos + w.len(),
        pos + w.len() + x.len(),
    ));
}

/// The text of the identifier at `p`, if there is one.
fn ident_at(toks: &Vec<Tok>, p: usize) -> (r: Option<String>)
    ensures
        r matches Some(id) ==> p < toks.len() && tokens(toks@)[p as int] == Token::Ident(id@),
        r is None ==> !(p < toks.len() && tokens(toks@)[p as int] is Ident),
{
    if p < toks.len() {
        match &toks[p] {
            Tok::Ident(s) => Some(s.clone()),
            _ => None,
        }
    } else {
        None
    }
}

/// Whether the token at `p` is `-`.
fn is_dash(toks: &Vec<Tok>, p: usize) -> (r: bool)
    ensures
        r == dash_at(tokens(toks@), p as int),
{
    p < toks.len() && matches!(toks[p], Tok::Dash)
}

proof fn lemma_spelled_index(s: Seq<Token>, pos: int, w: Seq<Token>, j: int)
    requires
        spelled_at(s, pos, w),
        0 <= j < w.len(),
    ensures
        s[pos + j] == w[j],
{
    assert(s.subrange(pos, pos + w.len())[j] == s[pos + j]);
}

/// The tokens of a name: its first identifier, then `-` and an identifier per
/// further part.
proof fn lemma_key_toks(y: KeyV)
    ensures
        key_toks(y).len() == 1 + 2 * y.parts.len(),
        key_toks(y)[0] == Token::Ident(y.first),
        forall|i: int| 0 <= i < y.parts.len() ==> (#[trigger] key_toks(y)[2 * i + 1]) == Token::Dash,
        forall|i: int|
            0 <= i < y.parts.len() ==> (#[trigger] key_toks(y)[2 * i + 2]) == Token::Ident(y.parts[i]),
{
    lemma_parts_toks(y.parts);
    let a = seq![Token::Ident(y.first)];
    let b = parts_toks(y.parts);
    assert(key_toks(y) == a + b);
    assert forall|i: int| 0 <= i < y.parts.len() implies (#[trigger] key_toks(y)[2 * i + 1])
        == Token::Dash by {
        assert((a + b)[2 * i + 1] == b[2 * i]);
    }
    assert forall|i: int| 0 <= i < y.parts.len() implies (#[trigger] key_toks(y)[2 * i + 2])
        == Token::Ident(y.parts[i]) by {
        assert((a + b)[2 * i + 2] == b[2 * i + 1]);
    }
}

/// Reads a name: an identifier, then `-` and an identifier as long as a `-`
/// follows.
pub fn parse_key(toks: &Vec<Tok>, pos: usize) -> (r: Result<(Key, usize), ParseError>)
    requires
        pos <= toks.len(),
    ensures
        read_result(r) == read_key(tokens(toks@), pos as int),
        r matches Err(e) ==> e.at <= toks.len(),
        r matches Ok((k, end)) ==> {
            &&& key_cand(tokens(toks@), pos as int, k@)
            &&& end == pos + key_toks(k@).len()
        },
        forall|y: KeyV| #[trigger]
            key_cand(tokens(toks@), pos as int, y) ==> (r matches Ok((k, end)) && k@ == y),
{
    let ghost s = tokens(toks@);
    assert(s.len() == toks.len());
    let first = match ident_at(toks, pos) {
        Some(id) => id,
        None => {
            assert forall|y: KeyV| #[trigger] key_cand(s, pos as int, y) implies false by {
                lemma_key_toks(y);
                lemma_spelled_index(s, pos as int, key_toks(y), 0);
            }
            return Err(ParseError { at: pos });
        },
    };
    let mut parts: Vec<String> = Vec::new();
    let mut p = pos + 1;
    proof {
        assert(strings_view(parts@) =~= Seq::<Seq<char>>::empty());
        assert(s.subrange(pos as int, p as int) =~= key_toks(
            KeyV { first: first@, parts: strings_view(parts@) },
        ));
        assert forall|y: KeyV| #[trigger] key_cand(s, pos as int, y) implies {
            &&& y.first == first@
            &&& parts.len() <= y.parts.len()
            &&& strings_view(parts@) == y.parts.take(parts.len() as int)
        } by {
            lemma_key_toks(y);
            lemma_spelled_index(s, pos as int, key_toks(y), 0);
            assert(y.parts.take(0) =~= Seq::<Seq<char>>::empty());
        }
    }
    while is_dash(toks, p)
        invariant
            s == tokens(toks@),
            pos < p <= toks.len(),
            p == pos + 1 + 2 * parts.len(),
            spelled_at(s, pos as int, key_toks(KeyV { first: first@, parts: strings_view(parts@) })),
            read_key(s, pos as int) == read_key_from(s, p as int, first@, strings_view(parts@)),
            forall|y: KeyV| #[trigger]
                key_cand(s, pos as int, y) ==> {
                    &&& y.first == first@
                    &&& parts.len() <= y.parts.len()
                    &&& strings_view(parts@) == y.parts.take(parts.len() as int)
                },
        decreases toks.len() - p,
    {
        let ghost k = KeyV { first: first@, parts: strings_view(parts@) };
        let ghost i = parts.len() as int;
        proof {
            lemma_key_toks(k);
            assert forall|y: KeyV| #[trigger] key_cand(s, pos as int, y) implies i < y.parts.len()
                && p + 1 < s.len() && s[p + 1] == Token::Ident(y.parts[i]) by {
                lemma_key_toks(y);
                if i == y.parts.len() {
                    assert(p == pos + key_toks(y).len());
                } else {
                    lemma_spelled_index(s, pos as int, key_toks(y), 2 * i + 2);
                }
            }
        }
        let id = match ident_at(toks, p + 1) {
            Some(id) => id,
            None => {
                assert forall|y: KeyV| #[trigger] key_cand(s, pos as int, y) implies false by {
                    assert(s[p + 1] == Token::Ident(y.parts[i]));
                }
                return Err(ParseError { at: p + 1 });
            },
        };
        let ghost old_parts = parts@;
        parts.push(id);
        proof {
            let k2 = KeyV { first: first@, parts: strings_view(parts@) };
            assert(strings_view(parts@) =~= strings_view(old_parts).push(id@));
            assert(strings_view(parts@).drop_last() =~= strings_view(old_parts));
            assert(key_toks(k2) =~= key_toks(k) + seq![Token::Dash, Token::Ident(id@)]);
            assert(s.subrange(p as int, p + 2) =~= seq![Token::Dash, Token::Ident(id@)]);
            lemma_spelled_extend(s, pos as int, key_toks(k), seq![Token::Dash, Token::Ident(id@)]);
            assert forall|y: KeyV| #[trigger] key_cand(s, pos as int, y) implies {
                &&& y.first == first@
                &&& parts.len() <= y.parts.len()
                &&& strings_view(parts@) == y.parts.take(parts.len() as int)
            } by {
                assert(s[p + 1] == Token::Ident(y.parts[i]));
                assert(y.parts.take(i + 1) =~= y.parts.take(i).push(y.parts[i]));
            }
        }
        p = p + 2;
    }
    let key = Key { first, parts };
    assert(key@ == KeyV { first: first@, parts: strings_view(parts@) });
    proof {
        lemma_key_toks(key@);
        assert forall|y: KeyV| #[trigger] key_cand(s, pos as int, y) implies key@ == y by {
            lemma_key_toks(y);
            let i = key.parts.len() as int;
            if i < y.parts.len() {
                lemma_spelled_index(s, pos as int, key_toks(y), 2 * i + 1);
                assert(false);
            }
            assert(y.parts.take(i) =~= y.parts);
        }
    }
    Ok((key, p))
}


proof fn lemma_spelled_split(s: Seq<Token>, pos: int, w: Seq<Token>, x: Seq<Token>)
    requires
        spelled_at(s, pos, w + x),
    ensures
        spelled_at(s, pos, w),
        spelled_at(s, pos + w.len(), x),
{
    let t = s.subrange(pos, pos + (w + x).len());
    assert(t == w + x);
    assert forall|j: int| 0 <= j < w.len() implies s.subrange(pos, pos + w.len())[j] == w[j] by {
        assert(t[j] == s[pos + j]);
        assert((w + x)[j] == w[j]);
    }
    assert(s.subrange(pos, pos + w.len()) =~= w);
    assert forall|j: int| 0 <= j < x.len() implies s.subrange(
        pos + w.len(),
        pos + w.len() + x.len(),
    )[j] == x[j] by {
        assert(t[w.len() + j] == s[pos + w.len() + j]);
        assert((w + x)[w.len() + j] == x[j]);
    }
    assert(s.subrange(pos + w.len(), pos + w.len() + x.len()) =~= x);
}

pub open spec fn eq_at(s: Seq<Token>, p: int) -> bool {
    0 <= p < s.len() && s[p] is Eq
}

pub open spec fn ident_tok_at(s: Seq<Token>, p: int) -> bool {
    0 <= p < s.len() && s[p] is Ident
}

/// Whether the token at `p` is `=`.
fn is_eq(toks: &Vec<Tok>, p: usize) -> (r: bool)
    ensures
        r == eq_at(tokens(toks@), p as int),
{
    p < toks.len() && matches!(toks[p], Tok::Eq)
}

/// The value of the string literal at `p`, if there is one.
fn str_at(toks: &Vec<Tok>, p: usize) -> (r: Option<String>)
    ensures
        r matches Some(v) ==> p < toks.len() && tokens(toks@)[p as int] == Token::Str(v@),
        r is None ==> !(p < toks.len() && tokens(toks@)[p as int] is Str),
{
    if p < toks.len() {
        match &toks[p] {
            Tok::Str(v) => Some(v.clone()),
            _ => None,
        }
    } else {
        None
    }
}

/// The first token of an attribute is the identifier that starts its name.
proof fn lemma_attr_first(a: TagAttrV)
    ensures
        attr_toks(a).len() >= 1,
        attr_toks(a)[0] == Token::Ident(a.key.first),
{
    lemma_key_toks(a.key);
}

/// `y` is spelled at `pos`, and when it has no value, no `-` or `=` follows.
pub open spec fn attr_cand(s: Seq<Token>, pos: int, y: TagAttrV) -> bool {
    &&& spelled_at(s, pos, attr_toks(y))
    &&& y.val is None ==> !dash_at(s, pos + attr_toks(y).len()) && !eq_at(
        s,
        pos + attr_toks(y).len(),
    )
}

/// Reads an attribute: a name, then `=` and a string literal if a `=` follows.
pub fn parse_attr(toks: &Vec<Tok>, pos: usize) -> (r: Result<(TagAttr, usize), ParseError>)
    requires
        pos <= toks.len(),
    ensures
        read_result(r) == read_attr(tokens(toks@), pos as int),
        r matches Err(e) ==> e.at <= toks.len(),
        r matches Ok((a, end)) ==> {
            &&& spelled_at(tokens(toks@), pos as int, attr_toks(a@))
            &&& end == pos + attr_toks(a@).len()
        },
        forall|y: TagAttrV| #[trigger]
            attr_cand(tokens(toks@), pos as int, y) ==> (r matches Ok((a, end)) && a@ == y),
{
    let ghost s = tokens(toks@);
    assert(s.len() == toks.len());
    proof {
        assert forall|y: TagAttrV| #[trigger] attr_cand(s, pos as int, y) implies key_cand(
            s,
            pos as int,
            y.key,
        ) by {
            lemma_key_toks(y.key);
            let kt = key_toks(y.key);
            let rest: Seq<Token> = match y.val {
                Some(v) => seq![Token::Eq, Token::Str(v)],
                None => Seq::empty(),
            };
            assert(attr_toks(y) == kt + rest);
            lemma_spelled_split(s, pos as int, kt, rest);
            if y.val is Some {
                lemma_spelled_index(s, pos + kt.len(), rest, 0);
            } else {
                assert(attr_toks(y).len() == kt.len());
            }
        }
    }
    let (key, p) = match parse_key(toks, pos) {
        Ok(kp) => kp,
        Err(e) => return Err(e),
    };
    let ghost kt = key_toks(key@);
    if is_eq(toks, p) {
        assert(p < toks.len());
        match str_at(toks, p + 1) {
            Some(v) => {
                let a = TagAttr { key, val: Some(v) };
                proof {
                    assert forall|y: TagAttrV| #[trigger] attr_cand(s, pos as int, y) implies a@
                        == y by {
                        assert(y.key == key@);
                        if y.val is Some {
                            let rest = seq![Token::Eq, Token::Str(y.val->0)];
                            assert(attr_toks(y) == kt + rest);
                            lemma_spelled_split(s, pos as int, kt, rest);
                            lemma_spelled_index(s, pos + kt.len(), rest, 1);
                        } else {
                            assert(attr_toks(y).len() == kt.len());
                        }
                    }
                    assert(attr_toks(a@) == kt + seq![Token::Eq, Token::Str(v@)]);
                    assert(s.subrange(p as int, p + 2) =~= seq![Token::Eq, Token::Str(v@)]);
                    lemma_spelled_extend(s, pos as int, kt, seq![Token::Eq, Token::Str(v@)]);
                }
                Ok((a, p + 2))
            },
            None => {
                assert forall|y: TagAttrV| #[trigger] attr_cand(s, pos as int, y) implies false by {
                    assert(y.key == key@);
                    let rest: Seq<Token> = match y.val {
                        Some(v) => seq![Token::Eq, Token::Str(v)],
                        None => Seq::empty(),
                    };
                    assert(attr_toks(y) == kt + rest);
                    if y.val is Some {
                        lemma_spelled_split(s, pos as int, kt, rest);
                        lemma_spelled_index(s, pos + kt.len(), rest, 1);
                    } else {
                        assert(attr_toks(y).len() == kt.len());
                    }
                }
                Err(ParseError { at: p + 1 })
            },
        }
    } else {
        let a = TagAttr { key, val: None };
        proof {
            assert(attr_toks(a@) =~= kt);
            assert forall|y: TagAttrV| #[trigger] attr_cand(s, pos as int, y) implies a@ == y by {
                assert(y.key == key@);
                if y.val is Some {
                    let rest = seq![Token::Eq, Token::Str(y.val->0)];
                    assert(attr_toks(y) == kt + rest);
                    lemma_spelled_split(s, pos as int, kt, rest);
                    lemma_spelled_index(s, pos + kt.len(), rest, 0);
                }
            }
        }
        Ok((a, p))
    }
}

/// `y` is spelled at `pos`, and no identifier, `-` or `=` follows it.
pub open spec fn attrs_cand(s: Seq<Token>, pos: int, y: TagAttrsV) -> bool {
    let e = pos + attrs_toks(y).len();
    &&& spelled_at(s, pos, attrs_toks(y))
    &&& !ident_tok_at(s, e)
    &&& !dash_at(s, e)
    &&& !eq_at(s, e)
}

pub open spec fn attrs_view(v: Seq<TagAttr>) -> Seq<TagAttrV> {
    Seq::new(v.len(), |i: int| v[i]@)
}

/// Reads the name of a tag and then an attribute as long as an identifier
/// follows.
pub fn parse_attrs(toks: &Vec<Tok>, pos: usize) -> (r: Result<(TagAttrs, usize), ParseError>)
    requires
        pos <= toks.len(),
    ensures
        read_result(r) == read_attrs(tokens(toks@), pos as int),
        r matches Err(e) ==> e.at <= toks.len(),
        r matches Ok((a, end)) ==> {
            &&& spelled_at(tokens(toks@), pos as int, attrs_toks(a@))
            &&& end == pos + attrs_toks(a@).len()
        },
        forall|y: TagAttrsV| #[trigger]
            attrs_cand(tokens(toks@), pos as int, y) ==> (r matches Ok((a, end)) && a@ == y),
{
    let ghost s = tokens(toks@);
    assert(s.len() == toks.len());
    proof {
        assert forall|y: TagAttrsV| #[trigger] attrs_cand(s, pos as int, y) implies key_cand(
            s,
            pos as int,
            y.key,
        ) by {
            let kt = key_toks(y.key);
            lemma_spelled_split(s, pos as int, kt, attr_list_toks(y.others));
            if y.others.len() > 0 {
                lemma_attr_list_toks_split(y.others, 0);
                assert(y.others.take(0) =~= Seq::<TagAttrV>::empty());
                assert(attr_list_toks(Seq::<TagAttrV>::empty()) =~= Seq::<Token>::empty());
                lemma_attr_first(y.others[0]);
                lemma_spelled_index(s, pos + kt.len(), attr_list_toks(y.others), 0);
            }
        }
    }
    let (key, p0) = match parse_key(toks, pos) {
        Ok(kp) => kp,
        Err(e) => return Err(e),
    };
    let mut others: Vec<TagAttr> = Vec::new();
    let mut p = p0;
    proof {
        assert(attrs_view(others@) =~= Seq::<TagAttrV>::empty());
        assert(s.subrange(pos as int, p as int) =~= key_toks(key@));
        assert forall|y: TagAttrsV| #[trigger] attrs_cand(s, pos as int, y) implies {
            &&& y.key == key@
            &&& others.len() <= y.others.len()
            &&& attrs_view(others@) == y.others.take(others.len() as int)
        } by {
            assert(y.others.take(0) =~= Seq::<TagAttrV>::empty());
        }
    }
    while ident_at(toks, p).is_some()
        invariant
            s == tokens(toks@),
            pos <= p0 <= p <= toks.len(),
            p0 == pos + key_toks(key@).len(),
            p == p0 + attr_list_toks(attrs_view(others@)).len(),
            spelled_at(s, pos as int, attrs_toks(TagAttrsV { key: key@, others: attrs_view(others@) })),
            read_attrs(s, pos as int) == read_attrs_from(s, p as int, key@, attrs_view(others@)),
            forall|y: TagAttrsV| #[trigger]
                attrs_cand(s, pos as int, y) ==> {
                    &&& y.key == key@
                    &&& others.len() <= y.others.len()
                    &&& attrs_view(others@) == y.others.take(others.len() as int)
                },
        decreases toks.len() - p,
    {
        let ghost i = others.len() as int;
        let ghost done = attrs_view(others@);
        proof {
            assert forall|y: TagAttrsV| #[trigger] attrs_cand(s, pos as int, y) implies i
                < y.others.len() && attr_cand(s, p as int, y.others[i]) by {
                let kt = key_toks(y.key);
                lemma_spelled_split(s, pos as int, kt, attr_list_toks(y.others));
                if i == y.others.len() {
                    assert(y.others.take(i) =~= y.others);
                    assert(p == pos + attrs_toks(y).len());
                } else {
                    lemma_attr_list_toks_split(y.others, i);
                    let a = attr_list_toks(y.others.take(i));
                    let b = attr_toks(y.others[i]);
                    let c = attr_list_toks(y.others.skip(i + 1));
                    lemma_spelled_split(s, p0 as int, a + b, c);
                    lemma_spelled_split(s, p0 as int, a, b);
                    let e = p + b.len();
                    if y.others[i].val is None {
                        if i + 1 < y.others.len() {
                            lemma_attr_list_toks_split(y.others.skip(i + 1), 0);
                            assert(y.others.skip(i + 1).take(0) =~= Seq::<TagAttrV>::empty());
                            assert(attr_list_toks(Seq::<TagAttrV>::empty()) =~= Seq::<Token>::empty());
                            lemma_attr_first(y.others.skip(i + 1)[0]);
                            lemma_spelled_index(s, e, c, 0);
                        } else {
                            assert(y.others.skip(i + 1) =~= Seq::<TagAttrV>::empty());
                            assert(c =~= Seq::<Token>::empty());
                        }
                    }
                }
            }
        }
        let (a, q) = match parse_attr(toks, p) {
            Ok(aq) => aq,
            Err(e) => return Err(e),
        };
        let ghost old_others = others@;
        others.push(a);
        proof {
            assert(attrs_view(others@) =~= done.push(a@));
            assert(attrs_view(others@).drop_last() =~= done);
            assert(attr_list_toks(attrs_view(others@)) == attr_list_toks(done) + attr_toks(a@));
            lemma_spelled_extend(s, pos as int, attrs_toks(TagAttrsV { key: key@, others: done }), attr_toks(a@));
            assert(attrs_toks(TagAttrsV { key: key@, others: attrs_view(others@) }) =~= attrs_toks(
                TagAttrsV { key: key@, others: done },
            ) + attr_toks(a@));
            assert forall|y: TagAttrsV| #[trigger] attrs_cand(s, pos as int, y) implies {
                &&& y.key == key@
                &&& others.len() <= y.others.len()
                &&& attrs_view(others@) == y.others.take(others.len() as int)
            } by {
                assert(y.others.take(i + 1) =~= y.others.take(i).push(y.others[i]));
            }
        }
        p = q;
    }
    let attrs = TagAttrs { key, others };
    proof {
        assert(attrs@.others == attrs_view(attrs.others@));
        assert forall|y: TagAttrsV| #[trigger] attrs_cand(s, pos as int, y) implies attrs@ == y by {
            let i = attrs.others.len() as int;
            if i < y.others.len() {
                let kt = key_toks(y.key);
                lemma_spelled_split(s, pos as int, kt, attr_list_toks(y.others));
                lemma_attr_list_toks_split(y.others, i);
                let a = attr_list_toks(y.others.take(i));
                let b = attr_toks(y.others[i]);
                let c = attr_list_toks(y.others.skip(i + 1));
                lemma_spelled_split(s, p0 as int, a + b, c);
                lemma_spelled_split(s, p0 as int, a, b);
                lemma_attr_first(y.others[i]);
                lemma_spelled_index(s, p as int, b, 0);
                assert(false);
            }
            assert(y.others.take(i) =~= y.others);
        }
    }
    Ok((attrs, p))
}


pub open spec fn lt_at(s: Seq<Token>, p: int) -> bool {
    0 <= p < s.len() && s[p] is Lt
}

pub open spec fn slash_at(s: Seq<Token>, p: int) -> bool {
    0 <= p < s.len() && s[p] is Slash
}

pub open spec fn gt_at(s: Seq<Token>, p: int) -> bool {
    0 <= p < s.len() && s[p] is Gt
}

/// Whether the token at `p` is `<`.
fn is_lt(toks: &Vec<Tok>, p: usize) -> (r: bool)
    ensures
        r == lt_at(tokens(toks@), p as int),
{
    p < toks.len() && matches!(toks[p], Tok::Lt)
}

/// Whether the token at `p` is `/`.
fn is_slash(toks: &Vec<Tok>, p: usize) -> (r: bool)
    ensures
        r == slash_at(tokens(toks@), p as int),
{
    p < toks.len() && matches!(toks[p], Tok::Slash)
}

/// Whether the token at `p` is `>`.
fn is_gt(toks: &Vec<Tok>, p: usize) -> (r: bool)
    ensures
        r == gt_at(tokens(toks@), p as int),
{
    p < toks.len() && matches!(toks[p], Tok::Gt)
}

pub open spec fn attrs_opt_toks(a: Option<TagAttrsV>) -> Seq<Token> {
    match a {
        Some(a) => attrs_toks(a),
        None => Seq::empty(),
    }
}

pub open spec fn slash_opt_toks(closing: bool) -> Seq<Token> {
    if closing {
        seq![Token::Slash]
    } else {
        Seq::empty()
    }
}

proof fn lemma_open_toks(y: OpenTagV)
    ensures
        open_toks(y) == seq![Token::Lt] + attrs_opt_toks(y.attrs) + slash_opt_toks(y.closing)
            + seq![Token::Gt],
        y.attrs matches Some(a) ==> attrs_toks(a).len() >= 1 && attrs_toks(a)[0] is Ident,
{
    if let Some(a) = y.attrs {
        lemma_key_toks(a.key);
        assert(attrs_toks(a)[0] == key_toks(a.key)[0]);
    }
}

/// Reads an opening tag: `<`, the name and attributes if an identifier
/// follows, `/` if one follows, and `>`.
pub fn parse_open(toks: &Vec<Tok>, pos: usize) -> (r: Result<(OpenTag, usize), ParseError>)
    requires
        pos <= toks.len(),
    ensures
        read_result(r) == read_open(tokens(toks@), pos as int),
        r matches Err(e) ==> e.at <= toks.len(),
        r matches Ok((o, end)) ==> {
            &&& spelled_at(tokens(toks@), pos as int, open_toks(o@))
            &&& end == pos + open_toks(o@).len()
        },
        forall|y: OpenTagV| #[trigger]
            spelled_at(tokens(toks@), pos as int, open_toks(y)) ==> (r matches Ok((o, end)) && o@
                == y),
{
    let ghost s = tokens(toks@);
    assert(s.len() == toks.len());
    proof {
        assert forall|y: OpenTagV| #[trigger] spelled_at(s, pos as int, open_toks(y)) implies {
            &&& lt_at(s, pos as int)
            &&& (y.attrs is Some <==> ident_tok_at(s, pos + 1))
            &&& y.attrs matches Some(a) ==> attrs_cand(s, pos + 1, a)
            &&& slash_at(s, pos + 1 + attrs_opt_toks(y.attrs).len()) == y.closing
            &&& gt_at(
                s,
                pos + 1 + attrs_opt_toks(y.attrs).len() + slash_opt_toks(y.closing).len(),
            )
        } by {
            lemma_open_toks(y);
            let l = seq![Token::Lt];
            let a = attrs_opt_toks(y.attrs);
            let c = slash_opt_toks(y.closing);
            let g = seq![Token::Gt];
            lemma_spelled_split(s, pos as int, l + a + c, g);
            lemma_spelled_split(s, pos as int, l + a, c);
            lemma_spelled_split(s, pos as int, l, a);
            lemma_spelled_index(s, pos as int, l, 0);
            let q = pos + 1 + a.len();
            lemma_spelled_index(s, q + c.len(), g, 0);
            if y.closing {
                lemma_spelled_index(s, q, c, 0);
            } else {
                assert(c.len() == 0);
            }
            if y.attrs is Some {
                lemma_spelled_index(s, pos + 1, a, 0);
            } else {
                assert(a.len() == 0);
                if y.closing {
                    lemma_spelled_index(s, q, c, 0);
                }
            }
        }
    }
    if !is_lt(toks, pos) {
        return Err(ParseError { at: pos });
    }
    let mut p = pos + 1;
    let attrs = if ident_at(toks, p).is_some() {
        match parse_attrs(toks, p) {
            Ok((a, q)) => {
                p = q;
                Some(a)
            },
            Err(e) => return Err(e),
        }
    } else {
        None
    };
    let ghost pa = p;
    let closing = is_slash(toks, p);
    if closing {
        p = p + 1;
    }
    if !is_gt(toks, p) {
        return Err(ParseError { at: p });
    }
    let o = OpenTag { attrs, closing };
    proof {
        let a = attrs_opt_toks(o@.attrs);
        let c = slash_opt_toks(closing);
        lemma_open_toks(o@);
        assert(s.subrange(pos as int, pos + 1) =~= seq![Token::Lt]);
        if o@.attrs is None {
            assert(s.subrange(pos + 1, pos + 1) =~= a);
        }
        lemma_spelled_extend(s, pos as int, seq![Token::Lt], a);
        assert(s.subrange(pa as int, pa + c.len()) =~= c);
        lemma_spelled_extend(s, pos as int, seq![Token::Lt] + a, c);
        assert(s.subrange(p as int, p + 1) =~= seq![Token::Gt]);
        lemma_spelled_extend(s, pos as int, seq![Token::Lt] + a + c, seq![Token::Gt]);
    }
    Ok((o, p + 1))
}

pub open spec fn ident_opt_toks(k: Option<Seq<char>>) -> Seq<Token> {
    match k {
        Some(k) => seq![Token::Ident(k)],
        None => Seq::empty(),
    }
}

/// Reads a closing tag: `<`, `/`, the name if an identifier follows, and `>`.
pub fn parse_close(toks: &Vec<Tok>, pos: usize) -> (r: Result<(CloseTag, usize), ParseError>)
    requires
        pos <= toks.len(),
    ensures
        read_result(r) == read_close(tokens(toks@), pos as int),
        r matches Err(e) ==> e.at <= toks.len(),
        r matches Ok((c, end)) ==> {
            &&& spelled_at(tokens(toks@), pos as int, close_toks(c@))
            &&& end == pos + close_toks(c@).len()
        },
        forall|y: CloseTagV| #[trigger]
            spelled_at(tokens(toks@), pos as int, close_toks(y)) ==> (r matches Ok((c, end)) && c@
                == y),
{
    let ghost s = tokens(toks@);
    assert(s.len() == toks.len());
    proof {
        assert forall|y: CloseTagV| #[trigger] spelled_at(s, pos as int, close_toks(y)) implies {
            &&& lt_at(s, pos as int)
            &&& slash_at(s, pos + 1)
            &&& (y.key is Some <==> ident_tok_at(s, pos + 2))
            &&& y.key matches Some(k) ==> s[pos + 2] == Token::Ident(k)
            &&& gt_at(s, pos + 2 + ident_opt_toks(y.key).len())
        } by {
            let ls = seq![Token::Lt, Token::Slash];
            let k = ident_opt_toks(y.key);
            let g = seq![Token::Gt];
            assert(close_toks(y) == ls + k + g);
            lemma_spelled_split(s, pos as int, ls + k, g);
            lemma_spelled_split(s, pos as int, ls, k);
            lemma_spelled_index(s, pos as int, ls, 0);
            lemma_spelled_index(s, pos as int, ls, 1);
            lemma_spelled_index(s, pos + 2 + k.len(), g, 0);
            if y.key is Some {
                lemma_spelled_index(s, pos + 2, k, 0);
            }
        }
    }
    if !is_lt(toks, pos) {
        return Err(ParseError { at: pos });
    }
    if !is_slash(toks, pos + 1) {
        return Err(ParseError { at: pos + 1 });
    }
    let key = ident_at(toks, pos + 2);
    let p = if key.is_some() {
        pos + 3
    } else {
        pos + 2
    };
    if !is_gt(toks, p) {
        return Err(ParseError { at: p });
    }
    let c = CloseTag { key };
    proof {
        assert(s.subrange(pos as int, p + 1) =~= close_toks(c@));
    }
    Ok((c, p + 1))
}


/// A tag starts with `<` and has at least two tokens; the second is `/` only
/// for a tag without a name that closes itself.
proof fn lemma_tag_start(t: TagV)
    ensures
        tag_toks(t).len() >= 2,
        tag_toks(t)[0] == Token::Lt,
        tag_toks(t)[1] is Slash ==> tag_open(t).attrs is None && tag_open(t).closing,
{
    let o = match t {
        TagV::Inline { open } => open,
        TagV::Block { open, .. } => open,
    };
    lemma_open_toks(o);
    let l = seq![Token::Lt];
    let a = attrs_opt_toks(o.attrs);
    let c = slash_opt_toks(o.closing);
    let g = seq![Token::Gt];
    let ot = open_toks(o);
    assert(ot[0] == Token::Lt);
    if a.len() > 0 {
        assert(ot[1] == a[0]);
    } else if c.len() > 0 {
        assert(ot[1] == c[0]);
    } else {
        assert(ot[1] == g[0]);
    }
    match t {
        TagV::Inline { open } => {},
        TagV::Block { open, contents, close } => {
            assert(tag_toks(t) == ot + contents_toks(contents) + close_toks(close));
            assert(tag_toks(t)[0] == ot[0]);
            assert(tag_toks(t)[1] == ot[1]);
        },
    }
}

/// Contents that may stand in a tag do not start as a closing tag does.
proof fn lemma_content_start(c: ContentV)
    ensures
        content_toks(c).len() >= 1,
        content_toks(c)[0] is Lt <==> c is Tag,
        wf_content(c) && content_toks(c)[0] is Lt && content_toks(c)[1] is Slash ==> reads_as_close(
            c,
        ),
{
    if let ContentV::Tag(t) = c {
        lemma_tag_start(t);
        assert(content_toks(c) == tag_toks(t));
    }
}

pub open spec fn tag_cand(s: Seq<Token>, pos: int, y: TagV) -> bool {
    wf_tag(y) && spelled_at(s, pos, tag_toks(y))
}

pub open spec fn content_cand(s: Seq<Token>, pos: int, y: ContentV) -> bool {
    wf_content(y) && spelled_at(s, pos, content_toks(y))
}

/// Whether the tokens at `p` are `<` and `/`, the start of a closing tag.
fn at_close(toks: &Vec<Tok>, p: usize) -> (r: bool)
    ensures
        r == (lt_at(tokens(toks@), p as int) && slash_at(tokens(toks@), p + 1)),
{
    p < toks.len() && matches!(toks[p], Tok::Lt) && p + 1 < toks.len() && matches!(
        toks[p + 1],
        Tok::Slash
    )
}

/// Reads a tag: an opening tag; unless it closes itself, the contents up to
/// the next `<` `/`, and a closing tag.
pub fn parse_tag(toks: &Vec<Tok>, pos: usize) -> (r: Result<(Tag, usize), ParseError>)
    requires
        pos <= toks.len(),
    ensures
        read_result(r) == read_tag(tokens(toks@), pos as int),
        r matches Err(e) ==> e.at <= toks.len(),
        r matches Ok((t, end)) ==> {
            &&& wf_tag(t@)
            &&& spelled_at(tokens(toks@), pos as int, tag_toks(t@))
            &&& end == pos + tag_toks(t@).len()
        },
        forall|y: TagV| #[trigger]
            tag_cand(tokens(toks@), pos as int, y) ==> (r matches Ok((t, end)) && t@ == y),
    decreases toks.len() - pos, 0nat,
{
    let ghost s = tokens(toks@);
    assert(s.len() == toks.len());
    proof {
        assert forall|y: TagV| #[trigger] tag_cand(s, pos as int, y) implies spelled_at(
            s,
            pos as int,
            open_toks(tag_open(y)),
        ) by {
            match y {
                TagV::Inline { open } => {},
                TagV::Block { open, contents, close } => {
                    lemma_spelled_split(
                        s,
                        pos as int,
                        open_toks(open) + contents_toks(contents),
                        close_toks(close),
                    );
                    lemma_spelled_split(s, pos as int, open_toks(open), contents_toks(contents));
                },
            }
        }
    }
    let (open, p0) = match parse_open(toks, pos) {
        Ok(op) => op,
        Err(e) => return Err(e),
    };
    proof {
        lemma_open_toks(open@);
    }
    if open.closing {
        let t = Tag::Inline(InlineTag { open });
        proof {
            assert forall|y: TagV| #[trigger] tag_cand(s, pos as int, y) implies t@ == y by {
                assert(tag_open(y) == open@);
            }
        }
        return Ok((t, p0));
    }
    let mut contents: Vec<Content> = Vec::new();
    let mut p = p0;
    proof {
        lemma_contents_view_empty();
        assert(contents@ == Seq::<Content>::empty());
        assert(open_toks(open@) + contents_toks(contents_view(contents@)) =~= open_toks(open@));
        assert forall|y: TagV| #[trigger] tag_cand(s, pos as int, y) implies {
            &&& y is Block
            &&& tag_open(y) == open@
            &&& contents.len() <= y->contents.len()
            &&& contents_view(contents@) == y->contents.take(contents.len() as int)
        } by {
            assert(tag_open(y) == open@);
            assert(y->contents.take(0) =~= Seq::<ContentV>::empty());
        }
    }
    while !at_close(toks, p)
        invariant
            s == tokens(toks@),
            s.len() == toks.len(),
            pos < p0 <= p <= toks.len(),
            !open.closing,
            p0 == pos + open_toks(open@).len(),
            contents_view(contents@).len() == contents.len(),
            p == p0 + contents_toks(contents_view(contents@)).len(),
            spelled_at(s, pos as int, open_toks(open@) + contents_toks(contents_view(contents@))),
            read_tag(s, pos as int) == read_contents_from(
                s,
                p as int,
                open@,
                contents_view(contents@),
            ),
            forall|i: int|
                0 <= i < contents.len() ==> {
                    &&& wf_content(#[trigger] contents_view(contents@)[i])
                    &&& !reads_as_close(contents_view(contents@)[i])
                },
            forall|y: TagV| #[trigger]
                tag_cand(s, pos as int, y) ==> {
                    &&& y is Block
                    &&& tag_open(y) == open@
                    &&& contents.len() <= y->contents.len()
                    &&& contents_view(contents@) == y->contents.take(contents.len() as int)
                },
        decreases toks.len() - p,
    {
        let ghost k = contents.len() as int;
        let ghost cv = contents_view(contents@);
        proof {
            assert forall|y: TagV| #[trigger] tag_cand(s, pos as int, y) implies k
                < y->contents.len() && content_cand(s, p as int, y->contents[k]) by {
                let ys = y->contents;
                let ot = open_toks(open@);
                lemma_spelled_split(s, pos as int, ot + contents_toks(ys), close_toks(y->close));
                lemma_spelled_split(s, pos as int, ot, contents_toks(ys));
                if k == ys.len() {
                    assert(ys.take(k) =~= ys);
                    assert(close_toks(y->close)[0] == Token::Lt);
                    assert(close_toks(y->close)[1] == Token::Slash);
                    lemma_spelled_index(s, p as int, close_toks(y->close), 0);
                    lemma_spelled_index(s, p as int, close_toks(y->close), 1);
                } else {
                    lemma_contents_toks_split(ys, k);
                    let a = contents_toks(ys.take(k));
                    let b = content_toks(ys[k]);
                    let c = contents_toks(ys.skip(k + 1));
                    lemma_spelled_split(s, p0 as int, a + b, c);
                    lemma_spelled_split(s, p0 as int, a, b);
                }
            }
        }
        let (c, q) = match parse_content(toks, p) {
            Ok(cq) => cq,
            Err(e) => return Err(e),
        };
        proof {
            lemma_content_start(c@);
            lemma_spelled_index(s, p as int, content_toks(c@), 0);
            if content_toks(c@).len() > 1 {
                lemma_spelled_index(s, p as int, content_toks(c@), 1);
            }
            if reads_as_close(c@) {
                let t = c@->Tag_0;
                lemma_tag_start(t);
                lemma_spelled_index(s, p as int, content_toks(c@), 1);
                assert(tag_toks(t)[1] == open_toks(tag_open(t))[1]);
                lemma_open_toks(tag_open(t));
                assert(false);
            }
        }
        let ghost old_contents = contents@;
        contents.push(c);
        proof {
            lemma_contents_view_push(old_contents, c);
            let cv2 = contents_view(contents@);
            assert(cv2 == cv.push(c@));
            assert(cv2.subrange(0, cv2.len() - 1) == cv);
            assert(contents_toks(cv2) == contents_toks(cv) + content_toks(c@));
            lemma_spelled_extend(s, pos as int, open_toks(open@) + contents_toks(cv), content_toks(c@));
            assert(open_toks(open@) + contents_toks(cv2) =~= open_toks(open@) + contents_toks(cv)
                + content_toks(c@));
            assert forall|i: int| 0 <= i < contents.len() implies {
                &&& wf_content(#[trigger] cv2[i])
                &&& !reads_as_close(cv2[i])
            } by {
                if i < k {
                    assert(cv2[i] == cv[i]);
                }
            }
            assert forall|y: TagV| #[trigger] tag_cand(s, pos as int, y) implies {
                &&& y is Block
                &&& tag_open(y) == open@
                &&& contents.len() <= y->contents.len()
                &&& cv2 == y->contents.take(contents.len() as int)
            } by {
                assert(y->contents.take(k + 1) =~= y->contents.take(k).push(y->contents[k]));
            }
        }
        p = q;
    }
    proof {
        assert forall|y: TagV| #[trigger] tag_cand(s, pos as int, y) implies spelled_at(
            s,
            p as int,
            close_toks(y->close),
        ) by {
            let ys = y->contents;
            let k = contents.len() as int;
            let ot = open_toks(open@);
            lemma_spelled_split(s, pos as int, ot + contents_toks(ys), close_toks(y->close));
            lemma_spelled_split(s, pos as int, ot, contents_toks(ys));
            if k < ys.len() {
                lemma_contents_toks_split(ys, k);
                let a = contents_toks(ys.take(k));
                let b = content_toks(ys[k]);
                let c = contents_toks(ys.skip(k + 1));
                lemma_spelled_split(s, p0 as int, a + b, c);
                lemma_spelled_split(s, p0 as int, a, b);
                lemma_content_start(ys[k]);
                lemma_spelled_index(s, p as int, b, 0);
                lemma_spelled_index(s, p as int, b, 1);
                assert(false);
            }
            assert(ys.take(k) =~= ys);
        }
    }
    let (close, e) = match parse_close(toks, p) {
        Ok(ce) => ce,
        Err(e) => return Err(e),
    };
    let ghost cv = contents_view(contents@);
    let t = Tag::Block(BlockTag { open, contents, close });
    proof {
        assert(t@ == TagV::Block { open: open@, contents: cv, close: close@ });
        lemma_spelled_extend(s, pos as int, open_toks(open@) + contents_toks(cv), close_toks(close@));
        assert forall|i: int| 0 <= i < cv.len() implies {
            &&& !reads_as_close(#[trigger] cv[i])
            &&& wf_content(cv[i])
        } by {}
        assert forall|y: TagV| #[trigger] tag_cand(s, pos as int, y) implies t@ == y by {
            let ys = y->contents;
            let k = cv.len() as int;
            let ot = open_toks(open@);
            lemma_spelled_split(s, pos as int, ot + contents_toks(ys), close_toks(y->close));
            lemma_spelled_split(s, pos as int, ot, contents_toks(ys));
            if k < ys.len() {
                lemma_contents_toks_split(ys, k);
                let a = contents_toks(ys.take(k));
                let b = content_toks(ys[k]);
                let c = contents_toks(ys.skip(k + 1));
                lemma_spelled_split(s, p0 as int, a + b, c);
                lemma_spelled_split(s, p0 as int, a, b);
                lemma_content_start(ys[k]);
                lemma_spelled_index(s, p as int, b, 0);
                lemma_spelled_index(s, p as int, b, 1);
                assert(false);
            }
            assert(ys.take(k) =~= ys);
            assert(y->close == close@);
        }
    }
    Ok((t, e))
}

/// Reads one content: a tag if `<` follows, else an expression in braces, a
/// string literal or an identifier.
pub fn parse_content(toks: &Vec<Tok>, pos: usize) -> (r: Result<(Content, usize), ParseError>)
    requires
        pos <= toks.len(),
    ensures
        read_result(r) == read_content(tokens(toks@), pos as int),
        r matches Err(e) ==> e.at <= toks.len(),
        r matches Ok((c, end)) ==> {
            &&& wf_content(c@)
            &&& spelled_at(tokens(toks@), pos as int, content_toks(c@))
            &&& end == pos + content_toks(c@).len()
        },
        forall|y: ContentV| #[trigger]
            content_cand(tokens(toks@), pos as int, y) ==> (r matches Ok((c, end)) && c@ == y),
    decreases toks.len() - pos, 1nat,
{
    let ghost s = tokens(toks@);
    assert(s.len() == toks.len());
    proof {
        assert forall|y: ContentV| #[trigger] content_cand(s, pos as int, y) implies pos < s.len()
            && (s[pos as int] is Lt <==> y is Tag) by {
            lemma_content_start(y);
            lemma_spelled_index(s, pos as int, content_toks(y), 0);
        }
    }
    if pos >= toks.len() {
        return Err(ParseError { at: pos });
    }
    if is_lt(toks, pos) {
        proof {
            assert forall|y: ContentV| #[trigger] content_cand(s, pos as int, y) implies tag_cand(
                s,
                pos as int,
                y->Tag_0,
            ) by {}
        }
        let (t, e) = match parse_tag(toks, pos) {
            Ok(te) => te,
            Err(e) => return Err(e),
        };
        let c = Content::Tag(t);
        proof {
            assert(c@ == ContentV::Tag(t@));
            assert forall|y: ContentV| #[trigger] content_cand(s, pos as int, y) implies c@ == y by {
                assert(tag_cand(s, pos as int, y->Tag_0));
            }
        }
        return Ok((c, e));
    }
    let c = match &toks[pos] {
        Tok::Brace(n) => Content::Param(*n),
        Tok::Str(v) => Content::Text(v.clone()),
        Tok::Ident(v) => Content::Word(v.clone()),
        _ => {
            assert forall|y: ContentV| #[trigger] content_cand(s, pos as int, y) implies false by {
                lemma_spelled_index(s, pos as int, content_toks(y), 0);
            }
            return Err(ParseError { at: pos });
        },
    };
    proof {
        assert(s.subrange(pos as int, pos + 1) =~= content_toks(c@));
        assert forall|y: ContentV| #[trigger] content_cand(s, pos as int, y) implies c@ == y by {
            lemma_spelled_index(s, pos as int, content_toks(y), 0);
        }
    }
    Ok((c, pos + 1))
}


/// `y` is the template that the tokens `s` spell.
pub open spec fn template_cand(s: Seq<Token>, y: TemplateV) -> bool {
    wf_template(y) && template_toks(y) == s
}

pub open spec fn tags_view(v: Seq<Tag>) -> Seq<TagV> {
    Seq::new(v.len(), |i: int| v[i]@)
}

/// Reads a template: tags as long as a `<` follows, after which the tokens
/// must end.
///
/// It succeeds exactly on the tokens that spell a template, and gives back
/// that template.
pub fn parse_template(toks: &Vec<Tok>) -> (r: Result<Template, ParseError>)
    ensures
        match r {
            Ok(t) => read_template(tokens(toks@)) == Ok::<TemplateV, int>(t@),
            Err(e) => read_template(tokens(toks@)) == Err::<TemplateV, int>(e.at as int),
        },
        r matches Err(e) ==> e.at <= toks.len(),
        r matches Ok(t) ==> template_cand(tokens(toks@), t@),
        forall|y: TemplateV| #[trigger]
            template_cand(tokens(toks@), y) ==> (r matches Ok(t) && t@ == y),
{
    let ghost s = tokens(toks@);
    assert(s.len() == toks.len());
    let mut tags: Vec<Tag> = Vec::new();
    let mut p: usize = 0;
    proof {
        assert(tags_view(tags@) =~= Seq::<TagV>::empty());
        assert(s.subrange(0, 0) =~= tags_toks(tags_view(tags@)));
        assert forall|y: TemplateV| #[trigger] template_cand(s, y) implies {
            &&& tags.len() <= y.tags.len()
            &&& tags_view(tags@) == y.tags.take(tags.len() as int)
        } by {
            assert(y.tags.take(0) =~= Seq::<TagV>::empty());
        }
    }
    while is_lt(toks, p)
        invariant
            s == tokens(toks@),
            s.len() == toks.len(),
            p <= toks.len(),
            p == tags_toks(tags_view(tags@)).len(),
            spelled_at(s, 0, tags_toks(tags_view(tags@))),
            read_template(s) == read_tags_from(s, p as int, tags_view(tags@)),
            forall|i: int| 0 <= i < tags.len() ==> wf_tag(#[trigger] tags_view(tags@)[i]),
            forall|y: TemplateV| #[trigger]
                template_cand(s, y) ==> {
                    &&& tags.len() <= y.tags.len()
                    &&& tags_view(tags@) == y.tags.take(tags.len() as int)
                },
        decreases toks.len() - p,
    {
        let ghost k = tags.len() as int;
        let ghost tv = tags_view(tags@);
        proof {
            assert forall|y: TemplateV| #[trigger] template_cand(s, y) implies k < y.tags.len()
                && tag_cand(s, p as int, y.tags[k]) by {
                if k == y.tags.len() {
                    assert(y.tags.take(k) =~= y.tags);
                } else {
                    lemma_tags_toks_split(y.tags, k);
                    let a = tags_toks(y.tags.take(k));
                    let b = tag_toks(y.tags[k]);
                    let c = tags_toks(y.tags.skip(k + 1));
                    assert(s.subrange(0, s.len() as int) =~= s);
                    lemma_spelled_split(s, 0, a + b, c);
                    lemma_spelled_split(s, 0, a, b);
                }
            }
        }
        let (t, q) = match parse_tag(toks, p) {
            Ok(tq) => tq,
            Err(e) => return Err(e),
        };
        tags.push(t);
        proof {
            let tv2 = tags_view(tags@);
            assert(tv2 =~= tv.push(t@));
            assert(tv2.drop_last() =~= tv);
            assert(tags_toks(tv2) == tags_toks(tv) + tag_toks(t@));
            lemma_spelled_extend(s, 0, tags_toks(tv), tag_toks(t@));
            assert forall|i: int| 0 <= i < tags.len() implies wf_tag(#[trigger] tv2[i]) by {
                if i < k {
                    assert(tv2[i] == tv[i]);
                }
            }
            assert forall|y: TemplateV| #[trigger] template_cand(s, y) implies {
                &&& tags.len() <= y.tags.len()
                &&& tv2 == y.tags.take(tags.len() as int)
            } by {
                assert(y.tags.take(k + 1) =~= y.tags.take(k).push(y.tags[k]));
            }
        }
        p = q;
    }
    proof {
        assert forall|y: TemplateV| #[trigger] template_cand(s, y) implies tags.len() == y.tags.len()
            by {
            let k = tags.len() as int;
            if k < y.tags.len() {
                lemma_tags_toks_split(y.tags, k);
                let a = tags_toks(y.tags.take(k));
                let b = tag_toks(y.tags[k]);
                let c = tags_toks(y.tags.skip(k + 1));
                assert(s.subrange(0, s.len() as int) =~= s);
                lemma_spelled_split(s, 0, a + b, c);
                lemma_spelled_split(s, 0, a, b);
                lemma_tag_start(y.tags[k]);
                lemma_spelled_index(s, p as int, b, 0);
                assert(false);
            }
        }
    }
    if p < toks.len() {
        assert forall|y: TemplateV| #[trigger] template_cand(s, y) implies false by {
            assert(y.tags.take(tags.len() as int) =~= y.tags);
        }
        return Err(ParseError { at: p });
    }
    let t = Template { tags };
    proof {
        assert(t@.tags == tags_view(t.tags@));
        assert(s.subrange(0, p as int) =~= s);
        assert forall|y: TemplateV| #[trigger] template_cand(s, y) implies t@ == y by {
            assert(y.tags.take(t.tags.len() as int) =~= y.tags);
        }
    }
    Ok(t)
}

} // verus!
