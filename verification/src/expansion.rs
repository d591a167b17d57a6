//! Turning a parsed template into the steps that render it: static HTML
//! written as it is, each followed by a value rendered as a view.

use vstd::prelude::*;

use crate::escape::escape;
use crate::strings::push_str;
use crate::view::View as HtmlView;
use crate::syntax::{
    CloseTagV, ContentV, KeyV, OpenTagV, TagAttrV, TagAttrsV, TagV, TemplateV,
};
use crate::parse::{parse_template, template_cand, ParseError};
use crate::reading::read_template;
use crate::tokens::{tokens, Tok};
use crate::tree::{
    content_view, contents_view, lemma_contents_view_index, strings_view, BlockTag, CloseTag,
    Content, InlineTag, Key, OpenTag, Tag, TagAttr, TagAttrs, Template,
};

verus! {

/// A value pasted into the HTML: a piece of text, or an expression of the
/// template by its number.
pub enum Param {
    Text(String),
    Expr(usize),
}

pub enum ParamV {
    Text(Seq<char>),
    Expr(nat),
}

impl View for Param {
    type V = ParamV;

    open spec fn view(&self) -> ParamV {
        match self {
            Param::Text(s) => ParamV::Text(s@),
            Param::Expr(n) => ParamV::Expr(*n as nat),
        }
    }
}

/// Static HTML to write, then a value to render.
pub struct Step {
    pub text: String,
    pub param: Param,
}

pub struct StepV {
    pub text: Seq<char>,
    pub param: ParamV,
}

impl View for Step {
    type V = StepV;

    open spec fn view(&self) -> StepV {
        StepV { text: self.text@, param: self.param@ }
    }
}

/// What a template renders: its steps in order, then static HTML to end with.
pub struct Expansion {
    pub steps: Vec<Step>,
    pub tail: String,
}

pub struct ExpansionV {
    pub steps: Seq<StepV>,
    pub tail: Seq<char>,
}

pub open spec fn steps_view(v: Seq<Step>) -> Seq<StepV> {
    Seq::new(v.len(), |i: int| v[i]@)
}

impl View for Expansion {
    type V = ExpansionV;

    open spec fn view(&self) -> ExpansionV {
        ExpansionV { steps: steps_view(self.steps@), tail: self.tail@ }
    }
}

/// One thing that building emits: static HTML, or a value.
pub enum Piece {
    Raw(Seq<char>),
    Param(ParamV),
}

/// Emitting a piece: static HTML joins the HTML not yet written; a value
/// closes a step with it.
pub open spec fn apply(e: ExpansionV, p: Piece) -> ExpansionV {
    match p {
        Piece::Raw(s) => ExpansionV { steps: e.steps, tail: e.tail + s },
        Piece::Param(v) => ExpansionV {
            steps: e.steps.push(StepV { text: e.tail, param: v }),
            tail: Seq::empty(),
        },
    }
}

pub open spec fn apply_all(e: ExpansionV, ps: Seq<Piece>) -> ExpansionV
    decreases ps.len(),
{
    if ps.len() == 0 {
        e
    } else {
        apply(apply_all(e, ps.drop_last()), ps.last())
    }
}

pub open spec fn empty_expansion() -> ExpansionV {
    ExpansionV { steps: Seq::empty(), tail: Seq::empty() }
}

pub proof fn lemma_apply_all_concat(e: ExpansionV, a: Seq<Piece>, b: Seq<Piece>)
    ensures
        apply_all(e, a + b) == apply_all(apply_all(e, a), b),
    decreases b.len(),
{
    if b.len() == 0 {
        assert(a + b == a);
    } else {
        assert((a + b).drop_last() == a + b.drop_last());
        lemma_apply_all_concat(e, a, b.drop_last());
    }
}

pub open spec fn parts_pieces(ps: Seq<Seq<char>>) -> Seq<Piece>
    decreases ps.len(),
{
    if ps.len() == 0 {
        Seq::empty()
    } else {
        parts_pieces(ps.drop_last()) + seq![Piece::Raw(seq!['-']), Piece::Raw(ps.last())]
    }
}

pub open spec fn key_pieces(k: KeyV) -> Seq<Piece> {
    seq![Piece::Raw(k.first)] + parts_pieces(k.parts)
}

pub open spec fn attr_pieces(a: TagAttrV) -> Seq<Piece> {
    key_pieces(a.key) + match a.val {
        Some(v) => seq![Piece::Raw(seq!['=', '"']), Piece::Raw(v), Piece::Raw(seq!['"'])],
        None => Seq::empty(),
    }
}

pub open spec fn others_pieces(s: Seq<TagAttrV>) -> Seq<Piece>
    decreases s.len(),
{
    if s.len() == 0 {
        Seq::empty()
    } else {
        others_pieces(s.drop_last()) + seq![Piece::Raw(seq![' '])] + attr_pieces(s.last())
    }
}

pub open spec fn attrs_pieces(a: TagAttrsV) -> Seq<Piece> {
    key_pieces(a.key) + others_pieces(a.others)
}

pub open spec fn open_pieces(o: OpenTagV) -> Seq<Piece> {
    seq![Piece::Raw(seq!['<'])] + match o.attrs {
        Some(a) => attrs_pieces(a),
        None => Seq::empty(),
    } + if o.closing {
        seq![Piece::Raw(seq!['/'])]
    } else {
        Seq::empty()
    } + seq![Piece::Raw(seq!['>'])]
}

pub open spec fn close_pieces(c: CloseTagV) -> Seq<Piece> {
    seq![Piece::Raw(seq!['<', '/'])] + match c.key {
        Some(k) => seq![Piece::Raw(k)],
        None => Seq::empty(),
    } + seq![Piece::Raw(seq!['>'])]
}

/// What building a tag emits.
pub open spec fn tag_pieces(t: TagV) -> Seq<Piece>
    decreases t,
{
    match t {
        TagV::Inline { open } => open_pieces(open),
        TagV::Block { open, contents, close } => open_pieces(open) + contents_pieces(contents)
            + close_pieces(close),
    }
}

pub open spec fn contents_pieces(cs: Seq<ContentV>) -> Seq<Piece>
    decreases cs,
{
    if cs.len() == 0 {
        Seq::empty()
    } else {
        contents_pieces(cs.subrange(0, cs.len() - 1)) + content_pieces(cs[cs.len() - 1])
    }
}

/// Text, literal or a bare word, becomes a value rendered as text; an
/// expression becomes a value by its number.
pub open spec fn content_pieces(c: ContentV) -> Seq<Piece>
    decreases c,
{
    match c {
        ContentV::Text(s) => seq![Piece::Param(ParamV::Text(s))],
        ContentV::Word(s) => seq![Piece::Param(ParamV::Text(s))],
        ContentV::Param(n) => seq![Piece::Param(ParamV::Expr(n))],
        ContentV::Tag(t) => tag_pieces(t),
    }
}

pub open spec fn tags_pieces(ts: Seq<TagV>) -> Seq<Piece>
    decreases ts.len(),
{
    if ts.len() == 0 {
        Seq::empty()
    } else {
        tags_pieces(ts.drop_last()) + tag_pieces(ts.last())
    }
}

/// What building a template emits.
pub open spec fn template_pieces(t: TemplateV) -> Seq<Piece> {
    tags_pieces(t.tags)
}

/// The expansion of a template.
pub open spec fn expand(t: TemplateV) -> ExpansionV {
    apply_all(empty_expansion(), template_pieces(t))
}

/// Collects static HTML until a value comes, then closes a step.
pub struct PartBuilder {
    str_builder: String,
    stream: Vec<Step>,
}

impl View for PartBuilder {
    type V = ExpansionV;

    closed spec fn view(&self) -> ExpansionV {
        ExpansionV { steps: steps_view(self.stream@), tail: self.str_builder@ }
    }
}

impl PartBuilder {
    pub fn new() -> (b: Self)
        ensures
            b@ == empty_expansion(),
    {
        let b = PartBuilder { str_builder: String::new(), stream: Vec::new() };
        assert(b@.steps =~= Seq::<StepV>::empty());
        b
    }

    pub fn push_str(&mut self, s: &str)
        ensures
            final(self)@ == apply(old(self)@, Piece::Raw(s@)),
    {
        push_str(&mut self.str_builder, s);
    }

    pub fn push_param(&mut self, p: Param)
        ensures
            final(self)@ == apply(old(self)@, Piece::Param(p@)),
    {
        let mut text = String::new();
        std::mem::swap(&mut text, &mut self.str_builder);
        let ghost old_stream = self.stream@;
        self.stream.push(Step { text, param: p });
        assert(steps_view(self.stream@) =~= steps_view(old_stream).push(
            StepV { text: text@, param: p@ },
        ));
    }

    pub fn finish(self) -> (e: Expansion)
        ensures
            e@ == self@,
    {
        Expansion { steps: self.stream, tail: self.str_builder }
    }
}


pub proof fn lemma_apply_all_push(e: ExpansionV, ps: Seq<Piece>, p: Piece)
    ensures
        apply_all(e, ps.push(p)) == apply(apply_all(e, ps), p),
{
    assert(ps.push(p).drop_last() == ps);
}

impl Key {
    /// Emits the name: its parts joined by `-`.
    pub fn build(&self, builder: &mut PartBuilder)
        ensures
            final(builder)@ == apply_all(old(builder)@, key_pieces(self@)),
    {
        let ghost b0 = builder@;
        let ghost ps = self@.parts;
        builder.push_str(self.first.as_str());
        proof {
            lemma_apply_all_push(b0, Seq::empty(), Piece::Raw(self.first@));
            assert(ps.take(0) =~= Seq::<Seq<char>>::empty());
            assert(seq![Piece::Raw(self.first@)] + parts_pieces(ps.take(0)) =~= Seq::<Piece>::empty().push(
                Piece::Raw(self.first@),
            ));
        }
        for i in 0..self.parts.len()
            invariant
                ps == self@.parts,
                ps.len() == self.parts.len(),
                builder@ == apply_all(b0, seq![Piece::Raw(self.first@)] + parts_pieces(ps.take(i as int))),
        {
            let ghost k = seq![Piece::Raw(self.first@)] + parts_pieces(ps.take(i as int));
            proof {
                reveal_strlit("-");
                assert("-"@ =~= seq!['-']);
            }
            builder.push_str("-");
            builder.push_str(self.parts[i].as_str());
            proof {
                assert(ps[i as int] == self.parts[i as int]@);
                lemma_apply_all_push(b0, k, Piece::Raw(seq!['-']));
                lemma_apply_all_push(b0, k.push(Piece::Raw(seq!['-'])), Piece::Raw(ps[i as int]));
                assert(ps.take(i + 1).drop_last() =~= ps.take(i as int));
                assert(seq![Piece::Raw(self.first@)] + parts_pieces(ps.take(i + 1)) =~= k.push(
                    Piece::Raw(seq!['-']),
                ).push(Piece::Raw(ps[i as int])));
            }
        }
        proof {
            assert(ps.take(ps.len() as int) =~= ps);
        }
    }
}

impl TagAttr {
    /// Emits the name, then `="value"` when there is a value.
    pub fn build(&self, builder: &mut PartBuilder)
        ensures
            final(builder)@ == apply_all(old(builder)@, attr_pieces(self@)),
    {
        let ghost b0 = builder@;
        self.key.build(builder);
        if let Some(val) = &self.val {
            let ghost k = key_pieces(self.key@);
            proof {
                reveal_strlit("=\"");
                reveal_strlit("\"");
                assert("=\""@ =~= seq!['=', '"']);
                assert("\""@ =~= seq!['"']);
            }
            builder.push_str("=\"");
            builder.push_str(val.as_str());
            builder.push_str("\"");
            proof {
                let a = Piece::Raw(seq!['=', '"']);
                let v = Piece::Raw(val@);
                let q = Piece::Raw(seq!['"']);
                lemma_apply_all_push(b0, k, a);
                lemma_apply_all_push(b0, k.push(a), v);
                lemma_apply_all_push(b0, k.push(a).push(v), q);
                assert(attr_pieces(self@) =~= k.push(a).push(v).push(q));
            }
        } else {
            assert(attr_pieces(self@) =~= key_pieces(self.key@));
        }
    }
}

impl TagAttrs {
    /// Emits the name of the tag, then each attribute after a space.
    pub fn build(&self, builder: &mut PartBuilder)
        ensures
            final(builder)@ == apply_all(old(builder)@, attrs_pieces(self@)),
    {
        let ghost b0 = builder@;
        let ghost os = self@.others;
        self.key.build(builder);
        proof {
            assert(os.take(0) =~= Seq::<TagAttrV>::empty());
            assert(key_pieces(self.key@) + others_pieces(os.take(0)) =~= key_pieces(self.key@));
        }
        for i in 0..self.others.len()
            invariant
                os == self@.others,
                os.len() == self.others.len(),
                builder@ == apply_all(b0, key_pieces(self.key@) + others_pieces(os.take(i as int))),
        {
            let ghost k = key_pieces(self.key@) + others_pieces(os.take(i as int));
            proof {
                reveal_strlit(" ");
                assert(" "@ =~= seq![' ']);
            }
            builder.push_str(" ");
            let ghost b1 = builder@;
            self.others[i].build(builder);
            proof {
                let sp = Piece::Raw(seq![' ']);
                let ap = attr_pieces(os[i as int]);
                assert(os[i as int] == self.others[i as int]@);
                lemma_apply_all_push(b0, k, sp);
                lemma_apply_all_concat(b0, k.push(sp), ap);
                assert(os.take(i + 1).drop_last() =~= os.take(i as int));
                assert(key_pieces(self.key@) + others_pieces(os.take(i + 1)) =~= k.push(sp) + ap);
            }
        }
        proof {
            assert(os.take(os.len() as int) =~= os);
        }
    }
}


impl OpenTag {
    /// Emits `<`, the name and attributes, `/` when the tag closes itself,
    /// and `>`.
    pub fn build(&self, builder: &mut PartBuilder)
        ensures
            final(builder)@ == apply_all(old(builder)@, open_pieces(self@)),
    {
        let ghost b0 = builder@;
        proof {
            reveal_strlit("<");
            reveal_strlit("/");
            reveal_strlit(">");
            assert("<"@ =~= seq!['<']);
            assert("/"@ =~= seq!['/']);
            assert(">"@ =~= seq!['>']);
        }
        let ghost l = seq![Piece::Raw(seq!['<'])];
        builder.push_str("<");
        proof {
            lemma_apply_all_push(b0, Seq::empty(), Piece::Raw(seq!['<']));
            assert(Seq::<Piece>::empty().push(Piece::Raw(seq!['<'])) =~= l);
        }
        let ghost a: Seq<Piece> = match self@.attrs {
            Some(at) => attrs_pieces(at),
            None => Seq::empty(),
        };
        if let Some(attrs) = &self.attrs {
            attrs.build(builder);
            proof {
                lemma_apply_all_concat(b0, l, a);
            }
        } else {
            assert(l + a =~= l);
        }
        let ghost c: Seq<Piece> = if self.closing {
            seq![Piece::Raw(seq!['/'])]
        } else {
            Seq::empty()
        };
        if self.closing {
            builder.push_str("/");
            proof {
                lemma_apply_all_push(b0, l + a, Piece::Raw(seq!['/']));
                assert((l + a).push(Piece::Raw(seq!['/'])) =~= l + a + c);
            }
        } else {
            assert(l + a + c =~= l + a);
        }
        builder.push_str(">");
        proof {
            lemma_apply_all_push(b0, l + a + c, Piece::Raw(seq!['>']));
            assert((l + a + c).push(Piece::Raw(seq!['>'])) =~= open_pieces(self@));
        }
    }
}

impl CloseTag {
    /// Emits `</`, the name if there is one, and `>`.
    pub fn build(&self, builder: &mut PartBuilder)
        ensures
            final(builder)@ == apply_all(old(builder)@, close_pieces(self@)),
    {
        let ghost b0 = builder@;
        proof {
            reveal_strlit("</");
            reveal_strlit(">");
            assert("</"@ =~= seq!['<', '/']);
            assert(">"@ =~= seq!['>']);
        }
        let ghost l = seq![Piece::Raw(seq!['<', '/'])];
        builder.push_str("</");
        proof {
            lemma_apply_all_push(b0, Seq::empty(), Piece::Raw(seq!['<', '/']));
            assert(Seq::<Piece>::empty().push(Piece::Raw(seq!['<', '/'])) =~= l);
        }
        let ghost k: Seq<Piece> = match self@.key {
            Some(key) => seq![Piece::Raw(key)],
            None => Seq::empty(),
        };
        if let Some(key) = &self.key {
            builder.push_str(key.as_str());
            proof {
                lemma_apply_all_push(b0, l, Piece::Raw(key@));
                assert(l.push(Piece::Raw(key@)) =~= l + k);
            }
        } else {
            assert(l + k =~= l);
        }
        builder.push_str(">");
        proof {
            lemma_apply_all_push(b0, l + k, Piece::Raw(seq!['>']));
            assert((l + k).push(Piece::Raw(seq!['>'])) =~= close_pieces(self@));
        }
    }
}

impl BlockTag {
    /// Emits the opening tag, each content in turn, and the closing tag.
    pub fn build(&self, builder: &mut PartBuilder)
        ensures
            final(builder)@ == apply_all(
                old(builder)@,
                tag_pieces(
                    TagV::Block {
                        open: self.open@,
                        contents: contents_view(self.contents@),
                        close: self.close@,
                    },
                ),
            ),
        decreases self,
    {
        let ghost b0 = builder@;
        let ghost cs = contents_view(self.contents@);
        proof {
            lemma_contents_view_index(self.contents@);
        }
        self.open.build(builder);
        let ghost o = open_pieces(self.open@);
        proof {
            assert(cs.take(0) =~= Seq::<ContentV>::empty());
            assert(o + contents_pieces(cs.take(0)) =~= o);
        }
        for i in 0..self.contents.len()
            invariant
                cs == contents_view(self.contents@),
                cs.len() == self.contents.len(),
                forall|j: int| 0 <= j < cs.len() ==> #[trigger] cs[j] == content_view(self.contents@[j]),
                builder@ == apply_all(b0, o + contents_pieces(cs.take(i as int))),
        {
            let ghost k = o + contents_pieces(cs.take(i as int));
            proof {
                broadcast use vstd::std_specs::vec::axiom_vec_index_decreases;

                assert(decreases_to!(self.contents => self.contents[i as int]));
            }
            self.contents[i].build(builder);
            proof {
                assert(cs[i as int] == self.contents@[i as int]@);
                lemma_apply_all_concat(b0, k, content_pieces(cs[i as int]));
                assert(cs.take(i + 1).subrange(0, i as int) =~= cs.take(i as int));
                assert(o + contents_pieces(cs.take(i + 1)) =~= k + content_pieces(cs[i as int]));
            }
        }
        let ghost m = o + contents_pieces(cs);
        proof {
            assert(cs.take(cs.len() as int) =~= cs);
        }
        self.close.build(builder);
        proof {
            lemma_apply_all_concat(b0, m, close_pieces(self.close@));
        }
    }
}

impl InlineTag {
    /// Emits the opening tag, which closes itself.
    pub fn build(&self, builder: &mut PartBuilder)
        ensures
            final(builder)@ == apply_all(old(builder)@, open_pieces(self.open@)),
    {
        self.open.build(builder);
    }
}

impl Tag {
    /// Emits the tag.
    pub fn build(&self, builder: &mut PartBuilder)
        ensures
            final(builder)@ == apply_all(old(builder)@, tag_pieces(self@)),
        decreases self,
    {
        match self {
            Tag::Block(b) => b.build(builder),
            Tag::Inline(i) => i.build(builder),
        }
    }
}

impl Content {
    /// Emits a value for text and expressions, and the tag for a tag.
    pub fn build(&self, builder: &mut PartBuilder)
        ensures
            final(builder)@ == apply_all(old(builder)@, content_pieces(self@)),
        decreases self,
    {
        let ghost b0 = builder@;
        match self {
            Content::Text(t) => {
                builder.push_param(Param::Text(t.clone()));
                proof {
                    lemma_apply_all_push(b0, Seq::empty(), Piece::Param(ParamV::Text(t@)));
                    assert(Seq::<Piece>::empty().push(Piece::Param(ParamV::Text(t@))) =~= content_pieces(self@));
                }
            },
            Content::Word(t) => {
                builder.push_param(Param::Text(t.clone()));
                proof {
                    lemma_apply_all_push(b0, Seq::empty(), Piece::Param(ParamV::Text(t@)));
                    assert(Seq::<Piece>::empty().push(Piece::Param(ParamV::Text(t@))) =~= content_pieces(self@));
                }
            },
            Content::Param(n) => {
                builder.push_param(Param::Expr(*n));
                proof {
                    lemma_apply_all_push(b0, Seq::empty(), Piece::Param(ParamV::Expr(*n as nat)));
                    assert(Seq::<Piece>::empty().push(Piece::Param(ParamV::Expr(*n as nat))) =~= content_pieces(self@));
                }
            },
            Content::Tag(t) => {
                t.build(builder);
            },
        }
    }
}

impl Template {
    /// Emits each tag in turn.
    pub fn build(&self, builder: &mut PartBuilder)
        ensures
            final(builder)@ == apply_all(old(builder)@, template_pieces(self@)),
    {
        let ghost b0 = builder@;
        let ghost ts = self@.tags;
        proof {
            assert(ts.take(0) =~= Seq::<TagV>::empty());
        }
        for i in 0..self.tags.len()
            invariant
                ts == self@.tags,
                ts.len() == self.tags.len(),
                builder@ == apply_all(b0, tags_pieces(ts.take(i as int))),
        {
            let ghost k = tags_pieces(ts.take(i as int));
            self.tags[i].build(builder);
            proof {
                assert(ts[i as int] == self.tags@[i as int]@);
                lemma_apply_all_concat(b0, k, tag_pieces(ts[i as int]));
                assert(ts.take(i + 1).drop_last() =~= ts.take(i as int));
            }
        }
        proof {
            assert(ts.take(ts.len() as int) =~= ts);
        }
    }
}

/// Reads the tokens of a template and gives the steps that render it.
///
/// It succeeds exactly when the tokens spell a template, and then gives that
/// template's expansion.
pub fn view(toks: &Vec<Tok>) -> (r: Result<Expansion, ParseError>)
    ensures
        match r {
            Ok(e) => read_template(tokens(toks@)) matches Ok(t) && e@ == expand(t),
            Err(e) => read_template(tokens(toks@)) == Err::<TemplateV, int>(e.at as int),
        },
        r matches Err(e) ==> e.at <= toks.len(),
        r matches Ok(e) ==> exists|t: TemplateV| #[trigger]
            template_cand(tokens(toks@), t) && e@ == expand(t),
        forall|t: TemplateV| #[trigger]
            template_cand(tokens(toks@), t) ==> (r matches Ok(e) && e@ == expand(t)),
{
    let template = match parse_template(toks) {
        Ok(t) => t,
        Err(e) => return Err(e),
    };
    let mut builder = PartBuilder::new();
    template.build(&mut builder);
    let e = builder.finish();
    assert(template_cand(tokens(toks@), template@));
    Ok(e)
}


/// The HTML of a list of steps, where `hs[i]` is the HTML of the value of
/// step `i`.
pub open spec fn render_steps(st: Seq<StepV>, hs: Seq<Seq<char>>) -> Seq<char>
    decreases st.len(),
{
    if st.len() == 0 {
        Seq::empty()
    } else {
        render_steps(st.drop_last(), hs) + st.last().text + hs[st.len() - 1]
    }
}

/// The HTML of an expansion, where `hs[i]` is the HTML of the value of step
/// `i`: each step's static HTML and then its value, and the tail at the end.
pub open spec fn render(e: ExpansionV, hs: Seq<Seq<char>>) -> Seq<char> {
    render_steps(e.steps, hs) + e.tail
}

/// The number of values among the pieces.
pub open spec fn param_count(ps: Seq<Piece>) -> nat
    decreases ps.len(),
{
    if ps.len() == 0 {
        0
    } else {
        param_count(ps.drop_last()) + if ps.last() is Param {
            1nat
        } else {
            0nat
        }
    }
}

/// The HTML of the pieces in order, where `hs[i]` is the HTML of the `i`-th
/// value among them.
pub open spec fn render_pieces(ps: Seq<Piece>, hs: Seq<Seq<char>>) -> Seq<char>
    decreases ps.len(),
{
    if ps.len() == 0 {
        Seq::empty()
    } else {
        render_pieces(ps.drop_last(), hs) + match ps.last() {
            Piece::Raw(s) => s,
            Piece::Param(_) => hs[param_count(ps.drop_last()) as int],
        }
    }
}

/// Gathering static HTML into steps changes nothing in what is rendered: the
/// expansion of the pieces has a step per value, and renders to the pieces
/// written in order.
pub proof fn lemma_render_expansion(ps: Seq<Piece>, hs: Seq<Seq<char>>)
    ensures
        apply_all(empty_expansion(), ps).steps.len() == param_count(ps),
        render(apply_all(empty_expansion(), ps), hs) == render_pieces(ps, hs),
    decreases ps.len(),
{
    if ps.len() > 0 {
        let q = ps.drop_last();
        lemma_render_expansion(q, hs);
        let e = apply_all(empty_expansion(), q);
        let e2 = apply_all(empty_expansion(), ps);
        assert(e2 == apply(e, ps.last()));
        match ps.last() {
            Piece::Raw(s) => {
                assert(render(e2, hs) =~= render(e, hs) + s);
            },
            Piece::Param(v) => {
                assert(e2.steps.drop_last() =~= e.steps);
                assert(render_steps(e2.steps, hs) == render_steps(e.steps, hs) + e.tail + hs[e.steps.len() as int]);
                assert(render(e2, hs) =~= render(e, hs) + hs[e.steps.len() as int]);
            },
        }
    } else {
        assert(render(empty_expansion(), hs) =~= Seq::<char>::empty());
    }
}


/// The HTML of a value: text is escaped; an expression renders as the HTML
/// given for it.
pub open spec fn param_html(p: ParamV, exprs: Seq<Seq<char>>) -> Seq<char> {
    match p {
        ParamV::Text(t) => escape(t),
        ParamV::Expr(n) => exprs[n as int],
    }
}

/// The HTML of the value of each step.
pub open spec fn step_htmls(e: ExpansionV, exprs: Seq<Seq<char>>) -> Seq<Seq<char>> {
    Seq::new(e.steps.len(), |i: int| param_html(e.steps[i].param, exprs))
}

/// Every expression that a step refers to has an HTML among `n` given.
pub open spec fn exprs_given(e: ExpansionV, n: nat) -> bool {
    forall|i: int|
        0 <= i < e.steps.len() ==> (#[trigger] e.steps[i].param matches ParamV::Expr(k) ==> k < n)
}

impl Expansion {
    /// Writes the HTML of the expansion to `f`: each step's static HTML, then
    /// its value (text escaped, an expression as its HTML in `exprs`), and
    /// the tail.
    pub fn fmt(&self, f: &mut String, exprs: &Vec<String>)
        requires
            exprs_given(self@, exprs.len() as nat),
        ensures
            final(f)@ == old(f)@ + render(self@, step_htmls(self@, strings_view(exprs@))),
    {
        let ghost e = self@;
        let ghost hs = step_htmls(e, strings_view(exprs@));
        let ghost start = old(f)@;
        for i in 0..self.steps.len()
            invariant
                e == self@,
                hs == step_htmls(e, strings_view(exprs@)),
                e.steps.len() == self.steps.len(),
                exprs_given(e, exprs.len() as nat),
                f@ == start + render_steps(e.steps.take(i as int), hs),
        {
            let step = &self.steps[i];
            let ghost before = f@;
            push_str(f, step.text.as_str());
            match &step.param {
                Param::Text(t) => {
                    HtmlView::fmt(t.as_str(), f);
                },
                Param::Expr(n) => {
                    assert(e.steps[i as int].param matches ParamV::Expr(k) ==> k < exprs.len());
                    push_str(f, exprs[*n].as_str());
                },
            }
            proof {
                let t = e.steps.take(i + 1);
                assert(e.steps[i as int] == step@);
                assert(t.drop_last() =~= e.steps.take(i as int));
                assert(t.last() == step@);
                assert(hs[i as int] == param_html(step@.param, strings_view(exprs@)));
                assert(render_steps(t, hs) == render_steps(e.steps.take(i as int), hs) + step@.text + hs[i as int]);
            }
        }
        proof {
            assert(e.steps.take(e.steps.len() as int) =~= e.steps);
        }
        push_str(f, self.tail.as_str());
    }
}


/// The static HTML among the pieces, joined in order; values are left out.
pub open spec fn raw_text(ps: Seq<Piece>) -> Seq<char>
    decreases ps.len(),
{
    if ps.len() == 0 {
        Seq::empty()
    } else {
        raw_text(ps.drop_last()) + match ps.last() {
            Piece::Raw(s) => s,
            Piece::Param(_) => Seq::empty(),
        }
    }
}

/// The indices of the values among the pieces, in order.
pub open spec fn param_positions(ps: Seq<Piece>) -> Seq<int>
    decreases ps.len(),
{
    if ps.len() == 0 {
        Seq::empty()
    } else {
        param_positions(ps.drop_last()) + if ps.last() is Param {
            seq![ps.len() - 1]
        } else {
            Seq::empty()
        }
    }
}

/// Where the static HTML before value `k` starts: at the beginning for the
/// first value, else just after value `k - 1`.
pub open spec fn segment_start(positions: Seq<int>, k: int) -> int {
    if k == 0 {
        0
    } else {
        positions[k - 1] + 1
    }
}

proof fn lemma_raw_text_push(a: Seq<Piece>, x: Piece)
    ensures
        raw_text(a.push(x)) == raw_text(a) + match x {
            Piece::Raw(s) => s,
            Piece::Param(_) => Seq::<char>::empty(),
        },
{
    assert(a.push(x).drop_last() == a);
}

/// How emitted pieces become steps: there is a step per value, in order;
/// step `k` holds value `k` and the static HTML emitted between value
/// `k - 1` (or the start) and value `k`, joined; the tail is the static HTML
/// emitted after the last value.
pub open spec fn steps_are_segments(ps: Seq<Piece>) -> bool {
    let e = apply_all(empty_expansion(), ps);
    let pos = param_positions(ps);
    &&& e.steps.len() == pos.len()
    &&& forall|k: int|
        0 <= k < pos.len() ==> {
            &&& 0 <= segment_start(pos, k) <= #[trigger] pos[k] < ps.len()
            &&& ps[pos[k]] == Piece::Param(e.steps[k].param)
            &&& e.steps[k].text == raw_text(ps.subrange(segment_start(pos, k), pos[k]))
        }
    &&& 0 <= segment_start(pos, pos.len() as int) <= ps.len()
    &&& e.tail == raw_text(ps.subrange(segment_start(pos, pos.len() as int), ps.len() as int))
}

#[verifier::rlimit(40)]
proof fn lemma_segments_push(q: Seq<Piece>, x: Piece)
    requires
        steps_are_segments(q),
    ensures
        steps_are_segments(q.push(x)),
{
    let ps = q.push(x);
    let e = apply_all(empty_expansion(), ps);
    let pos = param_positions(ps);
    let eq = apply_all(empty_expansion(), q);
    let pq = param_positions(q);
    let n = pq.len() as int;
    assert(ps.drop_last() == q);
    assert(e == apply(eq, x));
    let st = segment_start(pq, n);
    assert(0 <= st <= q.len());
    match x {
        Piece::Raw(s) => {
            assert(pos =~= pq);
            assert(ps.subrange(st, ps.len() as int) =~= q.subrange(st, q.len() as int).push(x));
            lemma_raw_text_push(q.subrange(st, q.len() as int), x);
            assert forall|k: int| 0 <= k < pos.len() implies {
                &&& 0 <= segment_start(pos, k) <= #[trigger] pos[k] < ps.len()
                &&& ps[pos[k]] == Piece::Param(e.steps[k].param)
                &&& e.steps[k].text == raw_text(ps.subrange(segment_start(pos, k), pos[k]))
            } by {
                assert(pos[k] == pq[k]);
                assert(ps[pos[k]] == q[pq[k]]);
                assert(ps.subrange(segment_start(pos, k), pos[k]) =~= q.subrange(
                    segment_start(pq, k),
                    pq[k],
                ));
            }
        },
        Piece::Param(v) => {
            assert(pos =~= pq.push(q.len() as int));
            assert(e.steps =~= eq.steps.push(StepV { text: eq.tail, param: v }));
            assert(segment_start(pos, n) == st);
            assert(ps.subrange(st, pos[n]) =~= q.subrange(st, q.len() as int));
            assert(segment_start(pos, n + 1) == ps.len());
            assert(ps.subrange(ps.len() as int, ps.len() as int) =~= Seq::<Piece>::empty());
            assert forall|k: int| 0 <= k < pos.len() implies {
                &&& 0 <= segment_start(pos, k) <= #[trigger] pos[k] < ps.len()
                &&& ps[pos[k]] == Piece::Param(e.steps[k].param)
                &&& e.steps[k].text == raw_text(ps.subrange(segment_start(pos, k), pos[k]))
            } by {
                if k < n {
                    assert(pos[k] == pq[k]);
                    if k > 0 {
                        assert(pos[k - 1] == pq[k - 1]);
                    }
                    assert(ps[pos[k]] == q[pq[k]]);
                    assert(e.steps[k] == eq.steps[k]);
                    assert(ps.subrange(segment_start(pos, k), pos[k]) =~= q.subrange(
                        segment_start(pq, k),
                        pq[k],
                    ));
                }
            }
        },
    }
}

/// The steps of the expansion of the pieces are their segments.
pub proof fn lemma_steps_are_segments(ps: Seq<Piece>)
    ensures
        steps_are_segments(ps),
    decreases ps.len(),
{
    if ps.len() == 0 {
        assert(ps.subrange(0, 0) =~= Seq::<Piece>::empty());
    } else {
        lemma_steps_are_segments(ps.drop_last());
        lemma_segments_push(ps.drop_last(), ps.last());
        assert(ps.drop_last().push(ps.last()) == ps);
    }
}


proof fn lemma_raw_text_concat(a: Seq<Piece>, b: Seq<Piece>)
    ensures
        raw_text(a + b) == raw_text(a) + raw_text(b),
        param_count(a + b) == param_count(a) + param_count(b),
    decreases b.len(),
{
    if b.len() == 0 {
        assert(a + b == a);
        assert(raw_text(a) + raw_text(b) =~= raw_text(a));
    } else {
        assert((a + b).drop_last() == a + b.drop_last());
        lemma_raw_text_concat(a, b.drop_last());
        assert(raw_text(a + b) =~= raw_text(a) + raw_text(b));
    }
}

proof fn lemma_raw_single(s: Seq<char>)
    ensures
        raw_text(seq![Piece::Raw(s)]) == s,
        param_count(seq![Piece::Raw(s)]) == 0,
{
    let p = seq![Piece::Raw(s)];
    assert(p.drop_last() =~= Seq::<Piece>::empty());
    assert(p.last() == Piece::Raw(s));
    assert(raw_text(Seq::<Piece>::empty()) == Seq::<char>::empty());
    assert(param_count(Seq::<Piece>::empty()) == 0);
    assert(raw_text(p) == raw_text(p.drop_last()) + s);
    assert(Seq::<char>::empty() + s =~= s);
}

/// Each part of a name after a `-`.
pub open spec fn dashed(ps: Seq<Seq<char>>) -> Seq<Seq<char>> {
    Seq::new(ps.len(), |i: int| seq!['-'] + ps[i])
}

/// The text of a name: its first identifier, then `-` and each part, in order.
pub open spec fn name_text(k: KeyV) -> Seq<char> {
    k.first + dashed(k.parts).flatten()
}

/// The text of an attribute's value: `="value"`, or nothing without a value.
pub open spec fn value_text(v: Option<Seq<char>>) -> Seq<char> {
    match v {
        Some(v) => seq!['=', '"'] + v + seq!['"'],
        None => Seq::empty(),
    }
}

/// The text of an attribute: its name, then its value if it has one.
pub open spec fn attr_text(a: TagAttrV) -> Seq<char> {
    name_text(a.key) + value_text(a.val)
}

/// The text of the name of a tag and its attributes: the name, then a space
/// and each attribute, in order.
pub open spec fn attrs_text(a: TagAttrsV) -> Seq<char> {
    name_text(a.key) + Seq::new(a.others.len(), |i: int| seq![' '] + attr_text(a.others[i])).flatten()
}

/// The text of an opening tag.
pub open spec fn open_text(o: OpenTagV) -> Seq<char> {
    seq!['<'] + match o.attrs {
        Some(a) => attrs_text(a),
        None => Seq::empty(),
    } + if o.closing {
        seq!['/']
    } else {
        Seq::empty()
    } + seq!['>']
}

/// The text of a closing tag.
pub open spec fn close_text(c: CloseTagV) -> Seq<char> {
    seq!['<', '/'] + match c.key {
        Some(k) => k,
        None => Seq::empty(),
    } + seq!['>']
}

proof fn lemma_parts_html(ps: Seq<Seq<char>>)
    ensures
        raw_text(parts_pieces(ps)) == dashed(ps).flatten(),
        param_count(parts_pieces(ps)) == 0,
    decreases ps.len(),
{
    if ps.len() == 0 {
        assert(dashed(ps) =~= Seq::<Seq<char>>::empty());
    } else {
        let q = ps.drop_last();
        lemma_parts_html(q);
        let two = seq![Piece::Raw(seq!['-']), Piece::Raw(ps.last())];
        lemma_raw_text_concat(parts_pieces(q), two);
        assert(two.drop_last() =~= seq![Piece::Raw(seq!['-'])]);
        lemma_raw_single(seq!['-']);
        assert(raw_text(two) =~= seq!['-'] + ps.last());
        assert(dashed(ps) =~= dashed(q).push(seq!['-'] + ps.last()));
        dashed(q).lemma_flatten_push(seq!['-'] + ps.last());
    }
}

/// The static HTML emitted for a name is its first identifier, then `-` and
/// each part in order; a name emits no values.
pub proof fn lemma_key_html(k: KeyV)
    ensures
        raw_text(key_pieces(k)) == name_text(k),
        param_count(key_pieces(k)) == 0,
{
    lemma_parts_html(k.parts);
    lemma_raw_single(k.first);
    lemma_raw_text_concat(seq![Piece::Raw(k.first)], parts_pieces(k.parts));
}

/// The static HTML emitted for an attribute is its name, then `="value"`
/// when it has a value and nothing else otherwise; it emits no values.
pub proof fn lemma_attr_html(a: TagAttrV)
    ensures
        raw_text(attr_pieces(a)) == attr_text(a),
        param_count(attr_pieces(a)) == 0,
{
    lemma_key_html(a.key);
    let v: Seq<Piece> = match a.val {
        Some(v) => seq![Piece::Raw(seq!['=', '"']), Piece::Raw(v), Piece::Raw(seq!['"'])],
        None => Seq::empty(),
    };
    lemma_raw_text_concat(key_pieces(a.key), v);
    if let Some(x) = a.val {
        let p1 = seq![Piece::Raw(seq!['=', '"'])];
        let p2 = seq![Piece::Raw(x)];
        let p3 = seq![Piece::Raw(seq!['"'])];
        assert(v =~= p1 + p2 + p3);
        lemma_raw_single(seq!['=', '"']);
        lemma_raw_single(x);
        lemma_raw_single(seq!['"']);
        lemma_raw_text_concat(p1, p2);
        lemma_raw_text_concat(p1 + p2, p3);
    }
}

proof fn lemma_others_html(os: Seq<TagAttrV>)
    ensures
        raw_text(others_pieces(os)) == Seq::new(os.len(), |i: int| seq![' '] + attr_text(os[i])).flatten(),
        param_count(others_pieces(os)) == 0,
    decreases os.len(),
{
    let f = Seq::new(os.len(), |i: int| seq![' '] + attr_text(os[i]));
    if os.len() == 0 {
        assert(f =~= Seq::<Seq<char>>::empty());
    } else {
        let q = os.drop_last();
        lemma_others_html(q);
        let fq = Seq::new(q.len(), |i: int| seq![' '] + attr_text(q[i]));
        let sp = seq![Piece::Raw(seq![' '])];
        lemma_raw_single(seq![' ']);
        lemma_attr_html(os.last());
        lemma_raw_text_concat(others_pieces(q), sp);
        lemma_raw_text_concat(others_pieces(q) + sp, attr_pieces(os.last()));
        assert(f =~= fq.push(seq![' '] + attr_text(os.last())));
        fq.lemma_flatten_push(seq![' '] + attr_text(os.last()));
    }
}

/// The static HTML emitted for a tag's name and attributes is the name, then
/// a space and each attribute in order; they emit no values.
pub proof fn lemma_attrs_html(a: TagAttrsV)
    ensures
        raw_text(attrs_pieces(a)) == attrs_text(a),
        param_count(attrs_pieces(a)) == 0,
{
    lemma_key_html(a.key);
    lemma_others_html(a.others);
    lemma_raw_text_concat(key_pieces(a.key), others_pieces(a.others));
}

/// The static HTML emitted for an opening tag is `<`, the name and
/// attributes, `/` when it closes itself, and `>`; it emits no values.
pub proof fn lemma_open_html(o: OpenTagV)
    ensures
        raw_text(open_pieces(o)) == open_text(o),
        param_count(open_pieces(o)) == 0,
{
    let l = seq![Piece::Raw(seq!['<'])];
    let a: Seq<Piece> = match o.attrs {
        Some(a) => attrs_pieces(a),
        None => Seq::empty(),
    };
    let c: Seq<Piece> = if o.closing {
        seq![Piece::Raw(seq!['/'])]
    } else {
        Seq::empty()
    };
    let g = seq![Piece::Raw(seq!['>'])];
    lemma_raw_single(seq!['<']);
    lemma_raw_single(seq!['/']);
    lemma_raw_single(seq!['>']);
    if let Some(at) = o.attrs {
        lemma_attrs_html(at);
    }
    lemma_raw_text_concat(l, a);
    lemma_raw_text_concat(l + a, c);
    lemma_raw_text_concat(l + a + c, g);
}

/// The static HTML emitted for a closing tag is `</`, the name if there is
/// one, and `>`; it emits no values.
pub proof fn lemma_close_html(c: CloseTagV)
    ensures
        raw_text(close_pieces(c)) == close_text(c),
        param_count(close_pieces(c)) == 0,
{
    let l = seq![Piece::Raw(seq!['<', '/'])];
    let k: Seq<Piece> = match c.key {
        Some(k) => seq![Piece::Raw(k)],
        None => Seq::empty(),
    };
    let g = seq![Piece::Raw(seq!['>'])];
    lemma_raw_single(seq!['<', '/']);
    lemma_raw_single(seq!['>']);
    if let Some(x) = c.key {
        lemma_raw_single(x);
    }
    lemma_raw_text_concat(l, k);
    lemma_raw_text_concat(l + k, g);
}


/// The pieces written out, each value as `f` renders it.
pub open spec fn render_with(ps: Seq<Piece>, f: spec_fn(ParamV) -> Seq<char>) -> Seq<char>
    decreases ps.len(),
{
    if ps.len() == 0 {
        Seq::empty()
    } else {
        render_with(ps.drop_last(), f) + match ps.last() {
            Piece::Raw(s) => s,
            Piece::Param(v) => f(v),
        }
    }
}

/// The HTML of a tag, each value as `f` renders it: the opening tag, then for
/// a tag with contents each content in order and the closing tag. Text, a
/// literal or a bare word, is a text value; an expression is a value by its
/// number.
pub open spec fn tag_html(t: TagV, f: spec_fn(ParamV) -> Seq<char>) -> Seq<char>
    decreases t,
{
    match t {
        TagV::Inline { open } => open_text(open),
        TagV::Block { open, contents, close } => open_text(open) + contents_html(contents, f)
            + close_text(close),
    }
}

pub open spec fn contents_html(cs: Seq<ContentV>, f: spec_fn(ParamV) -> Seq<char>) -> Seq<char>
    decreases cs,
{
    if cs.len() == 0 {
        Seq::empty()
    } else {
        contents_html(cs.subrange(0, cs.len() - 1), f) + content_html(cs[cs.len() - 1], f)
    }
}

pub open spec fn content_html(c: ContentV, f: spec_fn(ParamV) -> Seq<char>) -> Seq<char>
    decreases c,
{
    match c {
        ContentV::Text(s) => f(ParamV::Text(s)),
        ContentV::Word(s) => f(ParamV::Text(s)),
        ContentV::Param(n) => f(ParamV::Expr(n)),
        ContentV::Tag(t) => tag_html(t, f),
    }
}

pub open spec fn tags_html(ts: Seq<TagV>, f: spec_fn(ParamV) -> Seq<char>) -> Seq<char>
    decreases ts.len(),
{
    if ts.len() == 0 {
        Seq::empty()
    } else {
        tags_html(ts.drop_last(), f) + tag_html(ts.last(), f)
    }
}

/// The HTML of a template, each value as `f` renders it: its tags in order.
pub open spec fn template_html(t: TemplateV, f: spec_fn(ParamV) -> Seq<char>) -> Seq<char> {
    tags_html(t.tags, f)
}

proof fn lemma_render_with_concat(a: Seq<Piece>, b: Seq<Piece>, f: spec_fn(ParamV) -> Seq<char>)
    ensures
        render_with(a + b, f) == render_with(a, f) + render_with(b, f),
    decreases b.len(),
{
    if b.len() == 0 {
        assert(a + b == a);
        assert(render_with(a, f) + render_with(b, f) =~= render_with(a, f));
    } else {
        assert((a + b).drop_last() == a + b.drop_last());
        lemma_render_with_concat(a, b.drop_last(), f);
        assert(render_with(a + b, f) =~= render_with(a, f) + render_with(b, f));
    }
}

/// Pieces without values render as their static HTML.
proof fn lemma_render_with_static(ps: Seq<Piece>, f: spec_fn(ParamV) -> Seq<char>)
    requires
        param_count(ps) == 0,
    ensures
        render_with(ps, f) == raw_text(ps),
    decreases ps.len(),
{
    if ps.len() > 0 {
        lemma_render_with_static(ps.drop_last(), f);
    }
}

proof fn lemma_open_render(o: OpenTagV, f: spec_fn(ParamV) -> Seq<char>)
    ensures
        render_with(open_pieces(o), f) == open_text(o),
{
    lemma_open_html(o);
    lemma_render_with_static(open_pieces(o), f);
}

proof fn lemma_close_render(c: CloseTagV, f: spec_fn(ParamV) -> Seq<char>)
    ensures
        render_with(close_pieces(c), f) == close_text(c),
{
    lemma_close_html(c);
    lemma_render_with_static(close_pieces(c), f);
}

/// What building a tag emits renders as the tag's HTML, for every way of
/// rendering its values.
pub proof fn lemma_tag_render(t: TagV, f: spec_fn(ParamV) -> Seq<char>)
    ensures
        render_with(tag_pieces(t), f) == tag_html(t, f),
    decreases t,
{
    match t {
        TagV::Inline { open } => {
            lemma_open_render(open, f);
        },
        TagV::Block { open, contents, close } => {
            lemma_open_render(open, f);
            lemma_close_render(close, f);
            lemma_contents_render(contents, f);
            lemma_render_with_concat(open_pieces(open), contents_pieces(contents), f);
            lemma_render_with_concat(
                open_pieces(open) + contents_pieces(contents),
                close_pieces(close),
                f,
            );
        },
    }
}

proof fn lemma_contents_render(cs: Seq<ContentV>, f: spec_fn(ParamV) -> Seq<char>)
    ensures
        render_with(contents_pieces(cs), f) == contents_html(cs, f),
    decreases cs,
{
    if cs.len() > 0 {
        let q = cs.subrange(0, cs.len() - 1);
        let c = cs[cs.len() - 1];
        lemma_contents_render(q, f);
        lemma_content_render(c, f);
        lemma_render_with_concat(contents_pieces(q), content_pieces(c), f);
    }
}

proof fn lemma_content_render(c: ContentV, f: spec_fn(ParamV) -> Seq<char>)
    ensures
        render_with(content_pieces(c), f) == content_html(c, f),
    decreases c,
{
    match c {
        ContentV::Tag(t) => {
            lemma_tag_render(t, f);
        },
        _ => {
            let ps = content_pieces(c);
            assert(ps.drop_last() =~= Seq::<Piece>::empty());
            assert(render_with(ps, f) =~= render_with(Seq::<Piece>::empty(), f) + content_html(c, f));
        },
    }
}

/// What building a template emits renders as the template's HTML, for every
/// way of rendering its values.
pub proof fn lemma_template_render(t: TemplateV, f: spec_fn(ParamV) -> Seq<char>)
    ensures
        render_with(template_pieces(t), f) == template_html(t, f),
{
    lemma_tags_render(t.tags, f);
}

proof fn lemma_tags_render(ts: Seq<TagV>, f: spec_fn(ParamV) -> Seq<char>)
    ensures
        render_with(tags_pieces(ts), f) == tags_html(ts, f),
    decreases ts.len(),
{
    if ts.len() > 0 {
        lemma_tags_render(ts.drop_last(), f);
        lemma_tag_render(ts.last(), f);
        lemma_render_with_concat(tags_pieces(ts.drop_last()), tag_pieces(ts.last()), f);
    }
}


/// The HTML of the value of each step, as `f` renders it.
pub open spec fn step_html_with(e: ExpansionV, f: spec_fn(ParamV) -> Seq<char>) -> Seq<Seq<char>> {
    Seq::new(e.steps.len(), |k: int| f(e.steps[k].param))
}

proof fn lemma_render_steps_agree(st: Seq<StepV>, hs1: Seq<Seq<char>>, hs2: Seq<Seq<char>>)
    requires
        forall|i: int| 0 <= i < st.len() ==> hs1[i] == hs2[i],
    ensures
        render_steps(st, hs1) == render_steps(st, hs2),
    decreases st.len(),
{
    if st.len() > 0 {
        lemma_render_steps_agree(st.drop_last(), hs1, hs2);
    }
}

/// The expansion of the pieces, each step's value rendered by `f`, renders
/// as the pieces written out with their values rendered by `f`.
pub proof fn lemma_expansion_render_with(ps: Seq<Piece>, f: spec_fn(ParamV) -> Seq<char>)
    ensures
        render(apply_all(empty_expansion(), ps), step_html_with(apply_all(empty_expansion(), ps), f))
            == render_with(ps, f),
    decreases ps.len(),
{
    let e2 = apply_all(empty_expansion(), ps);
    let h2 = step_html_with(e2, f);
    if ps.len() == 0 {
        assert(render(e2, h2) =~= Seq::<char>::empty());
    } else {
        let q = ps.drop_last();
        lemma_expansion_render_with(q, f);
        let e = apply_all(empty_expansion(), q);
        let h = step_html_with(e, f);
        assert(e2 == apply(e, ps.last()));
        match ps.last() {
            Piece::Raw(x) => {
                assert(h2 =~= h);
                assert(render(e2, h2) =~= render(e, h) + x);
            },
            Piece::Param(v) => {
                assert(e2.steps.drop_last() =~= e.steps);
                lemma_render_steps_agree(e.steps, h2, h);
                assert(render_steps(e2.steps, h2) == render_steps(e.steps, h2) + e.tail + h2[e.steps.len() as int]);
                assert(render(e2, h2) =~= render(e, h) + f(v));
            },
        }
    }
}

/// The expansion of a template, rendered with the given HTML of its
/// expressions and its text escaped (as `Expansion::fmt` renders it), is the
/// template's HTML: each tag's opening tag with its name and attributes, its
/// contents in order, and its closing tag.
pub proof fn lemma_expansion_html(t: TemplateV, exprs: Seq<Seq<char>>)
    ensures
        render(expand(t), step_htmls(expand(t), exprs)) == template_html(
            t,
            |p: ParamV| param_html(p, exprs),
        ),
{
    let f = |p: ParamV| param_html(p, exprs);
    let e = expand(t);
    assert(step_htmls(e, exprs) =~= step_html_with(e, f));
    lemma_expansion_render_with(template_pieces(t), f);
    lemma_template_render(t, f);
}

} // verus!
