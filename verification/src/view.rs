//! Views: values that render as HTML.

use vstd::prelude::*;

use crate::escape::{escape, lemma_escape_read_back, read_back, unescape, write_escaped};
use crate::text::Text;
use vstd::view::View as _;

verus! {

/// Something that renders as a piece of HTML.
pub trait View {
    /// The HTML that the view renders to.
    spec fn html(&self) -> Seq<char>;

    /// Whether rendering may be asked for.
    spec fn is_renderable(&self) -> bool;

    /// Whether rendering always appends the same HTML, `html`.
    spec fn has_fixed_html(&self) -> bool;

    /// Appends the HTML of the view to `f`.
    fn fmt(&self, f: &mut String)
        requires
            self.is_renderable(),
        ensures
            self.has_fixed_html() ==> final(f)@ == old(f)@ + self.html(),
    ;

    /// A handle that renders the view without escaping it again.
    fn display(&self) -> (r: DisplayView<'_, Self>)
        ensures
            r.0 == self,
    {
        DisplayView(self)
    }

    /// The HTML of the view as a string.
    fn to_string(&self) -> (r: String)
        requires
            self.is_renderable(),
        ensures
            self.has_fixed_html() ==> r@ == self.html(),
    {
        let mut s = String::new();
        self.fmt(&mut s);
        s
    }
}

/// A view whose rendering is done by a function, as the `view!` macro builds
/// them: the function takes the output so far and gives it back extended.
pub struct WrapView<F>(pub F);

/// A borrowed view. Its `to_string` gives the view's HTML as it is; rendered
/// inside other HTML it stands for text, and that HTML is escaped.
pub struct DisplayView<'a, V: ?Sized>(pub &'a V);

/// A value whose text is its value's text escaped; rendered as a view, that
/// escaped text is escaped once more.
pub struct Sanitized<T: ?Sized>(T);

/// A value whose textual form is written into the HTML as it is.
pub struct Unsanitized<T: ?Sized>(T);

/// Wraps a value so that its text is escaped.
pub fn sanitized<T>(val: T) -> (r: Sanitized<T>)
    ensures
        r.inner() == val,
{
    Sanitized(val)
}

/// Wraps a value so that its text is written without escaping.
pub fn unsanitized<T>(val: T) -> (r: Unsanitized<T>)
    ensures
        r.inner() == val,
{
    Unsanitized(val)
}

impl<T> Sanitized<T> {
    /// The wrapped value.
    pub closed spec fn inner(self) -> T {
        self.0
    }
}

impl<T> Unsanitized<T> {
    /// The wrapped value.
    pub closed spec fn inner(self) -> T {
        self.0
    }
}

/// Plain values render as their text, escaped.
impl<T: Text + ?Sized> View for T {
    open spec fn html(&self) -> Seq<char> {
        escape(self.text())
    }

    open spec fn is_renderable(&self) -> bool {
        true
    }

    open spec fn has_fixed_html(&self) -> bool {
        true
    }

    fn fmt(&self, f: &mut String) {
        let mut t = String::new();
        self.write_text(&mut t);
        write_escaped(f, t.as_str());
    }
}

impl<T: Text> Text for Sanitized<T> {
    open spec fn text(&self) -> Seq<char> {
        escape(self.inner().text())
    }

    fn write_text(&self, out: &mut String) {
        let mut t = String::new();
        self.0.write_text(&mut t);
        write_escaped(out, t.as_str());
    }
}

impl<T: Text> View for Unsanitized<T> {
    open spec fn html(&self) -> Seq<char> {
        self.inner().text()
    }

    open spec fn is_renderable(&self) -> bool {
        true
    }

    open spec fn has_fixed_html(&self) -> bool {
        true
    }

    fn fmt(&self, f: &mut String) {
        self.0.write_text(f);
    }
}

impl<F: Fn(String) -> String> WrapView<F> {
    /// The function appends the same HTML to every output it is given.
    pub open spec fn appends(&self, h: Seq<char>) -> bool {
        forall|s: String, r: String| #[trigger] call_ensures(self.0, (s,), r) ==> r@ == s@ + h
    }
}

impl<F: Fn(String) -> String> View for WrapView<F> {
    open spec fn html(&self) -> Seq<char> {
        choose|h: Seq<char>| self.appends(h)
    }

    open spec fn is_renderable(&self) -> bool {
        forall|s: String| call_requires(self.0, (s,))
    }

    open spec fn has_fixed_html(&self) -> bool {
        exists|h: Seq<char>| self.appends(h)
    }

    /// The output is what the function gives back for the output so far.
    fn fmt(&self, f: &mut String)
        ensures
            call_ensures(self.0, (*old(f),), *final(f)),
    {
        let mut s = String::new();
        std::mem::swap(&mut s, f);
        let r = (self.0)(s);
        *f = r;
    }

    /// The HTML is what the function gives back for an empty output.
    fn to_string(&self) -> (r: String)
        ensures
            exists|s: String| s@ == Seq::<char>::empty() && #[trigger] call_ensures(self.0, (s,), r),
    {
        let mut s = String::new();
        self.fmt(&mut s);
        s
    }
}

impl<'a, V: View + ?Sized> DisplayView<'a, V> {
    /// The HTML of the borrowed view, as it is.
    pub fn to_string(&self) -> (r: String)
        requires
            self.0.is_renderable(),
        ensures
            self.0.has_fixed_html() ==> r@ == self.0.html(),
    {
        let mut s = String::new();
        self.0.fmt(&mut s);
        s
    }
}

/// Where a view is rendered through its display handle inside other HTML, its
/// HTML is taken as text and escaped.
impl<'a, V: View + ?Sized> View for DisplayView<'a, V> {
    open spec fn html(&self) -> Seq<char> {
        escape(self.0.html())
    }

    open spec fn is_renderable(&self) -> bool {
        self.0.is_renderable()
    }

    open spec fn has_fixed_html(&self) -> bool {
        self.0.has_fixed_html()
    }

    fn fmt(&self, f: &mut String) {
        let t = self.to_string();
        write_escaped(f, t.as_str());
    }
}


/// A string rendered in HTML reads back as the string itself (NUL as
/// U+FFFD): it is escaped exactly once.
pub proof fn lemma_string_html_reads_back(s: String)
    ensures
        unescape(s.html()) == read_back(s@),
{
    lemma_escape_read_back(s@);
}

/// A string slice rendered in HTML reads back as the slice itself (NUL as
/// U+FFFD).
pub proof fn lemma_str_html_reads_back(s: &str)
    ensures
        unescape(s.html()) == read_back(s@),
{
    lemma_escape_read_back(s@);
}

/// A character rendered in HTML reads back as itself (NUL as U+FFFD).
pub proof fn lemma_char_html_reads_back(c: char)
    ensures
        unescape(c.html()) == read_back(seq![c]),
{
    lemma_escape_read_back(seq![c]);
}

/// The text of a sanitized value reads back as the value's text: it is
/// escaped exactly once.
pub proof fn lemma_sanitized_text_reads_back<T: Text>(s: Sanitized<T>)
    ensures
        unescape(s.text()) == read_back(s.inner().text()),
{
    lemma_escape_read_back(s.inner().text());
}

/// An unsanitized value renders as its text, unchanged.
pub proof fn lemma_unsanitized_html<T: Text>(u: Unsanitized<T>)
    ensures
        u.html() == u.inner().text(),
{
}

} // verus!
