//! Escaping of text for inclusion in HTML.

use vstd::prelude::*;

use crate::strings::{push_char, push_str};

verus! {

/// The entity that stands for `c` in escaped text, for each character that
/// can start a tag, end an attribute value or start an entity reference.
/// Every other character is kept as it is.
pub open spec fn entity(c: char) -> Option<Seq<char>> {
    if c == '<' {
        Some(seq!['&', 'l', 't', ';'])
    } else if c == '>' {
        Some(seq!['&', 'g', 't', ';'])
    } else if c == '"' {
        Some(seq!['&', 'q', 'u', 'o', 't', ';'])
    } else if c == '\'' {
        Some(seq!['&', 'a', 'p', 'o', 's', ';'])
    } else if c == '`' {
        Some(seq!['&', 'g', 'r', 'a', 'v', 'e', ';'])
    } else if c == '/' {
        Some(seq!['&', '#', '4', '7', ';'])
    } else if c == '&' {
        Some(seq!['&', 'a', 'm', 'p', ';'])
    } else if c == '=' {
        Some(seq!['&', '#', '6', '1', ';'])
    } else if c == ' ' {
        Some(seq!['&', '#', '3', '2', ';'])
    } else if c == '\t' {
        Some(seq!['&', '#', '9', ';'])
    } else if c == '\n' {
        Some(seq!['&', '#', '1', '0', ';'])
    } else if c == '\x0c' {
        Some(seq!['&', '#', '1', '2', ';'])
    } else if c == '\r' {
        Some(seq!['&', '#', '1', '3', ';'])
    } else if c == '\0' {
        Some(seq!['&', '#', '6', '5', '5', '3', '3', ';'])
    } else {
        None
    }
}

/// What one character becomes in escaped text.
pub open spec fn escape_char(c: char) -> Seq<char> {
    match entity(c) {
        Some(e) => e,
        None => seq![c],
    }
}

/// The escaped form of a text: each character replaced by `escape_char`.
pub open spec fn escape(s: Seq<char>) -> Seq<char>
    decreases s.len(),
{
    if s.len() == 0 {
        Seq::empty()
    } else {
        escape(s.drop_last()) + escape_char(s.last())
    }
}

/// The replacement text of `c`, or `None` where `c` passes through verbatim.
pub fn clean_text(c: char) -> (r: Option<&'static str>)
    ensures
        r is Some <==> entity(c) is Some,
        r matches Some(t) ==> t@ == entity(c)->0,
{
    let replacement = if c == '<' {
        proof { reveal_strlit("&lt;"); }
        "&lt;"
    } else if c == '>' {
        proof { reveal_strlit("&gt;"); }
        "&gt;"
    } else if c == '"' {
        proof { reveal_strlit("&quot;"); }
        "&quot;"
    } else if c == '\'' {
        proof { reveal_strlit("&apos;"); }
        "&apos;"
    } else if c == '`' {
        proof { reveal_strlit("&grave;"); }
        "&grave;"
    } else if c == '/' {
        proof { reveal_strlit("&#47;"); }
        "&#47;"
    } else if c == '&' {
        proof { reveal_strlit("&amp;"); }
        "&amp;"
    } else if c == '=' {
        proof { reveal_strlit("&#61;"); }
        "&#61;"
    } else if c == ' ' {
        proof { reveal_strlit("&#32;"); }
        "&#32;"
    } else if c == '\t' {
        proof { reveal_strlit("&#9;"); }
        "&#9;"
    } else if c == '\n' {
        proof { reveal_strlit("&#10;"); }
        "&#10;"
    } else if c == '\x0c' {
        proof { reveal_strlit("&#12;"); }
        "&#12;"
    } else if c == '\r' {
        proof { reveal_strlit("&#13;"); }
        "&#13;"
    } else if c == '\0' {
        proof { reveal_strlit("&#65533;"); }
        "&#65533;"
    } else {
        return None;
    };
    Some(replacement)
}

/// Appends the escaped form of `s` to `out`.
pub fn write_escaped(out: &mut String, s: &str)
    ensures
        final(out)@ == old(out)@ + escape(s@),
{
    let ghost start = out@;
    for c in it: s.chars()
        invariant
            it.seq() == s@,
            out@ == start + escape(s@.take(it.index() as int)),
    {
        let ghost i = it.index() as int;
        assert(s@.take(i + 1).drop_last() == s@.take(i));
        match clean_text(c) {
            Some(replacement) => push_str(out, replacement),
            None => push_char(out, c),
        }
    }
    assert(s@.take(s@.len() as int) == s@);
}


/// Escaping is compositional: the escaped form of a concatenation is the
/// concatenation of the escaped forms, so text written in several pieces
/// comes out as if it had been written at once.
pub proof fn lemma_escape_concat(a: Seq<char>, b: Seq<char>)
    ensures
        escape(a + b) == escape(a) + escape(b),
    decreases b.len(),
{
    if b.len() == 0 {
        assert(a + b == a);
        assert(escape(a) + escape(b) == escape(a));
    } else {
        assert((a + b).drop_last() == a + b.drop_last());
        lemma_escape_concat(a, b.drop_last());
        assert((a + b).last() == b.last());
    }
}

/// Text in which no character has an entity is passed through verbatim.
pub proof fn lemma_escape_plain(s: Seq<char>)
    requires
        forall|i: int| 0 <= i < s.len() ==> entity(#[trigger] s[i]) is None,
    ensures
        escape(s) == s,
    decreases s.len(),
{
    if s.len() > 0 {
        lemma_escape_plain(s.drop_last());
        assert(entity(s[s.len() - 1]) is None);
        assert(s.drop_last().push(s.last()) == s);
    }
}

/// Escaped text holds no character that has a meaning in markup other than
/// `&`, and `&` appears only as the start of an entity.
pub proof fn lemma_escape_is_safe(s: Seq<char>)
    ensures
        forall|i: int|
            0 <= i < escape(s).len() && entity(#[trigger] escape(s)[i]) is Some ==> escape(s)[i]
                == '&',
    decreases s.len(),
{
    if s.len() > 0 {
        lemma_escape_safe_char(s.last());
        lemma_escape_is_safe(s.drop_last());
        let e = escape(s.drop_last());
        let t = escape_char(s.last());
        assert forall|i: int|
            0 <= i < escape(s).len() && entity(#[trigger] escape(s)[i]) is Some implies escape(
                s,
            )[i] == '&' by {
            if i < e.len() {
                assert(escape(s)[i] == e[i]);
            } else {
                assert(escape(s)[i] == t[i - e.len()]);
            }
        }
    }
}

proof fn lemma_escape_safe_char(c: char)
    ensures
        forall|i: int|
            0 <= i < escape_char(c).len() && entity(#[trigger] escape_char(c)[i]) is Some
                ==> escape_char(c)[i] == '&',
{
}


proof fn lemma_escape_cons(x: char, s: Seq<char>)
    ensures
        escape(seq![x] + s) == escape_char(x) + escape(s),
{
    lemma_escape_concat(seq![x], s);
    assert(seq![x].drop_last() == Seq::<char>::empty());
    assert(seq![x].last() == x);
    assert(escape(Seq::<char>::empty()) == Seq::<char>::empty());
    assert(Seq::<char>::empty() + escape_char(x) =~= escape_char(x));
    assert(escape(seq![x]) == escape_char(x));
}

/// No escaped character is a prefix of the escaped form of another one.
proof fn lemma_escape_char_prefix_free(x: char, y: char, t: Seq<char>)
    requires
        escape_char(x).len() <= t.len(),
        escape_char(y).len() <= t.len(),
        t.take(escape_char(x).len() as int) == escape_char(x),
        t.take(escape_char(y).len() as int) == escape_char(y),
    ensures
        x == y,
{
    let ex = escape_char(x);
    let ey = escape_char(y);
    assert(ex[0] == t[0] && ey[0] == t[0]) by {
        assert(t.take(ex.len() as int)[0] == t[0]);
        assert(t.take(ey.len() as int)[0] == t[0]);
    }
    if entity(x) is None || entity(y) is None {
    } else {
        let n: int = if ex.len() <= ey.len() { ex.len() as int } else { ey.len() as int };
        assert forall|i: int| 0 <= i < n implies ex[i] == ey[i] by {
            assert(t.take(ex.len() as int)[i] == t[i]);
            assert(t.take(ey.len() as int)[i] == t[i]);
        }
        assert(ex[1] == ey[1]);
        assert(ex[2] == ey[2]);
        assert(ex[3] == ey[3]);
        if n > 4 {
            assert(ex[4] == ey[4]);
        }
    }
}

/// Escaping loses nothing: two texts with the same escaped form are equal.
pub proof fn lemma_escape_injective(a: Seq<char>, b: Seq<char>)
    requires
        escape(a) == escape(b),
    ensures
        a == b,
    decreases a.len(),
{
    if a.len() == 0 || b.len() == 0 {
        lemma_escape_len(a);
        lemma_escape_len(b);
    } else {
        let a1 = a.skip(1);
        let b1 = b.skip(1);
        assert(a == seq![a[0]] + a1);
        assert(b == seq![b[0]] + b1);
        lemma_escape_cons(a[0], a1);
        lemma_escape_cons(b[0], b1);
        let t = escape(a);
        let ea = escape_char(a[0]);
        let eb = escape_char(b[0]);
        assert(t.take(ea.len() as int) == ea);
        assert(t.take(eb.len() as int) == eb);
        lemma_escape_char_prefix_free(a[0], b[0], t);
        assert(escape(a1) == t.skip(ea.len() as int));
        assert(escape(b1) == t.skip(eb.len() as int));
        lemma_escape_injective(a1, b1);
    }
}

/// Escaping never shortens a text, and only the empty text escapes to nothing.
pub proof fn lemma_escape_len(s: Seq<char>)
    ensures
        escape(s).len() >= s.len(),
    decreases s.len(),
{
    if s.len() > 0 {
        lemma_escape_len(s.drop_last());
    }
}


/// `t` begins with `p`.
pub open spec fn starts_with(t: Seq<char>, p: Seq<char>) -> bool {
    p.len() <= t.len() && t.take(p.len() as int) == p
}

/// The character reference of escaped text that `t` begins with, read as
/// HTML reads it: the character it stands for and its length. `&#65533;`
/// stands for U+FFFD.
pub open spec fn reference_at(t: Seq<char>) -> Option<(char, nat)> {
    if starts_with(t, seq!['&', 'l', 't', ';']) {
        Some(('<', 4nat))
    } else if starts_with(t, seq!['&', 'g', 't', ';']) {
        Some(('>', 4nat))
    } else if starts_with(t, seq!['&', 'q', 'u', 'o', 't', ';']) {
        Some(('"', 6nat))
    } else if starts_with(t, seq!['&', 'a', 'p', 'o', 's', ';']) {
        Some(('\'', 6nat))
    } else if starts_with(t, seq!['&', 'g', 'r', 'a', 'v', 'e', ';']) {
        Some(('`', 7nat))
    } else if starts_with(t, seq!['&', '#', '4', '7', ';']) {
        Some(('/', 5nat))
    } else if starts_with(t, seq!['&', 'a', 'm', 'p', ';']) {
        Some(('&', 5nat))
    } else if starts_with(t, seq!['&', '#', '6', '1', ';']) {
        Some(('=', 5nat))
    } else if starts_with(t, seq!['&', '#', '3', '2', ';']) {
        Some((' ', 5nat))
    } else if starts_with(t, seq!['&', '#', '9', ';']) {
        Some(('\t', 4nat))
    } else if starts_with(t, seq!['&', '#', '1', '0', ';']) {
        Some(('\n', 5nat))
    } else if starts_with(t, seq!['&', '#', '1', '2', ';']) {
        Some(('\x0c', 5nat))
    } else if starts_with(t, seq!['&', '#', '1', '3', ';']) {
        Some(('\r', 5nat))
    } else if starts_with(t, seq!['&', '#', '6', '5', '5', '3', '3', ';']) {
        Some(('\u{FFFD}', 8nat))
    } else {
        None
    }
}

/// Escaped text read back as HTML: each character reference that escaping
/// writes stands for its character, and every other character for itself.
pub open spec fn unescape(t: Seq<char>) -> Seq<char>
    decreases t.len(),
{
    if t.len() == 0 {
        Seq::empty()
    } else {
        match reference_at(t) {
            Some((c, n)) => if 0 < n <= t.len() {
                seq![c] + unescape(t.skip(n as int))
            } else {
                Seq::empty()
            },
            None => seq![t[0]] + unescape(t.skip(1)),
        }
    }
}

/// A character as HTML reads it back: NUL is read as U+FFFD, every other
/// character as itself.
pub open spec fn read_back_char(c: char) -> char {
    if c == '\0' {
        '\u{FFFD}'
    } else {
        c
    }
}

/// A text as HTML reads it back.
pub open spec fn read_back(s: Seq<char>) -> Seq<char> {
    Seq::new(s.len(), |i: int| read_back_char(s[i]))
}

proof fn lemma_starts_with_escape_char(x: char, y: char, t: Seq<char>)
    requires
        starts_with(t, escape_char(x)),
    ensures
        starts_with(t, escape_char(y)) ==> x == y,
{
    if starts_with(t, escape_char(y)) {
        lemma_escape_char_prefix_free(x, y, t);
    }
}

proof fn lemma_unescape_cons(x: char, r: Seq<char>)
    ensures
        unescape(escape_char(x) + r) == seq![read_back_char(x)] + unescape(r),
{
    let e = escape_char(x);
    let t = e + r;
    assert(t.take(e.len() as int) == e);
    assert(starts_with(t, e));
    if entity(x) is None {
        assert(t[0] == x);
        assert(t.skip(1) == r);
    } else {
        lemma_starts_with_escape_char(x, '<', t);
        lemma_starts_with_escape_char(x, '>', t);
        lemma_starts_with_escape_char(x, '"', t);
        lemma_starts_with_escape_char(x, '\'', t);
        lemma_starts_with_escape_char(x, '`', t);
        lemma_starts_with_escape_char(x, '/', t);
        lemma_starts_with_escape_char(x, '&', t);
        lemma_starts_with_escape_char(x, '=', t);
        lemma_starts_with_escape_char(x, ' ', t);
        lemma_starts_with_escape_char(x, '\t', t);
        lemma_starts_with_escape_char(x, '\n', t);
        lemma_starts_with_escape_char(x, '\x0c', t);
        lemma_starts_with_escape_char(x, '\r', t);
        lemma_starts_with_escape_char(x, '\0', t);
        assert(t.skip(e.len() as int) == r);
    }
}

/// Escaping loses nothing but NUL: read back as HTML, escaped text gives the
/// text it was made from, with NUL as U+FFFD.
pub proof fn lemma_escape_read_back(s: Seq<char>)
    ensures
        unescape(escape(s)) == read_back(s),
    decreases s.len(),
{
    if s.len() == 0 {
        assert(read_back(s) =~= Seq::<char>::empty());
    } else {
        let rest = s.skip(1);
        assert(s == seq![s[0]] + rest);
        lemma_escape_cons(s[0], rest);
        lemma_unescape_cons(s[0], escape(rest));
        lemma_escape_read_back(rest);
        assert(read_back(s) =~= seq![read_back_char(s[0])] + read_back(rest));
    }
}

} // verus!
