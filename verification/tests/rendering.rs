use tempest::escape::{clean_text, write_escaped};
use tempest::text::{write_decimal, write_signed_decimal, Text};
use tempest::view::{sanitized, unsanitized, DisplayView, View, WrapView};

fn text_of<T: Text + ?Sized>(t: &T) -> String {
    let mut s = String::new();
    t.write_text(&mut s);
    s
}

#[test]
fn each_markup_character_has_its_entity() {
    let cases = [
        ('<', "&lt;"),
        ('>', "&gt;"),
        ('"', "&quot;"),
        ('\'', "&apos;"),
        ('`', "&grave;"),
        ('/', "&#47;"),
        ('&', "&amp;"),
        ('=', "&#61;"),
        (' ', "&#32;"),
        ('\t', "&#9;"),
        ('\n', "&#10;"),
        ('\x0c', "&#12;"),
        ('\r', "&#13;"),
        ('\0', "&#65533;"),
    ];
    for (c, e) in cases {
        assert_eq!(clean_text(c), Some(e));
    }
}

#[test]
fn other_characters_pass_through() {
    for c in ['a', 'Z', '0', ';', '#', 'é', '日', '-', '_', '.'] {
        assert_eq!(clean_text(c), None);
    }
}

#[test]
fn escaping_a_script_tag() {
    let mut out = String::from("x:");
    write_escaped(&mut out, r#"<script>alert("hi");</script>"#);
    assert_eq!(out, "x:&lt;script&gt;alert(&quot;hi&quot;);&lt;&#47;script&gt;");
}

#[test]
fn escaping_in_pieces_gives_the_same_text() {
    let whole = "a <b> & 'c'";
    let mut once = String::new();
    write_escaped(&mut once, whole);
    let mut twice = String::new();
    write_escaped(&mut twice, "a <b");
    write_escaped(&mut twice, "> & 'c'");
    assert_eq!(once, twice);
}

#[test]
fn plain_text_is_unchanged() {
    let mut out = String::new();
    write_escaped(&mut out, "Plain-text_123;ünïcode");
    assert_eq!(out, "Plain-text_123;ünïcode");
}

#[test]
fn different_texts_escape_differently() {
    let mut a = String::new();
    write_escaped(&mut a, "&lt;");
    let mut b = String::new();
    write_escaped(&mut b, "<");
    assert_ne!(a, b);
    assert_eq!(a, "&amp;lt;");
}

#[test]
fn decimal_numerals() {
    let mut s = String::new();
    write_decimal(&mut s, 0);
    assert_eq!(s, "0");
    let mut s = String::new();
    write_decimal(&mut s, 1234567890);
    assert_eq!(s, "1234567890");
    let mut s = String::new();
    write_decimal(&mut s, u128::MAX);
    assert_eq!(s, "340282366920938463463374607431768211455");
    let mut s = String::new();
    write_signed_decimal(&mut s, -42);
    assert_eq!(s, "-42");
    let mut s = String::new();
    write_signed_decimal(&mut s, i128::MIN);
    assert_eq!(s, "-170141183460469231731687303715884105728");
}

#[test]
fn text_of_plain_values_matches_display() {
    assert_eq!(text_of(&4i32), ToString::to_string(&4i32));
    assert_eq!(text_of(&-17i8), "-17");
    assert_eq!(text_of(&255u8), "255");
    assert_eq!(text_of(&65535u16), "65535");
    assert_eq!(text_of(&4000000000u32), "4000000000");
    assert_eq!(text_of(&-1i16), "-1");
    assert_eq!(text_of(&i64::MAX), ToString::to_string(&i64::MAX));
    assert_eq!(text_of(&12usize), "12");
    assert_eq!(text_of(&-12isize), "-12");
    assert_eq!(text_of(&99u64), "99");
    assert_eq!(text_of(&u128::MAX), ToString::to_string(&u128::MAX));
    assert_eq!(text_of(&i128::MIN), ToString::to_string(&i128::MIN));
    assert_eq!(text_of(&true), "true");
    assert_eq!(text_of(&false), "false");
    assert_eq!(text_of(&'x'), "x");
    assert_eq!(text_of("a b"), "a b");
    assert_eq!(text_of(&String::from("s")), "s");
    assert_eq!(text_of(&&"r"), "r");
}

#[test]
fn plain_values_render_escaped() {
    assert_eq!(View::to_string("a<b"), "a&lt;b");
    assert_eq!(View::to_string(&-3i32), "-3");
    assert_eq!(View::to_string(&' '), "&#32;");
    let mut out = String::from("<p>");
    View::fmt("x y", &mut out);
    assert_eq!(out, "<p>x&#32;y");
}

#[test]
fn unsanitized_renders_as_is() {
    let u = unsanitized(r#"<script>alert("hello 2");</script>"#);
    assert_eq!(View::to_string(&u), r#"<script>alert("hello 2");</script>"#);
}

#[test]
fn sanitized_is_escaped_again_when_rendered() {
    let s = sanitized("<");
    assert_eq!(text_of(&s), "&lt;");
    assert_eq!(View::to_string(&s), "&amp;lt;");
}

#[test]
fn wrap_view_renders_what_its_function_appends() {
    let w = WrapView(|mut f: String| -> String {
        f.push_str("<hr/>");
        f
    });
    assert_eq!(View::to_string(&w), "<hr/>");
    let mut out = String::from("a");
    View::fmt(&w, &mut out);
    assert_eq!(out, "a<hr/>");
}

#[test]
fn display_handle_gives_the_html_and_is_escaped_as_text() {
    let w = WrapView(|mut f: String| -> String {
        f.push_str("<b>x</b>");
        f
    });
    let d: DisplayView<'_, _> = View::display(&w);
    assert_eq!(d.to_string(), "<b>x</b>");
    assert_eq!(View::to_string(&d), "&lt;b&gt;x&lt;&#47;b&gt;");
}

#[test]
fn display_handle_of_text_gives_its_html() {
    let s: &str = "a<b c";
    let d: DisplayView<'_, str> = View::display(s);
    assert_eq!(d.to_string(), View::to_string(s));
    assert_eq!(d.to_string(), "a&lt;b&#32;c");
    let n = 7u8;
    assert_eq!(View::display(&n).to_string(), View::to_string(&n));
}

/// Reads escaped text back as HTML reads the references that escaping writes.
fn read_back_html(t: &str) -> String {
    let refs = [
        ("&lt;", '<'),
        ("&gt;", '>'),
        ("&quot;", '"'),
        ("&apos;", '\''),
        ("&grave;", '`'),
        ("&#47;", '/'),
        ("&amp;", '&'),
        ("&#61;", '='),
        ("&#32;", ' '),
        ("&#9;", '\t'),
        ("&#10;", '\n'),
        ("&#12;", '\x0c'),
        ("&#13;", '\r'),
        ("&#65533;", '\u{FFFD}'),
    ];
    let mut out = String::new();
    let mut rest = t;
    'outer: while let Some(c) = rest.chars().next() {
        for (r, d) in refs {
            if rest.starts_with(r) {
                out.push(d);
                rest = &rest[r.len()..];
                continue 'outer;
            }
        }
        out.push(c);
        rest = &rest[c.len_utf8()..];
    }
    out
}

#[test]
fn escaped_text_reads_back_with_nul_as_replacement_character() {
    let text = "<a href='x'>`1/2` & \"=\" \t\n\x0c\r\0 é;&amp;</a>";
    let mut escaped = String::new();
    write_escaped(&mut escaped, text);
    assert_eq!(read_back_html(&escaped), text.replace('\0', "\u{FFFD}"));
}
