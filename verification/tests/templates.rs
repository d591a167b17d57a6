use tempest::expansion::view;
use tempest::lexing::{ident_token, literal_token, punct_token};
use tempest::tokens::Tok;
use tempest::view::{View, WrapView};

fn ident(s: &str) -> Tok {
    Tok::Ident(String::from(s))
}

fn lit(s: &str) -> Tok {
    Tok::Str(String::from(s))
}

fn open(name: &str) -> Vec<Tok> {
    vec![Tok::Lt, ident(name), Tok::Gt]
}

fn close(name: &str) -> Vec<Tok> {
    vec![Tok::Lt, Tok::Slash, ident(name), Tok::Gt]
}

fn cat(parts: Vec<Vec<Tok>>) -> Vec<Tok> {
    parts.into_iter().flatten().collect()
}

/// Renders the template that `toks` spell, with the HTML of its expressions.
fn render(toks: &Vec<Tok>, exprs: &Vec<String>) -> String {
    let e = match view(toks) {
        Ok(e) => e,
        Err(err) => panic!("template does not parse at token {}", err.at),
    };
    let mut out = String::new();
    e.fmt(&mut out, exprs);
    out
}

/// A view made as the `view!` macro makes one: it renders the template with
/// the given expressions.
fn component(toks: Vec<Tok>, exprs: Vec<String>) -> WrapView<impl Fn(String) -> String> {
    WrapView(move |mut f: String| -> String {
        let e = match view(&toks) {
            Ok(e) => e,
            Err(err) => panic!("template does not parse at token {}", err.at),
        };
        e.fmt(&mut f, &exprs);
        f
    })
}

// <a>"Num: " {num}</a>
fn num_link(num: i32) -> WrapView<impl Fn(String) -> String> {
    let toks = cat(vec![open("a"), vec![lit("Num: "), Tok::Brace(0)], close("a")]);
    component(toks, vec![View::to_string(&num)])
}

#[test]
fn trivial() {
    // <div id="test"></div>
    let toks = vec![
        Tok::Lt,
        ident("div"),
        ident("id"),
        Tok::Eq,
        lit("test"),
        Tok::Gt,
        Tok::Lt,
        Tok::Slash,
        ident("div"),
        Tok::Gt,
    ];
    let html = component(toks, vec![]);
    assert_eq!(View::to_string(&html), r#"<div id="test"></div>"#);
}

#[test]
fn simple_paste() {
    let num = 4;
    // <div><a>"Num: " {num}</a></div>
    let toks = cat(vec![
        open("div"),
        open("a"),
        vec![lit("Num: "), Tok::Brace(0)],
        close("a"),
        close("div"),
    ]);
    let html = component(toks, vec![View::to_string(&num)]);
    assert_eq!(View::to_string(&html), "<div><a>Num:&#32;4</a></div>");
}

#[test]
fn components() {
    // <div>{main(4)}</div>
    let toks = cat(vec![open("div"), vec![Tok::Brace(0)], close("div")]);
    let html = component(toks, vec![View::to_string(&num_link(4))]);
    assert_eq!(View::to_string(&html), "<div><a>Num:&#32;4</a></div>");
}

#[test]
fn component_as_arg() {
    // fn main(num: impl View) -> impl View { view! { <div>{num}</div> } }
    let main = |num: String| component(cat(vec![open("div"), vec![Tok::Brace(0)], close("div")]), vec![num]);
    let num = 4;
    // <div>{main(view! { <a>"Num: " {num}</a> })}</div>
    let inner = main(View::to_string(&num_link(num)));
    let toks = cat(vec![open("div"), vec![Tok::Brace(0)], close("div")]);
    let html = component(toks, vec![View::to_string(&inner)]);
    assert_eq!(View::to_string(&html), "<div><div><a>Num:&#32;4</a></div></div>");
}

#[test]
fn self_closing_tag_and_dashed_attributes() {
    // <button class="btn" hx-get="/more">"load more" <img src="/a.svg" /></button>
    let toks = vec![
        Tok::Lt,
        ident("button"),
        ident("class"),
        Tok::Eq,
        lit("btn"),
        ident("hx"),
        Tok::Dash,
        ident("get"),
        Tok::Eq,
        lit("/more"),
        Tok::Gt,
        lit("load more"),
        Tok::Lt,
        ident("img"),
        ident("src"),
        Tok::Eq,
        lit("/a.svg"),
        Tok::Slash,
        Tok::Gt,
        Tok::Lt,
        Tok::Slash,
        ident("button"),
        Tok::Gt,
    ];
    assert_eq!(
        render(&toks, &vec![]),
        r#"<button class="btn" hx-get="/more">load&#32;more<img src="/a.svg"/></button>"#
    );
}

#[test]
fn bare_words_are_text_and_closing_name_may_be_left_out() {
    // <p>Hello "<b>"</>
    let toks = vec![
        Tok::Lt,
        ident("p"),
        Tok::Gt,
        ident("Hello"),
        lit("<b>"),
        Tok::Lt,
        Tok::Slash,
        Tok::Gt,
    ];
    assert_eq!(render(&toks, &vec![]), "<p>Hello&lt;b&gt;</>");
}

#[test]
fn several_tags_and_expressions_in_order() {
    // <i>{a}</i><b>{b}{c}</b>
    let toks = cat(vec![
        open("i"),
        vec![Tok::Brace(0)],
        close("i"),
        open("b"),
        vec![Tok::Brace(1), Tok::Brace(2)],
        close("b"),
    ]);
    let exprs = vec![String::from("A"), String::from("<x>"), String::from("C")];
    assert_eq!(render(&toks, &exprs), "<i>A</i><b><x>C</b>");
}

#[test]
fn expansion_groups_static_html_into_steps() {
    let toks = cat(vec![open("div"), vec![lit("t"), Tok::Brace(0)], close("div")]);
    let e = view(&toks).ok().unwrap();
    assert_eq!(e.steps.len(), 2);
    assert_eq!(e.steps[0].text, "<div>");
    assert!(matches!(&e.steps[0].param, tempest::expansion::Param::Text(t) if t == "t"));
    assert_eq!(e.steps[1].text, "");
    assert!(matches!(e.steps[1].param, tempest::expansion::Param::Expr(0)));
    assert_eq!(e.tail, "</div>");
}

#[test]
fn empty_template_renders_nothing() {
    assert_eq!(render(&vec![], &vec![]), "");
}

fn error_at(toks: Vec<Tok>) -> usize {
    match view(&toks) {
        Ok(_) => panic!("template parsed"),
        Err(e) => e.at,
    }
}

#[test]
fn unclosed_tag_is_refused_at_the_end() {
    assert_eq!(error_at(open("div")), 3);
}

#[test]
fn tokens_after_the_tags_are_refused() {
    // <br/> x
    assert_eq!(error_at(vec![Tok::Lt, ident("br"), Tok::Slash, Tok::Gt, ident("x")]), 4);
    assert_eq!(error_at(vec![ident("x")]), 0);
}

#[test]
fn other_tokens_as_content_are_refused() {
    assert_eq!(error_at(cat(vec![open("p"), vec![Tok::Other], close("p")])), 3);
}

#[test]
fn attribute_value_must_be_a_string() {
    // <a href=x>
    let toks = vec![Tok::Lt, ident("a"), ident("href"), Tok::Eq, ident("x"), Tok::Gt];
    assert_eq!(error_at(toks), 4);
}

#[test]
fn dash_must_be_followed_by_a_name() {
    // <a data- >
    let toks = vec![Tok::Lt, ident("a"), ident("data"), Tok::Dash, Tok::Gt];
    assert_eq!(error_at(toks), 4);
}

#[test]
fn open_tag_must_end_with_gt() {
    let toks = vec![Tok::Lt, ident("a"), Tok::Eq];
    assert_eq!(error_at(toks), 2);
}

#[test]
fn closing_tag_must_end_with_gt() {
    let toks = vec![Tok::Lt, ident("a"), Tok::Gt, Tok::Lt, Tok::Slash, ident("a"), ident("b")];
    assert_eq!(error_at(toks), 6);
}

#[test]
fn identifiers_and_literals_from_source_text() {
    assert!(matches!(ident_token("div"), Tok::Ident(s) if s == "div"));
    assert!(matches!(ident_token("type"), Tok::Other));
    assert!(matches!(ident_token("_"), Tok::Other));
    assert!(matches!(literal_token(r#""a\nb""#), Tok::Str(s) if s == "a\nb"));
    assert!(matches!(literal_token(r##"r#"x"y"#"##), Tok::Str(s) if s == "x\"y"));
    assert!(matches!(literal_token("42"), Tok::Other));
}

#[test]
fn an_error_inside_a_nested_tag_is_reported_where_it_is() {
    // <p><a href=x></a></p>
    let toks = cat(vec![
        open("p"),
        vec![Tok::Lt, ident("a"), ident("href"), Tok::Eq, ident("x"), Tok::Gt],
        close("a"),
        close("p"),
    ]);
    assert_eq!(error_at(toks), 7);
}

#[test]
fn punctuation_tokens() {
    assert!(matches!(punct_token('<'), Tok::Lt));
    assert!(matches!(punct_token('>'), Tok::Gt));
    assert!(matches!(punct_token('/'), Tok::Slash));
    assert!(matches!(punct_token('='), Tok::Eq));
    assert!(matches!(punct_token('-'), Tok::Dash));
    assert!(matches!(punct_token('!'), Tok::Other));
}
