# tempest

HTML templating for Rust, verified with Verus.

A template is a sequence of tags written as tokens:
`<div id="x"> "text" {expr} <br/> </div>`. The library reads the tokens into
a tree (`parse`), turns the tree into steps of static HTML each followed by a
value to render (`expansion`), and renders values through the `View` trait
(`view`): plain values as their text, escaped (`escape`, `text`); views such
as nested templates as their HTML.

Layout:

- `src/` the verified library; `reading` states where reading tokens fails,
  `lexing` makes tokens from the source text of identifiers and literals.
- `tests/` tests of the library.
- `app/` the code around it: turning `proc_macro2` token streams into the
  library's tokens and generating Rust code for a template, and a small
  `axum` server that renders its pages from templates.
