//! HTML templating: templates read from tokens into steps that write static
//! HTML and render pasted values, with the text of plain values escaped.

pub mod escape;
pub mod expansion;
pub mod lexing;
pub mod parse;
pub mod reading;
pub mod strings;
pub mod syntax;
pub mod text;
pub mod tokens;
pub mod tree;
pub mod view;

pub use escape::clean_text;
pub use expansion::view;
pub use view::{sanitized, unsanitized, DisplayView, Sanitized, Unsanitized, View, WrapView};
