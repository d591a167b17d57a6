//! The tokens of a template, as the `view!` macro receives them.

use vstd::prelude::*;

verus! {

/// A token of a template.
pub enum Tok {
    /// The punctuation `<`.
    Lt,
    /// The punctuation `>`.
    Gt,
    /// The punctuation `/`.
    Slash,
    /// The punctuation `=`.
    Eq,
    /// The punctuation `-`.
    Dash,
    /// An identifier that is not a keyword, by its text.
    Ident(String),
    /// A string literal, by its value.
    Str(String),
    /// A group in braces: an expression pasted into the HTML, by its number.
    Brace(usize),
    /// Any other token.
    Other,
}

/// A token, as a mathematical value.
pub enum Token {
    Lt,
    Gt,
    Slash,
    Eq,
    Dash,
    Ident(Seq<char>),
    Str(Seq<char>),
    Brace(nat),
    Other,
}

impl View for Tok {
    type V = Token;

    open spec fn view(&self) -> Token {
        match self {
            Tok::Lt => Token::Lt,
            Tok::Gt => Token::Gt,
            Tok::Slash => Token::Slash,
            Tok::Eq => Token::Eq,
            Tok::Dash => Token::Dash,
            Tok::Ident(s) => Token::Ident(s@),
            Tok::Str(s) => Token::Str(s@),
            Tok::Brace(n) => Token::Brace(*n as nat),
            Tok::Other => Token::Other,
        }
    }
}

/// The tokens of a sequence, as mathematical values.
pub open spec fn tokens(toks: Seq<Tok>) -> Seq<Token> {
    Seq::new(toks.len(), |i: int| toks[i]@)
}

} // verus!
