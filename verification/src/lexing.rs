//! Tokens of a template from the source text of identifiers and literals.

use vstd::prelude::*;

use crate::tokens::{Tok, Token};

verus! {

/// Whether `syn` reads the text as one identifier that is not a keyword.
pub uninterp spec fn syn_ident_accepts(text: Seq<char>) -> bool;

/// The value of the string literal that `syn` reads in the text, if it reads
/// one: its contents with escapes resolved.
pub uninterp spec fn syn_string_value(text: Seq<char>) -> Option<Seq<char>>;

/// `syn::parse_str::<syn::Ident>`: succeeds when the whole text is one
/// identifier that is not a keyword. The contract says only that the result
/// is the name above applied to the text.
#[verifier::external_body]
fn accepts_ident(text: &str) -> (r: bool)
    ensures
        r == syn_ident_accepts(text@),
{
    syn::parse_str::<syn::Ident>(text).is_ok()
}

/// `syn::parse_str::<syn::LitStr>` and `syn::LitStr::value`: reads the whole
/// text as a string literal and gives its value. The contract says only that
/// the result is the name above applied to the text.
#[verifier::external_body]
fn string_value(text: &str) -> (r: Option<String>)
    ensures
        match r {
            Some(v) => syn_string_value(text@) == Some(v@),
            None => syn_string_value(text@) is None,
        },
{
    match syn::parse_str::<syn::LitStr>(text) {
        Ok(lit) => Some(lit.value()),
        Err(_) => None,
    }
}

/// The token of an identifier, given as its source text: an identifier when
/// it is not a keyword, else a token that no template accepts.
pub fn ident_token(text: &str) -> (t: Tok)
    ensures
        t@ == if syn_ident_accepts(text@) {
            Token::Ident(text@)
        } else {
            Token::Other
        },
{
    if accepts_ident(text) {
        Tok::Ident(String::from_str(text))
    } else {
        Tok::Other
    }
}

/// The token of a literal, given as its source text: a string literal by its
/// value, any other literal as a token that no template accepts.
pub fn literal_token(text: &str) -> (t: Tok)
    ensures
        t@ == match syn_string_value(text@) {
            Some(v) => Token::Str(v),
            None => Token::Other,
        },
{
    match string_value(text) {
        Some(v) => Tok::Str(v),
        None => Tok::Other,
    }
}


/// The token of a punctuation character: `<`, `>`, `/`, `=` and `-` are the
/// ones a template uses; any other is a token that no template accepts.
pub fn punct_token(c: char) -> (t: Tok)
    ensures
        t@ == if c == '<' {
            Token::Lt
        } else if c == '>' {
            Token::Gt
        } else if c == '/' {
            Token::Slash
        } else if c == '=' {
            Token::Eq
        } else if c == '-' {
            Token::Dash
        } else {
            Token::Other
        },
{
    if c == '<' {
        Tok::Lt
    } else if c == '>' {
        Tok::Gt
    } else if c == '/' {
        Tok::Slash
    } else if c == '=' {
        Tok::Eq
    } else if c == '-' {
        Tok::Dash
    } else {
        Tok::Other
    }
}

} // verus!
