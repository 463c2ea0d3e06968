//! Tokens of the nested-braces literal notation.
//!
//! A literal is first cut into tokens: quoted labels, the arrow `=>`, the
//! braces, and the comma separator. `Token` is the executable token;
//! `TokenView` is its model, with the label as a `Seq<char>`.

use vstd::prelude::*;

verus! {

/// Model of one token of the literal notation.
pub enum TokenView {
    /// A label: the characters between one pair of double quotes.
    Label(Seq<char>),
    /// The arrow `=>` announcing a brace-delimited body.
    Arrow,
    /// An opening brace `{`.
    LBrace,
    /// A closing brace `}`.
    RBrace,
    /// The separator `,` between entries of a body.
    Comma,
}

/// One token of the literal notation, as the lexer produces it.
#[derive(Debug, PartialEq)]
pub enum Token {
    /// A label: the characters between one pair of double quotes.
    Label(String),
    /// The arrow `=>` announcing a brace-delimited body.
    Arrow,
    /// An opening brace `{`.
    LBrace,
    /// A closing brace `}`.
    RBrace,
    /// The separator `,` between entries of a body.
    Comma,
}

impl View for Token {
    type V = TokenView;

    open spec fn view(&self) -> TokenView {
        match self {
            Token::Label(s) => TokenView::Label(s@),
            Token::Arrow => TokenView::Arrow,
            Token::LBrace => TokenView::LBrace,
            Token::RBrace => TokenView::RBrace,
            Token::Comma => TokenView::Comma,
        }
    }
}

impl DeepView for Token {
    type V = TokenView;

    open spec fn deep_view(&self) -> TokenView {
        self.view()
    }
}

impl Token {
    /// Whether this token is the arrow `=>`.
    pub fn is_arrow(&self) -> (r: bool)
        ensures
            r == (self@ is Arrow),
    {
        matches!(self, Token::Arrow)
    }

    /// Whether this token is an opening brace.
    pub fn is_lbrace(&self) -> (r: bool)
        ensures
            r == (self@ is LBrace),
    {
        matches!(self, Token::LBrace)
    }

    /// Whether this token is a closing brace.
    pub fn is_rbrace(&self) -> (r: bool)
        ensures
            r == (self@ is RBrace),
    {
        matches!(self, Token::RBrace)
    }

    /// Whether this token is the comma separator.
    pub fn is_comma(&self) -> (r: bool)
        ensures
            r == (self@ is Comma),
    {
        matches!(self, Token::Comma)
    }
}

} // verus!
