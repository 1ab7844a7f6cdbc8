//! The tokens of the formula language.

use vstd::prelude::*;

verus! {

#[derive(PartialEq, Eq, Debug, Clone)]
pub enum Token {
    // Literals
    Integer(i64),
    /// A decimal number, held as it is written: digits, a period, digits.
    Float(Vec<u8>),
    Boolean(bool),
    Text(Vec<u8>),
    // Errors
    Null,
    Div,
    Value,
    Ref,
    Name,
    Num,
    NA,
    GettingData,
    // References
    MultiSheet(Vec<u8>),
    Sheet(Vec<u8>),
    Range(Vec<u8>),
    Cell(Vec<u8>),
    VRange(Vec<u8>),
    HRange(Vec<u8>),
    // Symbols
    Plus,
    Minus,
    Divide,
    Multiply,
    Exponent,
    Ampersand,
    Equal,
    Exclamation,
    Comma,
    Period,
    Colon,
    SemiColon,
    LAngle,
    RAngle,
    LParen,
    RParen,
    LBrace,
    RBrace,
    LBracket,
    RBracket,
    Ident(Vec<u8>),
    /// The end of the input; every token stream ends with it.
    EOF,
}

/// A token as a mathematical value.
pub enum TokenView {
    Integer(i64),
    Float(Seq<u8>),
    Boolean(bool),
    Text(Seq<u8>),
    Null,
    Div,
    Value,
    Ref,
    Name,
    Num,
    NA,
    GettingData,
    MultiSheet(Seq<u8>),
    Sheet(Seq<u8>),
    Range(Seq<u8>),
    Cell(Seq<u8>),
    VRange(Seq<u8>),
    HRange(Seq<u8>),
    Plus,
    Minus,
    Divide,
    Multiply,
    Exponent,
    Ampersand,
    Equal,
    Exclamation,
    Comma,
    Period,
    Colon,
    SemiColon,
    LAngle,
    RAngle,
    LParen,
    RParen,
    LBrace,
    RBrace,
    LBracket,
    RBracket,
    Ident(Seq<u8>),
    EOF,
}

impl View for Token {
    type V = TokenView;

    open spec fn view(&self) -> TokenView {
        match self {
            Token::Integer(x) => TokenView::Integer(*x),
            Token::Float(t) => TokenView::Float(t@),
            Token::Boolean(b) => TokenView::Boolean(*b),
            Token::Text(t) => TokenView::Text(t@),
            Token::Null => TokenView::Null,
            Token::Div => TokenView::Div,
            Token::Value => TokenView::Value,
            Token::Ref => TokenView::Ref,
            Token::Name => TokenView::Name,
            Token::Num => TokenView::Num,
            Token::NA => TokenView::NA,
            Token::GettingData => TokenView::GettingData,
            Token::MultiSheet(t) => TokenView::MultiSheet(t@),
            Token::Sheet(t) => TokenView::Sheet(t@),
            Token::Range(t) => TokenView::Range(t@),
            Token::Cell(t) => TokenView::Cell(t@),
            Token::VRange(t) => TokenView::VRange(t@),
            Token::HRange(t) => TokenView::HRange(t@),
            Token::Plus => TokenView::Plus,
            Token::Minus => TokenView::Minus,
            Token::Divide => TokenView::Divide,
            Token::Multiply => TokenView::Multiply,
            Token::Exponent => TokenView::Exponent,
            Token::Ampersand => TokenView::Ampersand,
            Token::Equal => TokenView::Equal,
            Token::Exclamation => TokenView::Exclamation,
            Token::Comma => TokenView::Comma,
            Token::Period => TokenView::Period,
            Token::Colon => TokenView::Colon,
            Token::SemiColon => TokenView::SemiColon,
            Token::LAngle => TokenView::LAngle,
            Token::RAngle => TokenView::RAngle,
            Token::LParen => TokenView::LParen,
            Token::RParen => TokenView::RParen,
            Token::LBrace => TokenView::LBrace,
            Token::RBrace => TokenView::RBrace,
            Token::LBracket => TokenView::LBracket,
            Token::RBracket => TokenView::RBracket,
            Token::Ident(t) => TokenView::Ident(t@),
            Token::EOF => TokenView::EOF,
        }
    }
}

/// The views of a run of tokens.
pub open spec fn token_views(tokens: Seq<Token>) -> Seq<TokenView> {
    Seq::new(tokens.len(), |i: int| tokens[i]@)
}

/// A run of tokens handed to the parser.
#[derive(Clone, Copy, PartialEq, Eq, Debug)]
pub struct Tokens<'a> {
    pub tok: &'a [Token],
    pub start: usize,
    pub end: usize,
}

impl<'a> Tokens<'a> {
    pub fn new(vec: &'a [Token]) -> (r: Self)
        ensures
            r.tok@ == vec@,
            r.start == 0,
            r.end == vec@.len(),
    {
        Tokens { tok: vec, start: 0, end: vec.len() }
    }
}

} // verus!
