//! Tokens, as the lexer produces them, and their mathematical model.

use vstd::prelude::*;

verus! {

/// A token. Punctuation, operators and keywords carry no value; a number
/// literal carries its text (digits with at most one `.`), an identifier
/// its name, and a string literal the text between its quotes, escapes
/// left as they were written.
#[derive(Debug, Clone, PartialEq)]
pub enum Token {
    LParen,
    RParen,
    LBrace,
    RBrace,
    LCurl,
    RCurl,
    Plus,
    Minus,
    Mul,
    Div,
    Lt,
    Gt,
    LtEq,
    GtEq,
    EqEq,
    NotEq,
    Comma,
    Colon,
    Let,
    Fn,
    Eq,
    Dot,
    Struct,
    If,
    Else,
    Number(String),
    Ident(String),
    String(String),
}

/// The model of a token: text is a sequence of characters.
pub enum SpecToken {
    LParen,
    RParen,
    LBrace,
    RBrace,
    LCurl,
    RCurl,
    Plus,
    Minus,
    Mul,
    Div,
    Lt,
    Gt,
    LtEq,
    GtEq,
    EqEq,
    NotEq,
    Comma,
    Colon,
    Let,
    Fn,
    Eq,
    Dot,
    Struct,
    If,
    Else,
    Number(Seq<char>),
    Ident(Seq<char>),
    String(Seq<char>),
}

impl View for Token {
    type V = SpecToken;

    open spec fn view(&self) -> SpecToken {
        match self {
            Token::LParen => SpecToken::LParen,
            Token::RParen => SpecToken::RParen,
            Token::LBrace => SpecToken::LBrace,
            Token::RBrace => SpecToken::RBrace,
            Token::LCurl => SpecToken::LCurl,
            Token::RCurl => SpecToken::RCurl,
            Token::Plus => SpecToken::Plus,
            Token::Minus => SpecToken::Minus,
            Token::Mul => SpecToken::Mul,
            Token::Div => SpecToken::Div,
            Token::Lt => SpecToken::Lt,
            Token::Gt => SpecToken::Gt,
            Token::LtEq => SpecToken::LtEq,
            Token::GtEq => SpecToken::GtEq,
            Token::EqEq => SpecToken::EqEq,
            Token::NotEq => SpecToken::NotEq,
            Token::Comma => SpecToken::Comma,
            Token::Colon => SpecToken::Colon,
            Token::Let => SpecToken::Let,
            Token::Fn => SpecToken::Fn,
            Token::Eq => SpecToken::Eq,
            Token::Dot => SpecToken::Dot,
            Token::Struct => SpecToken::Struct,
            Token::If => SpecToken::If,
            Token::Else => SpecToken::Else,
            Token::Number(s) => SpecToken::Number(s@),
            Token::Ident(s) => SpecToken::Ident(s@),
            Token::String(s) => SpecToken::String(s@),
        }
    }
}

/// The model of an optional token.
pub open spec fn opt_token_view(t: Option<Token>) -> Option<SpecToken> {
    match t {
        Some(t) => Some(t@),
        None => None,
    }
}

/// The models of a sequence of tokens.
pub open spec fn tokens_view(ts: Seq<Token>) -> Seq<SpecToken> {
    ts.map_values(|t: Token| t@)
}

impl Token {
    /// A copy of the token, with the same model.
    pub(crate) fn clone_token(&self) -> (r: Token)
        ensures
            r@ == self@,
    {
        match self {
            Token::LParen => Token::LParen,
            Token::RParen => Token::RParen,
            Token::LBrace => Token::LBrace,
            Token::RBrace => Token::RBrace,
            Token::LCurl => Token::LCurl,
            Token::RCurl => Token::RCurl,
            Token::Plus => Token::Plus,
            Token::Minus => Token::Minus,
            Token::Mul => Token::Mul,
            Token::Div => Token::Div,
            Token::Lt => Token::Lt,
            Token::Gt => Token::Gt,
            Token::LtEq => Token::LtEq,
            Token::GtEq => Token::GtEq,
            Token::EqEq => Token::EqEq,
            Token::NotEq => Token::NotEq,
            Token::Comma => Token::Comma,
            Token::Colon => Token::Colon,
            Token::Let => Token::Let,
            Token::Fn => Token::Fn,
            Token::Eq => Token::Eq,
            Token::Dot => Token::Dot,
            Token::Struct => Token::Struct,
            Token::If => Token::If,
            Token::Else => Token::Else,
            Token::Number(s) => Token::Number(s.clone()),
            Token::Ident(s) => Token::Ident(s.clone()),
            Token::String(s) => Token::String(s.clone()),
        }
    }

    /// Whether two tokens are the same token with the same text.
    pub(crate) fn same_as(&self, other: &Token) -> (r: bool)
        ensures
            r == (self@ == other@),
    {
        match (self, other) {
            (Token::LParen, Token::LParen) => true,
            (Token::RParen, Token::RParen) => true,
            (Token::LBrace, Token::LBrace) => true,
            (Token::RBrace, Token::RBrace) => true,
            (Token::LCurl, Token::LCurl) => true,
            (Token::RCurl, Token::RCurl) => true,
            (Token::Plus, Token::Plus) => true,
            (Token::Minus, Token::Minus) => true,
            (Token::Mul, Token::Mul) => true,
            (Token::Div, Token::Div) => true,
            (Token::Lt, Token::Lt) => true,
            (Token::Gt, Token::Gt) => true,
            (Token::LtEq, Token::LtEq) => true,
            (Token::GtEq, Token::GtEq) => true,
            (Token::EqEq, Token::EqEq) => true,
            (Token::NotEq, Token::NotEq) => true,
            (Token::Comma, Token::Comma) => true,
            (Token::Colon, Token::Colon) => true,
            (Token::Let, Token::Let) => true,
            (Token::Fn, Token::Fn) => true,
            (Token::Eq, Token::Eq) => true,
            (Token::Dot, Token::Dot) => true,
            (Token::Struct, Token::Struct) => true,
            (Token::If, Token::If) => true,
            (Token::Else, Token::Else) => true,
            (Token::Number(a), Token::Number(b)) => *a == *b,
            (Token::Ident(a), Token::Ident(b)) => *a == *b,
            (Token::String(a), Token::String(b)) => *a == *b,
            _ => false,
        }
    }
}

} // verus!
