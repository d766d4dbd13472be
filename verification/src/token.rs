//! Tokens produced by the lexer, and their mathematical models.
use vstd::prelude::*;
use crate::span::{Pos, Span};
use crate::text::{push_decimal, push_str, decimal};

verus! {

/// Token kinds produced by the lexer. A number literal keeps the text it was
/// written with; its numeric value is read from that text by the evaluator.
#[derive(Debug, Clone, PartialEq)]
pub enum TokenKind {
    Plus,
    Minus,
    Star,
    Slash,
    Percent,
    Caret,
    LParen,
    RParen,
    LBrace,
    RBrace,
    Comma,
    Semicolon,
    Assign,
    Number(String),
    Identifier(String),
    Let,
    Eof,
}

/// The model of a `TokenKind`: literal and identifier texts as character sequences.
pub enum SpecTokenKind {
    Plus,
    Minus,
    Star,
    Slash,
    Percent,
    Caret,
    LParen,
    RParen,
    LBrace,
    RBrace,
    Comma,
    Semicolon,
    Assign,
    Number(Seq<char>),
    Identifier(Seq<char>),
    Let,
    Eof,
}

impl View for TokenKind {
    type V = SpecTokenKind;

    open spec fn view(&self) -> SpecTokenKind {
        match self {
            TokenKind::Plus => SpecTokenKind::Plus,
            TokenKind::Minus => SpecTokenKind::Minus,
            TokenKind::Star => SpecTokenKind::Star,
            TokenKind::Slash => SpecTokenKind::Slash,
            TokenKind::Percent => SpecTokenKind::Percent,
            TokenKind::Caret => SpecTokenKind::Caret,
            TokenKind::LParen => SpecTokenKind::LParen,
            TokenKind::RParen => SpecTokenKind::RParen,
            TokenKind::LBrace => SpecTokenKind::LBrace,
            TokenKind::RBrace => SpecTokenKind::RBrace,
            TokenKind::Comma => SpecTokenKind::Comma,
            TokenKind::Semicolon => SpecTokenKind::Semicolon,
            TokenKind::Assign => SpecTokenKind::Assign,
            TokenKind::Number(s) => SpecTokenKind::Number(s@),
            TokenKind::Identifier(s) => SpecTokenKind::Identifier(s@),
            TokenKind::Let => SpecTokenKind::Let,
            TokenKind::Eof => SpecTokenKind::Eof,
        }
    }
}

/// A token with its source span.
#[derive(Debug, Clone)]
pub struct Token {
    pub kind: TokenKind,
    pub span: Span,
}

/// The model of a `Token`.
pub struct SpecToken {
    pub kind: SpecTokenKind,
    pub span: Span,
}

impl View for Token {
    type V = SpecToken;

    open spec fn view(&self) -> SpecToken {
        SpecToken { kind: self.kind@, span: self.span }
    }
}

/// The models of a sequence of tokens.
pub open spec fn tokens_view(ts: Seq<Token>) -> Seq<SpecToken> {
    ts.map_values(|t: Token| t@)
}

impl TokenKind {
    /// A copy of this kind, equal to it.
    pub fn duplicate(&self) -> (r: TokenKind)
        ensures
            r == *self,
    {
        match self {
            TokenKind::Plus => TokenKind::Plus,
            TokenKind::Minus => TokenKind::Minus,
            TokenKind::Star => TokenKind::Star,
            TokenKind::Slash => TokenKind::Slash,
            TokenKind::Percent => TokenKind::Percent,
            TokenKind::Caret => TokenKind::Caret,
            TokenKind::LParen => TokenKind::LParen,
            TokenKind::RParen => TokenKind::RParen,
            TokenKind::LBrace => TokenKind::LBrace,
            TokenKind::RBrace => TokenKind::RBrace,
            TokenKind::Comma => TokenKind::Comma,
            TokenKind::Semicolon => TokenKind::Semicolon,
            TokenKind::Assign => TokenKind::Assign,
            TokenKind::Number(s) => TokenKind::Number(s.clone()),
            TokenKind::Identifier(s) => TokenKind::Identifier(s.clone()),
            TokenKind::Let => TokenKind::Let,
            TokenKind::Eof => TokenKind::Eof,
        }
    }
}

impl Token {
    pub fn simple(kind: TokenKind, span: Span) -> (t: Self)
        ensures
            t.kind == kind,
            t.span == span,
    {
        Token { kind, span }
    }

    /// A copy of this token, equal to it.
    pub fn duplicate(&self) -> (r: Token)
        ensures
            r == *self,
    {
        Token { kind: self.kind.duplicate(), span: self.span }
    }
}

/// A lexing failure: where it happened and what went wrong.
#[derive(Debug)]
pub struct LexError {
    pub span: Span,
    pub msg: String,
}

/// The model of a `LexError`.
pub struct SpecLexError {
    pub span: Span,
    pub msg: Seq<char>,
}

impl View for LexError {
    type V = SpecLexError;

    open spec fn view(&self) -> SpecLexError {
        SpecLexError { span: self.span, msg: self.msg@ }
    }
}

/// `"<what> at <line>:<col>: <msg>"`, the form in which diagnostics are shown.
pub open spec fn located_message(what: Seq<char>, p: Pos, msg: Seq<char>) -> Seq<char> {
    what + " at "@ + decimal(p.line as nat) + ":"@ + decimal(p.col as nat) + ": "@ + msg
}

/// Builds `located_message(what@, p, msg@)`.
pub(crate) fn located(what: &str, p: Pos, msg: &str) -> (r: String)
    ensures
        r@ == located_message(what@, p, msg@),
{
    let mut s = String::new();
    push_str(&mut s, what);
    push_str(&mut s, " at ");
    push_decimal(&mut s, p.line);
    push_str(&mut s, ":");
    push_decimal(&mut s, p.col);
    push_str(&mut s, ": ");
    push_str(&mut s, msg);
    s
}

impl LexError {
    /// The text under which this error is shown: `LexError at <line>:<col>: <msg>`.
    pub fn message(&self) -> (r: String)
        ensures
            r@ == located_message("LexError"@, self.span.start, self.msg@),
    {
        located("LexError", self.span.start, self.msg.as_str())
    }
}

} // verus!
