//! Token kinds, tokens and the result of lexing a source text.
use vstd::prelude::*;

use crate::diagnostic::{copy_diagnostics, Diagnostic, DiagnosticView};
use crate::source::Span;

verus! {

#[derive(Debug, Clone, Copy, PartialEq, Eq, Structural)]
pub enum TokenKind {
    Identifier,
    Integer,
    Float,
    String,
    Comment,
    StatementEnd,
    Let,
    Fn,
    Return,
    True,
    False,
    LeftParen,
    RightParen,
    LeftBrace,
    RightBrace,
    LeftBracket,
    RightBracket,
    Comma,
    Colon,
    Dot,
    At,
    Dollar,
    Plus,
    Minus,
    Star,
    Slash,
    Percent,
    Power,
    Assign,
    FatArrow,
    PipeForward,
    Greater,
    Less,
    GreaterEqual,
    LessEqual,
    EqualEqual,
    BangEqual,
    Bang,
    AmpersandAmpersand,
    PipePipe,
    Ampersand,
    Pipe,
    Caret,
    Tilde,
    ShiftLeft,
    ShiftRight,
    Eof,
}

impl TokenKind {
    /// The kind's name, as its debug form prints it.
    pub fn name(self) -> (r: &'static str)
        ensures
            r@ == token_kind_name(self),
    {
        match self {
            TokenKind::Identifier => "Identifier",
            TokenKind::Integer => "Integer",
            TokenKind::Float => "Float",
            TokenKind::String => "String",
            TokenKind::Comment => "Comment",
            TokenKind::StatementEnd => "StatementEnd",
            TokenKind::Let => "Let",
            TokenKind::Fn => "Fn",
            TokenKind::Return => "Return",
            TokenKind::True => "True",
            TokenKind::False => "False",
            TokenKind::LeftParen => "LeftParen",
            TokenKind::RightParen => "RightParen",
            TokenKind::LeftBrace => "LeftBrace",
            TokenKind::RightBrace => "RightBrace",
            TokenKind::LeftBracket => "LeftBracket",
            TokenKind::RightBracket => "RightBracket",
            TokenKind::Comma => "Comma",
            TokenKind::Colon => "Colon",
            TokenKind::Dot => "Dot",
            TokenKind::At => "At",
            TokenKind::Dollar => "Dollar",
            TokenKind::Plus => "Plus",
            TokenKind::Minus => "Minus",
            TokenKind::Star => "Star",
            TokenKind::Slash => "Slash",
            TokenKind::Percent => "Percent",
            TokenKind::Power => "Power",
            TokenKind::Assign => "Assign",
            TokenKind::FatArrow => "FatArrow",
            TokenKind::PipeForward => "PipeForward",
            TokenKind::Greater => "Greater",
            TokenKind::Less => "Less",
            TokenKind::GreaterEqual => "GreaterEqual",
            TokenKind::LessEqual => "LessEqual",
            TokenKind::EqualEqual => "EqualEqual",
            TokenKind::BangEqual => "BangEqual",
            TokenKind::Bang => "Bang",
            TokenKind::AmpersandAmpersand => "AmpersandAmpersand",
            TokenKind::PipePipe => "PipePipe",
            TokenKind::Ampersand => "Ampersand",
            TokenKind::Pipe => "Pipe",
            TokenKind::Caret => "Caret",
            TokenKind::Tilde => "Tilde",
            TokenKind::ShiftLeft => "ShiftLeft",
            TokenKind::ShiftRight => "ShiftRight",
            TokenKind::Eof => "Eof",
        }
    }

    /// Tokens that carry no meaning for the parser.
    pub fn is_trivia(self) -> (r: bool)
        ensures
            r == (self == TokenKind::Comment),
    {
        matches!(self, TokenKind::Comment)
    }
}

/// The name of a token kind, as its debug form prints it.
pub open spec fn token_kind_name(k: TokenKind) -> Seq<char> {
    match k {
        TokenKind::Identifier => "Identifier"@,
        TokenKind::Integer => "Integer"@,
        TokenKind::Float => "Float"@,
        TokenKind::String => "String"@,
        TokenKind::Comment => "Comment"@,
        TokenKind::StatementEnd => "StatementEnd"@,
        TokenKind::Let => "Let"@,
        TokenKind::Fn => "Fn"@,
        TokenKind::Return => "Return"@,
        TokenKind::True => "True"@,
        TokenKind::False => "False"@,
        TokenKind::LeftParen => "LeftParen"@,
        TokenKind::RightParen => "RightParen"@,
        TokenKind::LeftBrace => "LeftBrace"@,
        TokenKind::RightBrace => "RightBrace"@,
        TokenKind::LeftBracket => "LeftBracket"@,
        TokenKind::RightBracket => "RightBracket"@,
        TokenKind::Comma => "Comma"@,
        TokenKind::Colon => "Colon"@,
        TokenKind::Dot => "Dot"@,
        TokenKind::At => "At"@,
        TokenKind::Dollar => "Dollar"@,
        TokenKind::Plus => "Plus"@,
        TokenKind::Minus => "Minus"@,
        TokenKind::Star => "Star"@,
        TokenKind::Slash => "Slash"@,
        TokenKind::Percent => "Percent"@,
        TokenKind::Power => "Power"@,
        TokenKind::Assign => "Assign"@,
        TokenKind::FatArrow => "FatArrow"@,
        TokenKind::PipeForward => "PipeForward"@,
        TokenKind::Greater => "Greater"@,
        TokenKind::Less => "Less"@,
        TokenKind::GreaterEqual => "GreaterEqual"@,
        TokenKind::LessEqual => "LessEqual"@,
        TokenKind::EqualEqual => "EqualEqual"@,
        TokenKind::BangEqual => "BangEqual"@,
        TokenKind::Bang => "Bang"@,
        TokenKind::AmpersandAmpersand => "AmpersandAmpersand"@,
        TokenKind::PipePipe => "PipePipe"@,
        TokenKind::Ampersand => "Ampersand"@,
        TokenKind::Pipe => "Pipe"@,
        TokenKind::Caret => "Caret"@,
        TokenKind::Tilde => "Tilde"@,
        TokenKind::ShiftLeft => "ShiftLeft"@,
        TokenKind::ShiftRight => "ShiftRight"@,
        TokenKind::Eof => "Eof"@,
    }
}

#[derive(Debug, Clone, Copy, PartialEq, Eq, Structural)]
pub struct Token {
    pub kind: TokenKind,
    pub span: Span,
}

impl Token {
    pub fn new(kind: TokenKind, span: Span) -> (r: Self)
        ensures
            r == (Token { kind, span }),
    {
        Self { kind, span }
    }
}

/// The tokens and diagnostics produced by the lexer.
#[derive(Debug)]
pub struct LexedFile {
    pub tokens: Vec<Token>,
    pub diagnostics: Vec<Diagnostic>,
}

impl LexedFile {
    /// The tokens and the views of the diagnostics.
    pub open spec fn view_parts(self) -> (Seq<Token>, Seq<DiagnosticView>) {
        (self.tokens@, self.diagnostics@.map_values(|d: Diagnostic| d@))
    }

    pub fn new(tokens: Vec<Token>, diagnostics: Vec<Diagnostic>) -> (r: Self)
        ensures
            r.tokens@ == tokens@,
            r.diagnostics@ == diagnostics@,
    {
        Self { tokens, diagnostics }
    }
}

impl Clone for LexedFile {
    fn clone(&self) -> (r: Self)
        ensures
            r.tokens@ == self.tokens@,
            r.diagnostics@ == self.diagnostics@,
    {
        let mut tokens: Vec<Token> = Vec::new();
        let mut i: usize = 0;
        while i < self.tokens.len()
            invariant
                i <= self.tokens@.len(),
                tokens@ == self.tokens@.take(i as int),
            decreases self.tokens@.len() - i,
        {
            tokens.push(self.tokens[i]);
            i = i + 1;
            assert(tokens@ =~= self.tokens@.take(i as int));
        }
        assert(self.tokens@.take(self.tokens@.len() as int) =~= self.tokens@);
        LexedFile { tokens, diagnostics: copy_diagnostics(&self.diagnostics) }
    }
}

} // verus!
