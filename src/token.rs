use vstd::prelude::*;

verus! {

/// The coarse classes of lexemes, trivia included.
#[derive(Copy, Clone, Debug, PartialEq, Eq, Structural)]
pub enum TokenKind {
    LParen,
    RParen,
    LBrace,
    RBrace,
    LBracket,
    RBracket,
    Prefix,
    Symbol,
    Number,
    String,
    Boolean,
    Whitespace,
    Comment,
}

/// A lexeme with its class and text.
#[derive(Debug)]
pub struct Token {
    pub kind: TokenKind,
    pub text: String,
}

impl Token {
    pub fn new(kind: TokenKind, text: String) -> (r: Token)
        ensures
            r.kind == kind,
            r.text@ == text@,
    {
        Token { kind, text }
    }
}

} // verus!
