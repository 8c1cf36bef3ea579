use vstd::prelude::*;

verus! {

/// The kind of every token, trivia piece and container node.
#[derive(Copy, Clone, Debug, PartialEq, Eq, Structural)]
pub enum SyntaxKind {
    /// An opening parenthesis: `(`.
    LParen,
    /// A closing parenthesis: `)`.
    RParen,
    /// An opening curly brace: `{`.
    LBrace,
    /// A closing curly brace: `}`.
    RBrace,
    /// An opening bracket: `[`.
    LBracket,
    /// A closing bracket: `]`.
    RBracket,
    /// A symbol: `foo`, `bar`, `baz`.
    Symbol,
    /// A number: `10`, `3.1415`, `10e-3`, `0xFFFFFF`.
    Number,
    /// A quoted string: `"foo"`.
    String,
    /// A keyword: `:foo`.
    Keyword,
    /// A boolean: `true`, `false`.
    Boolean,
    /// A prefix: `'`, `#`.
    Prefix,
    /// A hash directive: `#!/usr/bin/env fennel`, `#lang racket`.
    HashDirective,
    /// End of input.
    End,
    /// A single newline character.
    Newline,
    /// A run of non-newline whitespace.
    Space,
    /// A comment: `; ...`.
    Comment,
    /// The root of a syntax tree.
    Root,
    /// A list: `(print "hello")`.
    List,
    /// A sequence: `[1 2 3]`.
    Sequence,
    /// A table: `{:hello :world}`.
    Table,
    /// A key-value pair: `:hello :world`.
    Pair,
    /// An expression preceded by a prefix: `#(...)`.
    Prefixed,
}

impl SyntaxKind {
    /// The human-readable name used in diagnostics.
    pub open spec fn spec_name(self) -> Seq<char> {
        match self {
            SyntaxKind::LParen => "opening parenthesis"@,
            SyntaxKind::RParen => "closing parenthesis"@,
            SyntaxKind::LBrace => "opening brace"@,
            SyntaxKind::RBrace => "closing brace"@,
            SyntaxKind::LBracket => "opening bracket"@,
            SyntaxKind::RBracket => "closing bracket"@,
            SyntaxKind::Symbol => "symbol"@,
            SyntaxKind::Number => "number"@,
            SyntaxKind::String => "string"@,
            SyntaxKind::Keyword => "keyword"@,
            SyntaxKind::Boolean => "boolean"@,
            SyntaxKind::Prefix => "prefix"@,
            SyntaxKind::HashDirective => "hash directive"@,
            SyntaxKind::End => "end of input"@,
            SyntaxKind::Newline => "newline"@,
            SyntaxKind::Space => "space"@,
            SyntaxKind::Comment => "comment"@,
            SyntaxKind::Root => "root"@,
            SyntaxKind::List => "list"@,
            SyntaxKind::Sequence => "sequence"@,
            SyntaxKind::Table => "table"@,
            SyntaxKind::Pair => "key-value pair"@,
            SyntaxKind::Prefixed => "prefixed expression"@,
        }
    }

    pub fn name(&self) -> (r: &'static str)
        ensures
            r@ == self.spec_name(),
    {
        match self {
            SyntaxKind::LParen => "opening parenthesis",
            SyntaxKind::RParen => "closing parenthesis",
            SyntaxKind::LBrace => "opening brace",
            SyntaxKind::RBrace => "closing brace",
            SyntaxKind::LBracket => "opening bracket",
            SyntaxKind::RBracket => "closing bracket",
            SyntaxKind::Symbol => "symbol",
            SyntaxKind::Number => "number",
            SyntaxKind::String => "string",
            SyntaxKind::Keyword => "keyword",
            SyntaxKind::Boolean => "boolean",
            SyntaxKind::Prefix => "prefix",
            SyntaxKind::HashDirective => "hash directive",
            SyntaxKind::End => "end of input",
            SyntaxKind::Newline => "newline",
            SyntaxKind::Space => "space",
            SyntaxKind::Comment => "comment",
            SyntaxKind::Root => "root",
            SyntaxKind::List => "list",
            SyntaxKind::Sequence => "sequence",
            SyntaxKind::Table => "table",
            SyntaxKind::Pair => "key-value pair",
            SyntaxKind::Prefixed => "prefixed expression",
        }
    }

    /// Trivia kinds: whitespace, newlines and comments.
    pub open spec fn spec_is_trivia(self) -> bool {
        self == SyntaxKind::Space || self == SyntaxKind::Newline || self == SyntaxKind::Comment
    }

    pub fn is_trivia(&self) -> (r: bool)
        ensures
            r == self.spec_is_trivia(),
    {
        match self {
            SyntaxKind::Space | SyntaxKind::Newline | SyntaxKind::Comment => true,
            _ => false,
        }
    }
}

/// Trivia that may stand before an expression: any trivia kind.
pub open spec fn spec_is_leading_trivia(kind: SyntaxKind) -> bool {
    kind.spec_is_trivia()
}

/// Trivia that may follow an expression on its own line: spaces and comments.
pub open spec fn spec_is_trailing_trivia(kind: SyntaxKind) -> bool {
    kind == SyntaxKind::Space || kind == SyntaxKind::Comment
}

pub fn is_leading_trivia(kind: &SyntaxKind) -> (r: bool)
    ensures
        r == spec_is_leading_trivia(*kind),
{
    match kind {
        SyntaxKind::Space | SyntaxKind::Newline | SyntaxKind::Comment => true,
        _ => false,
    }
}

pub fn is_trailing_trivia(kind: &SyntaxKind) -> (r: bool)
    ensures
        r == spec_is_trailing_trivia(*kind),
{
    match kind {
        SyntaxKind::Space | SyntaxKind::Comment => true,
        _ => false,
    }
}

} // verus!
