use vstd::prelude::*;

use crate::location::Location;

verus! {

#[derive(Eq, PartialEq, Debug, Copy, Clone, Hash, Structural)]
pub enum TokenErrorKind {
    UnterminatedString,
    InvalidLexeme,
}

#[derive(Eq, PartialEq, Debug, Copy, Clone, Hash, Structural)]
pub enum TokenKind {
    // Single-character tokens.
    LeftParen,
    RightParen,
    LeftBrace,
    RightBrace,
    Comma,
    Dot,
    Minus,
    Plus,
    Semicolon,
    Slash,
    Star,
    // One or two character tokens.
    Bang,
    BangEqual,
    Equal,
    EqualEqual,
    Greater,
    GreaterEqual,
    Less,
    LessEqual,
    // Literals.
    Identifier,
    String,
    Number,
    // Keywords.
    And,
    Class,
    Else,
    False,
    Fun,
    For,
    If,
    Nil,
    Or,
    Print,
    Return,
    Super,
    This,
    True,
    Var,
    While,
    // Terminal kinds.
    Error(TokenErrorKind),
    Eof,
}

/// A token: its kind and the locations where its lexeme starts and ends in the source.
/// The lexeme is the source bytes from `start_loc.offset` up to `end_loc.offset`.
#[derive(Copy, Clone, Debug, PartialEq, Eq, Structural)]
pub struct Token {
    pub kind: TokenKind,
    pub start_loc: Location,
    pub end_loc: Location,
}

impl Token {
    pub fn new(kind: TokenKind, start_loc: Location, end_loc: Location) -> (r: Self)
        ensures
            r.kind == kind,
            r.start_loc == start_loc,
            r.end_loc == end_loc,
    {
        Self { kind, start_loc, end_loc }
    }

    pub fn kind(&self) -> (r: TokenKind)
        ensures
            r == self.kind,
    {
        self.kind
    }

    pub fn location(&self) -> (r: Location)
        ensures
            r == self.start_loc,
    {
        self.start_loc
    }

    pub open spec fn lexeme_of(&self, source: Seq<u8>) -> Seq<u8> {
        source.subrange(self.start_loc.offset as int, self.end_loc.offset as int)
    }

    /// The bytes of the lexeme in `source`.
    pub fn lexeme(&self, source: &[u8]) -> (r: Vec<u8>)
        requires
            self.start_loc.offset <= self.end_loc.offset <= source@.len(),
        ensures
            r@ == self.lexeme_of(source@),
    {
        copy_range(source, self.start_loc.offset, self.end_loc.offset)
    }
}

/// A copy of `source[from..to]`.
pub fn copy_range(source: &[u8], from: usize, to: usize) -> (r: Vec<u8>)
    requires
        from <= to <= source@.len(),
    ensures
        r@ == source@.subrange(from as int, to as int),
{
    let mut r: Vec<u8> = Vec::new();
    let mut i = from;
    while i < to
        invariant
            from <= i <= to <= source@.len(),
            r@ == source@.subrange(from as int, i as int),
        decreases to - i,
    {
        r.push(source[i]);
        i += 1;
        assert(r@ =~= source@.subrange(from as int, i as int));
    }
    r
}

} // verus!
