use vstd::prelude::*;

verus! {

/// An error found while compiling source text.
#[derive(Debug, Clone, PartialEq, Eq)]
pub enum CompilationError {
    /// A run of bytes that starts no lexeme; holds those bytes.
    InvalidLexeme(Vec<u8>),
    /// A number lexeme that could not be read as a number; holds the lexeme.
    InvalidNumberLiteral(Vec<u8>),
    UnterminatedString,
    MissingClosingParenthesis,
    /// The constant pool is full; holds the largest constant index.
    TooManyConstants(u64),
    MissingExpression,
}

/// An error raised while executing a chunk.
#[derive(Debug, Copy, Clone, PartialEq, Eq, Structural)]
pub enum RuntimeError {
    MissingOperand,
    InvalidOperand,
    InvalidConstantAddress,
}

#[derive(Debug, Clone, PartialEq, Eq)]
pub enum RoxErrorKind {
    CompilationError(CompilationError),
    RuntimeError(RuntimeError),
}

/// An error together with the source line it is attributed to.
#[derive(Debug, Clone, PartialEq, Eq)]
pub struct RoxError {
    pub src: RoxErrorKind,
    pub line: usize,
}

impl RoxError {
    pub fn new(src: RoxErrorKind, line: usize) -> (r: Self)
        ensures
            r.src == src,
            r.line == line,
    {
        Self { src, line }
    }
}

} // verus!
