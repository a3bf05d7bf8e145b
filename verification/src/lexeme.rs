//! Lexemes: what the lexer hands to the parser.
use vstd::prelude::*;

verus! {

/// A place in the source text.
#[derive(Debug, Clone, Copy, PartialEq, Eq, Structural)]
pub struct Position {
    /// Line number, counted from one.
    pub line: usize,
    /// Column number, counted from one.
    pub column: usize,
    /// Distance in bytes from the start of the source.
    pub offset: usize,
}

impl Position {
    /// The place of the first character of a source text.
    pub fn start() -> (pos: Position)
        ensures
            pos == (Position { line: 1, column: 1, offset: 0 }),
    {
        Position { line: 1, column: 1, offset: 0 }
    }
}

/// A piece of the source text, with the token that the lexer gave it.
///
/// Before operators are resolved `token` is a token of the lexer; afterwards
/// it is an operator token, an index of the precedence table.
#[derive(Debug, Clone, Copy)]
pub struct Lexeme<'s> {
    pub token: usize,
    pub lexeme: &'s str,
    pub start: Position,
    pub end: Position,
}

impl<'s> Lexeme<'s> {
    pub fn new(token: usize, lexeme: &'s str, start: Position, end: Position) -> (lex: Lexeme<'s>)
        ensures
            lex == (Lexeme { token, lexeme, start, end }),
    {
        Lexeme { token, lexeme, start, end }
    }
}

} // verus!
