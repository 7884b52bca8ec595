//! The token vocabulary that the scanner produces and the parser consumes.

use vstd::prelude::*;

verus! {

/// What kind of lexeme a token stands for.
#[derive(Debug, Clone, Copy, PartialEq, Eq, Structural)]
pub enum TokenName {
    /// A synthetic token for the empty string, emitted where an alternative is empty
    /// (`""`, `|a`, `a|`, `a||b`, `(|a)`, `(a|)`, `()`); it covers no source character.
    Empty,
    /// A literal character: an ordinary one, or a metacharacter escaped by `\`.
    Character { value: char, is_escaped_metacharacter: bool },
    /// `(`
    LeftParen,
    /// `)`
    RightParen,
    /// `|`, alternation
    Pipe,
    /// `?`, zero or one
    Mark,
    /// `*`, zero or more
    Star,
    /// `+`, one or more
    Plus,
    /// `.`, any character
    Dot,
}

/// A token and the source offset (in characters) of the first character of its lexeme.
#[derive(Debug, Clone, Copy, PartialEq, Eq, Structural)]
pub struct Token {
    pub name: TokenName,
    pub position: usize,
}

} // verus!
