use vstd::prelude::*;

verus! {

/// What the parser was looking for where it stopped.
#[derive(Debug, Clone, Copy, PartialEq, Eq)]
pub enum Expected {
    /// An identifier: an ASCII letter or `_`, then letters, digits or `_`.
    Identifier,
    /// This exact character.
    Char(char),
    /// The start of a type descriptor.
    TypeDescriptor,
    /// A type descriptor or the void marker `V`.
    ReturnType,
    /// The end of the input.
    End,
}

/// A syntax error: the position (in characters) where parsing stopped, what
/// was expected there, and the character found (`None` at the end of input).
#[derive(Debug, Clone, Copy, PartialEq, Eq)]
pub struct SyntaxError {
    pub position: usize,
    pub expected: Expected,
    pub found: Option<char>,
}

/// The errors of a failed parse; never empty.
pub type ParseErrors = Vec<SyntaxError>;

/// The character at `pos` of `s`, or `None` past its end.
pub open spec fn char_at(s: Seq<char>, pos: int) -> Option<char> {
    if 0 <= pos < s.len() {
        Some(s[pos])
    } else {
        None
    }
}

pub fn syntax_error(s: &Vec<char>, pos: usize, expected: Expected) -> (e: SyntaxError)
    ensures
        e.position == pos,
        e.expected == expected,
        e.found == char_at(s@, pos as int),
{
    let found = if pos < s.len() {
        Some(s[pos])
    } else {
        None
    };
    SyntaxError { position: pos, expected, found }
}

} // verus!
