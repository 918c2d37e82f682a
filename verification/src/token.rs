use vstd::prelude::*;

verus! {

/// One token of a program: an executable command, or a character kept for
/// fidelity that performs no action.
///
/// `Increment`/`Decrement` carry how many times one is added to or taken
/// from the current cell; `CursorLeft`/`CursorRight` carry a cursor
/// displacement in cells.  `LoopStart`/`LoopEnd` carry the index, within
/// the token sequence, of the matching partner, resolved once at parse
/// time.
#[derive(Debug, PartialEq, Eq, Clone, Copy, Structural)]
pub enum BfToken {
    NotCommand(char),
    Increment(u8),
    Decrement(u8),
    CursorLeft(usize),
    CursorRight(usize),
    LoopStart(usize),
    LoopEnd(usize),
    PrintChar,
    InputChar,
}

/// The eight characters that denote commands; every other character is a
/// comment.
pub open spec fn is_command_char(c: char) -> bool {
    c == '+' || c == '-' || c == ',' || c == '.' || c == '[' || c == ']' || c == '<' || c == '>'
}

/// The token that a single source character denotes.
pub open spec fn token_of_char(c: char) -> BfToken {
    if c == '+' {
        BfToken::Increment(1)
    } else if c == '-' {
        BfToken::Decrement(1)
    } else if c == '<' {
        BfToken::CursorLeft(1)
    } else if c == '>' {
        BfToken::CursorRight(1)
    } else if c == '[' {
        BfToken::LoopStart(0)
    } else if c == ']' {
        BfToken::LoopEnd(0)
    } else if c == ',' {
        BfToken::InputChar
    } else if c == '.' {
        BfToken::PrintChar
    } else {
        BfToken::NotCommand(c)
    }
}

/// The token sequence of a source text, one token per character.
pub open spec fn tokens_of(s: Seq<char>) -> Seq<BfToken> {
    s.map_values(|c: char| token_of_char(c))
}

} // verus!
