use vstd::prelude::*;

verus! {

/// Why a string is not a valid code.
#[derive(Debug, Clone, Copy, PartialEq, Eq, Structural)]
pub enum CodeError {
    /// The string holds fewer than ten symbols (the count found), or more
    /// than ten (reported as eleven).
    InvalidLength(usize),
    /// The string holds a character that is neither a symbol nor a separator.
    InvalidCharacter(char),
}

} // verus!
