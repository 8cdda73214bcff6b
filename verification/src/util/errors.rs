use vstd::prelude::*;

verus! {

/// Why a trie operation refused its input.
#[derive(Debug, PartialEq, Eq, Clone, Copy, Structural)]
pub enum TrieError {
    /// The word holds a character that is not an ASCII letter.
    InvalidCharacter,
}

impl TrieError {
    /// The human-readable text of the error.
    pub fn message(&self) -> (s: String)
        ensures
            s@ == "Invalid ASCII character."@,
    {
        match self {
            TrieError::InvalidCharacter => "Invalid ASCII character.".to_owned(),
        }
    }
}

} // verus!
