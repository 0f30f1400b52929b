//! The ways in which coding and decoding can fail.
use vstd::prelude::*;

verus! {

/// A failure of the codec. Each condition has a variant of its own; none is
/// recovered from silently.
#[derive(Debug, Clone, Copy, PartialEq, Eq, Structural)]
pub enum HuffmanError {
    /// The text to encode holds no symbol, so no tree can be built.
    EmptyAlphabet,
    /// The blob ends before the data it announces, or holds a word that is
    /// no code point where a symbol is expected.
    Corrupt,
    /// A symbol of the text has no entry in the code table.
    UnmappedSymbol,
}

impl HuffmanError {
    /// A short description of the failure.
    pub fn message(&self) -> (text: String)
        ensures
            text@ == (match *self {
                HuffmanError::EmptyAlphabet => "cannot encode an empty text"@,
                HuffmanError::Corrupt => "corrupt or truncated input"@,
                HuffmanError::UnmappedSymbol => "symbol missing from the code table"@,
            }),
    {
        match self {
            HuffmanError::EmptyAlphabet => "cannot encode an empty text".to_owned(),
            HuffmanError::Corrupt => "corrupt or truncated input".to_owned(),
            HuffmanError::UnmappedSymbol => "symbol missing from the code table".to_owned(),
        }
    }
}

} // verus!
