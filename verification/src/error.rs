//! The failures that the library reports to its callers.

use vstd::prelude::*;

verus! {

/// Why a compress or extract operation did not produce a result.
#[derive(Debug, Clone, Copy, PartialEq, Eq, Structural)]
pub enum HuffmanError {
    /// The blob is malformed or truncated, or the record could not be written.
    Serialization,
    /// The corpus holds no token at all, so there is no tree to build.
    EmptyAlphabet,
    /// A token of a line has no entry in the code table.
    TokenNotFound,
    /// A bit sequence does not end on the boundary of a code.
    DecodeCorruption,
}

impl HuffmanError {
    /// A short description for display to a user.
    pub fn message(&self) -> (text: &'static str)
        ensures
            text@ == match *self {
                HuffmanError::Serialization => "the compressed data is malformed or truncated"@,
                HuffmanError::EmptyAlphabet => "the input holds no token"@,
                HuffmanError::TokenNotFound => "a token is missing from the code table"@,
                HuffmanError::DecodeCorruption => "the bit stream does not end on a code boundary"@,
            },
    {
        match self {
            HuffmanError::Serialization => "the compressed data is malformed or truncated",
            HuffmanError::EmptyAlphabet => "the input holds no token",
            HuffmanError::TokenNotFound => "a token is missing from the code table",
            HuffmanError::DecodeCorruption => "the bit stream does not end on a code boundary",
        }
    }
}

} // verus!
