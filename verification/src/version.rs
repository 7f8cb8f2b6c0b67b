//! The full version and condition pipeline: tokenizer, version parser and
//! condition grammar, and the shared error type of all three.

use vstd::prelude::*;

pub mod condition;
pub mod semver;
pub mod token;

verus! {

/// Why a parse failed. `InvalidToken` carries the offending character;
/// `InvalidTokenAt` and `MissingSymbolAt` carry a token index (not a character
/// offset).
#[derive(Debug, Clone, Copy, PartialEq, Eq, Structural)]
pub enum ParseError {
    /// A grammar invariant of range parsing was violated; never produced by
    /// the parsers in this crate.
    Unexpected,
    /// The input was empty or whitespace-only.
    EmptyInput,
    /// The input held characters but produced no token (only separators).
    EmptyTokenList,
    /// An unrecognized character was met while tokenizing.
    InvalidToken(char),
    /// A token was recognized lexically but is invalid at its position.
    InvalidTokenAt(usize),
    /// A required component (the major number) was never supplied.
    MissingSymbolAt(usize),
}

} // verus!
