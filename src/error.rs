use vstd::prelude::*;

verus! {

/// Why a dice command was rejected.
#[derive(Debug, PartialEq, Eq)]
pub enum ParserError {
    /// The command does not follow the grammar; the message shows the input left over.
    ParseError(String),
    /// The input ended before the grammar could decide.
    Unknown,
}

} // verus!
