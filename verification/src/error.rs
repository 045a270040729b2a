use vstd::prelude::*;

verus! {

/// The one failure the scanner can report: an input byte outside the
/// dialect's alphabet. The payload is the textual rendering of the
/// offending `Illegal` token, including the raw byte value.
#[derive(Debug, PartialEq, Eq, Clone)]
pub enum Error {
    LexerErr(String),
}

} // verus!
