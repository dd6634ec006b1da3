//! What can go wrong.

use vstd::prelude::*;

verus! {

/// The ways in which reading or writing an item fails.
#[derive(Clone, Copy, Debug, PartialEq, Eq, Structural)]
pub enum Error {
    /// The bytes end before the item does.
    Truncated,
    /// The bytes are no CBOR: additional information 28 to 30, a break
    /// outside an indefinite-length item, a length left open where there
    /// is none, a chunk of the wrong kind, or a two-byte simple value
    /// below 24.
    Malformed,
    /// A text string is no UTF-8.
    InvalidUtf8,
    /// Text is neither hexadecimal nor diagnostic notation.
    Syntax,
    /// A width suffix is narrower than its value needs.
    WidthOverflow,
    /// Bytes remain behind the item.
    TrailingInput,
}

} // verus!
