//! The parsers: binary, hexadecimal text and diagnostic notation.

pub mod bytes;
pub mod compact;
pub mod diag;
pub mod hex;
pub mod quiet;
pub mod reread;
pub mod shapes;
