//! A converter for CBOR (RFC 7049) that keeps every encoding choice of its
//! input: the width of each integer header, the chunks of indefinite-length
//! strings, the precision of floats. A [`DataItem`] can be read from binary
//! or hexadecimal text and written back as binary, as diagnostic notation or
//! as an annotated hex dump.

pub mod encode;
pub mod error;
pub mod float;
pub mod model;
pub mod output;
pub mod parse;
pub mod precision;
pub mod sink;
pub mod style;
pub mod text;
pub mod tree;

pub use model::{ByteString, DataItem, FloatWidth, IntegerWidth, Simple, Tag, TextString};
