//! One item in the form that was asked for, as the bytes to hand on.

use vstd::prelude::*;
use vstd::slice::slice_to_vec;
use vstd::utf8::encode_utf8;
use crate::encode::bytes::{encoding, well_formed};
use crate::encode::diag::{Frame, Layout, depth, item_glyphs};
use crate::encode::hex::hex_dump;
use crate::encode::{Encoding, encode_hex};
use crate::float::{FloatTable, FloatText, covers};
use crate::model::DataItem;
use crate::precision::precise;
use crate::sink::{ansi_glyphs, render_ansi, render_plain};
use crate::style::{Style, emit, letters, paint};
use crate::text::hex_text;

verus! {

/// The forms in which an item can be written.
#[derive(Clone, Copy, Debug, PartialEq, Eq, Structural)]
pub enum To {
    /// The annotated hex dump.
    Annotated,
    /// The binary encoding in hexadecimal digits.
    Hex,
    /// The binary encoding.
    Bytes,
    /// Diagnostic notation in the pretty layout.
    Diag,
    /// Diagnostic notation on one line.
    Compact,
}

/// Whether diagnostic notation is written with ANSI escape codes.
#[derive(Clone, Copy, Debug, PartialEq, Eq, Structural)]
pub enum Coloring {
    Auto,
    Always,
    Never,
}

/// The place at which the notation of a whole item starts.
pub open spec fn top(layout: Layout) -> Frame {
    Frame { layout, encoding: Encoding::Base16, indent: 0 }
}

/// Diagnostic notation and a line end, with escape codes unless they are
/// never wanted, as UTF-8.
pub open spec fn notation(
    value: DataItem,
    layout: Layout,
    color: Coloring,
    floats: Seq<FloatText>,
) -> Seq<u8> {
    let text = item_glyphs(value, top(layout), Style::plain(), floats) + paint(
        "\n"@,
        Style::plain(),
    );
    if color == Coloring::Never {
        encode_utf8(letters(text))
    } else {
        encode_utf8(ansi_glyphs(text, Style::plain().resolved()))
    }
}

/// The bytes that stand for `value` in the form `to`.
pub open spec fn output(value: DataItem, to: To, color: Coloring, floats: Seq<FloatText>) -> Seq<
    u8,
> {
    match to {
        To::Annotated => encode_utf8(hex_dump(value, floats)),
        To::Hex => encode_utf8(hex_text(encoding(value))),
        To::Bytes => encoding(value),
        To::Diag => notation(value, Layout::Pretty, color, floats),
        To::Compact => notation(value, Layout::Compact, color, floats),
    }
}

/// The UTF-8 bytes of text.
pub fn text_bytes(text: &str) -> (bytes: Vec<u8>)
    ensures
        bytes@ == encode_utf8(text@),
{
    slice_to_vec(text.as_bytes())
}

/// Writes diagnostic notation and a line end through one of the sinks.
fn notation_bytes(value: &DataItem, layout: Layout, color: Coloring, floats: &FloatTable) -> (bytes:
    Vec<u8>)
    requires
        floats.covers(*value),
        4 * depth(*value) <= usize::MAX,
    ensures
        bytes@ == notation(*value, layout, color, floats.entries@),
{
    let mut spans = match layout {
        Layout::Pretty => value.pretty_diag(floats),
        Layout::Compact => value.compact_diag(floats),
    };
    emit(&mut spans, "\n", Style::plain());
    let text = match color {
        Coloring::Never => render_plain(&spans),
        _ => render_ansi(&spans),
    };
    text_bytes(text.as_str())
}

/// Whether an item can be written in the form `to` with the float texts
/// `floats`: the forms that hold the binary encoding ask for an item that
/// has one, the annotated dump for floats that keep their value in their
/// precision, and every form that shows floats as decimal numbers for
/// their texts. Diagnostic notation also asks that the columns of the
/// deepest item can be counted.
pub open spec fn writable(value: DataItem, to: To, floats: Seq<FloatText>) -> bool {
    match to {
        To::Annotated => precise(value) && covers(floats, value),
        To::Hex => well_formed(value),
        To::Bytes => well_formed(value),
        To::Diag => covers(floats, value) && 4 * depth(value) <= usize::MAX,
        To::Compact => covers(floats, value) && 4 * depth(value) <= usize::MAX,
    }
}

/// One item in the form that was asked for.
pub fn output_item(value: &DataItem, to: To, color: Coloring, floats: &FloatTable) -> (bytes: Vec<
    u8,
>)
    requires
        writable(*value, to, floats.entries@),
    ensures
        bytes@ == output(*value, to, color, floats.entries@),
{
    match to {
        To::Annotated => text_bytes(value.to_hex(floats).as_str()),
        To::Hex => {
            let bytes = value.to_bytes();
            text_bytes(encode_hex(bytes.as_slice()).as_str())
        },
        To::Bytes => value.to_bytes(),
        To::Diag => notation_bytes(value, Layout::Pretty, color, floats),
        To::Compact => notation_bytes(value, Layout::Compact, color, floats),
    }
}

/// Whether a line end separates the items of a sequence in the form `to`:
/// in every form but the binary and the compact one.
pub open spec fn separated(to: To) -> bool {
    to != To::Bytes && to != To::Compact
}

/// One item of a sequence in the form that was asked for, with the line
/// end that separates it from the next.
pub fn output_sequence_item(value: &DataItem, to: To, color: Coloring, floats: &FloatTable) -> (bytes:
    Vec<u8>)
    requires
        writable(*value, to, floats.entries@),
    ensures
        bytes@ == output(*value, to, color, floats.entries@) + (if separated(to) {
            seq![10u8]
        } else {
            Seq::empty()
        }),
{
    let mut bytes = output_item(value, to, color, floats);
    match to {
        To::Bytes => {},
        To::Compact => {},
        _ => {
            bytes.push(10);
        },
    }
    bytes
}

} // verus!
