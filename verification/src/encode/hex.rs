//! The annotated hex dump: for each header its bytes in hexadecimal and a
//! comment that says what they mean, with what a header holds three
//! columns further in.

use vstd::prelude::*;
use vstd::slice::slice_subrange;
use vstd::utf8::encode_utf8;
use crate::encode::diag::{float_text, push_float_text};
use crate::encode::encode_hex;
use crate::float::{FloatTable, FloatText, covers};
use crate::model::{DataItem, FloatWidth, IntegerWidth, Simple, child, child_count, chunk_count, indefinite};
use crate::precision::{precise, wire, wire_bits, wire_width};
use crate::text::{decimal, digit, digit_char, hex_padded, hex_text, push_decimal, push_hex_padded, push_repeat, repeat};

verus! {

/// The additional information that announces an argument of a width: the
/// argument itself where it is packed into the initial byte, 24 to 27 for
/// one, two, four and eight following bytes.
pub open spec fn additional(bitwidth: IntegerWidth, value: u64) -> nat {
    match bitwidth.resolved(value) {
        IntegerWidth::Eight => 24,
        IntegerWidth::Sixteen => 25,
        IntegerWidth::ThirtyTwo => 26,
        IntegerWidth::SixtyFour => 27,
        _ => value as nat,
    }
}

/// The number of hexadecimal digits of an argument that follows the
/// initial byte.
pub open spec fn argument_width(bitwidth: IntegerWidth, value: u64) -> nat {
    match bitwidth.resolved(value) {
        IntegerWidth::Eight => 2,
        IntegerWidth::Sixteen => 4,
        IntegerWidth::ThirtyTwo => 8,
        IntegerWidth::SixtyFour => 16,
        _ => 0,
    }
}

/// The hexadecimal digits of the initial byte of the major type `major`.
pub open spec fn initial_digits(major: nat, bitwidth: IntegerWidth, value: u64) -> Seq<char> {
    hex_padded(major * 32 + additional(bitwidth, value), 2)
}

/// The hexadecimal digits of the argument that follows the initial byte;
/// none where the argument is packed into it.
pub open spec fn argument_digits(bitwidth: IntegerWidth, value: u64) -> Seq<char> {
    if argument_width(bitwidth, value) == 0 {
        Seq::empty()
    } else {
        hex_padded(value as nat, argument_width(bitwidth, value))
    }
}

/// A header in hexadecimal: the initial byte and, behind a space, the
/// argument that follows it.
pub open spec fn head(major: nat, bitwidth: IntegerWidth, value: u64) -> Seq<char> {
    initial_digits(major, bitwidth, value) + (if argument_width(bitwidth, value) == 0 {
        Seq::empty()
    } else {
        " "@ + argument_digits(bitwidth, value)
    })
}

/// A header with its comment: a label and, in brackets, a number.
pub open spec fn head_line(major: nat, bitwidth: IntegerWidth, value: u64, label: Seq<char>) -> Seq<
    char,
> {
    head(major, bitwidth, value) + " # "@ + label + "("@ + decimal(value as nat) + ")"@
}

/// The name of a simple value: those of 20 to 23, `reserved` for 24 to 31,
/// `unassigned` for the others.
pub open spec fn simple_name(value: u8) -> Seq<char> {
    if value == 20 {
        "false"@
    } else if value == 21 {
        "true"@
    } else if value == 22 {
        "null"@
    } else if value == 23 {
        "undefined"@
    } else if 24 <= value <= 31 {
        "reserved"@
    } else {
        "unassigned"@
    }
}

/// The line of a simple value: one byte below 24 and two from there on,
/// then its name and its number.
pub open spec fn simple_line(simple: Simple) -> Seq<char> {
    (if simple.0 < 24 {
        hex_padded((0xe0 + simple.0) as nat, 2)
    } else {
        "f8 "@ + hex_padded(simple.0 as nat, 2)
    }) + " # "@ + simple_name(simple.0) + ", simple("@ + decimal(simple.0 as nat) + ")"@
}

/// A byte as a comment shows it: a backslash before quotes and the
/// backslash, `\t`, `\r` and `\n`, printable ASCII as it is, and `\x` with
/// two hexadecimal digits for everything else.
pub open spec fn escaped_byte(byte: u8) -> Seq<char> {
    if byte == 9 {
        seq!['\\', 't']
    } else if byte == 13 {
        seq!['\\', 'r']
    } else if byte == 10 {
        seq!['\\', 'n']
    } else if byte == 39 || byte == 34 || byte == 92 {
        seq!['\\', byte as char]
    } else if 0x20 <= byte <= 0x7e {
        seq![byte as char]
    } else {
        seq!['\\', 'x', digit_char((byte / 16) as nat), digit_char((byte % 16) as nat)]
    }
}

/// The bytes of a string as a comment shows them.
pub open spec fn escaped_bytes(data: Seq<u8>) -> Seq<char>
    decreases data.len(),
{
    if data.len() == 0 {
        Seq::empty()
    } else {
        escaped_bytes(data.drop_last()) + escaped_byte(data.last())
    }
}

/// The width of the column in which a string shows its length and its
/// bytes: that of its widest line, which holds up to 16 bytes.
pub open spec fn string_width(len: nat, bitwidth: IntegerWidth) -> nat {
    let data_width = if 2 * len < 32 {
        2 * len
    } else {
        32
    };
    let length_width = argument_width(bitwidth, len as u64);
    if data_width >= length_width {
        data_width
    } else {
        length_width
    }
}

/// The first line of a string: the initial byte, a space, the length that
/// follows it, spaces up to the end of the column, and the comment.
pub open spec fn string_head(major: nat, label: Seq<char>, len: nat, bitwidth: IntegerWidth) -> Seq<
    char,
> {
    initial_digits(major, bitwidth, len as u64) + " "@ + argument_digits(bitwidth, len as u64)
        + repeat(
        ' ',
        (string_width(len, bitwidth) - argument_width(bitwidth, len as u64)) as nat,
    ) + " # "@ + label + "("@ + decimal(len) + ")"@
}

/// A line of up to 16 bytes of a string: three spaces, the bytes in
/// hexadecimal, spaces up to the end of the column, and the bytes as text.
pub open spec fn payload_line(chunk: Seq<u8>, width: nat) -> Seq<char> {
    "   "@ + hex_text(chunk) + repeat(' ', (width - 2 * chunk.len()) as nat) + " # \""@
        + escaped_bytes(chunk) + "\""@
}

/// The bytes of the line `index` of a string: 16, or what is left.
pub open spec fn payload_chunk(data: Seq<u8>, index: int) -> Seq<u8> {
    data.subrange(
        16 * index,
        if 16 * index + 16 <= data.len() {
            16 * index + 16
        } else {
            data.len() as int
        },
    )
}

/// The first `count` lines of the bytes of a string.
pub open spec fn payload_lines(data: Seq<u8>, width: nat, count: nat) -> Seq<Seq<char>>
    decreases count,
{
    if count == 0 {
        Seq::empty()
    } else {
        payload_lines(data, width, (count - 1) as nat).push(
            payload_line(payload_chunk(data, count - 1), width),
        )
    }
}

/// The lines of a definite-length string: its header, then its bytes, 16
/// to a line; an empty string has one line for no bytes.
pub open spec fn string_lines(major: nat, label: Seq<char>, data: Seq<u8>, bitwidth: IntegerWidth) -> Seq<
    Seq<char>,
> {
    let width = string_width(data.len(), bitwidth);
    seq![string_head(major, label, data.len(), bitwidth)] + (if data.len() == 0 {
        seq![payload_line(Seq::empty(), width)]
    } else {
        payload_lines(data, width, ((data.len() + 15) / 16) as nat)
    })
}

/// The texts of a sequence of strings.
pub open spec fn texts(lines: Seq<String>) -> Seq<Seq<char>> {
    Seq::new(lines.len(), |i: int| lines[i]@)
}

/// The texts grow by the text of the string that is added.
pub proof fn lemma_texts_push(lines: Seq<String>, line: String)
    ensures
        texts(lines.push(line)) == texts(lines).push(line@),
{
    assert(texts(lines.push(line)) =~= texts(lines).push(line@));
}

/// Appends a header in hexadecimal.
fn push_head(out: &mut String, major: u8, bitwidth: IntegerWidth, value: u64, spaced: bool)
    requires
        major < 8,
    ensures
        !spaced ==> final(out)@ == old(out)@ + head(major as nat, bitwidth, value),
        spaced ==> final(out)@ == old(out)@ + initial_digits(major as nat, bitwidth, value) + " "@
            + argument_digits(bitwidth, value),
{
    proof {
        reveal_strlit(" ");
    }
    let ghost start = out@;
    let resolved = bitwidth.resolve(value);
    let base: u128 = major as u128 * 32;
    match resolved {
        IntegerWidth::Eight => {
            push_hex_padded(out, base + 24, 2);
            out.push(' ');
            push_hex_padded(out, value as u128, 2);
        },
        IntegerWidth::Sixteen => {
            push_hex_padded(out, base + 25, 2);
            out.push(' ');
            push_hex_padded(out, value as u128, 4);
        },
        IntegerWidth::ThirtyTwo => {
            push_hex_padded(out, base + 26, 2);
            out.push(' ');
            push_hex_padded(out, value as u128, 8);
        },
        IntegerWidth::SixtyFour => {
            push_hex_padded(out, base + 27, 2);
            out.push(' ');
            push_hex_padded(out, value as u128, 16);
        },
        _ => {
            push_hex_padded(out, base + value as u128, 2);
            if spaced {
                out.push(' ');
            }
        },
    }
    assert(!spaced ==> out@ =~= start + head(major as nat, bitwidth, value));
    assert(spaced ==> out@ =~= start + initial_digits(major as nat, bitwidth, value) + " "@
        + argument_digits(bitwidth, value));
}

/// Appends the text of a string slice.
fn push_text(out: &mut String, text: &str)
    ensures
        final(out)@ == old(out)@ + text@,
{
    out.append(text);
}

/// The line of a header with its comment.
fn head_line_text(major: u8, bitwidth: IntegerWidth, value: u64, label: &str) -> (line: String)
    requires
        major < 8,
    ensures
        line@ == head_line(major as nat, bitwidth, value, label@),
{
    let mut line = String::new();
    push_head(&mut line, major, bitwidth, value, false);
    push_text(&mut line, " # ");
    push_text(&mut line, label);
    push_text(&mut line, "(");
    push_decimal(&mut line, value as u128);
    push_text(&mut line, ")");
    assert(line@ =~= head_line(major as nat, bitwidth, value, label@));
    line
}

/// The line of a simple value.
fn simple_line_text(simple: Simple) -> (line: String)
    ensures
        line@ == simple_line(simple),
{
    let mut line = String::new();
    if simple.0 < 24 {
        push_hex_padded(&mut line, 0xe0 + simple.0 as u128, 2);
    } else {
        push_text(&mut line, "f8 ");
        push_hex_padded(&mut line, simple.0 as u128, 2);
    }
    push_text(&mut line, " # ");
    if simple.0 == 20 {
        push_text(&mut line, "false");
    } else if simple.0 == 21 {
        push_text(&mut line, "true");
    } else if simple.0 == 22 {
        push_text(&mut line, "null");
    } else if simple.0 == 23 {
        push_text(&mut line, "undefined");
    } else if 24 <= simple.0 && simple.0 <= 31 {
        push_text(&mut line, "reserved");
    } else {
        push_text(&mut line, "unassigned");
    }
    push_text(&mut line, ", simple(");
    push_decimal(&mut line, simple.0 as u128);
    push_text(&mut line, ")");
    assert(line@ =~= simple_line(simple));
    line
}

/// Appends a byte as a comment shows it.
fn push_escaped_byte(out: &mut String, byte: u8)
    ensures
        final(out)@ == old(out)@ + escaped_byte(byte),
{
    let ghost start = out@;
    if byte == 9 {
        out.push('\\');
        out.push('t');
    } else if byte == 13 {
        out.push('\\');
        out.push('r');
    } else if byte == 10 {
        out.push('\\');
        out.push('n');
    } else if byte == 39 || byte == 34 || byte == 92 {
        out.push('\\');
        out.push(byte as char);
    } else if 0x20 <= byte && byte <= 0x7e {
        out.push(byte as char);
    } else {
        out.push('\\');
        out.push('x');
        out.push(digit(byte / 16));
        out.push(digit(byte % 16));
    }
    assert(out@ =~= start + escaped_byte(byte));
}

/// A line of up to 16 bytes of a string.
fn payload_line_text(chunk: &[u8], width: usize) -> (line: String)
    requires
        2 * chunk@.len() <= width,
    ensures
        line@ == payload_line(chunk@, width as nat),
{
    let mut line = String::new();
    push_text(&mut line, "   ");
    let digits = encode_hex(chunk);
    push_text(&mut line, digits.as_str());
    push_repeat(&mut line, ' ', width - 2 * chunk.len());
    push_text(&mut line, " # \"");
    let ghost before = line@;
    let mut i: usize = 0;
    while i < chunk.len()
        invariant
            i <= chunk.len(),
            line@ == before + escaped_bytes(chunk@.take(i as int)),
        decreases chunk.len() - i,
    {
        assert(chunk@.take(i + 1).drop_last() =~= chunk@.take(i as int));
        push_escaped_byte(&mut line, chunk[i]);
        i += 1;
    }
    assert(chunk@.take(i as int) =~= chunk@);
    push_text(&mut line, "\"");
    assert(line@ =~= payload_line(chunk@, width as nat));
    line
}

/// The number of hexadecimal digits of an argument that follows the
/// initial byte.
fn argument_len(bitwidth: IntegerWidth, value: u64) -> (width: usize)
    ensures
        width == argument_width(bitwidth, value),
{
    match bitwidth.resolve(value) {
        IntegerWidth::Eight => 2,
        IntegerWidth::Sixteen => 4,
        IntegerWidth::ThirtyTwo => 8,
        IntegerWidth::SixtyFour => 16,
        _ => 0,
    }
}

/// Appends the lines of a definite-length string.
#[verifier::rlimit(40)]
fn push_string_lines(lines: &mut Vec<String>, major: u8, label: &str, data: &[u8], bitwidth: IntegerWidth)
    requires
        major < 8,
    ensures
        texts(final(lines)@) == texts(old(lines)@) + string_lines(
            major as nat,
            label@,
            data@,
            bitwidth,
        ),
{
    let ghost start = texts(lines@);
    let len = data.len();
    let length_width = argument_len(bitwidth, len as u64);
    let data_width: usize = if len < 16 {
        2 * len
    } else {
        32
    };
    let width = if data_width >= length_width {
        data_width
    } else {
        length_width
    };
    assert(width == string_width(len as nat, bitwidth));
    let mut first = String::new();
    push_head(&mut first, major, bitwidth, len as u64, true);
    push_repeat(&mut first, ' ', width - length_width);
    push_text(&mut first, " # ");
    push_text(&mut first, label);
    push_text(&mut first, "(");
    push_decimal(&mut first, len as u128);
    push_text(&mut first, ")");
    assert(first@ =~= string_head(major as nat, label@, len as nat, bitwidth));
    proof {
        lemma_texts_push(lines@, first);
    }
    lines.push(first);
    if len == 0 {
        let line = payload_line_text(data, width);
        assert(data@ =~= Seq::<u8>::empty());
        proof {
            lemma_texts_push(lines@, line);
        }
        lines.push(line);
        assert(texts(lines@) =~= start + string_lines(major as nat, label@, data@, bitwidth));
    } else {
        let count: usize = (len - 1) / 16 + 1;
        assert(count == (len + 15) / 16);
        let ghost base = texts(lines@);
        let mut i: usize = 0;
        while i < count
            invariant
                i <= count,
                count == (len + 15) / 16,
                len == data@.len(),
                len > 0,
                width == string_width(len as nat, bitwidth),
                texts(lines@) == base + payload_lines(data@, width as nat, i as nat),
            decreases count - i,
        {
            let from: usize = 16 * i;
            let to: usize = if len - from >= 16 {
                from + 16
            } else {
                len
            };
            let chunk = slice_subrange(data, from, to);
            assert(chunk@ == payload_chunk(data@, i as int));
            let line = payload_line_text(chunk, width);
            proof {
                lemma_texts_push(lines@, line);
            }
            lines.push(line);
            i += 1;
        }
        assert(texts(lines@) =~= start + string_lines(major as nat, label@, data@, bitwidth));
    }
}

/// The line of a float: the initial byte of its precision, the bit
/// pattern, and the number in the comment.
pub open spec fn float_line(value: u64, bitwidth: FloatWidth, floats: Seq<FloatText>) -> Seq<char> {
    (match wire_width(value, bitwidth) {
        FloatWidth::Sixteen => "f9 "@ + hex_padded(wire_bits(value, bitwidth) as nat, 4),
        FloatWidth::ThirtyTwo => "fa "@ + hex_padded(wire_bits(value, bitwidth) as nat, 8),
        _ => "fb "@ + hex_padded(wire_bits(value, bitwidth) as nat, 16),
    }) + " # float("@ + float_text(value, bitwidth, floats) + ")"@
}

/// The line of a header that leaves the length open.
pub open spec fn open_line(major: nat, label: Seq<char>) -> Seq<char> {
    hex_padded(major * 32 + 31, 2) + " # "@ + label + "(*)"@
}

/// The line of the break that ends an indefinite-length item.
pub open spec fn break_line() -> Seq<char> {
    "ff # break"@
}

/// Each line three columns further in.
pub open spec fn indented(lines: Seq<Seq<char>>) -> Seq<Seq<char>> {
    Seq::new(lines.len(), |i: int| "   "@ + lines[i])
}

/// The first line of an item that holds others, or chunks.
pub open spec fn container_head(item: DataItem) -> Seq<char> {
    match item {
        DataItem::Array { data, bitwidth: Some(bitwidth) } => head_line(
            4,
            bitwidth,
            data@.len() as u64,
            "array"@,
        ),
        DataItem::Array { bitwidth: None, .. } => open_line(4, "array"@),
        DataItem::Mapping { data, bitwidth: Some(bitwidth) } => head_line(
            5,
            bitwidth,
            data@.len() as u64,
            "map"@,
        ),
        DataItem::Mapping { bitwidth: None, .. } => open_line(5, "map"@),
        DataItem::Tag { tag, bitwidth, .. } => head_line(6, bitwidth, tag.0, "tag"@),
        DataItem::IndefiniteByteString(_) => open_line(2, "bytes"@),
        DataItem::IndefiniteTextString(_) => open_line(3, "text"@),
        _ => Seq::empty(),
    }
}

/// The lines of the first `count` chunks of an indefinite-length string.
pub open spec fn chunk_lines(item: DataItem, count: nat) -> Seq<Seq<char>>
    decreases count,
{
    if count == 0 {
        Seq::empty()
    } else {
        chunk_lines(item, (count - 1) as nat) + (match item {
            DataItem::IndefiniteByteString(chunks) => string_lines(
                2,
                "bytes"@,
                chunks@[count - 1].data@,
                chunks@[count - 1].bitwidth,
            ),
            DataItem::IndefiniteTextString(chunks) => string_lines(
                3,
                "text"@,
                encode_utf8(chunks@[count - 1].data@),
                chunks@[count - 1].bitwidth,
            ),
            _ => Seq::empty(),
        })
    }
}

/// The lines of the first `count` items that an array, a map or a tag
/// holds.
#[verifier::opaque]
pub open spec fn children_lines(item: DataItem, floats: Seq<FloatText>, count: nat) -> Seq<
    Seq<char>,
>
    decreases item, 0nat, count,
{
    if count == 0 || count > child_count(item) {
        Seq::empty()
    } else {
        children_lines(item, floats, (count - 1) as nat) + hex_lines(
            child(item, count - 1),
            floats,
        )
    }
}

/// The lines below the first line of an item that holds others, or
/// chunks: those of what it holds, and the break where it ends with one.
#[verifier::opaque]
pub open spec fn container_body(item: DataItem, floats: Seq<FloatText>) -> Seq<Seq<char>>
    decreases item, 1nat, 0nat,
{
    children_lines(item, floats, child_count(item)) + chunk_lines(item, chunk_count(item)) + (
    if indefinite(item) {
        seq![break_line()]
    } else {
        Seq::empty()
    })
}

/// The lines of the annotated dump of `item`. A number, a simple value or
/// a float takes one line; a string takes one for its header and one for
/// each 16 bytes; everything else takes one for its header and, three
/// columns further in, the lines of what it holds.
#[verifier::opaque]
pub open spec fn hex_lines(item: DataItem, floats: Seq<FloatText>) -> Seq<Seq<char>>
    decreases item, 2nat, 0nat,
{
    match item {
        DataItem::Integer { value, bitwidth } => seq![head_line(0, bitwidth, value, "unsigned"@)],
        DataItem::Negative { value, bitwidth } => seq![head_line(1, bitwidth, value, "negative"@)],
        DataItem::ByteString(bytes) => string_lines(2, "bytes"@, bytes.data@, bytes.bitwidth),
        DataItem::TextString(text) => string_lines(
            3,
            "text"@,
            encode_utf8(text.data@),
            text.bitwidth,
        ),
        DataItem::Simple(simple) => seq![simple_line(simple)],
        DataItem::Float { value, bitwidth } => seq![float_line(value, bitwidth, floats)],
        _ => seq![container_head(item)] + indented(container_body(item, floats)),
    }
}

/// Whether the dump of an item is its one line, without a line end.
pub open spec fn single_line(item: DataItem) -> bool {
    item is Integer || item is Negative || item is Simple || item is Float
}

/// The lines, each with a line end behind it.
pub open spec fn joined(lines: Seq<Seq<char>>) -> Seq<char>
    decreases lines.len(),
{
    if lines.len() == 0 {
        Seq::empty()
    } else {
        joined(lines.drop_last()) + lines.last() + "\n"@
    }
}

/// The annotated dump of `item`: its one line for a number, a simple value
/// or a float, else each of its lines with a line end.
pub open spec fn hex_dump(item: DataItem, floats: Seq<FloatText>) -> Seq<char> {
    if single_line(item) {
        hex_lines(item, floats)[0]
    } else {
        joined(hex_lines(item, floats))
    }
}

/// The children grow by the lines of the next child.
pub proof fn lemma_children_step(item: DataItem, floats: Seq<FloatText>, count: nat)
    requires
        count < child_count(item),
    ensures
        children_lines(item, floats, count + 1) == children_lines(item, floats, count)
            + hex_lines(child(item, count as int), floats),
        children_lines(item, floats, 0) == Seq::<Seq<char>>::empty(),
{
    reveal(children_lines);
    reveal(hex_lines);
}

/// Appends lines, three columns further in.
fn push_indented(lines: &mut Vec<String>, more: &Vec<String>)
    ensures
        texts(final(lines)@) == texts(old(lines)@) + indented(texts(more@)),
{
    let ghost start = texts(lines@);
    let mut i: usize = 0;
    while i < more.len()
        invariant
            i <= more.len(),
            texts(lines@) == start + indented(texts(more@.take(i as int))),
        decreases more.len() - i,
    {
        let mut line = String::new();
        push_text(&mut line, "   ");
        push_text(&mut line, more[i].as_str());
        proof {
            lemma_texts_push(lines@, line);
            assert(texts(more@.take(i + 1)) =~= texts(more@.take(i as int)).push(more@[i as int]@));
            assert(indented(texts(more@.take(i as int)).push(more@[i as int]@)) =~= indented(
                texts(more@.take(i as int)),
            ).push("   "@ + more@[i as int]@));
        }
        lines.push(line);
        i += 1;
    }
    assert(more@.take(i as int) =~= more@);
}

/// The line of a header that leaves the length open.
fn open_line_text(major: u8, label: &str) -> (line: String)
    requires
        major < 8,
    ensures
        line@ == open_line(major as nat, label@),
{
    let mut line = String::new();
    push_hex_padded(&mut line, major as u128 * 32 + 31, 2);
    push_text(&mut line, " # ");
    push_text(&mut line, label);
    push_text(&mut line, "(*)");
    assert(line@ =~= open_line(major as nat, label@));
    line
}

/// The line of a float.
fn float_line_text(value: u64, bitwidth: FloatWidth, floats: &FloatTable) -> (line: String)
    requires
        crate::float::is_finite(value) ==> floats.text_of(value, bitwidth) is Some,
        crate::precision::representable(value, bitwidth),
    ensures
        line@ == float_line(value, bitwidth, floats.entries@),
{
    let mut line = String::new();
    let (width, bits) = wire(value, bitwidth);
    match width {
        FloatWidth::Sixteen => {
            push_text(&mut line, "f9 ");
            push_hex_padded(&mut line, bits as u128, 4);
        },
        FloatWidth::ThirtyTwo => {
            push_text(&mut line, "fa ");
            push_hex_padded(&mut line, bits as u128, 8);
        },
        _ => {
            push_text(&mut line, "fb ");
            push_hex_padded(&mut line, bits as u128, 16);
        },
    }
    push_text(&mut line, " # float(");
    push_float_text(&mut line, value, bitwidth, floats);
    push_text(&mut line, ")");
    assert(line@ =~= float_line(value, bitwidth, floats.entries@));
    line
}

impl DataItem {
    /// The lines of the annotated dump of this item.
    pub fn hex_lines(&self, floats: &FloatTable) -> (lines: Vec<String>)
        requires
            floats.covers(*self),
            precise(*self),
        ensures
            texts(lines@) == hex_lines(*self, floats.entries@),
        decreases self,
    {
        let mut lines: Vec<String> = Vec::new();
        let mut body: Vec<String> = Vec::new();
        let ghost fl = floats.entries@;
        proof {
            reveal(hex_lines);
            reveal(container_body);
            assert(texts(lines@) =~= Seq::<Seq<char>>::empty());
            assert(texts(body@) =~= Seq::<Seq<char>>::empty());
        }
        match self {
            DataItem::Integer { value, bitwidth } => {
                let line = head_line_text(0, *bitwidth, *value, "unsigned");
                proof {
                    lemma_texts_push(lines@, line);
                }
                lines.push(line);
                assert(texts(lines@) =~= hex_lines(*self, fl));
                return lines;
            },
            DataItem::Negative { value, bitwidth } => {
                let line = head_line_text(1, *bitwidth, *value, "negative");
                proof {
                    lemma_texts_push(lines@, line);
                }
                lines.push(line);
                assert(texts(lines@) =~= hex_lines(*self, fl));
                return lines;
            },
            DataItem::Simple(simple) => {
                let line = simple_line_text(*simple);
                proof {
                    lemma_texts_push(lines@, line);
                }
                lines.push(line);
                assert(texts(lines@) =~= hex_lines(*self, fl));
                return lines;
            },
            DataItem::Float { value, bitwidth } => {
                let line = float_line_text(*value, *bitwidth, floats);
                proof {
                    lemma_texts_push(lines@, line);
                }
                lines.push(line);
                assert(texts(lines@) =~= hex_lines(*self, fl));
                return lines;
            },
            DataItem::ByteString(bytes) => {
                push_string_lines(&mut lines, 2, "bytes", bytes.data.as_slice(), bytes.bitwidth);
                return lines;
            },
            DataItem::TextString(text) => {
                push_string_lines(&mut lines, 3, "text", text.data.as_str().as_bytes(), text.bitwidth);
                return lines;
            },
            DataItem::Array { data, bitwidth } => {
                let line = match bitwidth {
                    Some(bitwidth) => head_line_text(4, *bitwidth, data.len() as u64, "array"),
                    None => open_line_text(4, "array"),
                };
                proof {
                    lemma_texts_push(lines@, line);
                }
                lines.push(line);
                let mut i: usize = 0;
                proof {
                    lemma_children_start(*self, fl);
                }
                while i < data.len()
                    invariant
                        i <= data.len(),
                        self matches DataItem::Array { data: d, .. } && d == data,
                        floats.covers(*self),
                        precise(*self),
                        fl == floats.entries@,
                        texts(body@) == children_lines(*self, fl, i as nat),
                    decreases data.len() - i,
                {
                    let more = data[i].hex_lines(floats);
                    proof {
                        lemma_children_step(*self, fl, i as nat);
                    }
                    push_plain(&mut body, more);
                    i += 1;
                }
            },
            DataItem::Mapping { data, bitwidth } => {
                let line = match bitwidth {
                    Some(bitwidth) => head_line_text(5, *bitwidth, data.len() as u64, "map"),
                    None => open_line_text(5, "map"),
                };
                proof {
                    lemma_texts_push(lines@, line);
                }
                lines.push(line);
                let mut i: usize = 0;
                proof {
                    lemma_children_start(*self, fl);
                }
                while i < data.len()
                    invariant
                        i <= data.len(),
                        self matches DataItem::Mapping { data: d, .. } && d == data,
                        floats.covers(*self),
                        precise(*self),
                        fl == floats.entries@,
                        texts(body@) == children_lines(*self, fl, (2 * i) as nat),
                    decreases data.len() - i,
                {
                    let key = data[i].0.hex_lines(floats);
                    let value = data[i].1.hex_lines(floats);
                    proof {
                        lemma_children_step(*self, fl, (2 * i) as nat);
                        lemma_children_step(*self, fl, (2 * i + 1) as nat);
                    }
                    push_plain(&mut body, key);
                    push_plain(&mut body, value);
                    i += 1;
                }
            },
            DataItem::Tag { tag, bitwidth, value } => {
                let line = head_line_text(6, *bitwidth, tag.0, "tag");
                proof {
                    lemma_texts_push(lines@, line);
                    lemma_children_start(*self, fl);
                    lemma_children_step(*self, fl, 0);
                }
                lines.push(line);
                let more = value.hex_lines(floats);
                push_plain(&mut body, more);
            },
            DataItem::IndefiniteByteString(chunks) => {
                let line = open_line_text(2, "bytes");
                proof {
                    lemma_texts_push(lines@, line);
                    lemma_children_start(*self, fl);
                }
                lines.push(line);
                let mut i: usize = 0;
                while i < chunks.len()
                    invariant
                        i <= chunks.len(),
                        self matches DataItem::IndefiniteByteString(c) && c == chunks,
                        texts(body@) == chunk_lines(*self, i as nat),
                    decreases chunks.len() - i,
                {
                    push_string_lines(
                        &mut body,
                        2,
                        "bytes",
                        chunks[i].data.as_slice(),
                        chunks[i].bitwidth,
                    );
                    i += 1;
                }
            },
            DataItem::IndefiniteTextString(chunks) => {
                let line = open_line_text(3, "text");
                proof {
                    lemma_texts_push(lines@, line);
                    lemma_children_start(*self, fl);
                }
                lines.push(line);
                let mut i: usize = 0;
                while i < chunks.len()
                    invariant
                        i <= chunks.len(),
                        self matches DataItem::IndefiniteTextString(c) && c == chunks,
                        texts(body@) == chunk_lines(*self, i as nat),
                    decreases chunks.len() - i,
                {
                    push_string_lines(
                        &mut body,
                        3,
                        "text",
                        chunks[i].data.as_str().as_bytes(),
                        chunks[i].bitwidth,
                    );
                    i += 1;
                }
            },
        }
        assert(texts(lines@) =~= seq![container_head(*self)]);
        assert(texts(body@) =~= children_lines(*self, fl, child_count(*self)) + chunk_lines(
            *self,
            chunk_count(*self),
        )) by {
            match *self {
                DataItem::Array { .. } => {
                    assert(chunk_lines(*self, 0) =~= Seq::<Seq<char>>::empty());
                },
                DataItem::Mapping { .. } => {
                    assert(chunk_lines(*self, 0) =~= Seq::<Seq<char>>::empty());
                },
                DataItem::Tag { .. } => {
                    assert(chunk_lines(*self, 0) =~= Seq::<Seq<char>>::empty());
                },
                _ => {
                    assert(children_lines(*self, fl, 0) =~= Seq::<Seq<char>>::empty());
                },
            }
        }
        let ghost inner = texts(body@);
        let ends = match self {
            DataItem::Array { bitwidth, .. } => bitwidth.is_none(),
            DataItem::Mapping { bitwidth, .. } => bitwidth.is_none(),
            DataItem::Tag { .. } => false,
            _ => true,
        };
        if ends {
            let mut line = String::new();
            push_text(&mut line, "ff # break");
            proof {
                lemma_texts_push(body@, line);
            }
            body.push(line);
        }
        assert(ends == indefinite(*self));
        assert(texts(body@) =~= inner + (if ends {
            seq![break_line()]
        } else {
            Seq::empty()
        }));
        assert(texts(body@) =~= container_body(*self, fl)) by {
            reveal(container_body);
            reveal(children_lines);
        }
        push_indented(&mut lines, &body);
        lines
    }

    /// The annotated dump of this item.
    pub fn to_hex(&self, floats: &FloatTable) -> (dump: String)
        requires
            floats.covers(*self),
            precise(*self),
        ensures
            dump@ == hex_dump(*self, floats.entries@),
    {
        let lines = self.hex_lines(floats);
        let mut dump = String::new();
        let single = match self {
            DataItem::Integer { .. } => true,
            DataItem::Negative { .. } => true,
            DataItem::Simple(_) => true,
            DataItem::Float { .. } => true,
            _ => false,
        };
        if single {
            proof {
                reveal(hex_lines);
            }
            assert(texts(lines@).len() == lines@.len());
            assert(hex_lines(*self, floats.entries@).len() == 1);
            assert(lines@.len() == 1);
            push_text(&mut dump, lines[0].as_str());
            assert(dump@ =~= texts(lines@)[0]);
            return dump;
        }
        let mut i: usize = 0;
        while i < lines.len()
            invariant
                i <= lines.len(),
                dump@ == joined(texts(lines@).take(i as int)),
            decreases lines.len() - i,
        {
            assert(texts(lines@).take(i + 1).drop_last() =~= texts(lines@).take(i as int));
            push_text(&mut dump, lines[i].as_str());
            push_text(&mut dump, "\n");
            i += 1;
        }
        assert(texts(lines@).take(i as int) =~= texts(lines@));
        dump
    }
}

/// An item holds no lines of children before its first child.
pub proof fn lemma_children_start(item: DataItem, floats: Seq<FloatText>)
    ensures
        children_lines(item, floats, 0) == Seq::<Seq<char>>::empty(),
{
    reveal(children_lines);
}

/// Appends lines as they are.
fn push_plain(lines: &mut Vec<String>, more: Vec<String>)
    ensures
        texts(final(lines)@) == texts(old(lines)@) + texts(more@),
{
    let mut more = more;
    let ghost all = more@;
    lines.append(&mut more);
    assert(texts(lines@) =~= texts(old(lines)@) + texts(all));
}

} // verus!
