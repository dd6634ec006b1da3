//! The compact notation of an item, read back: the parser gives an item
//! with the same compact notation.

use vstd::prelude::*;
use crate::encode::diag::{bytes_body, bytes_prefix, escaped, negative_text, precision_suffix, width_suffix};
use crate::encode::Encoding;
use crate::float::{is_finite, is_nan, negative as minus};
use crate::model::{FloatWidth, IntegerWidth, Tag};
use crate::encode::{base64_digit, base64_text};
use crate::error::Error;
use crate::float::FloatText;
use crate::parse::diag::{array, behind, byte_chunks, byte_string, code_value, container_width, digit_in, digits_end, digits_value, elements, encoded_body, entries, escape, float_end, float_width, follows, integer_width, item, lemma_elements_unfold, lemma_entries_unfold, negative, notation, number, peek, quoted, simple, spaces, suffix, text_chunks, low_bits, pushed, top_byte, two_to, uncommented, unsigned, Number};
use crate::parse::hex::{commented, hex_value, is_space};
use crate::text::{decimal, digit_char, hex_text, lemma_decimal_digits};
use crate::tree::{Chunk, Tree};

verus! {

/// The name of a float that is no number.
pub open spec fn special_text(value: u64) -> Seq<char> {
    if is_nan(value) {
        "NaN"@
    } else if minus(value) {
        "-"@ + "Infinity"@
    } else {
        "Infinity"@
    }
}

/// The notation of a simple value.
pub open spec fn simple_text(value: u8) -> Seq<char> {
    if value == 20 {
        "false"@
    } else if value == 21 {
        "true"@
    } else if value == 22 {
        "null"@
    } else if value == 23 {
        "undefined"@
    } else {
        "simple("@ + decimal(value as nat) + ")"@
    }
}

/// The notation of a byte string in a base.
pub open spec fn bytes_text(data: Seq<u8>, base: Encoding) -> Seq<char> {
    bytes_prefix(base) + bytes_body(data, base) + "'"@
}

/// The notation of a text string.
pub open spec fn quoted_text(data: Seq<char>) -> Seq<char> {
    "\""@ + escaped(data) + "\""@
}

/// The base of the byte strings below a tag.
pub open spec fn tagged_base(base: Encoding, tag: u64) -> Encoding {
    if tag == 21 {
        Encoding::Base64Url
    } else if tag == 22 {
        Encoding::Base64
    } else if tag == 23 {
        Encoding::Base16
    } else {
        base
    }
}

/// What marks a container as one of indefinite length.
pub open spec fn open_mark(bitwidth: Option<IntegerWidth>) -> Seq<char> {
    if bitwidth is None {
        "_"@
    } else {
        Seq::empty()
    }
}

/// The compact notation of items in a row, with a comma and a space
/// between them.
pub open spec fn trees_text(data: Seq<Tree>, base: Encoding) -> Seq<char>
    decreases data, 0nat,
{
    if data.len() == 0 {
        Seq::empty()
    } else if data.len() == 1 {
        tree_text(data[0], base)
    } else {
        tree_text(data[0], base) + ", "@ + trees_text(data.skip(1), base)
    }
}

/// The compact notation of map entries in a row, with a comma and a
/// space between them and a colon between each key and its value.
pub open spec fn pairs_text(data: Seq<(Tree, Tree)>, base: Encoding) -> Seq<char>
    decreases data, 0nat,
{
    if data.len() == 0 {
        Seq::empty()
    } else if data.len() == 1 {
        tree_text(data[0].0, base) + ":"@ + tree_text(data[0].1, base)
    } else {
        tree_text(data[0].0, base) + ":"@ + tree_text(data[0].1, base) + ", "@ + pairs_text(
            data.skip(1),
            base,
        )
    }
}

/// The compact notation of byte string chunks in a row, with a comma and
/// a space between them.
pub open spec fn byte_chunks_text(chunks: Seq<Chunk<u8>>, base: Encoding) -> Seq<char>
    decreases chunks.len(),
{
    if chunks.len() == 0 {
        Seq::empty()
    } else if chunks.len() == 1 {
        bytes_text(chunks[0].data, base)
    } else {
        bytes_text(chunks[0].data, base) + ", "@ + byte_chunks_text(chunks.skip(1), base)
    }
}

/// The compact notation of text string chunks in a row, with a comma and
/// a space between them.
pub open spec fn text_chunks_text(chunks: Seq<Chunk<char>>) -> Seq<char>
    decreases chunks.len(),
{
    if chunks.len() == 0 {
        Seq::empty()
    } else if chunks.len() == 1 {
        quoted_text(chunks[0].data)
    } else {
        quoted_text(chunks[0].data) + ", "@ + text_chunks_text(chunks.skip(1))
    }
}

/// The compact notation of an item whose byte strings are shown in the
/// base `base`. A float that is a number has none here: its digits are
/// not the library's to give.
pub open spec fn tree_text(tree: Tree, base: Encoding) -> Seq<char>
    decreases tree, 1nat,
{
    match tree {
        Tree::Integer { value, bitwidth } => decimal(value as nat) + width_suffix(bitwidth),
        Tree::Negative { value, bitwidth } => negative_text(value) + width_suffix(bitwidth),
        Tree::Float { value, bitwidth } => if is_finite(value) {
            Seq::empty()
        } else {
            special_text(value) + precision_suffix(bitwidth)
        },
        Tree::Simple(value) => simple_text(value),
        Tree::Bytes(chunk) => bytes_text(chunk.data, base),
        Tree::Text(chunk) => quoted_text(chunk.data),
        Tree::ByteChunks(chunks) => "(_"@ + byte_chunks_text(chunks, base) + ")"@,
        Tree::TextChunks(chunks) => "(_"@ + text_chunks_text(chunks) + ")"@,
        Tree::Array { data, bitwidth } => "["@ + open_mark(bitwidth) + trees_text(data, base)
            + "]"@,
        Tree::Mapping { data, bitwidth } => "{"@ + open_mark(bitwidth) + pairs_text(data, base)
            + "}"@,
        Tree::Tag { tag, bitwidth, value } => decimal(tag as nat) + width_suffix(bitwidth) + "("@
            + tree_text(*value, tagged_base(base, tag)) + ")"@,
    }
}

/// The width that notation gives back for a width: what it shows, and
/// nothing for a width that it does not show.
pub open spec fn shown_width(bitwidth: IntegerWidth) -> IntegerWidth {
    if bitwidth == IntegerWidth::Zero {
        IntegerWidth::Unknown
    } else {
        bitwidth
    }
}

/// Chunks without their widths.
pub open spec fn bare<T>(chunks: Seq<Chunk<T>>) -> Seq<Chunk<T>> {
    Seq::new(chunks.len(), |i: int| Chunk { data: chunks[i].data, bitwidth: IntegerWidth::Unknown })
}

/// Items in a row as notation gives them back.
pub open spec fn shown_trees(data: Seq<Tree>) -> Seq<Tree>
    decreases data, 0nat,
{
    if data.len() == 0 {
        Seq::empty()
    } else {
        seq![shown(data[0])] + shown_trees(data.skip(1))
    }
}

/// Map entries in a row as notation gives them back.
pub open spec fn shown_pairs(data: Seq<(Tree, Tree)>) -> Seq<(Tree, Tree)>
    decreases data, 0nat,
{
    if data.len() == 0 {
        Seq::empty()
    } else {
        seq![(shown(data[0].0), shown(data[0].1))] + shown_pairs(data.skip(1))
    }
}

/// An item as notation gives it back: with the widths that notation
/// shows and no others, every NaN the same, and an empty
/// indefinite-length text string as an empty byte string.
pub open spec fn shown(tree: Tree) -> Tree
    decreases tree, 1nat,
{
    match tree {
        Tree::Integer { value, bitwidth } => Tree::Integer {
            value,
            bitwidth: shown_width(bitwidth),
        },
        Tree::Negative { value, bitwidth } => Tree::Negative {
            value,
            bitwidth: shown_width(bitwidth),
        },
        Tree::Float { value, bitwidth } => Tree::Float {
            value: if is_nan(value) {
                0x7ff8_0000_0000_0000
            } else {
                value
            },
            bitwidth,
        },
        Tree::Simple(value) => tree,
        Tree::Bytes(chunk) => Tree::Bytes(
            Chunk { data: chunk.data, bitwidth: IntegerWidth::Unknown },
        ),
        Tree::Text(chunk) => Tree::Text(Chunk { data: chunk.data, bitwidth: IntegerWidth::Unknown }),
        Tree::ByteChunks(chunks) => Tree::ByteChunks(bare(chunks)),
        Tree::TextChunks(chunks) => if chunks.len() == 0 {
            Tree::ByteChunks(Seq::empty())
        } else {
            Tree::TextChunks(bare(chunks))
        },
        Tree::Array { data, bitwidth } => Tree::Array {
            data: shown_trees(data),
            bitwidth: if bitwidth is None {
                None
            } else {
                Some(IntegerWidth::Unknown)
            },
        },
        Tree::Mapping { data, bitwidth } => Tree::Mapping {
            data: shown_pairs(data),
            bitwidth: if bitwidth is None {
                None
            } else {
                Some(IntegerWidth::Unknown)
            },
        },
        Tree::Tag { tag, bitwidth, value } => Tree::Tag {
            tag,
            bitwidth: shown_width(bitwidth),
            value: Box::new(shown(*value)),
        },
    }
}

/// Whether notation can be read back: no float is a number, and every
/// width of an integer or a tag holds its value.
pub open spec fn readable(tree: Tree) -> bool
    decreases tree, 1nat,
{
    match tree {
        Tree::Integer { value, bitwidth } => bitwidth.holds(value),
        Tree::Negative { value, bitwidth } => bitwidth.holds(value),
        Tree::Float { value, .. } => !is_finite(value),
        Tree::Array { data, .. } => readable_trees(data),
        Tree::Mapping { data, .. } => readable_pairs(data),
        Tree::Tag { tag, bitwidth, value } => bitwidth.holds(tag) && readable(*value),
        _ => true,
    }
}

/// Whether the notation of each item can be read back.
pub open spec fn readable_trees(data: Seq<Tree>) -> bool
    decreases data, 0nat,
{
    data.len() == 0 || (readable(data[0]) && readable_trees(data.skip(1)))
}

/// Whether the notation of each key and each value can be read back.
pub open spec fn readable_pairs(data: Seq<(Tree, Tree)>) -> bool
    decreases data, 0nat,
{
    data.len() == 0 || (readable(data[0].0) && readable(data[0].1) && readable_pairs(
        data.skip(1),
    ))
}

/// Whether a character ends an item: a comma, a closing bracket or a
/// colon, or the end of the text.
pub open spec fn edge(c: Option<char>) -> bool {
    c is None || c == Some(',') || c == Some(']') || c == Some('}') || c == Some(')') || c
        == Some(':')
}

/// Whether the text holds `piece` at the position `at`.
#[verifier::opaque]
pub open spec fn holds(text: Seq<char>, at: int, piece: Seq<char>) -> bool {
    follows(text, at, piece)
}

/// A text that holds two pieces in a row holds each of them.
pub proof fn lemma_holds_both(text: Seq<char>, at: int, first: Seq<char>, second: Seq<char>)
    requires
        holds(text, at, first + second),
    ensures
        holds(text, at, first),
        holds(text, at + first.len(), second),
{
    reveal(holds);
    let whole = text.subrange(at, at + (first + second).len());
    assert(text.subrange(at, at + first.len()) =~= whole.subrange(0, first.len() as int));
    assert(whole.subrange(0, first.len() as int) =~= first);
    assert(text.subrange(at + first.len(), at + first.len() + second.len()) =~= whole.subrange(
        first.len() as int,
        whole.len() as int,
    ));
    assert(whole.subrange(first.len() as int, whole.len() as int) =~= second);
}

/// The character at a position of a piece that the text holds.
pub proof fn lemma_holds_char(text: Seq<char>, at: int, piece: Seq<char>, index: int)
    requires
        holds(text, at, piece),
        0 <= index < piece.len(),
    ensures
        peek(text, at + index) == Some(piece[index]),
{
    reveal(holds);
    assert(text.subrange(at, at + piece.len())[index] == text[at + index]);
}

/// A digit character stands for its digit.
pub proof fn lemma_digit_value(digit: nat, base: nat)
    requires
        digit < base <= 16,
    ensures
        digit_in(Some(digit_char(digit)), base) == Some(digit),
        hex_value(digit_char(digit)) == Some(digit),
        !is_space(digit_char(digit)),
        digit_char(digit) != '\'',
{
}

/// Digits end at the first position that holds none.
pub proof fn lemma_digits_end_at(text: Seq<char>, from: int, end: int, base: nat)
    requires
        0 <= from <= end <= text.len(),
        forall|i: int| from <= i < end ==> digit_in(#[trigger] peek(text, i), base) is Some,
        digit_in(peek(text, end), base) is None,
    ensures
        digits_end(text, from, base) == end,
    decreases end - from,
{
    if from < end {
        assert(digit_in(peek(text, from), base) is Some);
        lemma_digits_end_at(text, from + 1, end, base);
    }
}

/// The decimal digits of a number stand for the number.
pub proof fn lemma_decimal_value(text: Seq<char>, at: int, value: nat)
    requires
        holds(text, at, decimal(value)),
    ensures
        digits_value(text, at, at + decimal(value).len(), 10) == value,
        forall|i: int|
            at <= i < at + decimal(value).len() ==> digit_in(#[trigger] peek(text, i), 10)
                is Some,
    decreases value,
{
    let digits = decimal(value);
    let end = at + digits.len();
    lemma_digit_value(value % 10, 10);
    lemma_holds_char(text, at, digits, digits.len() - 1);
    if value >= 10 {
        let shorter = decimal(value / 10);
        assert(digits == shorter.push(digit_char(value % 10)));
        assert(digits =~= shorter + seq![digit_char(value % 10)]);
        lemma_holds_both(text, at, shorter, seq![digit_char(value % 10)]);
        lemma_decimal_value(text, at, value / 10);
        assert forall|i: int| at <= i < end implies digit_in(#[trigger] peek(text, i), 10)
            is Some by {
            if i == end - 1 {
            }
        }
    } else {
        assert(digits_value(text, at, at, 10) == 0);
    }
}

/// The decimal digits of a number, with something behind them that is no
/// digit and no letter of a base, are read as the number.
pub proof fn lemma_number(text: Seq<char>, at: int, value: nat)
    requires
        holds(text, at, decimal(value)),
        digit_in(peek(text, at + decimal(value).len()), 10) is None,
        crate::parse::diag::base_of(peek(text, at + decimal(value).len())) is None,
    ensures
        number(text, at) == Some(
            Number { value, end: at + decimal(value).len(), decimal: true },
        ),
        decimal(value).len() >= 1,
        peek(text, at) is Some,
        digit_in(peek(text, at), 10) is Some,
{
    let digits = decimal(value);
    lemma_decimal_digits(value);
    lemma_decimal_value(text, at, value);
    lemma_digits_end_at(text, at, at + digits.len(), 10);
    lemma_holds_char(text, at, digits, 0);
    if peek(text, at) == Some('0') {
        if digits.len() > 1 {
            lemma_holds_char(text, at, digits, 1);
            assert(digit_in(peek(text, at + 1), 10) is Some);
        }
    }
}

/// The suffix of a width is read as the width that notation shows.
pub proof fn lemma_width_suffix(text: Seq<char>, at: int, bitwidth: IntegerWidth)
    requires
        holds(text, at, width_suffix(bitwidth)),
        peek(text, at + width_suffix(bitwidth).len()) != Some('_'),
    ensures
        suffix(text, at) matches Ok((digit, end)) && end == at + width_suffix(bitwidth).len()
            && integer_width(digit) == Ok::<IntegerWidth, Error>(shown_width(bitwidth)),
        width_suffix(bitwidth).len() > 0 ==> peek(text, at) == Some('_'),
{
    reveal_strlit("_0");
    reveal_strlit("_1");
    reveal_strlit("_2");
    reveal_strlit("_3");
    let piece = width_suffix(bitwidth);
    if piece.len() > 0 {
        lemma_holds_char(text, at, piece, 0);
        lemma_holds_char(text, at, piece, 1);
    }
}

/// The suffix of a precision is read as the precision.
pub proof fn lemma_precision_suffix(text: Seq<char>, at: int, bitwidth: FloatWidth)
    requires
        holds(text, at, precision_suffix(bitwidth)),
        peek(text, at + precision_suffix(bitwidth).len()) != Some('_'),
    ensures
        suffix(text, at) matches Ok((digit, end)) && end == at + precision_suffix(bitwidth).len()
            && float_width(digit) == Ok::<FloatWidth, Error>(bitwidth),
{
    reveal_strlit("_1");
    reveal_strlit("_2");
    reveal_strlit("_3");
    let piece = precision_suffix(bitwidth);
    if piece.len() > 0 {
        lemma_holds_char(text, at, piece, 0);
        lemma_holds_char(text, at, piece, 1);
    }
}

/// What stands for a character between quotes.
pub open spec fn escaped_char(c: char) -> Seq<char> {
    if c == '"' || c == '\\' {
        seq!['\\', c]
    } else {
        seq![c]
    }
}

/// Escaped text is the first character, escaped, and then the others.
pub proof fn lemma_escaped_first(data: Seq<char>)
    requires
        data.len() > 0,
    ensures
        escaped(data) == escaped_char(data[0]) + escaped(data.skip(1)),
    decreases data.len(),
{
    if data.len() == 1 {
        assert(data.drop_last() =~= Seq::<char>::empty());
        assert(data.skip(1) =~= Seq::<char>::empty());
        assert(escaped(data) =~= escaped_char(data[0]) + escaped(data.skip(1)));
    } else {
        lemma_escaped_first(data.drop_last());
        assert(data.drop_last().skip(1) =~= data.skip(1).drop_last());
        assert(data.drop_last()[0] == data[0]);
        assert(data.skip(1).last() == data.last());
        assert(escaped(data) =~= escaped_char(data[0]) + escaped(data.skip(1)));
    }
}

/// Escaped text and the quote behind it are read as the text.
pub proof fn lemma_quoted(text: Seq<char>, at: int, data: Seq<char>)
    requires
        holds(text, at, escaped(data) + seq!['"']),
    ensures
        quoted(text, at, '"') == Ok::<(Seq<char>, int), Error>(
            (data, at + escaped(data).len() + 1),
        ),
    decreases data.len(),
{
    let piece = escaped(data) + seq!['"'];
    if data.len() == 0 {
        lemma_holds_char(text, at, piece, 0);
        assert(quoted(text, at, '"') == Ok::<(Seq<char>, int), Error>((Seq::empty(), at + 1)));
        assert(data =~= Seq::<char>::empty());
    } else {
        lemma_escaped_first(data);
        let c = data[0];
        let first = escaped_char(c);
        let rest = escaped(data.skip(1)) + seq!['"'];
        assert(piece =~= first + rest);
        lemma_holds_both(text, at, first, rest);
        lemma_holds_char(text, at, first, 0);
        lemma_quoted(text, at + first.len(), data.skip(1));
        let after = quoted(text, at + first.len(), '"');
        assert(after == Ok::<(Seq<char>, int), Error>(
            (data.skip(1), at + first.len() + escaped(data.skip(1)).len() + 1),
        ));
        assert(seq![c] + data.skip(1) =~= data);
        assert(escaped(data).len() == first.len() + escaped(data.skip(1)).len());
        if first.len() == 2 {
            lemma_holds_char(text, at, first, 1);
            assert(peek(text, at) == Some('\\'));
            assert(peek(text, at + 1) == Some(c));
            assert(escape(text, at + 1) == Ok::<(char, int), Error>((c, at + 2)));
            assert(quoted(text, at, '"') == behind(seq![c], after));
        } else {
            assert(peek(text, at) == Some(c));
            assert(c != '"' && c != '\\');
            assert(quoted(text, at, '"') == behind(seq![c], after));
        }
    }
}

/// Hexadecimal text is the digits of the first byte and then the others.
pub proof fn lemma_hex_first(data: Seq<u8>)
    requires
        data.len() > 0,
    ensures
        hex_text(data) == seq![
            digit_char((data[0] / 16) as nat),
            digit_char((data[0] % 16) as nat),
        ] + hex_text(data.skip(1)),
    decreases data.len(),
{
    let first = seq![digit_char((data[0] / 16) as nat), digit_char((data[0] % 16) as nat)];
    if data.len() == 1 {
        assert(data.drop_last() =~= Seq::<u8>::empty());
        assert(data.skip(1) =~= Seq::<u8>::empty());
        assert(hex_text(data) =~= first + hex_text(data.skip(1)));
    } else {
        lemma_hex_first(data.drop_last());
        assert(data.drop_last().skip(1) =~= data.skip(1).drop_last());
        assert(data.drop_last()[0] == data[0]);
        assert(data.skip(1).last() == data.last());
        assert(hex_text(data) =~= first + hex_text(data.skip(1)));
    }
}

/// What one character of an encoded byte string does: its bits join the
/// bits that are held, and eight of them leave as a byte.
pub proof fn lemma_body_char(
    text: Seq<char>,
    at: int,
    bits: nat,
    held: nat,
    count: nat,
    value: nat,
)
    requires
        0 <= at < text.len(),
        text[at] != '\'',
        !is_space(text[at]),
        code_value(text[at], bits) == Some(value),
    ensures
        count + bits >= 8 ==> encoded_body(text, at, bits, held, count) == behind(
            seq![top_byte(pushed(held, bits, value), (count + bits - 8) as nat)],
            encoded_body(
                text,
                at + 1,
                bits,
                low_bits(pushed(held, bits, value), (count + bits - 8) as nat),
                (count + bits - 8) as nat,
            ),
        ),
        count + bits < 8 ==> encoded_body(text, at, bits, held, count) == encoded_body(
            text,
            at + 1,
            bits,
            pushed(held, bits, value),
            count + bits,
        ),
{
}

/// What the closing quote of an encoded byte string does where no bits
/// are left over.
pub proof fn lemma_body_quote(text: Seq<char>, at: int, bits: nat, count: nat)
    requires
        0 <= at < text.len(),
        text[at] == '\'',
        count < bits,
    ensures
        encoded_body(text, at, bits, 0, count) == Ok::<(Seq<u8>, int), Error>(
            (Seq::empty(), at + 1),
        ),
{
}

/// What the two digits of a byte do to the bits that are held.
pub proof fn lemma_hex_pair(byte: u8)
    ensures
        pushed(0, 4, (byte / 16) as nat) == byte / 16,
        pushed((byte / 16) as nat, 4, (byte % 16) as nat) == byte,
        top_byte(byte as nat, 0) == byte,
        low_bits(byte as nat, 0) == 0,
{
    reveal(pushed);
    reveal(top_byte);
    reveal(low_bits);
    reveal_with_fuel(two_to, 5);
    assert(two_to(4) == 16 && two_to(0) == 1);
    let whole = byte as int;
    assert(whole / 1 == whole) by (nonlinear_arith);
    assert(whole % 1 == 0) by (nonlinear_arith);
}

/// Hexadecimal text and the quote behind it are read as the bytes.
pub proof fn lemma_hex_body(text: Seq<char>, at: int, data: Seq<u8>)
    requires
        holds(text, at, hex_text(data) + seq!['\'']),
    ensures
        encoded_body(text, at, 4, 0, 0) == Ok::<(Seq<u8>, int), Error>(
            (data, at + hex_text(data).len() + 1),
        ),
    decreases data.len(),
{
    let piece = hex_text(data) + seq!['\''];
    lemma_holds_char(text, at, piece, 0);
    if data.len() == 0 {
        lemma_body_quote(text, at, 4, 0);
        assert(data =~= Seq::<u8>::empty());
    } else {
        lemma_hex_first(data);
        let high = (data[0] / 16) as nat;
        let low = (data[0] % 16) as nat;
        let first = seq![digit_char(high), digit_char(low)];
        let rest = hex_text(data.skip(1)) + seq!['\''];
        assert(piece =~= first + rest);
        lemma_holds_both(text, at, first, rest);
        lemma_holds_char(text, at, first, 0);
        lemma_holds_char(text, at, first, 1);
        lemma_digit_value(high, 16);
        lemma_digit_value(low, 16);
        lemma_hex_body(text, at + 2, data.skip(1));
        lemma_body_char(text, at, 4, 0, 0, high);
        lemma_body_char(text, at + 1, 4, high, 4, low);
        lemma_hex_pair(data[0]);
        assert(seq![data[0]] + data.skip(1) =~= data);
        assert(hex_text(data).len() == 2 + hex_text(data.skip(1)).len());
    }
}

/// A base64 digit stands for its six bits, in either alphabet.
pub proof fn lemma_base64_digit(value: nat, url_safe: bool)
    requires
        value < 64,
    ensures
        code_value(base64_digit(value, url_safe), 6) == Some(value),
        !is_space(base64_digit(value, url_safe)),
        base64_digit(value, url_safe) != '\'',
{
}

/// The powers of two that base 64 needs.
pub proof fn lemma_two_to_base64()
    ensures
        two_to(0) == 1,
        two_to(2) == 4,
        two_to(4) == 16,
        two_to(6) == 64,
{
    reveal_with_fuel(two_to, 7);
}

/// What the first two digits of base64 text do: the first byte leaves,
/// and four bits are held.
pub proof fn lemma_base64_first(text: Seq<char>, at: int, first: nat, second: nat, url_safe: bool)
    requires
        0 <= at,
        at + 1 < text.len(),
        first < 64,
        second < 64,
        text[at] == base64_digit(first, url_safe),
        text[at + 1] == base64_digit(second, url_safe),
    ensures
        encoded_body(text, at, 6, 0, 0) == behind(
            seq![(first * 4 + second / 16) as u8],
            encoded_body(text, at + 2, 6, second % 16, 4),
        ),
{
    lemma_two_to_base64();
    lemma_base64_digit(first, url_safe);
    lemma_base64_digit(second, url_safe);
    lemma_body_char(text, at, 6, 0, 0, first);
    lemma_body_char(text, at + 1, 6, first, 6, second);
    reveal(pushed);
    reveal(top_byte);
    reveal(low_bits);
    assert(pushed(0, 6, first) == first);
    assert(pushed(first, 6, second) == first * 64 + second);
    assert((first * 64 + second) / 16 == first * 4 + second / 16);
    assert((first * 64 + second) % 16 == second % 16);
}

/// What the third digit of base64 text does: the second byte leaves, and
/// two bits are held.
pub proof fn lemma_base64_third(text: Seq<char>, at: int, held: nat, third: nat, url_safe: bool)
    requires
        0 <= at < text.len(),
        held < 16,
        third < 64,
        text[at] == base64_digit(third, url_safe),
    ensures
        encoded_body(text, at, 6, held, 4) == behind(
            seq![(held * 16 + third / 4) as u8],
            encoded_body(text, at + 1, 6, third % 4, 2),
        ),
{
    lemma_two_to_base64();
    lemma_base64_digit(third, url_safe);
    lemma_body_char(text, at, 6, held, 4, third);
    reveal(pushed);
    reveal(top_byte);
    reveal(low_bits);
    assert(pushed(held, 6, third) == held * 64 + third);
    assert((held * 64 + third) / 4 == held * 16 + third / 4);
    assert((held * 64 + third) % 4 == third % 4);
}

/// What the fourth digit of base64 text does: the third byte leaves, and
/// no bits are held.
pub proof fn lemma_base64_fourth(text: Seq<char>, at: int, held: nat, fourth: nat, url_safe: bool)
    requires
        0 <= at < text.len(),
        held < 4,
        fourth < 64,
        text[at] == base64_digit(fourth, url_safe),
    ensures
        encoded_body(text, at, 6, held, 2) == behind(
            seq![(held * 64 + fourth) as u8],
            encoded_body(text, at + 1, 6, 0, 0),
        ),
{
    lemma_two_to_base64();
    lemma_base64_digit(fourth, url_safe);
    lemma_body_char(text, at, 6, held, 2, fourth);
    reveal(pushed);
    reveal(top_byte);
    reveal(low_bits);
    assert(pushed(held, 6, fourth) == held * 64 + fourth);
    assert((held * 64 + fourth) / 1 == held * 64 + fourth);
    assert((held * 64 + fourth) % 1 == 0);
}

/// Base64 text and the quote behind it are read as the bytes.
#[verifier::rlimit(40)]
pub proof fn lemma_base64_body(text: Seq<char>, at: int, data: Seq<u8>, url_safe: bool)
    requires
        holds(text, at, base64_text(data, url_safe) + seq!['\'']),
    ensures
        encoded_body(text, at, 6, 0, 0) == Ok::<(Seq<u8>, int), Error>(
            (data, at + base64_text(data, url_safe).len() + 1),
        ),
    decreases data.len(),
{
    let digits = base64_text(data, url_safe);
    let piece = digits + seq!['\''];
    lemma_holds_char(text, at, piece, 0);
    if data.len() == 0 {
        lemma_body_quote(text, at, 6, 0);
        assert(data =~= Seq::<u8>::empty());
    } else {
        let b0 = data[0] as nat;
        let d0 = b0 / 4;
        lemma_holds_char(text, at, piece, 1);
        lemma_holds_char(text, at, piece, 2);
        if data.len() == 1 {
            let d1 = (b0 % 4) * 16;
            assert(piece =~= seq![
                base64_digit(d0, url_safe),
                base64_digit(d1, url_safe),
                '\'',
            ]);
            lemma_base64_first(text, at, d0, d1, url_safe);
            lemma_body_quote(text, at + 2, 6, 4);
            assert(d0 * 4 + d1 / 16 == b0);
            assert(d1 % 16 == 0);
            assert(seq![data[0]] + Seq::<u8>::empty() =~= data);
        } else {
            let b1 = data[1] as nat;
            let d1 = (b0 % 4) * 16 + b1 / 16;
            lemma_holds_char(text, at, piece, 3);
            if data.len() == 2 {
                let d2 = (b1 % 16) * 4;
                assert(piece =~= seq![
                    base64_digit(d0, url_safe),
                    base64_digit(d1, url_safe),
                    base64_digit(d2, url_safe),
                    '\'',
                ]);
                lemma_base64_first(text, at, d0, d1, url_safe);
                lemma_base64_third(text, at + 2, b1 / 16, d2, url_safe);
                lemma_body_quote(text, at + 3, 6, 2);
                assert(d0 * 4 + d1 / 16 == b0);
                assert(d1 % 16 == b1 / 16);
                assert((b1 / 16) * 16 + d2 / 4 == b1);
                assert(d2 % 4 == 0);
                assert(seq![data[0]] + (seq![data[1]] + Seq::<u8>::empty()) =~= data);
            } else {
                let b2 = data[2] as nat;
                let d2 = (b1 % 16) * 4 + b2 / 64;
                let d3 = b2 % 64;
                let group = seq![
                    base64_digit(d0, url_safe),
                    base64_digit(d1, url_safe),
                    base64_digit(d2, url_safe),
                    base64_digit(d3, url_safe),
                ];
                let rest = base64_text(data.skip(3), url_safe) + seq!['\''];
                assert(digits =~= group + base64_text(data.skip(3), url_safe));
                assert(piece =~= group + rest);
                lemma_holds_both(text, at, group, rest);
                lemma_base64_body(text, at + 4, data.skip(3), url_safe);
                lemma_base64_first(text, at, d0, d1, url_safe);
                lemma_base64_third(text, at + 2, b1 / 16, d2, url_safe);
                lemma_base64_fourth(text, at + 3, b2 / 64, d3, url_safe);
                assert(d0 * 4 + d1 / 16 == b0);
                assert(d1 % 16 == b1 / 16);
                assert((b1 / 16) * 16 + d2 / 4 == b1);
                assert(d2 % 4 == b2 / 64);
                assert((b2 / 64) * 64 + d3 == b2);
                assert(seq![data[0]] + (seq![data[1]] + (seq![data[2]] + data.skip(3))) =~= data);
            }
        }
    }
}

/// A text does not go on with a word whose first character is another.
pub proof fn lemma_other_word(text: Seq<char>, at: int, word: Seq<char>)
    requires
        word.len() > 0,
        peek(text, at) != Some(word[0]),
    ensures
        !follows(text, at, word),
{
    if follows(text, at, word) {
        assert(text.subrange(at, at + word.len())[0] == text[at]);
    }
}

/// A text that holds a word goes on with it.
pub proof fn lemma_first_char(text: Seq<char>, at: int, piece: Seq<char>)
    requires
        holds(text, at, piece),
        piece.len() > 0,
    ensures
        peek(text, at) == Some(piece[0]),
        0 <= at < text.len(),
{
    lemma_holds_char(text, at, piece, 0);
}

/// A character that is no white space is where the white space before
/// the next item ends.
pub proof fn lemma_no_space(text: Seq<char>, at: int)
    requires
        0 <= at <= text.len(),
        peek(text, at) matches Some(c) ==> !is_space(c),
    ensures
        spaces(text, at) == at,
{
}

/// One space before a character that is no white space is all the white
/// space there.
pub proof fn lemma_one_space(text: Seq<char>, at: int)
    requires
        0 <= at < text.len(),
        peek(text, at) == Some(' '),
        peek(text, at + 1) matches Some(c) ==> !is_space(c),
    ensures
        spaces(text, at) == at + 1,
{
    lemma_no_space(text, at + 1);
}

/// Where an item starts, none of the words of the grammar starts unless
/// it has the same first character.
pub proof fn lemma_words(text: Seq<char>, at: int, c: char)
    requires
        peek(text, at) == Some(c),
    ensures
        c != 'h' ==> !follows(text, at, "h'"@),
        c != 'b' ==> !follows(text, at, "b32'"@) && !follows(text, at, "b64'"@),
        c != 'f' ==> !follows(text, at, "false"@),
        c != 't' ==> !follows(text, at, "true"@),
        c != 'n' ==> !follows(text, at, "null"@),
        c != 'u' ==> !follows(text, at, "undefined"@),
        c != 's' ==> !follows(text, at, "simple("@),
        c != 'N' ==> !follows(text, at, "NaN"@),
        c != 'I' ==> !follows(text, at, "Infinity"@),
        c != '-' ==> !follows(text, at, "-Infinity"@),
{
    reveal_strlit("h'");
    reveal_strlit("b32'");
    reveal_strlit("b64'");
    reveal_strlit("false");
    reveal_strlit("true");
    reveal_strlit("null");
    reveal_strlit("undefined");
    reveal_strlit("simple(");
    reveal_strlit("NaN");
    reveal_strlit("Infinity");
    reveal_strlit("-Infinity");
    if c != 'h' {
        lemma_other_word(text, at, "h'"@);
    }
    if c != 'b' {
        lemma_other_word(text, at, "b32'"@);
        lemma_other_word(text, at, "b64'"@);
    }
    if c != 'f' {
        lemma_other_word(text, at, "false"@);
    }
    if c != 't' {
        lemma_other_word(text, at, "true"@);
    }
    if c != 'n' {
        lemma_other_word(text, at, "null"@);
    }
    if c != 'u' {
        lemma_other_word(text, at, "undefined"@);
    }
    if c != 's' {
        lemma_other_word(text, at, "simple("@);
    }
    if c != 'N' {
        lemma_other_word(text, at, "NaN"@);
    }
    if c != 'I' {
        lemma_other_word(text, at, "Infinity"@);
    }
    if c != '-' {
        lemma_other_word(text, at, "-Infinity"@);
    }
}

/// No byte string starts with a character that neither `h` nor `b` nor a
/// quote is.
pub proof fn lemma_no_bytes(text: Seq<char>, at: int, c: char)
    requires
        peek(text, at) == Some(c),
        c != 'h',
        c != 'b',
        c != '\'',
    ensures
        byte_string(text, at) is None,
{
    lemma_words(text, at, c);
}

/// An item that starts with a digit is an integer, a float or a tagged
/// item.
proof fn lemma_digit_start(text: Seq<char>, at: int, c: char, floats: Seq<FloatText>)
    requires
        peek(text, at) == Some(c),
        '0' <= c <= '9',
    ensures
        item(text, at, floats) == unsigned(text, at, floats),
{
    reveal(item);
    lemma_words(text, at, c);
    lemma_no_bytes(text, at, c);
}

/// An item that starts with a minus sign and a digit is a negative
/// integer or a float.
proof fn lemma_minus_start(text: Seq<char>, at: int, c: char, floats: Seq<FloatText>)
    requires
        peek(text, at) == Some('-'),
        peek(text, at + 1) == Some(c),
        '0' <= c <= '9',
    ensures
        item(text, at, floats) == negative(text, at, floats),
{
    reveal(item);
    lemma_words(text, at, '-');
    lemma_no_bytes(text, at, '-');
    reveal_strlit("-Infinity");
    if follows(text, at, "-Infinity"@) {
        assert(text.subrange(at, at + 9)[1] == text[at + 1]);
    }
}

/// Digits and a width with the end of an item behind them are read as a
/// number with that width.
proof fn lemma_digits_read(text: Seq<char>, at: int, value: nat, bitwidth: IntegerWidth)
    requires
        holds(text, at, decimal(value) + width_suffix(bitwidth)),
        edge(peek(text, at + (decimal(value) + width_suffix(bitwidth)).len())),
    ensures
        number(text, at) == Some(Number { value, end: at + decimal(value).len(), decimal: true }),
        float_end(text, at + decimal(value).len()) == at + decimal(value).len(),
        suffix(text, at + decimal(value).len()) matches Ok((digit, end)) && end == at + (decimal(
            value,
        ) + width_suffix(bitwidth)).len() && integer_width(digit) == Ok::<IntegerWidth, Error>(
            shown_width(bitwidth),
        ),
        peek(text, at) matches Some(c) && '0' <= c <= '9',
        peek(text, at + (decimal(value) + width_suffix(bitwidth)).len()) != Some('('),
{
    let digits = decimal(value);
    let tail = width_suffix(bitwidth);
    let end = at + digits.len();
    lemma_holds_both(text, at, digits, tail);
    lemma_decimal_digits(value);
    lemma_first_char(text, at, digits);
    lemma_width_suffix(text, end, bitwidth);
    lemma_number(text, at, value);
}

/// The notation of a non-negative integer is read back.
pub proof fn lemma_integer_back(
    value: u64,
    bitwidth: IntegerWidth,
    text: Seq<char>,
    at: int,
    floats: Seq<FloatText>,
)
    requires
        bitwidth.holds(value),
        holds(text, at, decimal(value as nat) + width_suffix(bitwidth)),
        edge(peek(text, at + (decimal(value as nat) + width_suffix(bitwidth)).len())),
    ensures
        item(text, at, floats) == Ok::<(Tree, int), Error>(
            (
                Tree::Integer { value, bitwidth: shown_width(bitwidth) },
                at + (decimal(value as nat) + width_suffix(bitwidth)).len(),
            ),
        ),
{
    lemma_digits_read(text, at, value as nat, bitwidth);
    lemma_digit_start(text, at, peek(text, at)->0, floats);
}

/// The notation of a negative integer is read back.
pub proof fn lemma_negative_back(
    value: u64,
    bitwidth: IntegerWidth,
    text: Seq<char>,
    at: int,
    floats: Seq<FloatText>,
)
    requires
        bitwidth.holds(value),
        holds(text, at, negative_text(value) + width_suffix(bitwidth)),
        edge(peek(text, at + (negative_text(value) + width_suffix(bitwidth)).len())),
    ensures
        item(text, at, floats) == Ok::<(Tree, int), Error>(
            (
                Tree::Negative { value, bitwidth: shown_width(bitwidth) },
                at + (negative_text(value) + width_suffix(bitwidth)).len(),
            ),
        ),
{
    reveal_strlit("-");
    let digits = decimal((value + 1) as nat);
    let tail = width_suffix(bitwidth);
    assert(negative_text(value) + tail =~= "-"@ + (digits + tail));
    lemma_holds_both(text, at, "-"@, digits + tail);
    lemma_first_char(text, at, "-"@);
    lemma_digits_read(text, at + 1, (value + 1) as nat, bitwidth);
    lemma_minus_start(text, at, peek(text, at + 1)->0, floats);
}

/// The notation of a float that is no number is read back.
#[verifier::rlimit(40)]
pub proof fn lemma_special_back(
    value: u64,
    bitwidth: FloatWidth,
    text: Seq<char>,
    at: int,
    floats: Seq<FloatText>,
)
    requires
        !is_finite(value),
        holds(text, at, special_text(value) + precision_suffix(bitwidth)),
        edge(peek(text, at + (special_text(value) + precision_suffix(bitwidth)).len())),
    ensures
        item(text, at, floats) == Ok::<(Tree, int), Error>(
            (
                shown(Tree::Float { value, bitwidth }),
                at + (special_text(value) + precision_suffix(bitwidth)).len(),
            ),
        ),
{
    reveal(holds);
    reveal(item);
    reveal_strlit("NaN");
    reveal_strlit("Infinity");
    reveal_strlit("-Infinity");
    reveal_strlit("-");
    let name = special_text(value);
    let tail = precision_suffix(bitwidth);
    lemma_holds_both(text, at, name, tail);
    lemma_first_char(text, at, name);
    lemma_precision_suffix(text, at + name.len(), bitwidth);
    let c = name[0];
    lemma_words(text, at, c);
    lemma_no_bytes(text, at, c);
    if is_nan(value) {
    } else if minus(value) {
        assert(name =~= "-Infinity"@);
        assert(value == 0xfff0_0000_0000_0000);
    } else {
        assert(value == 0x7ff0_0000_0000_0000);
    }
}

/// The notation of a simple value is read back.
#[verifier::rlimit(40)]
pub proof fn lemma_simple_back(value: u8, text: Seq<char>, at: int, floats: Seq<FloatText>)
    requires
        holds(text, at, simple_text(value)),
        edge(peek(text, at + simple_text(value).len())),
    ensures
        item(text, at, floats) == Ok::<(Tree, int), Error>(
            (Tree::Simple(value), at + simple_text(value).len()),
        ),
{
    reveal(holds);
    reveal(item);
    reveal_strlit("false");
    reveal_strlit("true");
    reveal_strlit("null");
    reveal_strlit("undefined");
    reveal_strlit("simple(");
    reveal_strlit(")");
    let name = simple_text(value);
    if 20 <= value <= 23 {
        lemma_first_char(text, at, name);
        let c = name[0];
        lemma_words(text, at, c);
        lemma_no_bytes(text, at, c);
    } else {
        let digits = decimal(value as nat);
        assert(name =~= "simple("@ + (digits + ")"@));
        lemma_holds_both(text, at, "simple("@, digits + ")"@);
        lemma_holds_both(text, at + 7, digits, ")"@);
        lemma_first_char(text, at, "simple("@);
        lemma_first_char(text, at + 7 + digits.len(), ")"@);
        lemma_number(text, at + 7, value as nat);
        lemma_words(text, at, 's');
        lemma_no_bytes(text, at, 's');
    }
}

/// The notation of a byte string is read as the bytes.
#[verifier::rlimit(40)]
pub proof fn lemma_bytes_read(data: Seq<u8>, base: Encoding, text: Seq<char>, at: int)
    requires
        holds(text, at, bytes_text(data, base)),
    ensures
        byte_string(text, at) == Some(
            Ok::<(Seq<u8>, int), Error>((data, at + bytes_text(data, base).len())),
        ),
        peek(text, at) == Some('h') || peek(text, at) == Some('b'),
{
    reveal(holds);
    reveal_strlit("h'");
    reveal_strlit("b32'");
    reveal_strlit("b64'");
    reveal_strlit("'");
    let prefix = bytes_prefix(base);
    let body = bytes_body(data, base);
    assert("'"@ =~= seq!['\'']);
    assert(bytes_text(data, base) =~= prefix + (body + seq!['\'']));
    lemma_holds_both(text, at, prefix, body + seq!['\'']);
    lemma_first_char(text, at, prefix);
    lemma_holds_char(text, at, prefix, 1);
    match base {
        Encoding::Base16 => {
            lemma_hex_body(text, at + 2, data);
        },
        Encoding::Base64 => {
            lemma_words(text, at, 'b');
            if follows(text, at, "b32'"@) {
                assert(text.subrange(at, at + 4)[1] == text[at + 1]);
            }
            lemma_base64_body(text, at + 4, data, false);
        },
        Encoding::Base64Url => {
            lemma_words(text, at, 'b');
            if follows(text, at, "b32'"@) {
                assert(text.subrange(at, at + 4)[1] == text[at + 1]);
            }
            lemma_base64_body(text, at + 4, data, true);
        },
    }
}

/// The notation of a byte string is read back.
pub proof fn lemma_bytes_back(
    data: Seq<u8>,
    base: Encoding,
    text: Seq<char>,
    at: int,
    floats: Seq<FloatText>,
)
    requires
        holds(text, at, bytes_text(data, base)),
    ensures
        item(text, at, floats) == Ok::<(Tree, int), Error>(
            (
                Tree::Bytes(Chunk { data, bitwidth: IntegerWidth::Unknown }),
                at + bytes_text(data, base).len(),
            ),
        ),
{
    reveal(item);
    lemma_bytes_read(data, base, text, at);
}

/// The notation of a text string is read as the text.
pub proof fn lemma_text_read(data: Seq<char>, text: Seq<char>, at: int)
    requires
        holds(text, at, quoted_text(data)),
    ensures
        peek(text, at) == Some('"'),
        quoted(text, at + 1, '"') == Ok::<(Seq<char>, int), Error>(
            (data, at + quoted_text(data).len()),
        ),
{
    reveal_strlit("\"");
    assert("\""@ =~= seq!['"']);
    assert(quoted_text(data) =~= seq!['"'] + (escaped(data) + seq!['"']));
    lemma_holds_both(text, at, seq!['"'], escaped(data) + seq!['"']);
    lemma_first_char(text, at, seq!['"']);
    lemma_quoted(text, at + 1, data);
}

/// The notation of a text string is read back.
pub proof fn lemma_text_back(data: Seq<char>, text: Seq<char>, at: int, floats: Seq<FloatText>)
    requires
        holds(text, at, quoted_text(data)),
    ensures
        item(text, at, floats) == Ok::<(Tree, int), Error>(
            (
                Tree::Text(Chunk { data, bitwidth: IntegerWidth::Unknown }),
                at + quoted_text(data).len(),
            ),
        ),
{
    reveal(item);
    lemma_text_read(data, text, at);
}

/// The notation of text string chunks and the bracket behind them are
/// read as the chunks, from wherever the white space before them starts.
#[verifier::rlimit(40)]
pub proof fn lemma_text_chunks_back(chunks: Seq<Chunk<char>>, text: Seq<char>, from: int, at: int)
    requires
        spaces(text, from) == at,
        holds(text, at, text_chunks_text(chunks) + seq![')']),
    ensures
        text_chunks(text, from) == Ok::<(Seq<Chunk<char>>, int), Error>(
            (bare(chunks), at + text_chunks_text(chunks).len() + 1),
        ),
    decreases chunks.len(),
{
    reveal_strlit(", ");
    let piece = text_chunks_text(chunks) + seq![')'];
    lemma_first_char(text, at, piece);
    if chunks.len() == 0 {
        assert(bare(chunks) =~= Seq::<Chunk<char>>::empty());
    } else {
        let first = quoted_text(chunks[0].data);
        let others = chunks.skip(1);
        let chunk = Chunk { data: chunks[0].data, bitwidth: IntegerWidth::Unknown };
        let next = at + first.len();
        let rest = text_chunks_text(others) + seq![')'];
        assert(bare(chunks) =~= seq![chunk] + bare(others));
        reveal_strlit("\"");
        if chunks.len() == 1 {
            assert(others =~= Seq::<Chunk<char>>::empty());
            assert(piece =~= first + rest);
            lemma_holds_both(text, at, first, rest);
            lemma_text_read(chunks[0].data, text, at);
            lemma_first_char(text, next, rest);
            lemma_no_space(text, next);
            lemma_text_chunks_back(others, text, next, next);
        } else {
            assert(", "@ =~= seq![',', ' ']);
            assert(piece =~= first + (seq![','] + (seq![' '] + rest)));
            lemma_holds_both(text, at, first, seq![','] + (seq![' '] + rest));
            lemma_holds_both(text, next, seq![','], seq![' '] + rest);
            lemma_holds_both(text, next + 1, seq![' '], rest);
            lemma_text_read(chunks[0].data, text, at);
            lemma_first_char(text, next, seq![',']);
            lemma_no_space(text, next);
            lemma_first_char(text, next + 1, seq![' ']);
            lemma_first_char(text, next + 2, rest);
            assert(rest[0] == '"');
            lemma_one_space(text, next + 1);
            lemma_text_chunks_back(others, text, next + 1, next + 2);
        }
    }
}

/// A byte string, a comma where there is one, and the byte strings
/// behind it are byte string chunks.
proof fn lemma_byte_chunks_step(
    text: Seq<char>,
    from: int,
    start: int,
    data: Seq<u8>,
    next: int,
    more: Seq<Chunk<u8>>,
    end: int,
)
    requires
        spaces(text, from) == start,
        peek(text, start) != Some(')'),
        byte_string(text, start) == Some(Ok::<(Seq<u8>, int), Error>((data, next))),
        start < next < text.len(),
        spaces(text, next) == next,
        byte_chunks(text, if peek(text, next) == Some(',') { next + 1 } else { next }) == Ok::<
            (Seq<Chunk<u8>>, int),
            Error,
        >((more, end)),
    ensures
        byte_chunks(text, from) == Ok::<(Seq<Chunk<u8>>, int), Error>(
            (seq![Chunk { data, bitwidth: IntegerWidth::Unknown }] + more, end),
        ),
{
}

/// A closing bracket ends the byte string chunks.
proof fn lemma_byte_chunks_end(text: Seq<char>, from: int, start: int)
    requires
        spaces(text, from) == start,
        peek(text, start) == Some(')'),
    ensures
        byte_chunks(text, from) == Ok::<(Seq<Chunk<u8>>, int), Error>((Seq::empty(), start + 1)),
{
}

/// The notation of byte string chunks and the bracket behind them are
/// read as the chunks, from wherever the white space before them starts.
#[verifier::rlimit(40)]
pub proof fn lemma_byte_chunks_back(
    chunks: Seq<Chunk<u8>>,
    base: Encoding,
    text: Seq<char>,
    from: int,
    at: int,
)
    requires
        spaces(text, from) == at,
        holds(text, at, byte_chunks_text(chunks, base) + seq![')']),
    ensures
        byte_chunks(text, from) == Ok::<(Seq<Chunk<u8>>, int), Error>(
            (bare(chunks), at + byte_chunks_text(chunks, base).len() + 1),
        ),
        chunks.len() > 0 ==> peek(text, at) == Some('h') || peek(text, at) == Some('b'),
    decreases chunks.len(),
{
    reveal_strlit(", ");
    let piece = byte_chunks_text(chunks, base) + seq![')'];
    lemma_first_char(text, at, piece);
    if chunks.len() == 0 {
        assert(bare(chunks) =~= Seq::<Chunk<u8>>::empty());
        lemma_byte_chunks_end(text, from, at);
    } else {
        let first = bytes_text(chunks[0].data, base);
        let others = chunks.skip(1);
        let chunk = Chunk { data: chunks[0].data, bitwidth: IntegerWidth::Unknown };
        let next = at + first.len();
        let rest = byte_chunks_text(others, base) + seq![')'];
        assert(bare(chunks) =~= seq![chunk] + bare(others));
        lemma_bytes_start(chunks[0].data, base);
        if chunks.len() == 1 {
            assert(others =~= Seq::<Chunk<u8>>::empty());
            assert(piece =~= first + rest);
            lemma_holds_both(text, at, first, rest);
            lemma_bytes_read(chunks[0].data, base, text, at);
            lemma_first_char(text, next, rest);
            lemma_no_space(text, next);
            lemma_byte_chunks_back(others, base, text, next, next);
            lemma_byte_chunks_step(
                text,
                from,
                at,
                chunks[0].data,
                next,
                bare(others),
                next + rest.len(),
            );
        } else {
            assert(", "@ =~= seq![',', ' ']);
            assert(piece =~= first + (seq![','] + (seq![' '] + rest)));
            lemma_holds_both(text, at, first, seq![','] + (seq![' '] + rest));
            lemma_holds_both(text, next, seq![','], seq![' '] + rest);
            lemma_holds_both(text, next + 1, seq![' '], rest);
            lemma_bytes_read(chunks[0].data, base, text, at);
            lemma_first_char(text, next, seq![',']);
            lemma_no_space(text, next);
            lemma_first_char(text, next + 1, seq![' ']);
            lemma_bytes_start(others[0].data, base);
            assert(rest[0] == bytes_text(others[0].data, base)[0]);
            lemma_first_char(text, next + 2, rest);
            lemma_one_space(text, next + 1);
            lemma_byte_chunks_back(others, base, text, next + 1, next + 2);
            lemma_byte_chunks_step(
                text,
                from,
                at,
                chunks[0].data,
                next,
                bare(others),
                next + 2 + rest.len(),
            );
        }
    }
}

/// The notation of a byte string starts with `h` or `b`.
pub proof fn lemma_bytes_start(data: Seq<u8>, base: Encoding)
    ensures
        bytes_text(data, base).len() > 0,
        bytes_text(data, base)[0] == 'h' || bytes_text(data, base)[0] == 'b',
{
    reveal_strlit("h'");
    reveal_strlit("b64'");
    assert(bytes_text(data, base)[0] == bytes_prefix(base)[0]);
}

/// The notation of an indefinite-length string is read back.
#[verifier::rlimit(40)]
pub proof fn lemma_chunked_back(
    tree: Tree,
    base: Encoding,
    text: Seq<char>,
    at: int,
    floats: Seq<FloatText>,
)
    requires
        tree is ByteChunks || tree is TextChunks,
        holds(text, at, tree_text(tree, base)),
    ensures
        item(text, at, floats) == Ok::<(Tree, int), Error>(
            (shown(tree), at + tree_text(tree, base).len()),
        ),
{
    reveal(item);
    reveal_strlit("(_");
    reveal_strlit(")");
    reveal_strlit("\"");
    assert(")"@ =~= seq![')']);
    let whole = tree_text(tree, base);
    lemma_first_char(text, at, whole);
    lemma_holds_char(text, at, whole, 1);
    lemma_words(text, at, '(');
    lemma_no_bytes(text, at, '(');
    match tree {
        Tree::TextChunks(chunks) => {
            let list = text_chunks_text(chunks) + seq![')'];
            assert(whole =~= "(_"@ + list);
            lemma_holds_both(text, at, "(_"@, list);
            lemma_first_char(text, at + 2, list);
            if chunks.len() > 0 {
                assert(quoted_text(chunks[0].data)[0] == '"');
                assert(list[0] == '"');
            }
            lemma_no_space(text, at + 2);
            if chunks.len() == 0 {
                lemma_byte_chunks_back(Seq::empty(), base, text, at + 2, at + 2);
                assert(bare(Seq::<Chunk<u8>>::empty()) =~= Seq::<Chunk<u8>>::empty());
            } else {
                lemma_text_chunks_back(chunks, text, at + 2, at + 2);
            }
        },
        Tree::ByteChunks(chunks) => {
            let list = byte_chunks_text(chunks, base) + seq![')'];
            assert(whole =~= "(_"@ + list);
            lemma_holds_both(text, at, "(_"@, list);
            lemma_first_char(text, at + 2, list);
            if chunks.len() > 0 {
                lemma_bytes_start(chunks[0].data, base);
                assert(list[0] == bytes_text(chunks[0].data, base)[0]);
            }
            lemma_no_space(text, at + 2);
            lemma_byte_chunks_back(chunks, base, text, at + 2, at + 2);
        },
        _ => {},
    }
}

/// Whether a character can start the notation of an item: it is no white
/// space and none of the characters that stand between items.
pub open spec fn leading(c: char) -> bool {
    !is_space(c) && c != ']' && c != '}' && c != ')' && c != '_' && c != ',' && c != ':'
}

/// The notation of an item that can be read back starts with a character
/// that can start an item.
pub proof fn lemma_leading(tree: Tree, base: Encoding)
    requires
        readable(tree),
    ensures
        tree_text(tree, base).len() >= 1,
        leading(tree_text(tree, base)[0]),
{
    reveal_strlit("NaN");
    reveal_strlit("Infinity");
    reveal_strlit("-");
    reveal_strlit("false");
    reveal_strlit("true");
    reveal_strlit("null");
    reveal_strlit("undefined");
    reveal_strlit("simple(");
    reveal_strlit("h'");
    reveal_strlit("b64'");
    reveal_strlit("\"");
    reveal_strlit("(_");
    reveal_strlit("[");
    reveal_strlit("{");
    match tree {
        Tree::Integer { value, .. } => {
            lemma_decimal_digits(value as nat);
            assert(tree_text(tree, base)[0] == decimal(value as nat)[0]);
        },
        Tree::Tag { tag, .. } => {
            lemma_decimal_digits(tag as nat);
            assert(tree_text(tree, base)[0] == decimal(tag as nat)[0]);
        },
        Tree::Negative { .. } => {
            assert(tree_text(tree, base)[0] == '-');
        },
        Tree::Float { value, .. } => {
            assert(tree_text(tree, base)[0] == special_text(value)[0]);
        },
        Tree::Simple(value) => {
            assert(tree_text(tree, base)[0] == simple_text(value)[0]);
        },
        Tree::Bytes(chunk) => {
            assert(tree_text(tree, base)[0] == bytes_prefix(base)[0]);
        },
        Tree::Text(_) => {
            assert(tree_text(tree, base)[0] == '"');
        },
        Tree::ByteChunks(_) => {
            assert(tree_text(tree, base)[0] == '(');
        },
        Tree::TextChunks(_) => {
            assert(tree_text(tree, base)[0] == '(');
        },
        Tree::Array { .. } => {
            assert(tree_text(tree, base)[0] == '[');
        },
        Tree::Mapping { .. } => {
            assert(tree_text(tree, base)[0] == '{');
        },
    }
}

/// A square bracket, an underscore where the length is open, and the
/// elements are an array.
proof fn lemma_array_step(
    text: Seq<char>,
    at: int,
    floats: Seq<FloatText>,
    open: bool,
    data: Seq<Tree>,
    end: int,
)
    requires
        peek(text, at) == Some('['),
        0 <= at < text.len(),
        open <==> peek(text, at + 1) == Some('_'),
        elements(text, if open { at + 2 } else { at + 1 }, floats) == Ok::<
            (Seq<Tree>, int),
            Error,
        >((data, end)),
    ensures
        item(text, at, floats) == Ok::<(Tree, int), Error>(
            (Tree::Array { data, bitwidth: container_width(open) }, end),
        ),
{
    reveal(item);
    lemma_words(text, at, '[');
    lemma_no_bytes(text, at, '[');
}

/// A curly bracket, an underscore where the length is open, and the
/// entries are a map.
proof fn lemma_mapping_step(
    text: Seq<char>,
    at: int,
    floats: Seq<FloatText>,
    open: bool,
    data: Seq<(Tree, Tree)>,
    end: int,
)
    requires
        peek(text, at) == Some('{'),
        0 <= at < text.len(),
        open <==> peek(text, at + 1) == Some('_'),
        entries(text, if open { at + 2 } else { at + 1 }, floats) == Ok::<
            (Seq<(Tree, Tree)>, int),
            Error,
        >((data, end)),
    ensures
        item(text, at, floats) == Ok::<(Tree, int), Error>(
            (Tree::Mapping { data, bitwidth: container_width(open) }, end),
        ),
{
    reveal(item);
    lemma_words(text, at, '{');
    lemma_no_bytes(text, at, '{');
}

/// Where the pieces of the notation of a tagged item stand.
proof fn lemma_tag_pieces(tree: Tree, base: Encoding, text: Seq<char>, at: int)
    requires
        tree is Tag,
        holds(text, at, tree_text(tree, base)),
    ensures
        ({
            let digits = decimal(tree->Tag_tag as nat);
            let tail = width_suffix(tree->Tag_bitwidth);
            let inner = tree_text(*tree->Tag_value, tagged_base(base, tree->Tag_tag));
            let open = at + digits.len() + tail.len();
            &&& holds(text, at, digits)
            &&& holds(text, at + digits.len(), tail)
            &&& peek(text, open) == Some('(')
            &&& holds(text, open + 1, inner)
            &&& peek(text, open + 1 + inner.len()) == Some(')')
            &&& tree_text(tree, base).len() == digits.len() + tail.len() + inner.len() + 2
            &&& 0 <= at
            &&& open + 1 + inner.len() < text.len()
        }),
{
    reveal_strlit("(");
    reveal_strlit(")");
    let digits = decimal(tree->Tag_tag as nat);
    let tail = width_suffix(tree->Tag_bitwidth);
    let inner = tree_text(*tree->Tag_value, tagged_base(base, tree->Tag_tag));
    let whole = tree_text(tree, base);
    assert("("@ =~= seq!['(']);
    assert(")"@ =~= seq![')']);
    assert(whole =~= digits + (tail + (seq!['('] + (inner + seq![')']))));
    lemma_holds_both(text, at, digits, tail + (seq!['('] + (inner + seq![')'])));
    let suffix_at = at + digits.len();
    lemma_holds_both(text, suffix_at, tail, seq!['('] + (inner + seq![')']));
    let open = suffix_at + tail.len();
    lemma_holds_both(text, open, seq!['('], inner + seq![')']);
    lemma_holds_both(text, open + 1, inner, seq![')']);
    lemma_first_char(text, open, seq!['(']);
    lemma_first_char(text, open + 1 + inner.len(), seq![')']);
    lemma_decimal_digits(tree->Tag_tag as nat);
    lemma_first_char(text, at, digits);
}

/// The digits and the width before the bracket of a tagged item are read
/// as an integer with that width.
proof fn lemma_tag_head(text: Seq<char>, at: int, tag: u64, bitwidth: IntegerWidth)
    requires
        holds(text, at, decimal(tag as nat)),
        holds(text, at + decimal(tag as nat).len(), width_suffix(bitwidth)),
        peek(text, at + decimal(tag as nat).len() + width_suffix(bitwidth).len()) == Some('('),
    ensures
        number(text, at) matches Some(read) && read.value == tag && (!read.decimal || float_end(
            text,
            read.end,
        ) == read.end) && (suffix(text, read.end) matches Ok((digit, end)) && end == at + decimal(
            tag as nat,
        ).len() + width_suffix(bitwidth).len() && integer_width(digit) == Ok::<
            IntegerWidth,
            Error,
        >(shown_width(bitwidth))),
        peek(text, at) matches Some(c) && '0' <= c <= '9',
{
    let digits = decimal(tag as nat);
    let end = at + digits.len();
    lemma_width_suffix(text, end, bitwidth);
    lemma_number(text, at, tag as nat);
    lemma_decimal_digits(tag as nat);
    lemma_first_char(text, at, digits);
}

/// A number, an opening bracket, an item and a closing bracket are a
/// tagged item.
proof fn lemma_tag_step(
    text: Seq<char>,
    at: int,
    floats: Seq<FloatText>,
    read: Number,
    bitwidth: IntegerWidth,
    open: int,
    inner: Tree,
    close: int,
)
    requires
        number(text, at) == Some(read),
        !read.decimal || float_end(text, read.end) == read.end,
        suffix(text, read.end) matches Ok((digit, end)) && end == open && integer_width(digit)
            == Ok::<IntegerWidth, Error>(bitwidth),
        read.value <= u64::MAX,
        bitwidth.holds(read.value as u64),
        at <= open < text.len(),
        peek(text, open) == Some('('),
        spaces(text, open + 1) == open + 1,
        item(text, open + 1, floats) == Ok::<(Tree, int), Error>((inner, close)),
        spaces(text, close) == close,
        peek(text, close) == Some(')'),
    ensures
        unsigned(text, at, floats) == Ok::<(Tree, int), Error>(
            (Tree::Tag { tag: read.value as u64, bitwidth, value: Box::new(inner) }, close + 1),
        ),
{
    reveal(item);
}

/// The notation of a tagged item is read back.
#[verifier::rlimit(40)]
proof fn lemma_tag_back(tree: Tree, base: Encoding, text: Seq<char>, at: int, floats: Seq<FloatText>)
    requires
        tree is Tag,
        readable(tree),
        holds(text, at, tree_text(tree, base)),
    ensures
        item(text, at, floats) == Ok::<(Tree, int), Error>(
            (shown(tree), at + tree_text(tree, base).len()),
        ),
    decreases tree, 0nat,
{
    if let Tree::Tag { tag, bitwidth, value } = tree {
        let digits = decimal(tag as nat);
        let tail = width_suffix(bitwidth);
        let below = tagged_base(base, tag);
        let inner = tree_text(*value, below);
        let open = at + digits.len() + tail.len();
        let close = open + 1 + inner.len();
        lemma_tag_pieces(tree, base, text, at);
        lemma_tag_head(text, at, tag, bitwidth);
        lemma_leading(*value, below);
        lemma_first_char(text, open + 1, inner);
        lemma_no_space(text, open + 1);
        lemma_item_back(*value, below, text, open + 1, floats);
        lemma_no_space(text, close);
        lemma_tag_step(
            text,
            at,
            floats,
            number(text, at)->0,
            shown_width(bitwidth),
            open,
            shown(*value),
            close,
        );
        lemma_digit_start(text, at, peek(text, at)->0, floats);
    }
}

/// The notation of the elements of an array and the bracket behind them
/// are read back, from wherever the white space before them starts.
#[verifier::rlimit(40)]
proof fn lemma_elements_back(
    data: Seq<Tree>,
    base: Encoding,
    text: Seq<char>,
    from: int,
    at: int,
    floats: Seq<FloatText>,
)
    requires
        readable_trees(data),
        spaces(text, from) == at,
        holds(text, at, trees_text(data, base) + seq![']']),
    ensures
        elements(text, from, floats) == Ok::<(Seq<Tree>, int), Error>(
            (shown_trees(data), at + trees_text(data, base).len() + 1),
        ),
        peek(text, at) != Some('_'),
    decreases data, 0nat,
{
    {
        reveal_strlit(", ");
        assert(", "@ =~= seq![',', ' ']);
        let piece = trees_text(data, base) + seq![']'];
        lemma_first_char(text, at, piece);
        if data.len() == 0 {
            lemma_elements_unfold(text, from, floats);
        } else {
            let first = tree_text(data[0], base);
            let others = data.skip(1);
            let next = at + first.len();
            lemma_leading(data[0], base);
            let list = trees_text(others, base) + seq![']'];
            let tail = if data.len() == 1 {
                seq![']']
            } else {
                seq![','] + (seq![' '] + list)
            };
            assert(piece =~= first + tail);
            lemma_holds_both(text, at, first, tail);
            lemma_first_char(text, at, first);
            lemma_first_char(text, next, tail);
            lemma_item_back(data[0], base, text, at, floats);
            lemma_no_space(text, next);
            lemma_elements_unfold(text, from, floats);
            if data.len() == 1 {
                assert(others =~= Seq::<Tree>::empty());
                assert(shown_trees(others) =~= Seq::<Tree>::empty());
                assert(shown_trees(data) =~= seq![shown(data[0])]);
            } else {
                lemma_holds_both(text, next, seq![','], seq![' '] + list);
                lemma_holds_both(text, next + 1, seq![' '], list);
                lemma_first_char(text, next + 1, seq![' ']);
                lemma_first_char(text, next + 2, list);
                assert(readable_trees(others));
                lemma_leading(others[0], base);
                assert(list[0] == tree_text(others[0], base)[0]);
                lemma_one_space(text, next + 1);
                lemma_elements_back(others, base, text, next + 1, next + 2, floats);
            }
        }
    }
}

/// The notation of the entries of a map and the bracket behind them are
/// read back, from wherever the white space before them starts.
#[verifier::rlimit(40)]
proof fn lemma_entries_back(
    data: Seq<(Tree, Tree)>,
    base: Encoding,
    text: Seq<char>,
    from: int,
    at: int,
    floats: Seq<FloatText>,
)
    requires
        readable_pairs(data),
        spaces(text, from) == at,
        holds(text, at, pairs_text(data, base) + seq!['}']),
    ensures
        entries(text, from, floats) == Ok::<(Seq<(Tree, Tree)>, int), Error>(
            (shown_pairs(data), at + pairs_text(data, base).len() + 1),
        ),
        peek(text, at) != Some('_'),
    decreases data, 0nat,
{
    {
        reveal_strlit(", ");
        reveal_strlit(":");
        assert(", "@ =~= seq![',', ' ']);
        assert(":"@ =~= seq![':']);
        let piece = pairs_text(data, base) + seq!['}'];
        lemma_first_char(text, at, piece);
        if data.len() == 0 {
            lemma_entries_unfold(text, from, floats);
        } else {
            let key = tree_text(data[0].0, base);
            let value = tree_text(data[0].1, base);
            let others = data.skip(1);
            lemma_leading(data[0].0, base);
            lemma_leading(data[0].1, base);
            let list = pairs_text(others, base) + seq!['}'];
            let tail = if data.len() == 1 {
                seq!['}']
            } else {
                seq![','] + (seq![' '] + list)
            };
            assert(piece =~= key + (seq![':'] + (value + tail)));
            lemma_holds_both(text, at, key, seq![':'] + (value + tail));
            let colon = at + key.len();
            lemma_holds_both(text, colon, seq![':'], value + tail);
            lemma_holds_both(text, colon + 1, value, tail);
            let gap = colon + 1 + value.len();
            lemma_first_char(text, at, key);
            lemma_first_char(text, colon, seq![':']);
            lemma_item_back(data[0].0, base, text, at, floats);
            lemma_no_space(text, colon);
            lemma_first_char(text, colon + 1, value);
            lemma_no_space(text, colon + 1);
            lemma_first_char(text, gap, tail);
            lemma_item_back(data[0].1, base, text, colon + 1, floats);
            lemma_no_space(text, gap);
            lemma_entries_unfold(text, from, floats);
            if data.len() == 1 {
                assert(others =~= Seq::<(Tree, Tree)>::empty());
                assert(shown_pairs(others) =~= Seq::<(Tree, Tree)>::empty());
                assert(shown_pairs(data) =~= seq![(shown(data[0].0), shown(data[0].1))]);
            } else {
                lemma_holds_both(text, gap, seq![','], seq![' '] + list);
                lemma_holds_both(text, gap + 1, seq![' '], list);
                lemma_first_char(text, gap + 1, seq![' ']);
                lemma_first_char(text, gap + 2, list);
                assert(readable_pairs(others));
                lemma_leading(others[0].0, base);
                assert(list[0] == tree_text(others[0].0, base)[0]);
                lemma_one_space(text, gap + 1);
                lemma_entries_back(others, base, text, gap + 1, gap + 2, floats);
            }
        }
    }
}

/// The notation of an array is read back.
proof fn lemma_array_back(tree: Tree, base: Encoding, text: Seq<char>, at: int, floats: Seq<FloatText>)
    requires
        tree is Array,
        readable(tree),
        holds(text, at, tree_text(tree, base)),
    ensures
        item(text, at, floats) == Ok::<(Tree, int), Error>(
            (shown(tree), at + tree_text(tree, base).len()),
        ),
    decreases tree, 0nat,
{
    reveal_strlit("[");
    reveal_strlit("]");
    reveal_strlit("_");
    assert("["@ =~= seq!['[']);
    assert("]"@ =~= seq![']']);
    assert("_"@ =~= seq!['_']);
    let whole = tree_text(tree, base);
    if let Tree::Array { data, bitwidth } = tree {
        let list = trees_text(data, base) + seq![']'];
        let open = bitwidth is None;
        let mark = if open {
            seq!['_']
        } else {
            Seq::<char>::empty()
        };
        assert(whole =~= seq!['['] + (mark + list));
        lemma_first_char(text, at, whole);
        lemma_holds_both(text, at, seq!['['], mark + list);
        lemma_holds_both(text, at + 1, mark, list);
        lemma_first_char(text, at + 1, mark + list);
        lemma_first_char(text, at + 1 + mark.len(), list);
        if data.len() > 0 {
            assert(readable_trees(data));
            lemma_leading(data[0], base);
            assert(list[0] == tree_text(data[0], base)[0]);
        }
        lemma_no_space(text, at + 1 + mark.len());
        lemma_elements_back(data, base, text, at + 1 + mark.len(), at + 1 + mark.len(), floats);
        lemma_array_step(
            text,
            at,
            floats,
            open,
            shown_trees(data),
            at + 1 + mark.len() + list.len(),
        );
    }
}

/// The notation of a map is read back.
proof fn lemma_mapping_back(tree: Tree, base: Encoding, text: Seq<char>, at: int, floats: Seq<FloatText>)
    requires
        tree is Mapping,
        readable(tree),
        holds(text, at, tree_text(tree, base)),
    ensures
        item(text, at, floats) == Ok::<(Tree, int), Error>(
            (shown(tree), at + tree_text(tree, base).len()),
        ),
    decreases tree, 0nat,
{
    reveal_strlit("{");
    reveal_strlit("}");
    reveal_strlit("_");
    assert("{"@ =~= seq!['{']);
    assert("}"@ =~= seq!['}']);
    assert("_"@ =~= seq!['_']);
    let whole = tree_text(tree, base);
    if let Tree::Mapping { data, bitwidth } = tree {
        let list = pairs_text(data, base) + seq!['}'];
        let open = bitwidth is None;
        let mark = if open {
            seq!['_']
        } else {
            Seq::<char>::empty()
        };
        assert(whole =~= seq!['{'] + (mark + list));
        lemma_first_char(text, at, whole);
        lemma_holds_both(text, at, seq!['{'], mark + list);
        lemma_holds_both(text, at + 1, mark, list);
        lemma_first_char(text, at + 1, mark + list);
        lemma_first_char(text, at + 1 + mark.len(), list);
        if data.len() > 0 {
            assert(readable_pairs(data));
            lemma_leading(data[0].0, base);
            assert(list[0] == tree_text(data[0].0, base)[0]);
        }
        lemma_no_space(text, at + 1 + mark.len());
        lemma_entries_back(data, base, text, at + 1 + mark.len(), at + 1 + mark.len(), floats);
        lemma_mapping_step(
            text,
            at,
            floats,
            open,
            shown_pairs(data),
            at + 1 + mark.len() + list.len(),
        );
    }
}

/// The compact notation of an item is read back as the item that
/// notation shows: where a text holds the notation and an item ends
/// behind it, the grammar finds that item there.
pub proof fn lemma_item_back(
    tree: Tree,
    base: Encoding,
    text: Seq<char>,
    at: int,
    floats: Seq<FloatText>,
)
    requires
        readable(tree),
        holds(text, at, tree_text(tree, base)),
        edge(peek(text, at + tree_text(tree, base).len())),
    ensures
        item(text, at, floats) == Ok::<(Tree, int), Error>(
            (shown(tree), at + tree_text(tree, base).len()),
        ),
    decreases tree, 1nat,
{
    match tree {
        Tree::Integer { value, bitwidth } => {
            lemma_integer_back(value, bitwidth, text, at, floats);
        },
        Tree::Negative { value, bitwidth } => {
            lemma_negative_back(value, bitwidth, text, at, floats);
        },
        Tree::Float { value, bitwidth } => {
            lemma_special_back(value, bitwidth, text, at, floats);
        },
        Tree::Simple(value) => {
            lemma_simple_back(value, text, at, floats);
        },
        Tree::Bytes(chunk) => {
            lemma_bytes_back(chunk.data, base, text, at, floats);
        },
        Tree::Text(chunk) => {
            lemma_text_back(chunk.data, text, at, floats);
        },
        Tree::ByteChunks(_) => {
            lemma_chunked_back(tree, base, text, at, floats);
        },
        Tree::TextChunks(_) => {
            lemma_chunked_back(tree, base, text, at, floats);
        },
        Tree::Tag { .. } => {
            lemma_tag_back(tree, base, text, at, floats);
        },
        Tree::Array { .. } => {
            lemma_array_back(tree, base, text, at, floats);
        },
        Tree::Mapping { .. } => {
            lemma_mapping_back(tree, base, text, at, floats);
        },
    }
}

/// In a text without `#` no character stands in a comment.
pub proof fn lemma_not_commented(text: Seq<char>, at: int)
    requires
        !text.contains('#'),
    ensures
        !commented(text, at),
    decreases at + 1,
{
    if 0 <= at < text.len() {
        assert(text[at] != '#');
        if text[at] != '\n' {
            lemma_not_commented(text, at - 1);
        }
    }
}

/// A text without `#` has no comments to leave out.
pub proof fn lemma_uncommented(text: Seq<char>, upto: nat)
    requires
        !text.contains('#'),
        upto <= text.len(),
    ensures
        uncommented(text, upto) == text.take(upto as int),
    decreases upto,
{
    if upto > 0 {
        lemma_not_commented(text, upto - 1);
        lemma_uncommented(text, (upto - 1) as nat);
        assert(text.take(upto as int) =~= text.take(upto - 1).push(text[upto - 1]));
    } else {
        assert(text.take(0) =~= Seq::<char>::empty());
    }
}

/// The compact notation of an item, with nothing before and nothing
/// behind it, is the notation of the item that it shows.
pub proof fn lemma_notation_back(tree: Tree, base: Encoding, floats: Seq<FloatText>)
    requires
        readable(tree),
        !tree_text(tree, base).contains('#'),
    ensures
        notation(tree_text(tree, base), floats) == Ok::<Tree, Error>(shown(tree)),
{
    reveal(holds);
    let text = tree_text(tree, base);
    lemma_uncommented(text, text.len());
    assert(text.take(text.len() as int) =~= text);
    lemma_leading(tree, base);
    assert(text.subrange(0, text.len() as int) =~= text);
    lemma_first_char(text, 0, text);
    lemma_no_space(text, 0);
    lemma_item_back(tree, base, text, 0, floats);
    lemma_no_space(text, text.len() as int);
}

/// What notation gives back for an item has the notation of that item,
/// and can be read back where the item can.
pub proof fn lemma_shown_text(tree: Tree, base: Encoding)
    ensures
        tree_text(shown(tree), base) == tree_text(tree, base),
        readable(tree) ==> readable(shown(tree)),
    decreases tree, 1nat,
{
    match tree {
        Tree::ByteChunks(chunks) => {
            lemma_bare_bytes(chunks, base);
        },
        Tree::TextChunks(chunks) => {
            lemma_bare_texts(chunks);
        },
        Tree::Array { data, .. } => {
            lemma_shown_trees(data, base);
        },
        Tree::Mapping { data, .. } => {
            lemma_shown_pairs(data, base);
        },
        Tree::Tag { tag, value, .. } => {
            lemma_shown_text(*value, tagged_base(base, tag));
        },
        _ => {},
    }
}

/// Chunks of bytes without their widths have the notation of the chunks.
proof fn lemma_bare_bytes(chunks: Seq<Chunk<u8>>, base: Encoding)
    ensures
        byte_chunks_text(bare(chunks), base) == byte_chunks_text(chunks, base),
    decreases chunks.len(),
{
    if chunks.len() > 0 {
        assert(bare(chunks).skip(1) =~= bare(chunks.skip(1)));
        lemma_bare_bytes(chunks.skip(1), base);
    }
}

/// Chunks of text without their widths have the notation of the chunks.
proof fn lemma_bare_texts(chunks: Seq<Chunk<char>>)
    ensures
        text_chunks_text(bare(chunks)) == text_chunks_text(chunks),
    decreases chunks.len(),
{
    if chunks.len() > 0 {
        assert(bare(chunks).skip(1) =~= bare(chunks.skip(1)));
        lemma_bare_texts(chunks.skip(1));
    }
}

/// What notation gives back for items in a row has their notation.
proof fn lemma_shown_trees(data: Seq<Tree>, base: Encoding)
    ensures
        shown_trees(data).len() == data.len(),
        trees_text(shown_trees(data), base) == trees_text(data, base),
        readable_trees(data) ==> readable_trees(shown_trees(data)),
    decreases data, 0nat,
{
    if data.len() > 0 {
        lemma_shown_text(data[0], base);
        lemma_shown_trees(data.skip(1), base);
        assert(shown_trees(data).skip(1) =~= shown_trees(data.skip(1)));
    }
}

/// What notation gives back for map entries in a row has their notation.
proof fn lemma_shown_pairs(data: Seq<(Tree, Tree)>, base: Encoding)
    ensures
        shown_pairs(data).len() == data.len(),
        pairs_text(shown_pairs(data), base) == pairs_text(data, base),
        readable_pairs(data) ==> readable_pairs(shown_pairs(data)),
    decreases data, 0nat,
{
    if data.len() > 0 {
        lemma_shown_text(data[0].0, base);
        lemma_shown_text(data[0].1, base);
        lemma_shown_pairs(data.skip(1), base);
        assert(shown_pairs(data).skip(1) =~= shown_pairs(data.skip(1)));
    }
}

} // verus!
