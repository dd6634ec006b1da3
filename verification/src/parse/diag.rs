//! Diagnostic notation, read: the grammar as functions on a text and a
//! position in it, and the parser that follows them.

use vstd::prelude::*;
use vstd::utf8::encode_utf8;
use crate::encode::bytes::well_formed;
use crate::error::Error;
use crate::float::{FloatTable, FloatText};
use crate::model::{ByteString, DataItem, FloatWidth, IntegerWidth, Simple, Tag, TextString};
use crate::parse::hex::{commented, hex_value, is_space};
use crate::precision::{is_representable, representable};
use crate::tree::{Chunk, Tree, byte_chunk, lemma_tree_of_array, lemma_tree_of_mapping, text_chunk, tree};

verus! {

/// The characters of a text that stand in no comment.
pub open spec fn uncommented(text: Seq<char>, upto: nat) -> Seq<char>
    decreases upto,
{
    if upto == 0 || upto > text.len() {
        Seq::empty()
    } else if commented(text, upto - 1) {
        uncommented(text, (upto - 1) as nat)
    } else {
        uncommented(text, (upto - 1) as nat).push(text[upto - 1])
    }
}

/// The character at a position, if the text reaches that far.
pub open spec fn peek(text: Seq<char>, at: int) -> Option<char> {
    if 0 <= at < text.len() {
        Some(text[at])
    } else {
        None
    }
}

/// The first position from `at` on that holds no white space.
pub open spec fn skip_space(text: Seq<char>, at: int) -> int
    decreases text.len() - at,
{
    if 0 <= at < text.len() && is_space(text[at]) {
        skip_space(text, at + 1)
    } else {
        at
    }
}

/// The value of a character as a digit of the base `base`, if it is one.
pub open spec fn digit_in(c: Option<char>, base: nat) -> Option<nat> {
    match c {
        Some(c) => match hex_value(c) {
            Some(value) => if value < base {
                Some(value)
            } else {
                None
            },
            None => None,
        },
        None => None,
    }
}

/// The first position from `at` on that holds no digit of the base.
pub open spec fn digits_end(text: Seq<char>, at: int, base: nat) -> int
    decreases text.len() - at,
{
    if 0 <= at < text.len() && digit_in(peek(text, at), base) is Some {
        digits_end(text, at + 1, base)
    } else {
        at
    }
}

/// The number that the digits from `from` up to `to` stand for.
pub open spec fn digits_value(text: Seq<char>, from: int, to: int, base: nat) -> nat
    decreases to - from,
{
    if to <= from {
        0
    } else {
        digits_value(text, from, to - 1, base) * base + digit_in(peek(text, to - 1), base)->0
    }
}

/// Whether the text goes on with `word` at the position `at`.
pub open spec fn follows(text: Seq<char>, at: int, word: Seq<char>) -> bool {
    0 <= at && at + word.len() <= text.len() && text.subrange(at, at + word.len()) == word
}

/// A number that was read: its value, the position behind it, and whether
/// it was written in decimal digits.
pub struct Number {
    pub value: nat,
    pub end: int,
    pub decimal: bool,
}

/// The base that a letter behind a leading zero announces.
pub open spec fn base_of(c: Option<char>) -> Option<nat> {
    if c == Some('x') {
        Some(16)
    } else if c == Some('o') {
        Some(8)
    } else if c == Some('b') {
        Some(2)
    } else {
        None
    }
}

/// The number at the position `at`: decimal digits, or `0x`, `0o` or `0b`
/// and digits of that base. `None` where no digit stands.
pub open spec fn number(text: Seq<char>, at: int) -> Option<Number> {
    if peek(text, at) == Some('0') && base_of(peek(text, at + 1)) is Some {
        let base = base_of(peek(text, at + 1))->0;
        let end = digits_end(text, at + 2, base);
        if end == at + 2 {
            None
        } else {
            Some(Number { value: digits_value(text, at + 2, end, base), end, decimal: false })
        }
    } else {
        let end = digits_end(text, at, 10);
        if end == at {
            None
        } else {
            Some(Number { value: digits_value(text, at, end, 10), end, decimal: true })
        }
    }
}

/// The width suffix at the position `at`: an underscore and one decimal
/// digit, or nothing.
pub open spec fn suffix(text: Seq<char>, at: int) -> Result<(Option<nat>, int), Error> {
    if peek(text, at) == Some('_') {
        match digit_in(peek(text, at + 1), 10) {
            Some(digit) => Ok((Some(digit), at + 2)),
            None => Err(Error::Syntax),
        }
    } else {
        Ok((None, at))
    }
}

/// The width that a suffix of an integer or of a tag stands for.
pub open spec fn integer_width(suffix: Option<nat>) -> Result<IntegerWidth, Error> {
    match suffix {
        None => Ok(IntegerWidth::Unknown),
        Some(digit) => if digit == 0 {
            Ok(IntegerWidth::Eight)
        } else if digit == 1 {
            Ok(IntegerWidth::Sixteen)
        } else if digit == 2 {
            Ok(IntegerWidth::ThirtyTwo)
        } else if digit == 3 {
            Ok(IntegerWidth::SixtyFour)
        } else {
            Err(Error::Syntax)
        },
    }
}

/// The precision that a suffix of a float stands for.
pub open spec fn float_width(suffix: Option<nat>) -> Result<FloatWidth, Error> {
    match suffix {
        None => Ok(FloatWidth::Unknown),
        Some(digit) => if digit == 1 {
            Ok(FloatWidth::Sixteen)
        } else if digit == 2 {
            Ok(FloatWidth::ThirtyTwo)
        } else if digit == 3 {
            Ok(FloatWidth::SixtyFour)
        } else {
            Err(Error::Syntax)
        },
    }
}

/// The position behind a fraction and an exponent that follow the digits
/// of a number: a point and digits, then `e` or `E`, a sign and digits,
/// each where it stands.
pub open spec fn float_end(text: Seq<char>, at: int) -> int {
    let fraction = if peek(text, at) == Some('.') {
        digits_end(text, at + 1, 10)
    } else {
        at
    };
    if peek(text, fraction) == Some('e') || peek(text, fraction) == Some('E') {
        let signed = if peek(text, fraction + 1) == Some('+') || peek(text, fraction + 1) == Some(
            '-',
        ) {
            fraction + 2
        } else {
            fraction + 1
        };
        digits_end(text, signed, 10)
    } else {
        fraction
    }
}

/// The double that a table gives for the digits of a float in a
/// precision: that of the first entry with these digits and this
/// precision.
pub open spec fn value_of(entries: Seq<FloatText>, digits: Seq<char>, bitwidth: FloatWidth) -> Option<
    u64,
>
    decreases entries.len(),
{
    if entries.len() == 0 {
        None
    } else if entries[0].text@ == digits && entries[0].bitwidth == bitwidth {
        Some(entries[0].value)
    } else {
        value_of(entries.skip(1), digits, bitwidth)
    }
}

/// The six bits, five bits or four bits that a character of an encoded
/// byte string stands for: a hexadecimal digit; `A` to `Z` and `2` to `7`
/// in base 32; and in base 64 `A` to `Z`, `a` to `z`, `0` to `9`, then
/// `+` or `-`, and `/` or `_`.
pub open spec fn code_value(c: char, bits: nat) -> Option<nat> {
    if bits == 4 {
        hex_value(c)
    } else if bits == 5 {
        if 'A' <= c && c <= 'Z' {
            Some((c as nat - 65) as nat)
        } else if '2' <= c && c <= '7' {
            Some((c as nat - 24) as nat)
        } else {
            None
        }
    } else {
        if 'A' <= c && c <= 'Z' {
            Some((c as nat - 65) as nat)
        } else if 'a' <= c && c <= 'z' {
            Some((c as nat - 71) as nat)
        } else if '0' <= c && c <= '9' {
            Some((c as nat + 4) as nat)
        } else if c == '+' || c == '-' {
            Some(62)
        } else if c == '/' || c == '_' {
            Some(63)
        } else {
            None
        }
    }
}

/// Two to the power of a small number.
pub open spec fn two_to(bits: nat) -> nat
    decreases bits,
{
    if bits == 0 {
        1
    } else {
        2 * two_to((bits - 1) as nat)
    }
}

/// The bits that are held with `bits` more bits behind them.
#[verifier::opaque]
pub open spec fn pushed(held: nat, bits: nat, value: nat) -> nat {
    held * two_to(bits) + value
}

/// The byte above the lowest `rest` bits.
#[verifier::opaque]
pub open spec fn top_byte(more: nat, rest: nat) -> u8 {
    (more / two_to(rest)) as u8
}

/// The lowest `rest` bits.
#[verifier::opaque]
pub open spec fn low_bits(more: nat, rest: nat) -> nat {
    more % two_to(rest)
}

/// The bytes that the body of an encoded byte string stands for, from the
/// position `at` up to the closing quote: each character gives `bits`
/// bits, white space between them is passed over, every eight bits make a
/// byte, and the bits that are left at the end are fewer than a character
/// gives and all zero. `held` are the bits that wait for their byte,
/// `count` of them.
pub open spec fn encoded_body(text: Seq<char>, at: int, bits: nat, held: nat, count: nat) -> Result<
    (Seq<u8>, int),
    Error,
>
    decreases text.len() - at,
{
    if at < 0 || at >= text.len() {
        Err(Error::Syntax)
    } else if text[at] == '\'' {
        if held == 0 && count < bits {
            Ok((Seq::empty(), at + 1))
        } else {
            Err(Error::Syntax)
        }
    } else if is_space(text[at]) {
        encoded_body(text, at + 1, bits, held, count)
    } else {
        match code_value(text[at], bits) {
            None => Err(Error::Syntax),
            Some(value) => {
                let more = pushed(held, bits, value);
                let have = count + bits;
                if have >= 8 {
                    let rest = (have - 8) as nat;
                    behind(
                        seq![top_byte(more, rest)],
                        encoded_body(text, at + 1, bits, low_bits(more, rest), rest),
                    )
                } else {
                    encoded_body(text, at + 1, bits, more, have)
                }
            },
        }
    }
}

/// The position behind up to six hexadecimal digits of a `\u{...}`
/// escape.
pub open spec fn scalar_end(text: Seq<char>, at: int) -> int {
    let end = digits_end(text, at, 16);
    if end > at + 6 {
        at + 6
    } else {
        end
    }
}

/// Whether a number is a Unicode scalar value: a code point that is no
/// surrogate.
pub open spec fn is_scalar(value: nat) -> bool {
    value < 0xd800 || (0xe000 <= value && value <= 0x10_ffff)
}

/// The character that an escape stands for, and the position behind it;
/// `at` is the position behind the backslash.
pub open spec fn escape(text: Seq<char>, at: int) -> Result<(char, int), Error> {
    let c = peek(text, at);
    if c == Some('"') || c == Some('\'') || c == Some('\\') {
        Ok((c->0, at + 1))
    } else if c == Some('n') {
        Ok(('\n', at + 1))
    } else if c == Some('t') {
        Ok(('\t', at + 1))
    } else if c == Some('r') {
        Ok(('\r', at + 1))
    } else if c == Some('u') && peek(text, at + 1) == Some('{') {
        let end = scalar_end(text, at + 2);
        let value = digits_value(text, at + 2, end, 16);
        if end > at + 2 && peek(text, end) == Some('}') && is_scalar(value) {
            Ok((value as u32 as char, end + 1))
        } else {
            Err(Error::Syntax)
        }
    } else {
        Err(Error::Syntax)
    }
}

/// The characters of a quoted string from the position `at` up to the
/// closing `quote`, with every escape resolved.
pub open spec fn quoted(text: Seq<char>, at: int, quote: char) -> Result<(Seq<char>, int), Error>
    decreases text.len() - at,
{
    if at < 0 || at >= text.len() {
        Err(Error::Syntax)
    } else if text[at] == quote {
        Ok((Seq::empty(), at + 1))
    } else if text[at] == '\\' {
        match escape(text, at + 1) {
            Ok((c, next)) => if next <= at {
                Err(Error::Syntax)
            } else {
                match quoted(text, next, quote) {
                    Ok((more, end)) => Ok((seq![c] + more, end)),
                    Err(error) => Err(error),
                }
            },
            Err(error) => Err(error),
        }
    } else {
        match quoted(text, at + 1, quote) {
            Ok((more, end)) => Ok((seq![text[at]] + more, end)),
            Err(error) => Err(error),
        }
    }
}

/// Whether every character is ASCII.
pub open spec fn all_ascii(text: Seq<char>) -> bool {
    forall|i: int| 0 <= i < text.len() ==> (#[trigger] text[i]) as u32 <= 127
}

/// The bytes of ASCII characters.
pub open spec fn ascii_bytes(text: Seq<char>) -> Seq<u8> {
    Seq::new(text.len(), |i: int| text[i] as u8)
}

/// The byte string at the position `at`, if one starts there: `h'...'`,
/// `b32'...'`, `b64'...'`, or ASCII text in single quotes.
pub open spec fn byte_string(text: Seq<char>, at: int) -> Option<Result<(Seq<u8>, int), Error>> {
    if follows(text, at, "h'"@) {
        Some(encoded_body(text, at + 2, 4, 0, 0))
    } else if follows(text, at, "b32'"@) {
        Some(encoded_body(text, at + 4, 5, 0, 0))
    } else if follows(text, at, "b64'"@) {
        Some(encoded_body(text, at + 4, 6, 0, 0))
    } else if peek(text, at) == Some('\'') {
        Some(
            match quoted(text, at + 1, '\'') {
                Ok((raw, end)) => if all_ascii(raw) {
                    Ok((ascii_bytes(raw), end))
                } else {
                    Err(Error::Syntax)
                },
                Err(error) => Err(error),
            },
        )
    } else {
        None
    }
}

/// The first position from `at` on that holds no white space, and never
/// a position before `at`.
pub open spec fn spaces(text: Seq<char>, at: int) -> int {
    if skip_space(text, at) >= at {
        skip_space(text, at)
    } else {
        at
    }
}

/// A text string of the given characters, as notation has it: without a
/// width.
pub open spec fn text_tree(data: Seq<char>) -> Tree {
    Tree::Text(Chunk { data, bitwidth: IntegerWidth::Unknown })
}

/// A byte string of the given bytes, as notation has it: without a width.
pub open spec fn bytes_tree(data: Seq<u8>) -> Tree {
    Tree::Bytes(Chunk { data, bitwidth: IntegerWidth::Unknown })
}

/// The text strings from the position `at` up to a closing bracket, with
/// commas or nothing between them.
pub open spec fn text_chunks(text: Seq<char>, at: int) -> Result<(Seq<Chunk<char>>, int), Error>
    decreases text.len() - at,
{
    let start = spaces(text, at);
    if peek(text, start) == Some(')') {
        Ok((Seq::empty(), start + 1))
    } else if peek(text, start) != Some('"') {
        Err(Error::Syntax)
    } else {
        match quoted(text, start + 1, '"') {
            Err(error) => Err(error),
            Ok((data, next)) => {
                let gap = spaces(text, next);
                let after = if peek(text, gap) == Some(',') {
                    gap + 1
                } else {
                    gap
                };
                if next <= start || after > text.len() {
                    Err(Error::Syntax)
                } else {
                    match text_chunks(text, after) {
                        Err(error) => Err(error),
                        Ok((more, end)) => Ok(
                            (seq![Chunk { data, bitwidth: IntegerWidth::Unknown }] + more, end),
                        ),
                    }
                }
            },
        }
    }
}

/// The byte strings from the position `at` up to a closing bracket, with
/// commas or nothing between them.
pub open spec fn byte_chunks(text: Seq<char>, at: int) -> Result<(Seq<Chunk<u8>>, int), Error>
    decreases text.len() - at,
{
    let start = spaces(text, at);
    if peek(text, start) == Some(')') {
        Ok((Seq::empty(), start + 1))
    } else {
        match byte_string(text, start) {
            None => Err(Error::Syntax),
            Some(Err(error)) => Err(error),
            Some(Ok((data, next))) => {
                let gap = spaces(text, next);
                let after = if peek(text, gap) == Some(',') {
                    gap + 1
                } else {
                    gap
                };
                if next <= start || after > text.len() {
                    Err(Error::Syntax)
                } else {
                    match byte_chunks(text, after) {
                        Err(error) => Err(error),
                        Ok((more, end)) => Ok(
                            (seq![Chunk { data, bitwidth: IntegerWidth::Unknown }] + more, end),
                        ),
                    }
                }
            },
        }
    }
}

/// The indefinite-length string behind an opening round bracket: an
/// underscore, then text strings or byte strings.
pub open spec fn chunked(text: Seq<char>, at: int) -> Result<(Tree, int), Error> {
    if peek(text, at) != Some('_') {
        Err(Error::Syntax)
    } else if peek(text, spaces(text, at + 1)) == Some('"') {
        match text_chunks(text, at + 1) {
            Ok((chunks, end)) => Ok((Tree::TextChunks(chunks), end)),
            Err(error) => Err(error),
        }
    } else {
        match byte_chunks(text, at + 1) {
            Ok((chunks, end)) => Ok((Tree::ByteChunks(chunks), end)),
            Err(error) => Err(error),
        }
    }
}

/// The float with the digits from `from` up to `to` and the suffix behind
/// them. The table gives the double for the digits in the precision of
/// the suffix; digits that it does not have are no float, and a double
/// that the precision cannot hold overflows it.
pub open spec fn float(text: Seq<char>, from: int, to: int, floats: Seq<FloatText>) -> Result<
    (Tree, int),
    Error,
> {
    match suffix(text, to) {
        Err(error) => Err(error),
        Ok((digit, end)) => match float_width(digit) {
            Err(error) => Err(error),
            Ok(bitwidth) => match value_of(floats, text.subrange(from, to), bitwidth) {
                None => Err(Error::Syntax),
                Some(value) => if representable(value, bitwidth) {
                    Ok((Tree::Float { value, bitwidth }, end))
                } else {
                    Err(Error::WidthOverflow)
                },
            },
        },
    }
}

/// A float that is no number, with the suffix behind its name.
pub open spec fn special_float(text: Seq<char>, at: int, value: u64) -> Result<(Tree, int), Error> {
    match suffix(text, at) {
        Err(error) => Err(error),
        Ok((digit, end)) => match float_width(digit) {
            Err(error) => Err(error),
            Ok(bitwidth) => Ok((Tree::Float { value, bitwidth }, end)),
        },
    }
}

/// The simple value behind `simple(`: a decimal number up to 255 and a
/// closing bracket.
pub open spec fn simple(text: Seq<char>, at: int) -> Result<(Tree, int), Error> {
    match number(text, at) {
        None => Err(Error::Syntax),
        Some(read) => if read.decimal && read.value <= 255 && peek(text, read.end) == Some(')') {
            Ok((Tree::Simple(read.value as u8), read.end + 1))
        } else {
            Err(Error::Syntax)
        },
    }
}

/// The negative integer or float behind a minus sign at `at`.
pub open spec fn negative(text: Seq<char>, at: int, floats: Seq<FloatText>) -> Result<
    (Tree, int),
    Error,
> {
    match number(text, at + 1) {
        None => Err(Error::Syntax),
        Some(read) => if read.decimal && float_end(text, read.end) > read.end {
            float(text, at, float_end(text, read.end), floats)
        } else {
            match suffix(text, read.end) {
                Err(error) => Err(error),
                Ok((digit, end)) => match integer_width(digit) {
                    Err(error) => Err(error),
                    Ok(bitwidth) => if read.value == 0 || read.value > 0x1_0000_0000_0000_0000 {
                        Err(Error::Syntax)
                    } else if !bitwidth.holds((read.value - 1) as u64) {
                        Err(Error::WidthOverflow)
                    } else {
                        Ok((Tree::Negative { value: (read.value - 1) as u64, bitwidth }, end))
                    },
                },
            }
        },
    }
}

/// The elements of an array from the position `at` up to the closing
/// bracket, with commas between them; a comma may follow the last.
pub open spec fn elements(text: Seq<char>, at: int, floats: Seq<FloatText>) -> Result<
    (Seq<Tree>, int),
    Error,
>
    decreases text.len() - at, 2nat,
{
    let start = spaces(text, at);
    if peek(text, start) == Some(']') {
        Ok((Seq::empty(), start + 1))
    } else if start > text.len() {
        Err(Error::Syntax)
    } else {
        match item(text, start, floats) {
            Err(error) => Err(error),
            Ok((first, next)) => {
                let gap = spaces(text, next);
                if next <= start || gap >= text.len() {
                    Err(Error::Syntax)
                } else if peek(text, gap) == Some(',') {
                    match elements(text, gap + 1, floats) {
                        Err(error) => Err(error),
                        Ok((more, end)) => Ok((seq![first] + more, end)),
                    }
                } else if peek(text, gap) == Some(']') {
                    Ok((seq![first], gap + 1))
                } else {
                    Err(Error::Syntax)
                }
            },
        }
    }
}

/// The entries of a map from the position `at` up to the closing bracket:
/// a key, a colon and a value each, with commas between them; a comma may
/// follow the last.
pub open spec fn entries(text: Seq<char>, at: int, floats: Seq<FloatText>) -> Result<
    (Seq<(Tree, Tree)>, int),
    Error,
>
    decreases text.len() - at, 2nat,
{
    let start = spaces(text, at);
    if peek(text, start) == Some('}') {
        Ok((Seq::empty(), start + 1))
    } else if start > text.len() {
        Err(Error::Syntax)
    } else {
        match item(text, start, floats) {
            Err(error) => Err(error),
            Ok((key, next)) => {
                let colon = spaces(text, next);
                if next <= start || peek(text, colon) != Some(':') || spaces(text, colon + 1)
                    > text.len() {
                    Err(Error::Syntax)
                } else {
                    match item(text, spaces(text, colon + 1), floats) {
                        Err(error) => Err(error),
                        Ok((value, last)) => {
                            let gap = spaces(text, last);
                            if last <= colon || gap >= text.len() {
                                Err(Error::Syntax)
                            } else if peek(text, gap) == Some(',') {
                                match entries(text, gap + 1, floats) {
                                    Err(error) => Err(error),
                                    Ok((more, end)) => Ok((seq![(key, value)] + more, end)),
                                }
                            } else if peek(text, gap) == Some('}') {
                                Ok((seq![(key, value)], gap + 1))
                            } else {
                                Err(Error::Syntax)
                            }
                        },
                    }
                }
            },
        }
    }
}

/// The integer, float or tagged item that starts with a digit at `at`.
pub open spec fn unsigned(text: Seq<char>, at: int, floats: Seq<FloatText>) -> Result<
    (Tree, int),
    Error,
>
    decreases text.len() - at, 0nat,
{
    match number(text, at) {
        None => Err(Error::Syntax),
        Some(read) => if read.decimal && float_end(text, read.end) > read.end {
            float(text, at, float_end(text, read.end), floats)
        } else {
            match suffix(text, read.end) {
                Err(error) => Err(error),
                Ok((digit, end)) => match integer_width(digit) {
                    Err(error) => Err(error),
                    Ok(bitwidth) => if read.value > u64::MAX {
                        Err(Error::Syntax)
                    } else if !bitwidth.holds(read.value as u64) {
                        Err(Error::WidthOverflow)
                    } else if peek(text, end) != Some('(') {
                        Ok((Tree::Integer { value: read.value as u64, bitwidth }, end))
                    } else if end < at || spaces(text, end + 1) > text.len() {
                        Err(Error::Syntax)
                    } else {
                        match item(text, spaces(text, end + 1), floats) {
                            Err(error) => Err(error),
                            Ok((value, next)) => if peek(text, spaces(text, next)) == Some(')') {
                                Ok(
                                    (
                                        Tree::Tag {
                                            tag: read.value as u64,
                                            bitwidth,
                                            value: Box::new(value),
                                        },
                                        spaces(text, next) + 1,
                                    ),
                                )
                            } else {
                                Err(Error::Syntax)
                            },
                        }
                    },
                },
            }
        },
    }
}

/// The width of a container as notation has it: none where an
/// underscore leaves the length open.
pub open spec fn container_width(open: bool) -> Option<IntegerWidth> {
    if open {
        None
    } else {
        Some(IntegerWidth::Unknown)
    }
}

/// The array behind an opening square bracket.
pub open spec fn array(text: Seq<char>, at: int, floats: Seq<FloatText>) -> Result<
    (Tree, int),
    Error,
>
    decreases text.len() - at, 3nat,
{
    let open = peek(text, at) == Some('_');
    if at < 0 || at > text.len() {
        Err(Error::Syntax)
    } else {
        match elements(text, if open { at + 1 } else { at }, floats) {
            Ok((data, end)) => Ok((Tree::Array { data, bitwidth: container_width(open) }, end)),
            Err(error) => Err(error),
        }
    }
}

/// The map behind an opening curly bracket.
pub open spec fn mapping(text: Seq<char>, at: int, floats: Seq<FloatText>) -> Result<
    (Tree, int),
    Error,
>
    decreases text.len() - at, 3nat,
{
    let open = peek(text, at) == Some('_');
    if at < 0 || at > text.len() {
        Err(Error::Syntax)
    } else {
        match entries(text, if open { at + 1 } else { at }, floats) {
            Ok((data, end)) => Ok((Tree::Mapping { data, bitwidth: container_width(open) }, end)),
            Err(error) => Err(error),
        }
    }
}

/// The item at the position `at`, and the position behind it.
#[verifier::opaque]
pub open spec fn item(text: Seq<char>, at: int, floats: Seq<FloatText>) -> Result<
    (Tree, int),
    Error,
>
    decreases text.len() - at, 1nat,
{
    let c = peek(text, at);
    if c is None {
        Err(Error::Syntax)
    } else if c == Some('"') {
        match quoted(text, at + 1, '"') {
            Ok((data, end)) => Ok((text_tree(data), end)),
            Err(error) => Err(error),
        }
    } else if byte_string(text, at) is Some {
        match byte_string(text, at)->0 {
            Ok((data, end)) => Ok((bytes_tree(data), end)),
            Err(error) => Err(error),
        }
    } else if c == Some('[') {
        array(text, at + 1, floats)
    } else if c == Some('{') {
        mapping(text, at + 1, floats)
    } else if c == Some('(') {
        chunked(text, at + 1)
    } else if follows(text, at, "false"@) {
        Ok((Tree::Simple(20), at + 5))
    } else if follows(text, at, "true"@) {
        Ok((Tree::Simple(21), at + 4))
    } else if follows(text, at, "null"@) {
        Ok((Tree::Simple(22), at + 4))
    } else if follows(text, at, "undefined"@) {
        Ok((Tree::Simple(23), at + 9))
    } else if follows(text, at, "simple("@) {
        simple(text, at + 7)
    } else if follows(text, at, "NaN"@) {
        special_float(text, at + 3, 0x7ff8_0000_0000_0000)
    } else if follows(text, at, "Infinity"@) {
        special_float(text, at + 8, 0x7ff0_0000_0000_0000)
    } else if follows(text, at, "-Infinity"@) {
        special_float(text, at + 9, 0xfff0_0000_0000_0000)
    } else if c == Some('-') {
        negative(text, at, floats)
    } else {
        unsigned(text, at, floats)
    }
}

/// The item that a text is the notation of: the text without its comments
/// holds the item, between white space, and nothing else.
pub open spec fn notation(text: Seq<char>, floats: Seq<FloatText>) -> Result<Tree, Error> {
    let clean = uncommented(text, text.len());
    match item(clean, spaces(clean, 0), floats) {
        Err(error) => Err(error),
        Ok((tree, end)) => if spaces(clean, end) == clean.len() {
            Ok(tree)
        } else {
            Err(Error::Syntax)
        },
    }
}

/// White space is passed over up to the end of the text at most.
pub proof fn lemma_skip_space(text: Seq<char>, at: int)
    requires
        0 <= at <= text.len(),
    ensures
        at <= skip_space(text, at) <= text.len(),
        spaces(text, at) == skip_space(text, at),
        skip_space(text, at) < text.len() ==> !is_space(text[skip_space(text, at)]),
    decreases text.len() - at,
{
    if at < text.len() && is_space(text[at]) {
        lemma_skip_space(text, at + 1);
    }
}

/// Digits end at the end of the text at most, and what stands before
/// their end, from `at` on, is digits.
pub proof fn lemma_digits_end(text: Seq<char>, at: int, base: nat)
    requires
        0 <= at <= text.len(),
    ensures
        at <= digits_end(text, at, base) <= text.len(),
        forall|i: int|
            at <= i < digits_end(text, at, base) ==> digit_in(#[trigger] peek(text, i), base)
                is Some,
        digit_in(peek(text, digits_end(text, at, base)), base) is None,
    decreases text.len() - at,
{
    if at < text.len() && digit_in(peek(text, at), base) is Some {
        lemma_digits_end(text, at + 1, base);
    }
}

/// The text without its comments, character by character.
pub fn strip(text: &str) -> (clean: Vec<char>)
    ensures
        clean@ == uncommented(text@, text@.len()),
{
    let mut clean: Vec<char> = Vec::new();
    let mut comment = false;
    for c in it: text.chars()
        invariant
            it.seq() == text@,
            comment == commented(text@, it.index() - 1),
            clean@ == uncommented(text@, it.index() as nat),
    {
        assert(c == text@[it.index() as int]);
        if c == '#' {
            comment = true;
        } else if c == '\n' {
            comment = false;
            clean.push(c);
        } else if !comment {
            clean.push(c);
        }
    }
    clean
}

/// The character at a position, if the text reaches that far.
fn get(text: &Vec<char>, at: usize) -> (c: Option<char>)
    ensures
        c == peek(text@, at as int),
{
    if at < text.len() {
        Some(text[at])
    } else {
        None
    }
}

/// Whether a character is white space.
fn space(c: char) -> (r: bool)
    ensures
        r == is_space(c),
{
    c == ' ' || c == '\t' || c == '\n' || c == '\x0c' || c == '\r'
}

/// The first position from `at` on that holds no white space.
fn skip(text: &Vec<char>, at: usize) -> (next: usize)
    requires
        at <= text@.len(),
    ensures
        next == spaces(text@, at as int),
        at <= next <= text@.len(),
{
    let mut next = at;
    proof {
        lemma_skip_space(text@, at as int);
    }
    while next < text.len() && space(text[next])
        invariant
            at <= next <= text@.len(),
            skip_space(text@, next as int) == skip_space(text@, at as int),
        decreases text@.len() - next,
    {
        next += 1;
    }
    next
}

/// The value of a character as a digit of the base `base`, if it is one.
fn digit_of(c: Option<char>, base: u8) -> (value: Option<u8>)
    requires
        base <= 16,
    ensures
        value is Some <==> digit_in(c, base as nat) is Some,
        value matches Some(v) ==> v == digit_in(c, base as nat)->0 && v < base,
{
    match c {
        None => None,
        Some(c) => {
            let value: u8 = if '0' <= c && c <= '9' {
                (c as u32 - 48) as u8
            } else if 'a' <= c && c <= 'f' {
                (c as u32 - 87) as u8
            } else if 'A' <= c && c <= 'F' {
                (c as u32 - 55) as u8
            } else {
                return None;
            };
            if value < base {
                Some(value)
            } else {
                None
            }
        },
    }
}

/// A number that is too large to matter: every limit of the grammar lies
/// below it.
pub const HUGE: u128 = 0x1_0000_0000_0000_0000_0000;

/// The smaller of a number and [`HUGE`].
pub open spec fn limited(value: nat) -> nat {
    if value < HUGE {
        value
    } else {
        HUGE as nat
    }
}

/// The digits of the base `base` from `at` on: where they end, and the
/// number they stand for, or [`HUGE`] where that is less.
fn read_digits(text: &Vec<char>, at: usize, base: u8) -> (r: (u128, usize))
    requires
        at <= text@.len(),
        2 <= base <= 16,
    ensures
        r.1 == digits_end(text@, at as int, base as nat),
        at <= r.1 <= text@.len(),
        r.0 == limited(digits_value(text@, at as int, r.1 as int, base as nat)),
{
    let mut end = at;
    let mut value: u128 = 0;
    let len = text.len();
    proof {
        lemma_digits_end(text@, at as int, base as nat);
    }
    loop
        invariant
            at <= end <= text@.len(),
            len == text@.len(),
            2 <= base <= 16,
            digits_end(text@, end as int, base as nat) == digits_end(
                text@,
                at as int,
                base as nat,
            ),
            value == limited(digits_value(text@, at as int, end as int, base as nat)),
        ensures
            end == digits_end(text@, at as int, base as nat),
            at <= end <= text@.len(),
            value == limited(digits_value(text@, at as int, end as int, base as nat)),
        decreases text@.len() - end,
    {
        match digit_of(get(text, end), base) {
            None => {
                break ;
            },
            Some(digit) => {
                let ghost before = digits_value(text@, at as int, end as int, base as nat);
                let ghost after = digits_value(text@, at as int, end + 1, base as nat);
                assert(after == before * base + digit);
                assert(before >= HUGE ==> before * base + digit >= HUGE) by (nonlinear_arith)
                    requires
                        base >= 2,
                        digit >= 0,
                ;
                assert(value * base <= HUGE * 16) by (nonlinear_arith)
                    requires
                        value <= HUGE,
                        base <= 16,
                ;
                let ghost held = value;
                value = value * base as u128 + digit as u128;
                assert(before < HUGE ==> value == after) by (nonlinear_arith)
                    requires
                        before < HUGE ==> held == before,
                        value == held * base + digit,
                        after == before * base + digit,
                ;
                assert(held >= HUGE ==> value > HUGE) by (nonlinear_arith)
                    requires
                        value == held * base + digit,
                        base >= 2,
                        digit >= 0,
                        HUGE > 0,
                ;
                if value > HUGE {
                    value = HUGE;
                }
                end += 1;
            },
        }
    }
    (value, end)
}

/// A number that was read, its value limited by [`HUGE`].
pub struct ReadNumber {
    pub value: u128,
    pub end: usize,
    pub decimal: bool,
}

/// Reads the number at the position `at`.
fn read_number(text: &Vec<char>, at: usize) -> (r: Option<ReadNumber>)
    requires
        at <= text@.len(),
    ensures
        r is Some <==> number(text@, at as int) is Some,
        r matches Some(read) ==> read.value == limited(number(text@, at as int)->0.value)
            && read.end == number(text@, at as int)->0.end && read.decimal == number(
            text@,
            at as int,
        )->0.decimal && at < read.end <= text@.len(),
{
    let based: Option<u8> = match (get(text, at), if at < text.len() {
        get(text, at + 1)
    } else {
        None
    }) {
        (Some('0'), Some('x')) => Some(16),
        (Some('0'), Some('o')) => Some(8),
        (Some('0'), Some('b')) => Some(2),
        _ => None,
    };
    match based {
        Some(base) => {
            let (value, end) = read_digits(text, at + 2, base);
            if end == at + 2 {
                None
            } else {
                Some(ReadNumber { value, end, decimal: false })
            }
        },
        None => {
            let (value, end) = read_digits(text, at, 10);
            if end == at {
                None
            } else {
                Some(ReadNumber { value, end, decimal: true })
            }
        },
    }
}

/// Reads the width suffix at the position `at`.
fn read_suffix(text: &Vec<char>, at: usize) -> (r: Result<(Option<u8>, usize), Error>)
    requires
        at <= text@.len(),
    ensures
        match suffix(text@, at as int) {
            Ok((digit, end)) => r matches Ok((got, next)) && next == end && next <= text@.len()
                && at <= next && (digit is Some <==> got is Some) && (digit matches Some(d)
                ==> got->0 == d),
            Err(error) => r matches Err(e) && e == error,
        },
{
    let len = text.len();
    match get(text, at) {
        Some('_') => {
            match digit_of(get(text, at + 1), 10) {
                Some(digit) => Ok((Some(digit), at + 2)),
                None => Err(Error::Syntax),
            }
        },
        _ => Ok((None, at)),
    }
}

/// The width that a suffix of an integer or of a tag stands for.
fn suffix_width(digit: Option<u8>) -> (r: Result<IntegerWidth, Error>)
    ensures
        r == integer_width(
            match digit {
                Some(d) => Some(d as nat),
                None => None,
            },
        ),
{
    match digit {
        None => Ok(IntegerWidth::Unknown),
        Some(0) => Ok(IntegerWidth::Eight),
        Some(1) => Ok(IntegerWidth::Sixteen),
        Some(2) => Ok(IntegerWidth::ThirtyTwo),
        Some(3) => Ok(IntegerWidth::SixtyFour),
        Some(_) => Err(Error::Syntax),
    }
}

/// The precision that a suffix of a float stands for.
fn suffix_precision(digit: Option<u8>) -> (r: Result<FloatWidth, Error>)
    ensures
        r == float_width(
            match digit {
                Some(d) => Some(d as nat),
                None => None,
            },
        ),
{
    match digit {
        None => Ok(FloatWidth::Unknown),
        Some(1) => Ok(FloatWidth::Sixteen),
        Some(2) => Ok(FloatWidth::ThirtyTwo),
        Some(3) => Ok(FloatWidth::SixtyFour),
        Some(_) => Err(Error::Syntax),
    }
}

/// What was read with something before it.
pub open spec fn behind<T>(before: Seq<T>, read: Result<(Seq<T>, int), Error>) -> Result<
    (Seq<T>, int),
    Error,
> {
    match read {
        Ok((more, end)) => Ok((before + more, end)),
        Err(error) => Err(error),
    }
}

/// Whether the text goes on with `word` at the position `at`.
fn goes_on(text: &Vec<char>, at: usize, word: &str) -> (r: bool)
    requires
        at <= text@.len(),
    ensures
        r == follows(text@, at as int, word@),
{
    let len = word.unicode_len();
    let total = text.len();
    if total - at < len {
        return false;
    }
    let mut i: usize = 0;
    while i < len
        invariant
            i <= len,
            len == word@.len(),
            total == text@.len(),
            at + len <= total,
            forall|j: int| 0 <= j < i ==> text@[at + j] == word@[j],
        decreases len - i,
    {
        if text[at + i] != word.get_char(i) {
            assert(text@.subrange(at as int, at + len)[i as int] != word@[i as int]);
            return false;
        }
        i += 1;
    }
    assert(text@.subrange(at as int, at + len) =~= word@);
    true
}

/// `char::from_u32`: the character with a scalar value, and nothing for a
/// number that is no scalar value.
#[verifier::external_body]
fn scalar(value: u32) -> (c: Option<char>)
    ensures
        c is Some <==> is_scalar(value as nat),
        c matches Some(found) ==> found == value as char,
{
    char::from_u32(value)
}

/// Reads the escape behind a backslash.
fn read_escape(text: &Vec<char>, at: usize) -> (r: Result<(char, usize), Error>)
    requires
        at <= text@.len(),
    ensures
        match escape(text@, at as int) {
            Ok((c, end)) => r matches Ok((got, next)) && got == c && next == end && at < next
                <= text@.len(),
            Err(error) => r matches Err(e) && e == error,
        },
{
    let len = text.len();
    match get(text, at) {
        Some('"') => Ok(('"', at + 1)),
        Some('\'') => Ok(('\'', at + 1)),
        Some('\\') => Ok(('\\', at + 1)),
        Some('n') => Ok(('\n', at + 1)),
        Some('t') => Ok(('\t', at + 1)),
        Some('r') => Ok(('\r', at + 1)),
        Some('u') => {
            match get(text, at + 1) {
                Some('{') => {
                    let (value, end) = read_digits(text, at + 2, 16);
                    proof {
                        lemma_digits_end(text@, at + 2, 16);
                    }
                    if end - at > 8 {
                        assert(digit_in(peek(text@, at + 8), 16) is Some);
                        return Err(Error::Syntax);
                    }
                    if end == at + 2 || value > 0x10_ffff {
                        return Err(Error::Syntax);
                    }
                    match get(text, end) {
                        Some('}') => {
                            match scalar(value as u32) {
                                Some(c) => Ok((c, end + 1)),
                                None => Err(Error::Syntax),
                            }
                        },
                        _ => Err(Error::Syntax),
                    }
                },
                _ => Err(Error::Syntax),
            }
        },
        _ => Err(Error::Syntax),
    }
}

/// Reads a quoted string from the position `at`, behind the opening
/// quote, up to the closing one.
fn read_quoted(text: &Vec<char>, at: usize, quote: char) -> (r: Result<(String, usize), Error>)
    requires
        at <= text@.len(),
    ensures
        match quoted(text@, at as int, quote) {
            Ok((data, end)) => r matches Ok((got, next)) && got@ == data && next == end && at
                < next <= text@.len(),
            Err(error) => r matches Err(e) && e == error,
        },
{
    let mut out = String::new();
    let mut i: usize = at;
    let len = text.len();
    assert(behind(out@, quoted(text@, i as int, quote)) == quoted(text@, at as int, quote)) by {
        let read = quoted(text@, at as int, quote);
        if let Ok((more, end)) = read {
            assert(out@ + more =~= more);
        }
    }
    loop
        invariant
            at <= i <= text@.len(),
            len == text@.len(),
            behind(out@, quoted(text@, i as int, quote)) == quoted(text@, at as int, quote),
        decreases text@.len() - i,
    {
        if i >= len {
            return Err(Error::Syntax);
        }
        let c = text[i];
        let ghost before = out@;
        if c == quote {
            assert(before + Seq::<char>::empty() =~= before);
            return Ok((out, i + 1));
        }
        if c == '\\' {
            match read_escape(text, i + 1) {
                Err(error) => {
                    return Err(error);
                },
                Ok((escaped, next)) => {
                    out.push(escaped);
                    proof {
                        if let Ok((more, end)) = quoted(text@, next as int, quote) {
                            assert(before + (seq![escaped] + more) =~= before.push(escaped)
                                + more);
                        }
                    }
                    i = next;
                },
            }
        } else {
            out.push(c);
            proof {
                if let Ok((more, end)) = quoted(text@, i + 1, quote) {
                    assert(before + (seq![c] + more) =~= before.push(c) + more);
                }
            }
            i = i + 1;
        }
    }
}

/// Two to a sum is the product of the powers.
pub proof fn lemma_two_to_sum(a: nat, b: nat)
    ensures
        two_to(a + b) == two_to(a) * two_to(b),
    decreases b,
{
    if b > 0 {
        lemma_two_to_sum(a, (b - 1) as nat);
        assert(two_to(a + b) == 2 * two_to((a + b - 1) as nat));
        assert(2 * (two_to(a) * two_to((b - 1) as nat)) == two_to(a) * (2 * two_to(
            (b - 1) as nat,
        ))) by (nonlinear_arith);
    } else {
        assert(two_to(a) * 1 == two_to(a)) by (nonlinear_arith);
    }
}

/// The powers of two up to the eighth.
pub proof fn lemma_two_to_small(bits: nat)
    requires
        bits <= 8,
    ensures
        1 <= two_to(bits) <= 256,
        bits < 8 ==> two_to(bits) <= 128,
        two_to(8) == 256,
{
    reveal_with_fuel(two_to, 10);
}

/// The bits that are held with `bits` more bits behind them.
fn join(held: u32, value: u8, bits: u8) -> (more: u32)
    requires
        bits == 4 || bits == 5 || bits == 6,
        held < 128,
        value < two_to(bits as nat),
    ensures
        more == held * two_to(bits as nat) + value,
        more == pushed(held as nat, bits as nat, value as nat),
        more < 0x2000,
{
    proof {
        reveal_with_fuel(two_to, 7);
        reveal(pushed);
    }
    if bits == 4 {
        held * 16 + value as u32
    } else if bits == 5 {
        held * 32 + value as u32
    } else {
        held * 64 + value as u32
    }
}

/// The byte at the top of more than eight bits, and the `rest` bits that
/// are left below it.
fn split(more: u32, rest: u8) -> (r: (u8, u32))
    requires
        rest <= 5,
        more < 256 * two_to(rest as nat),
    ensures
        r.0 == top_byte(more as nat, rest as nat),
        r.1 == low_bits(more as nat, rest as nat),
        r.1 < two_to(rest as nat),
{
    proof {
        reveal_with_fuel(two_to, 7);
        reveal(top_byte);
        reveal(low_bits);
    }
    if rest == 0 {
        (more as u8, 0)
    } else if rest == 1 {
        ((more / 2) as u8, more % 2)
    } else if rest == 2 {
        ((more / 4) as u8, more % 4)
    } else if rest == 3 {
        ((more / 8) as u8, more % 8)
    } else if rest == 4 {
        ((more / 16) as u8, more % 16)
    } else {
        ((more / 32) as u8, more % 32)
    }
}

/// The bits that a character of an encoded byte string stands for.
fn code_of(c: char, bits: u8) -> (value: Option<u8>)
    requires
        bits == 4 || bits == 5 || bits == 6,
    ensures
        value is Some <==> code_value(c, bits as nat) is Some,
        value matches Some(v) ==> v == code_value(c, bits as nat)->0 && v < two_to(bits as nat),
{
    proof {
        reveal_with_fuel(two_to, 7);
    }
    if bits == 4 {
        digit_of(Some(c), 16)
    } else if bits == 5 {
        if 'A' <= c && c <= 'Z' {
            Some((c as u32 - 65) as u8)
        } else if '2' <= c && c <= '7' {
            Some((c as u32 - 24) as u8)
        } else {
            None
        }
    } else {
        if 'A' <= c && c <= 'Z' {
            Some((c as u32 - 65) as u8)
        } else if 'a' <= c && c <= 'z' {
            Some((c as u32 - 71) as u8)
        } else if '0' <= c && c <= '9' {
            Some((c as u32 + 4) as u8)
        } else if c == '+' || c == '-' {
            Some(62)
        } else if c == '/' || c == '_' {
            Some(63)
        } else {
            None
        }
    }
}

/// Reads the body of an encoded byte string from the position `at`,
/// behind the opening quote, up to the closing one.
fn read_encoded(text: &Vec<char>, at: usize, bits: u8) -> (r: Result<(Vec<u8>, usize), Error>)
    requires
        at <= text@.len(),
        bits == 4 || bits == 5 || bits == 6,
    ensures
        match encoded_body(text@, at as int, bits as nat, 0, 0) {
            Ok((data, end)) => r matches Ok((got, next)) && got@ == data && next == end && at
                < next <= text@.len(),
            Err(error) => r matches Err(e) && e == error,
        },
{
    let mut out: Vec<u8> = Vec::new();
    let mut i: usize = at;
    let mut held: u32 = 0;
    let mut count: u8 = 0;
    let len = text.len();
    let ghost whole = encoded_body(text@, at as int, bits as nat, 0, 0);
    assert(behind(out@, whole) == whole) by {
        if let Ok((more, end)) = whole {
            assert(out@ + more =~= more);
        }
    }
    loop
        invariant
            at <= i <= text@.len(),
            len == text@.len(),
            bits == 4 || bits == 5 || bits == 6,
            count < 8,
            held < two_to(count as nat),
            behind(out@, encoded_body(text@, i as int, bits as nat, held as nat, count as nat))
                == whole,
            whole == encoded_body(text@, at as int, bits as nat, 0, 0),
        decreases text@.len() - i,
    {
        if i >= len {
            return Err(Error::Syntax);
        }
        let c = text[i];
        let ghost before = out@;
        if c == '\'' {
            if held == 0 && count < bits {
                assert(before + Seq::<u8>::empty() =~= before);
                return Ok((out, i + 1));
            } else {
                return Err(Error::Syntax);
            }
        }
        if space(c) {
            i = i + 1;
            assert(behind(
                out@,
                encoded_body(text@, i as int, bits as nat, held as nat, count as nat),
            ) == whole);
            continue ;
        }
        match code_of(c, bits) {
            None => {
                return Err(Error::Syntax);
            },
            Some(value) => {
                proof {
                    lemma_two_to_small(count as nat);
                    lemma_two_to_sum(count as nat, bits as nat);
                }
                let more: u32 = join(held, value, bits);
                let have: u8 = count + bits;
                assert(more < two_to(have as nat)) by (nonlinear_arith)
                    requires
                        held + 1 <= two_to(count as nat),
                        value < two_to(bits as nat),
                        more == held * two_to(bits as nat) + value,
                        two_to((count + bits) as nat) == two_to(count as nat) * two_to(
                            bits as nat,
                        ),
                        have == count + bits,
                ;
                if have >= 8 {
                    let rest: u8 = have - 8;
                    proof {
                        lemma_two_to_sum(8, rest as nat);
                        lemma_two_to_small(8);
                    }
                    let (byte, left) = split(more, rest);
                    out.push(byte);
                    proof {
                        if let Ok((bytes, end)) = encoded_body(
                            text@,
                            i + 1,
                            bits as nat,
                            left as nat,
                            rest as nat,
                        ) {
                            assert(before + (seq![byte] + bytes) =~= before.push(byte) + bytes);
                        }
                    }
                    assert((count + bits - 8) as nat == rest as nat);
                    assert(encoded_body(
                        text@,
                        i as int,
                        bits as nat,
                        held as nat,
                        count as nat,
                    ) == behind(
                        seq![byte],
                        encoded_body(text@, i + 1, bits as nat, left as nat, rest as nat),
                    ));
                    held = left;
                    count = rest;
                } else {
                    assert(encoded_body(
                        text@,
                        i as int,
                        bits as nat,
                        held as nat,
                        count as nat,
                    ) == encoded_body(text@, i + 1, bits as nat, more as nat, have as nat));
                    held = more;
                    count = have;
                }
                i = i + 1;
            },
        }
    }
}

/// Whether every character of a string is ASCII; its bytes if so.
fn ascii(text: &str) -> (bytes: Option<Vec<u8>>)
    ensures
        bytes is Some <==> all_ascii(text@),
        bytes matches Some(b) ==> b@ == ascii_bytes(text@),
{
    let mut out: Vec<u8> = Vec::new();
    for c in it: text.chars()
        invariant
            it.seq() == text@,
            out@.len() == it.index(),
            forall|j: int| 0 <= j < it.index() ==> (#[trigger] text@[j]) as u32 <= 127,
            forall|j: int| 0 <= j < it.index() ==> out@[j] == text@[j] as u8,
    {
        assert(c == text@[it.index() as int]);
        if c as u32 > 127 {
            return None;
        }
        out.push(c as u8);
    }
    assert(out@ =~= ascii_bytes(text@));
    Some(out)
}

/// Reads the byte string at the position `at`, if one starts there.
fn read_byte_string(text: &Vec<char>, at: usize) -> (r: Option<Result<(Vec<u8>, usize), Error>>)
    requires
        at <= text@.len(),
    ensures
        r is Some <==> byte_string(text@, at as int) is Some,
        r is Some ==> match byte_string(text@, at as int)->0 {
            Ok((data, end)) => r->0 matches Ok((got, next)) && got@ == data && next == end && at
                < next <= text@.len(),
            Err(error) => r->0 matches Err(e) && e == error,
        },
{
    proof {
        reveal_strlit("h'");
        reveal_strlit("b32'");
        reveal_strlit("b64'");
    }
    let len = text.len();
    if goes_on(text, at, "h'") {
        Some(read_encoded(text, at + 2, 4))
    } else if goes_on(text, at, "b32'") {
        Some(read_encoded(text, at + 4, 5))
    } else if goes_on(text, at, "b64'") {
        Some(read_encoded(text, at + 4, 6))
    } else {
        match get(text, at) {
            Some('\'') => {
                Some(
                    match read_quoted(text, at + 1, '\'') {
                        Err(error) => Err(error),
                        Ok((raw, end)) => match ascii(raw.as_str()) {
                            Some(bytes) => Ok((bytes, end)),
                            None => Err(Error::Syntax),
                        },
                    },
                )
            },
            _ => None,
        }
    }
}

/// Whether a table gives every double that another gives, unchanged.
pub open spec fn agrees(old: Seq<FloatText>, new: Seq<FloatText>) -> bool {
    forall|digits: Seq<char>, bitwidth: FloatWidth| #[trigger]
        value_of(old, digits, bitwidth) is Some ==> value_of(new, digits, bitwidth) == value_of(
            old,
            digits,
            bitwidth,
        )
}

/// An entry added at the end gives its double where no earlier entry has
/// the digits, and changes nothing where one has.
pub proof fn lemma_value_of_push(
    entries: Seq<FloatText>,
    entry: FloatText,
    digits: Seq<char>,
    bitwidth: FloatWidth,
)
    ensures
        value_of(entries, digits, bitwidth) is Some ==> value_of(
            entries.push(entry),
            digits,
            bitwidth,
        ) == value_of(entries, digits, bitwidth),
        value_of(entries, digits, bitwidth) is None ==> value_of(
            entries.push(entry),
            digits,
            bitwidth,
        ) == (if entry.text@ == digits && entry.bitwidth == bitwidth {
            Some(entry.value)
        } else {
            None
        }),
    decreases entries.len(),
{
    if entries.len() == 0 {
        assert(entries.push(entry).skip(1).len() == 0);
        assert(value_of(entries.push(entry).skip(1), digits, bitwidth) is None);
        assert(entries.push(entry)[0] == entry);
    } else {
        assert(entries.push(entry)[0] == entries[0]);
        assert(entries.push(entry).skip(1) =~= entries.skip(1).push(entry));
        lemma_value_of_push(entries.skip(1), entry, digits, bitwidth);
    }
}

/// The double that a table gives for the digits of a float in a
/// precision.
fn value_for(floats: &FloatTable, digits: &String, bitwidth: FloatWidth) -> (value: Option<u64>)
    ensures
        value == value_of(floats.entries@, digits@, bitwidth),
{
    let mut i: usize = 0;
    assert(floats.entries@.skip(0) =~= floats.entries@);
    while i < floats.entries.len()
        invariant
            i <= floats.entries.len(),
            value_of(floats.entries@.skip(i as int), digits@, bitwidth) == value_of(
                floats.entries@,
                digits@,
                bitwidth,
            ),
        decreases floats.entries.len() - i,
    {
        let ghost rest = floats.entries@.skip(i as int);
        assert(rest[0] == floats.entries@[i as int]);
        assert(rest.skip(1) =~= floats.entries@.skip(i + 1));
        if floats.entries[i].text == *digits && floats.entries[i].bitwidth == bitwidth {
            return Some(floats.entries[i].value);
        }
        i += 1;
    }
    None
}

/// The characters from `from` up to `to` as a string.
fn collect(text: &Vec<char>, from: usize, to: usize) -> (r: String)
    requires
        from <= to <= text@.len(),
    ensures
        r@ == text@.subrange(from as int, to as int),
{
    let mut out = String::new();
    let mut i: usize = from;
    while i < to
        invariant
            from <= i <= to <= text@.len(),
            out@ == text@.subrange(from as int, i as int),
        decreases to - i,
    {
        out.push(text[i]);
        assert(text@.subrange(from as int, i + 1) =~= text@.subrange(from as int, i as int).push(
            text@[i as int],
        ));
        i += 1;
    }
    out
}

/// Whether `result` is the item and the position that the grammar gives;
/// the item can be encoded.
pub open spec fn read_as(
    result: Result<(DataItem, usize), Error>,
    expected: Result<(Tree, int), Error>,
    from: int,
    len: nat,
) -> bool {
    match expected {
        Ok((value, end)) => result matches Ok((item, next)) && tree(item) == value && next == end
            && from < next <= len && well_formed(item),
        Err(error) => result matches Err(e) && e == error,
    }
}

/// Whether `resolve` gave the double `value` for digits that read `text`,
/// in the precision `bitwidth`.
pub open spec fn gave<F: Fn(String, FloatWidth) -> Option<u64>>(
    resolve: F,
    text: Seq<char>,
    bitwidth: FloatWidth,
    value: u64,
) -> bool {
    exists|digits: String|
        digits@ == text && #[trigger] resolve.ensures((digits, bitwidth), Some(value))
}

/// Whether `new` is `old` with entries behind it that `resolve` gave: each
/// of them is for digits that had no double before it, and holds the
/// double that `resolve` returned for the digits and their precision.
#[verifier::opaque]
pub open spec fn resolved_by<F: Fn(String, FloatWidth) -> Option<u64>>(
    old: Seq<FloatText>,
    new: Seq<FloatText>,
    resolve: F,
) -> bool {
    &&& old.len() <= new.len()
    &&& new.take(old.len() as int) == old
    &&& forall|i: int|
        old.len() <= i < new.len() ==> value_of(
            new.take(i),
            (#[trigger] new[i]).text@,
            new[i].bitwidth,
        ) is None && gave(resolve, new[i].text@, new[i].bitwidth, new[i].value)
}

/// Whether what `resolve` had given up to `old` it has given up to `new`:
/// whatever table `old` grew from in that way, `new` grew from it too.
pub open spec fn carried<F: Fn(String, FloatWidth) -> Option<u64>>(
    old: Seq<FloatText>,
    new: Seq<FloatText>,
    resolve: F,
) -> bool {
    forall|origin: Seq<FloatText>| #[trigger]
        resolved_by(origin, old, resolve) ==> resolved_by(origin, new, resolve)
}

/// A table has grown from itself by nothing.
pub proof fn lemma_resolved_same<F: Fn(String, FloatWidth) -> Option<u64>>(
    table: Seq<FloatText>,
    resolve: F,
)
    ensures
        resolved_by(table, table, resolve),
{
    reveal(resolved_by);
    assert(table.take(table.len() as int) =~= table);
}

/// A table that has grown by what `resolve` gave, with one more entry that
/// `resolve` gave for digits that had no double.
pub proof fn lemma_resolved_push<F: Fn(String, FloatWidth) -> Option<u64>>(
    origin: Seq<FloatText>,
    table: Seq<FloatText>,
    entry: FloatText,
    resolve: F,
)
    requires
        resolved_by(origin, table, resolve),
        value_of(table, entry.text@, entry.bitwidth) is None,
        gave(resolve, entry.text@, entry.bitwidth, entry.value),
    ensures
        resolved_by(origin, table.push(entry), resolve),
{
    reveal(resolved_by);
    let new = table.push(entry);
    assert(new.take(origin.len() as int) =~= table.take(origin.len() as int));
    assert forall|i: int| origin.len() <= i < new.len() implies value_of(
        new.take(i),
        (#[trigger] new[i]).text@,
        new[i].bitwidth,
    ) is None && gave(resolve, new[i].text@, new[i].bitwidth, new[i].value) by {
        if i < table.len() {
            assert(new[i] == table[i]);
            assert(new.take(i) =~= table.take(i));
        } else {
            assert(new.take(i) =~= table);
        }
    }
}

/// Whether a resolver never gives a double.
pub open spec fn silent<F: Fn(String, FloatWidth) -> Option<u64>>(resolve: F) -> bool {
    forall|digits: String, bitwidth: FloatWidth, value: Option<u64>|
        resolve.ensures((digits, bitwidth), value) ==> value is None
}

/// Reads a float whose digits stand from `from` up to `to`. Digits that
/// the table does not have are handed to `resolve`, and what it gives is
/// kept in the table.
fn read_float<F: Fn(String, FloatWidth) -> Option<u64>>(
    text: &Vec<char>,
    from: usize,
    to: usize,
    floats: &mut FloatTable,
    resolve: &F,
) -> (r: Result<(DataItem, usize), Error>)
    requires
        from < to <= text@.len(),
        forall|digits: String, bitwidth: FloatWidth| resolve.requires((digits, bitwidth)),
    ensures
        agrees(old(floats).entries@, final(floats).entries@),
        carried(old(floats).entries@, final(floats).entries@, *resolve),
        silent(*resolve) ==> final(floats).entries@ == old(floats).entries@,
        read_as(
            r,
            float(text@, from as int, to as int, final(floats).entries@),
            from as int,
            text@.len(),
        ),
{
    let (digit, end) = match read_suffix(text, to) {
        Ok(found) => found,
        Err(error) => {
            return Err(error);
        },
    };
    let bitwidth = match suffix_precision(digit) {
        Ok(found) => found,
        Err(error) => {
            return Err(error);
        },
    };
    let digits = collect(text, from, to);
    let value = match value_for(floats, &digits, bitwidth) {
        Some(value) => value,
        None => {
            let handed = digits.clone();
            let ghost copy = handed;
            match resolve(handed, bitwidth) {
                None => {
                    return Err(Error::Syntax);
                },
                Some(value) => {
                    let ghost before = floats.entries@;
                    let ghost entry = FloatText { value, bitwidth, text: digits };
                    proof {
                        assert(copy@ == digits@);
                        assert(resolve.ensures((copy, bitwidth), Some(value)));
                        assert(gave(*resolve, entry.text@, bitwidth, value));
                        assert forall|origin: Seq<FloatText>| #[trigger]
                            resolved_by(origin, before, *resolve) implies resolved_by(
                            origin,
                            before.push(entry),
                            *resolve,
                        ) by {
                            lemma_resolved_push(origin, before, entry, *resolve);
                        }
                        lemma_value_of_push(before, entry, digits@, bitwidth);
                        assert forall|d: Seq<char>, w: FloatWidth| #[trigger]
                            value_of(before, d, w) is Some implies value_of(
                            before.push(entry),
                            d,
                            w,
                        ) == value_of(before, d, w) by {
                            lemma_value_of_push(before, entry, d, w);
                        }
                    }
                    floats.insert(value, bitwidth, digits);
                    value
                },
            }
        },
    };
    if !is_representable(value, bitwidth) {
        return Err(Error::WidthOverflow);
    }
    proof {
        reveal(tree);
    }
    Ok((DataItem::Float { value, bitwidth }, end))
}

/// The number of bytes that a text takes as UTF-8.
fn utf8_len(text: &String) -> (len: usize)
    ensures
        len == encode_utf8(text@).len(),
{
    text.as_str().as_bytes().len()
}

/// A text string whose width is not chosen.
fn text_item(data: String) -> (item: DataItem)
    ensures
        tree(item) == text_tree(data@),
        well_formed(item),
{
    proof {
        reveal(tree);
    }
    let _ = utf8_len(&data);
    DataItem::TextString(TextString { data, bitwidth: IntegerWidth::Unknown })
}

/// A byte string whose width is not chosen.
fn bytes_item(data: Vec<u8>) -> (item: DataItem)
    ensures
        tree(item) == bytes_tree(data@),
        well_formed(item),
{
    proof {
        reveal(tree);
    }
    DataItem::ByteString(ByteString { data, bitwidth: IntegerWidth::Unknown })
}

/// A simple value.
fn simple_item(value: u8) -> (item: DataItem)
    ensures
        tree(item) == Tree::Simple(value),
        well_formed(item),
{
    proof {
        reveal(tree);
    }
    DataItem::Simple(Simple(value))
}

/// Reads the suffix of a float that is no number.
fn read_special(text: &Vec<char>, from: usize, at: usize, value: u64) -> (r: Result<
    (DataItem, usize),
    Error,
>)
    requires
        from < at <= text@.len(),
        value == 0x7ff8_0000_0000_0000 || value == 0x7ff0_0000_0000_0000 || value
            == 0xfff0_0000_0000_0000,
    ensures
        read_as(r, special_float(text@, at as int, value), from as int, text@.len()),
{
    let (digit, end) = match read_suffix(text, at) {
        Ok(found) => found,
        Err(error) => {
            return Err(error);
        },
    };
    let bitwidth = match suffix_precision(digit) {
        Ok(found) => found,
        Err(error) => {
            return Err(error);
        },
    };
    proof {
        reveal(tree);
    }
    Ok((DataItem::Float { value, bitwidth }, end))
}

/// Reads the simple value behind `simple(`.
fn read_simple(text: &Vec<char>, from: usize, at: usize) -> (r: Result<(DataItem, usize), Error>)
    requires
        from < at <= text@.len(),
    ensures
        read_as(r, simple(text@, at as int), from as int, text@.len()),
{
    let len = text.len();
    match read_number(text, at) {
        None => Err(Error::Syntax),
        Some(read) => {
            if read.decimal && read.value <= 255 {
                match get(text, read.end) {
                    Some(')') => {
                        proof {
                            reveal(tree);
                        }
                        Ok((DataItem::Simple(Simple(read.value as u8)), read.end + 1))
                    },
                    _ => Err(Error::Syntax),
                }
            } else {
                Err(Error::Syntax)
            }
        },
    }
}

/// Reads the text strings of an indefinite-length text string, up to the
/// closing bracket.
fn read_text_chunks(text: &Vec<char>, at: usize) -> (r: Result<(Vec<TextString>, usize), Error>)
    requires
        at <= text@.len(),
    ensures
        match text_chunks(text@, at as int) {
            Ok((chunks, end)) => r matches Ok((got, next)) && next == end && at < next
                <= text@.len() && got@.len() == chunks.len() && forall|i: int|
                0 <= i < chunks.len() ==> text_chunk(#[trigger] got@[i]) == chunks[i]
                    && got@[i].bitwidth == IntegerWidth::Unknown && encode_utf8(
                    got@[i].data@,
                ).len() <= u64::MAX,
            Err(error) => r matches Err(e) && e == error,
        },
{
    let mut out: Vec<TextString> = Vec::new();
    let mut i: usize = at;
    let len = text.len();
    let ghost whole = text_chunks(text@, at as int);
    let ghost done: Seq<Chunk<char>> = Seq::empty();
    assert(behind(done, whole) == whole) by {
        if let Ok((more, end)) = whole {
            assert(done + more =~= more);
        }
    }
    loop
        invariant
            at <= i <= text@.len(),
            len == text@.len(),
            behind(done, text_chunks(text@, i as int)) == whole,
            whole == text_chunks(text@, at as int),
            done.len() == out@.len(),
            forall|j: int|
                0 <= j < done.len() ==> text_chunk(#[trigger] out@[j]) == done[j]
                    && out@[j].bitwidth == IntegerWidth::Unknown && encode_utf8(
                    out@[j].data@,
                ).len() <= u64::MAX,
        decreases text@.len() - i,
    {
        let start = skip(text, i);
        match get(text, start) {
            Some(')') => {
                assert(done + Seq::<Chunk<char>>::empty() =~= done);
                return Ok((out, start + 1));
            },
            Some('"') => {},
            _ => {
                return Err(Error::Syntax);
            },
        }
        match read_quoted(text, start + 1, '"') {
            Err(error) => {
                return Err(error);
            },
            Ok((data, next)) => {
                let gap = skip(text, next);
                let after = match get(text, gap) {
                    Some(',') => gap + 1,
                    _ => gap,
                };
                let ghost chunk = Chunk { data: data@, bitwidth: IntegerWidth::Unknown };
                proof {
                    if let Ok((more, end)) = text_chunks(text@, after as int) {
                        assert(done + (seq![chunk] + more) =~= done.push(chunk) + more);
                    }
                    done = done.push(chunk);
                }
                let _ = utf8_len(&data);
                out.push(TextString { data, bitwidth: IntegerWidth::Unknown });
                i = after;
            },
        }
    }
}

/// Reads the byte strings of an indefinite-length byte string, up to the
/// closing bracket.
fn read_byte_chunks(text: &Vec<char>, at: usize) -> (r: Result<(Vec<ByteString>, usize), Error>)
    requires
        at <= text@.len(),
    ensures
        match byte_chunks(text@, at as int) {
            Ok((chunks, end)) => r matches Ok((got, next)) && next == end && at < next
                <= text@.len() && got@.len() == chunks.len() && forall|i: int|
                0 <= i < chunks.len() ==> byte_chunk(#[trigger] got@[i]) == chunks[i]
                    && got@[i].bitwidth == IntegerWidth::Unknown,
            Err(error) => r matches Err(e) && e == error,
        },
{
    let mut out: Vec<ByteString> = Vec::new();
    let mut i: usize = at;
    let len = text.len();
    let ghost whole = byte_chunks(text@, at as int);
    let ghost done: Seq<Chunk<u8>> = Seq::empty();
    assert(behind(done, whole) == whole) by {
        if let Ok((more, end)) = whole {
            assert(done + more =~= more);
        }
    }
    loop
        invariant
            at <= i <= text@.len(),
            len == text@.len(),
            behind(done, byte_chunks(text@, i as int)) == whole,
            whole == byte_chunks(text@, at as int),
            done.len() == out@.len(),
            forall|j: int|
                0 <= j < done.len() ==> byte_chunk(#[trigger] out@[j]) == done[j]
                    && out@[j].bitwidth == IntegerWidth::Unknown,
        decreases text@.len() - i,
    {
        let start = skip(text, i);
        match get(text, start) {
            Some(')') => {
                assert(done + Seq::<Chunk<u8>>::empty() =~= done);
                return Ok((out, start + 1));
            },
            _ => {},
        }
        match read_byte_string(text, start) {
            None => {
                return Err(Error::Syntax);
            },
            Some(Err(error)) => {
                return Err(error);
            },
            Some(Ok((data, next))) => {
                let gap = skip(text, next);
                let after = match get(text, gap) {
                    Some(',') => gap + 1,
                    _ => gap,
                };
                let ghost chunk = Chunk { data: data@, bitwidth: IntegerWidth::Unknown };
                proof {
                    if let Ok((more, end)) = byte_chunks(text@, after as int) {
                        assert(done + (seq![chunk] + more) =~= done.push(chunk) + more);
                    }
                    done = done.push(chunk);
                }
                out.push(ByteString { data, bitwidth: IntegerWidth::Unknown });
                i = after;
            },
        }
    }
}

/// Reads the indefinite-length string behind an opening round bracket.
fn read_chunked(text: &Vec<char>, from: usize, at: usize) -> (r: Result<(DataItem, usize), Error>)
    requires
        from < at <= text@.len(),
    ensures
        read_as(r, chunked(text@, at as int), from as int, text@.len()),
{
    let len = text.len();
    match get(text, at) {
        Some('_') => {},
        _ => {
            return Err(Error::Syntax);
        },
    }
    let start = skip(text, at + 1);
    proof {
        reveal(tree);
    }
    match get(text, start) {
        Some('"') => {
            match read_text_chunks(text, at + 1) {
                Err(error) => Err(error),
                Ok((chunks, end)) => {
                    let item = DataItem::IndefiniteTextString(chunks);
                    assert(tree(item)->TextChunks_0 =~= text_chunks(text@, at + 1)->Ok_0.0);
                    Ok((item, end))
                },
            }
        },
        _ => {
            match read_byte_chunks(text, at + 1) {
                Err(error) => Err(error),
                Ok((chunks, end)) => {
                    let item = DataItem::IndefiniteByteString(chunks);
                    assert(tree(item)->ByteChunks_0 =~= byte_chunks(text@, at + 1)->Ok_0.0);
                    Ok((item, end))
                },
            }
        },
    }
}

/// A table agrees with itself, and agreement carries over.
pub proof fn lemma_agrees(first: Seq<FloatText>, second: Seq<FloatText>, third: Seq<FloatText>)
    requires
        agrees(first, second),
        agrees(second, third),
    ensures
        agrees(first, third),
        agrees(first, first),
{
    assert forall|digits: Seq<char>, bitwidth: FloatWidth| #[trigger]
        value_of(first, digits, bitwidth) is Some implies value_of(third, digits, bitwidth)
        == value_of(first, digits, bitwidth) by {
        assert(value_of(second, digits, bitwidth) is Some);
    }
}

/// A float that a table reads is read the same by every table that agrees
/// with it.
pub proof fn lemma_float_stable(
    text: Seq<char>,
    from: int,
    to: int,
    old: Seq<FloatText>,
    new: Seq<FloatText>,
)
    requires
        agrees(old, new),
        float(text, from, to, old) is Ok,
    ensures
        float(text, from, to, new) == float(text, from, to, old),
{
    if let Ok((digit, end)) = suffix(text, to) {
        if let Ok(bitwidth) = float_width(digit) {
            assert(value_of(old, text.subrange(from, to), bitwidth) is Some);
        }
    }
}

/// A number, a float or a tagged item that a table reads is read the same
/// by every table that agrees with it.
pub proof fn lemma_unsigned_stable(text: Seq<char>, at: int, old: Seq<FloatText>, new: Seq<FloatText>)
    requires
        agrees(old, new),
        unsigned(text, at, old) is Ok,
    ensures
        unsigned(text, at, new) == unsigned(text, at, old),
    decreases text.len() - at, 0nat,
{
    reveal(item);
    if let Some(read) = number(text, at) {
        if read.decimal && float_end(text, read.end) > read.end {
            lemma_float_stable(text, at, float_end(text, read.end), old, new);
        } else if let Ok((digit, end)) = suffix(text, read.end) {
            if let Ok(bitwidth) = integer_width(digit) {
                if read.value <= u64::MAX && bitwidth.holds(read.value as u64) && peek(text, end)
                    == Some('(') && !(end < at || spaces(text, end + 1) > text.len()) {
                    lemma_item_stable(text, spaces(text, end + 1), old, new);
                }
            }
        }
    }
}

/// An item that a table reads is read the same by every table that agrees
/// with it.
pub proof fn lemma_item_stable(text: Seq<char>, at: int, old: Seq<FloatText>, new: Seq<FloatText>)
    requires
        agrees(old, new),
        item(text, at, old) is Ok,
    ensures
        item(text, at, new) == item(text, at, old),
    decreases text.len() - at, 1nat,
{
    reveal(item);
    let c = peek(text, at);
    if c is None {
    } else if c == Some('"') {
    } else if byte_string(text, at) is Some {
    } else if c == Some('[') {
        let open = peek(text, at + 1) == Some('_');
        lemma_elements_stable(text, if open { at + 2 } else { at + 1 }, old, new);
    } else if c == Some('{') {
        let open = peek(text, at + 1) == Some('_');
        lemma_entries_stable(text, if open { at + 2 } else { at + 1 }, old, new);
    } else if c == Some('(') {
    } else if follows(text, at, "false"@) {
    } else if follows(text, at, "true"@) {
    } else if follows(text, at, "null"@) {
    } else if follows(text, at, "undefined"@) {
    } else if follows(text, at, "simple("@) {
    } else if follows(text, at, "NaN"@) {
    } else if follows(text, at, "Infinity"@) {
    } else if follows(text, at, "-Infinity"@) {
    } else if c == Some('-') {
        if let Some(read) = number(text, at + 1) {
            if read.decimal && float_end(text, read.end) > read.end {
                lemma_float_stable(text, at, float_end(text, read.end), old, new);
            }
        }
    } else {
        lemma_unsigned_stable(text, at, old, new);
    }
}

/// Elements that a table reads are read the same by every table that
/// agrees with it.
pub proof fn lemma_elements_stable(text: Seq<char>, at: int, old: Seq<FloatText>, new: Seq<FloatText>)
    requires
        agrees(old, new),
        elements(text, at, old) is Ok,
    ensures
        elements(text, at, new) == elements(text, at, old),
    decreases text.len() - at, 2nat,
{
    reveal(item);
    let start = spaces(text, at);
    if peek(text, start) == Some(']') {
    } else if start > text.len() {
    } else {
        lemma_item_stable(text, start, old, new);
        if let Ok((first, next)) = item(text, start, old) {
            let gap = spaces(text, next);
            if next <= start || gap >= text.len() {
            } else if peek(text, gap) == Some(',') {
                lemma_elements_stable(text, gap + 1, old, new);
            }
        }
    }
}

/// Entries that a table reads are read the same by every table that
/// agrees with it.
pub proof fn lemma_entries_stable(text: Seq<char>, at: int, old: Seq<FloatText>, new: Seq<FloatText>)
    requires
        agrees(old, new),
        entries(text, at, old) is Ok,
    ensures
        entries(text, at, new) == entries(text, at, old),
    decreases text.len() - at, 2nat,
{
    reveal(item);
    let start = spaces(text, at);
    if peek(text, start) == Some('}') {
    } else if start > text.len() {
    } else {
        lemma_item_stable(text, start, old, new);
        if let Ok((key, next)) = item(text, start, old) {
            let colon = spaces(text, next);
            if next <= start || peek(text, colon) != Some(':') || spaces(text, colon + 1)
                > text.len() {
            } else {
                lemma_item_stable(text, spaces(text, colon + 1), old, new);
                if let Ok((value, last)) = item(text, spaces(text, colon + 1), old) {
                    let gap = spaces(text, last);
                    if last <= colon || gap >= text.len() {
                    } else if peek(text, gap) == Some(',') {
                        lemma_entries_stable(text, gap + 1, old, new);
                    }
                }
            }
        }
    }
}

/// The elements of an array as the grammar gives them, in terms of the
/// first item and of the elements behind it.
pub open spec fn elements_step(text: Seq<char>, at: int, floats: Seq<FloatText>) -> Result<
    (Seq<Tree>, int),
    Error,
> {
    let start = spaces(text, at);
    if peek(text, start) == Some(']') {
        Ok((Seq::empty(), start + 1))
    } else if start > text.len() {
        Err(Error::Syntax)
    } else {
        match item(text, start, floats) {
            Err(error) => Err(error),
            Ok((first, next)) => {
                let gap = spaces(text, next);
                if next <= start || gap >= text.len() {
                    Err(Error::Syntax)
                } else if peek(text, gap) == Some(',') {
                    behind(seq![first], elements(text, gap + 1, floats))
                } else if peek(text, gap) == Some(']') {
                    Ok((seq![first], gap + 1))
                } else {
                    Err(Error::Syntax)
                }
            },
        }
    }
}

/// The elements of an array are their first item and the elements behind
/// it.
pub proof fn lemma_elements_unfold(text: Seq<char>, at: int, floats: Seq<FloatText>)
    ensures
        elements(text, at, floats) == elements_step(text, at, floats),
{
    reveal(item);
}

/// The entries of a map as the grammar gives them, in terms of the first
/// key, the first value and the entries behind them.
pub open spec fn entries_step(text: Seq<char>, at: int, floats: Seq<FloatText>) -> Result<
    (Seq<(Tree, Tree)>, int),
    Error,
> {
    let start = spaces(text, at);
    if peek(text, start) == Some('}') {
        Ok((Seq::empty(), start + 1))
    } else if start > text.len() {
        Err(Error::Syntax)
    } else {
        match item(text, start, floats) {
            Err(error) => Err(error),
            Ok((key, next)) => {
                let colon = spaces(text, next);
                if next <= start || peek(text, colon) != Some(':') || spaces(text, colon + 1)
                    > text.len() {
                    Err(Error::Syntax)
                } else {
                    match item(text, spaces(text, colon + 1), floats) {
                        Err(error) => Err(error),
                        Ok((value, last)) => {
                            let gap = spaces(text, last);
                            if last <= colon || gap >= text.len() {
                                Err(Error::Syntax)
                            } else if peek(text, gap) == Some(',') {
                                behind(seq![(key, value)], entries(text, gap + 1, floats))
                            } else if peek(text, gap) == Some('}') {
                                Ok((seq![(key, value)], gap + 1))
                            } else {
                                Err(Error::Syntax)
                            }
                        },
                    }
                }
            },
        }
    }
}

/// The entries of a map are their first key, their first value and the
/// entries behind them.
pub proof fn lemma_entries_unfold(text: Seq<char>, at: int, floats: Seq<FloatText>)
    ensures
        entries(text, at, floats) == entries_step(text, at, floats),
{
    reveal(item);
}

/// Whether `result` holds the items and the position that the grammar
/// gives.
pub open spec fn read_all(
    result: Result<(Vec<DataItem>, usize), Error>,
    expected: Result<(Seq<Tree>, int), Error>,
    from: int,
    len: nat,
) -> bool {
    match expected {
        Ok((trees, end)) => result matches Ok((items, next)) && next == end && from < next <= len
            && items@.len() == trees.len() && forall|i: int|
            0 <= i < trees.len() ==> tree(#[trigger] items@[i]) == trees[i] && well_formed(
                items@[i],
            ),
        Err(error) => result matches Err(e) && e == error,
    }
}

/// Whether `result` holds the entries and the position that the grammar
/// gives.
pub open spec fn read_pairs(
    result: Result<(Vec<(DataItem, DataItem)>, usize), Error>,
    expected: Result<(Seq<(Tree, Tree)>, int), Error>,
    from: int,
    len: nat,
) -> bool {
    match expected {
        Ok((trees, end)) => result matches Ok((items, next)) && next == end && from < next <= len
            && items@.len() == trees.len() && forall|i: int|
            0 <= i < trees.len() ==> (tree((#[trigger] items@[i]).0), tree(items@[i].1))
                == trees[i] && well_formed(items@[i].0) && well_formed(items@[i].1),
        Err(error) => result matches Err(e) && e == error,
    }
}

/// Reads the negative integer or float behind a minus sign at `at`.
fn read_negative<F: Fn(String, FloatWidth) -> Option<u64>>(
    text: &Vec<char>,
    at: usize,
    floats: &mut FloatTable,
    resolve: &F,
) -> (r: Result<(DataItem, usize), Error>)
    requires
        at < text@.len(),
        forall|digits: String, bitwidth: FloatWidth| resolve.requires((digits, bitwidth)),
    ensures
        agrees(old(floats).entries@, final(floats).entries@),
        carried(old(floats).entries@, final(floats).entries@, *resolve),
        silent(*resolve) ==> final(floats).entries@ == old(floats).entries@,
        read_as(r, negative(text@, at as int, final(floats).entries@), at as int, text@.len()),
{
    proof {
        lemma_agrees(floats.entries@, floats.entries@, floats.entries@);
    }
    let len = text.len();
    let read = match read_number(text, at + 1) {
        None => {
            return Err(Error::Syntax);
        },
        Some(read) => read,
    };
    if read.decimal {
        let end = read_float_end(text, read.end);
        if end > read.end {
            return read_float(text, at, end, floats, resolve);
        }
    }
    let (digit, end) = match read_suffix(text, read.end) {
        Ok(found) => found,
        Err(error) => {
            return Err(error);
        },
    };
    let bitwidth = match suffix_width(digit) {
        Ok(found) => found,
        Err(error) => {
            return Err(error);
        },
    };
    if read.value == 0 || read.value > 0x1_0000_0000_0000_0000 {
        return Err(Error::Syntax);
    }
    let value = (read.value - 1) as u64;
    if !bitwidth.can_hold(value) {
        return Err(Error::WidthOverflow);
    }
    proof {
        reveal(tree);
    }
    Ok((DataItem::Negative { value, bitwidth }, end))
}

/// The position behind a fraction and an exponent.
fn read_float_end(text: &Vec<char>, at: usize) -> (end: usize)
    requires
        at <= text@.len(),
    ensures
        end == float_end(text@, at as int),
        at <= end <= text@.len(),
{
    let len = text.len();
    let fraction = match get(text, at) {
        Some('.') => read_digits(text, at + 1, 10).1,
        _ => at,
    };
    match get(text, fraction) {
        Some('e') | Some('E') => {
            let signed = match get(text, fraction + 1) {
                Some('+') | Some('-') => fraction + 2,
                _ => fraction + 1,
            };
            read_digits(text, signed, 10).1
        },
        _ => fraction,
    }
}

/// Reads the integer, float or tagged item that starts with a digit.
#[verifier::rlimit(40)]
fn read_unsigned<F: Fn(String, FloatWidth) -> Option<u64>>(
    text: &Vec<char>,
    at: usize,
    floats: &mut FloatTable,
    resolve: &F,
) -> (r: Result<(DataItem, usize), Error>)
    requires
        at <= text@.len(),
        forall|digits: String, bitwidth: FloatWidth| resolve.requires((digits, bitwidth)),
    ensures
        agrees(old(floats).entries@, final(floats).entries@),
        carried(old(floats).entries@, final(floats).entries@, *resolve),
        silent(*resolve) ==> final(floats).entries@ == old(floats).entries@,
        read_as(r, unsigned(text@, at as int, final(floats).entries@), at as int, text@.len()),
    decreases text@.len() - at, 0nat,
{
    proof {
        lemma_agrees(floats.entries@, floats.entries@, floats.entries@);
        reveal(item);
    }
    let len = text.len();
    let read = match read_number(text, at) {
        None => {
            return Err(Error::Syntax);
        },
        Some(read) => read,
    };
    if read.decimal {
        let end = read_float_end(text, read.end);
        if end > read.end {
            return read_float(text, at, end, floats, resolve);
        }
    }
    let (digit, end) = match read_suffix(text, read.end) {
        Ok(found) => found,
        Err(error) => {
            return Err(error);
        },
    };
    let bitwidth = match suffix_width(digit) {
        Ok(found) => found,
        Err(error) => {
            return Err(error);
        },
    };
    if read.value > 0xffff_ffff_ffff_ffff {
        return Err(Error::Syntax);
    }
    let value = read.value as u64;
    if !bitwidth.can_hold(value) {
        return Err(Error::WidthOverflow);
    }
    match get(text, end) {
        Some('(') => {},
        _ => {
            proof {
                reveal(tree);
            }
            return Ok((DataItem::Integer { value, bitwidth }, end));
        },
    }
    let start = skip(text, end + 1);
    match read_item(text, start, floats, resolve) {
        Err(error) => Err(error),
        Ok((inner, next)) => {
            let close = skip(text, next);
            match get(text, close) {
                Some(')') => {
                    proof {
                        reveal(tree);
                    }
                    Ok(
                        (
                            DataItem::Tag { tag: Tag(value), bitwidth, value: Box::new(inner) },
                            close + 1,
                        ),
                    )
                },
                _ => Err(Error::Syntax),
            }
        },
    }
}

/// Reads the elements of an array up to the closing bracket.
#[verifier::rlimit(40)]
fn read_elements<F: Fn(String, FloatWidth) -> Option<u64>>(
    text: &Vec<char>,
    at: usize,
    floats: &mut FloatTable,
    resolve: &F,
) -> (r: Result<(Vec<DataItem>, usize), Error>)
    requires
        at <= text@.len(),
        forall|digits: String, bitwidth: FloatWidth| resolve.requires((digits, bitwidth)),
    ensures
        agrees(old(floats).entries@, final(floats).entries@),
        carried(old(floats).entries@, final(floats).entries@, *resolve),
        silent(*resolve) ==> final(floats).entries@ == old(floats).entries@,
        read_all(r, elements(text@, at as int, final(floats).entries@), at as int, text@.len()),
    decreases text@.len() - at, 2nat,
{
    let mut out: Vec<DataItem> = Vec::new();
    let mut i: usize = at;
    let len = text.len();
    let ghost done: Seq<Tree> = Seq::empty();
    proof {
        lemma_agrees(floats.entries@, floats.entries@, floats.entries@);
        assert forall|table: Seq<FloatText>| agrees(floats.entries@, table) implies behind(
            done,
            #[trigger] elements(text@, i as int, table),
        ) == elements(text@, at as int, table) by {
            if let Ok((more, end)) = elements(text@, at as int, table) {
                assert(done + more =~= more);
            }
        }
    }
    loop
        invariant
            at <= i <= text@.len(),
            len == text@.len(),
            forall|digits: String, bitwidth: FloatWidth| resolve.requires((digits, bitwidth)),
            agrees(old(floats).entries@, floats.entries@),
            carried(old(floats).entries@, floats.entries@, *resolve),
            silent(*resolve) ==> floats.entries@ == old(floats).entries@,
            forall|table: Seq<FloatText>|
                agrees(floats.entries@, table) ==> behind(
                    done,
                    #[trigger] elements(text@, i as int, table),
                ) == elements(text@, at as int, table),
            done.len() == out@.len(),
            forall|j: int|
                0 <= j < done.len() ==> tree(#[trigger] out@[j]) == done[j] && well_formed(
                    out@[j],
                ),
        decreases text@.len() - i,
    {
        let ghost before = floats.entries@;
        let ghost from = i as int;
        let start = skip(text, i);
        proof {
            lemma_agrees(before, before, before);
        }
        match get(text, start) {
            Some(']') => {
                proof {
                    assert(done + Seq::<Tree>::empty() =~= done);
                    lemma_elements_unfold(text@, from, before);
                    assert(behind(done, elements(text@, from, before)) == elements(
                        text@,
                        at as int,
                        before,
                    ));
                }
                return Ok((out, start + 1));
            },
            _ => {},
        }
        match read_item(text, start, floats, resolve) {
            Err(error) => {
                proof {
                    let table = floats.entries@;
                    lemma_agrees(old(floats).entries@, before, table);
                    lemma_agrees(table, table, table);
                    lemma_elements_unfold(text@, from, table);
                    assert(behind(done, elements(text@, from, table)) == elements(
                        text@,
                        at as int,
                        table,
                    ));
                }
                return Err(error);
            },
            Ok((first, next)) => {
                let ghost table = floats.entries@;
                let gap = skip(text, next);
                proof {
                    lemma_agrees(old(floats).entries@, before, table);
                    lemma_agrees(table, table, table);
                    lemma_elements_unfold(text@, from, table);
                    assert(behind(done, elements(text@, from, table)) == elements(
                        text@,
                        at as int,
                        table,
                    ));
                }
                if gap >= len {
                    return Err(Error::Syntax);
                }
                match get(text, gap) {
                    Some(',') => {
                        proof {
                            let grown = done.push(tree(first));
                            assert forall|later: Seq<FloatText>|
                                agrees(table, later) implies behind(
                                grown,
                                #[trigger] elements(text@, gap + 1, later),
                            ) == elements(text@, at as int, later) by {
                                lemma_agrees(before, table, later);
                                lemma_item_stable(text@, start as int, table, later);
                                lemma_elements_unfold(text@, from, later);
                                assert(behind(done, elements(text@, from, later)) == elements(
                                    text@,
                                    at as int,
                                    later,
                                ));
                                if let Ok((more, end)) = elements(text@, gap + 1, later) {
                                    assert(done + (seq![tree(first)] + more) =~= grown + more);
                                }
                            }
                            done = grown;
                        }
                        out.push(first);
                        i = gap + 1;
                    },
                    Some(']') => {
                        proof {
                            assert(done + seq![tree(first)] =~= done.push(tree(first)));
                            done = done.push(tree(first));
                        }
                        out.push(first);
                        return Ok((out, gap + 1));
                    },
                    _ => {
                        return Err(Error::Syntax);
                    },
                }
            },
        }
    }
}

/// Reads the entries of a map up to the closing bracket.
#[verifier::rlimit(40)]
fn read_entries<F: Fn(String, FloatWidth) -> Option<u64>>(
    text: &Vec<char>,
    at: usize,
    floats: &mut FloatTable,
    resolve: &F,
) -> (r: Result<(Vec<(DataItem, DataItem)>, usize), Error>)
    requires
        at <= text@.len(),
        forall|digits: String, bitwidth: FloatWidth| resolve.requires((digits, bitwidth)),
    ensures
        agrees(old(floats).entries@, final(floats).entries@),
        carried(old(floats).entries@, final(floats).entries@, *resolve),
        silent(*resolve) ==> final(floats).entries@ == old(floats).entries@,
        read_pairs(r, entries(text@, at as int, final(floats).entries@), at as int, text@.len()),
    decreases text@.len() - at, 2nat,
{
    let mut out: Vec<(DataItem, DataItem)> = Vec::new();
    let mut i: usize = at;
    let len = text.len();
    let ghost done: Seq<(Tree, Tree)> = Seq::empty();
    proof {
        lemma_agrees(floats.entries@, floats.entries@, floats.entries@);
        assert forall|table: Seq<FloatText>| agrees(floats.entries@, table) implies behind(
            done,
            #[trigger] entries(text@, i as int, table),
        ) == entries(text@, at as int, table) by {
            if let Ok((more, end)) = entries(text@, at as int, table) {
                assert(done + more =~= more);
            }
        }
    }
    loop
        invariant
            at <= i <= text@.len(),
            len == text@.len(),
            forall|digits: String, bitwidth: FloatWidth| resolve.requires((digits, bitwidth)),
            agrees(old(floats).entries@, floats.entries@),
            carried(old(floats).entries@, floats.entries@, *resolve),
            silent(*resolve) ==> floats.entries@ == old(floats).entries@,
            forall|table: Seq<FloatText>|
                agrees(floats.entries@, table) ==> behind(
                    done,
                    #[trigger] entries(text@, i as int, table),
                ) == entries(text@, at as int, table),
            done.len() == out@.len(),
            forall|j: int|
                0 <= j < done.len() ==> (tree((#[trigger] out@[j]).0), tree(out@[j].1))
                    == done[j] && well_formed(out@[j].0) && well_formed(out@[j].1),
        decreases text@.len() - i,
    {
        let ghost before = floats.entries@;
        let ghost from = i as int;
        let start = skip(text, i);
        proof {
            lemma_agrees(before, before, before);
        }
        match get(text, start) {
            Some('}') => {
                proof {
                    assert(done + Seq::<(Tree, Tree)>::empty() =~= done);
                    lemma_entries_unfold(text@, from, before);
                    assert(behind(done, entries(text@, from, before)) == entries(
                        text@,
                        at as int,
                        before,
                    ));
                }
                return Ok((out, start + 1));
            },
            _ => {},
        }
        let (key, next) = match read_item(text, start, floats, resolve) {
            Err(error) => {
                proof {
                    let table = floats.entries@;
                    lemma_agrees(old(floats).entries@, before, table);
                    lemma_agrees(table, table, table);
                    lemma_entries_unfold(text@, from, table);
                    assert(behind(done, entries(text@, from, table)) == entries(
                        text@,
                        at as int,
                        table,
                    ));
                }
                return Err(error);
            },
            Ok(found) => found,
        };
        let ghost keyed = floats.entries@;
        proof {
            lemma_agrees(old(floats).entries@, before, keyed);
            lemma_agrees(keyed, keyed, keyed);
            lemma_entries_unfold(text@, from, keyed);
            assert(behind(done, entries(text@, from, keyed)) == entries(text@, at as int, keyed));
        }
        let colon = skip(text, next);
        match get(text, colon) {
            Some(':') => {},
            _ => {
                return Err(Error::Syntax);
            },
        }
        let second = skip(text, colon + 1);
        let (value, last) = match read_item(text, second, floats, resolve) {
            Err(error) => {
                proof {
                    let table = floats.entries@;
                    lemma_agrees(old(floats).entries@, keyed, table);
                    lemma_agrees(before, keyed, table);
                    lemma_agrees(table, table, table);
                    lemma_item_stable(text@, start as int, keyed, table);
                    lemma_entries_unfold(text@, from, table);
                    assert(behind(done, entries(text@, from, table)) == entries(
                        text@,
                        at as int,
                        table,
                    ));
                }
                return Err(error);
            },
            Ok(found) => found,
        };
        let ghost table = floats.entries@;
        let gap = skip(text, last);
        proof {
            lemma_agrees(old(floats).entries@, keyed, table);
            lemma_agrees(before, keyed, table);
            lemma_agrees(table, table, table);
            lemma_item_stable(text@, start as int, keyed, table);
            lemma_entries_unfold(text@, from, table);
            assert(behind(done, entries(text@, from, table)) == entries(text@, at as int, table));
        }
        if gap >= len {
            return Err(Error::Syntax);
        }
        let ghost entry = (tree(key), tree(value));
        match get(text, gap) {
            Some(',') => {
                proof {
                    let grown = done.push(entry);
                    assert forall|later: Seq<FloatText>| agrees(table, later) implies behind(
                        grown,
                        #[trigger] entries(text@, gap + 1, later),
                    ) == entries(text@, at as int, later) by {
                        lemma_agrees(before, table, later);
                        lemma_agrees(keyed, table, later);
                        lemma_item_stable(text@, start as int, keyed, later);
                        lemma_item_stable(text@, second as int, table, later);
                        lemma_entries_unfold(text@, from, later);
                        assert(behind(done, entries(text@, from, later)) == entries(
                            text@,
                            at as int,
                            later,
                        ));
                        if let Ok((more, end)) = entries(text@, gap + 1, later) {
                            assert(done + (seq![entry] + more) =~= grown + more);
                        }
                    }
                    done = grown;
                }
                out.push((key, value));
                i = gap + 1;
            },
            Some('}') => {
                proof {
                    assert(done + seq![entry] =~= done.push(entry));
                    done = done.push(entry);
                }
                out.push((key, value));
                return Ok((out, gap + 1));
            },
            _ => {
                return Err(Error::Syntax);
            },
        }
    }
}

/// Reads the array behind an opening square bracket.
fn read_array<F: Fn(String, FloatWidth) -> Option<u64>>(
    text: &Vec<char>,
    at: usize,
    floats: &mut FloatTable,
    resolve: &F,
) -> (r: Result<(DataItem, usize), Error>)
    requires
        0 < at <= text@.len(),
        forall|digits: String, bitwidth: FloatWidth| resolve.requires((digits, bitwidth)),
    ensures
        agrees(old(floats).entries@, final(floats).entries@),
        carried(old(floats).entries@, final(floats).entries@, *resolve),
        silent(*resolve) ==> final(floats).entries@ == old(floats).entries@,
        read_as(r, array(text@, at as int, final(floats).entries@), at - 1, text@.len()),
    decreases text@.len() - at, 3nat,
{
    let len = text.len();
    let open = match get(text, at) {
        Some('_') => true,
        _ => false,
    };
    match read_elements(text, if open { at + 1 } else { at }, floats, resolve) {
        Err(error) => Err(error),
        Ok((data, end)) => {
            let bitwidth = if open {
                None
            } else {
                Some(IntegerWidth::Unknown)
            };
            proof {
                lemma_tree_of_array(
                    data,
                    bitwidth,
                    elements(
                        text@,
                        if open {
                            at + 1
                        } else {
                            at as int
                        },
                        floats.entries@,
                    )->Ok_0.0,
                );
            }
            Ok((DataItem::Array { data, bitwidth }, end))
        },
    }
}

/// Reads the map behind an opening curly bracket.
fn read_mapping<F: Fn(String, FloatWidth) -> Option<u64>>(
    text: &Vec<char>,
    at: usize,
    floats: &mut FloatTable,
    resolve: &F,
) -> (r: Result<(DataItem, usize), Error>)
    requires
        0 < at <= text@.len(),
        forall|digits: String, bitwidth: FloatWidth| resolve.requires((digits, bitwidth)),
    ensures
        agrees(old(floats).entries@, final(floats).entries@),
        carried(old(floats).entries@, final(floats).entries@, *resolve),
        silent(*resolve) ==> final(floats).entries@ == old(floats).entries@,
        read_as(r, mapping(text@, at as int, final(floats).entries@), at - 1, text@.len()),
    decreases text@.len() - at, 3nat,
{
    let len = text.len();
    let open = match get(text, at) {
        Some('_') => true,
        _ => false,
    };
    match read_entries(text, if open { at + 1 } else { at }, floats, resolve) {
        Err(error) => Err(error),
        Ok((data, end)) => {
            let bitwidth = if open {
                None
            } else {
                Some(IntegerWidth::Unknown)
            };
            proof {
                lemma_tree_of_mapping(
                    data,
                    bitwidth,
                    entries(
                        text@,
                        if open {
                            at + 1
                        } else {
                            at as int
                        },
                        floats.entries@,
                    )->Ok_0.0,
                );
            }
            Ok((DataItem::Mapping { data, bitwidth }, end))
        },
    }
}

/// Reads the item at the position `at`.
#[verifier::rlimit(40)]
fn read_item<F: Fn(String, FloatWidth) -> Option<u64>>(
    text: &Vec<char>,
    at: usize,
    floats: &mut FloatTable,
    resolve: &F,
) -> (r: Result<(DataItem, usize), Error>)
    requires
        at <= text@.len(),
        forall|digits: String, bitwidth: FloatWidth| resolve.requires((digits, bitwidth)),
    ensures
        agrees(old(floats).entries@, final(floats).entries@),
        carried(old(floats).entries@, final(floats).entries@, *resolve),
        silent(*resolve) ==> final(floats).entries@ == old(floats).entries@,
        read_as(r, item(text@, at as int, final(floats).entries@), at as int, text@.len()),
    decreases text@.len() - at, 1nat,
{
    proof {
        lemma_agrees(floats.entries@, floats.entries@, floats.entries@);
        reveal(item);
        reveal_strlit("false");
        reveal_strlit("true");
        reveal_strlit("null");
        reveal_strlit("undefined");
        reveal_strlit("simple(");
        reveal_strlit("NaN");
        reveal_strlit("Infinity");
        reveal_strlit("-Infinity");
    }
    let len = text.len();
    let c = match get(text, at) {
        None => {
            return Err(Error::Syntax);
        },
        Some(c) => c,
    };
    if c == '"' {
        return match read_quoted(text, at + 1, '"') {
            Err(error) => Err(error),
            Ok((data, end)) => Ok((text_item(data), end)),
        };
    }
    match read_byte_string(text, at) {
        Some(Err(error)) => {
            return Err(error);
        },
        Some(Ok((data, end))) => {
            return Ok((bytes_item(data), end));
        },
        None => {},
    }
    if c == '[' {
        read_array(text, at + 1, floats, resolve)
    } else if c == '{' {
        read_mapping(text, at + 1, floats, resolve)
    } else if c == '(' {
        read_chunked(text, at, at + 1)
    } else if goes_on(text, at, "false") {
        Ok((simple_item(20), at + 5))
    } else if goes_on(text, at, "true") {
        Ok((simple_item(21), at + 4))
    } else if goes_on(text, at, "null") {
        Ok((simple_item(22), at + 4))
    } else if goes_on(text, at, "undefined") {
        Ok((simple_item(23), at + 9))
    } else if goes_on(text, at, "simple(") {
        read_simple(text, at, at + 7)
    } else if goes_on(text, at, "NaN") {
        read_special(text, at, at + 3, 0x7ff8_0000_0000_0000)
    } else if goes_on(text, at, "Infinity") {
        read_special(text, at, at + 8, 0x7ff0_0000_0000_0000)
    } else if goes_on(text, at, "-Infinity") {
        read_special(text, at, at + 9, 0xfff0_0000_0000_0000)
    } else if c == '-' {
        read_negative(text, at, floats, resolve)
    } else {
        read_unsigned(text, at, floats, resolve)
    }
}

/// Whether `result` is the item that the grammar gives; the item can be
/// encoded.
pub open spec fn parsed_as(result: Result<DataItem, Error>, expected: Result<Tree, Error>) -> bool {
    match expected {
        Ok(value) => result matches Ok(item) && tree(item) == value && well_formed(item),
        Err(error) => result matches Err(e) && e == error,
    }
}

/// Reads the item that a text is the notation of. The digits of each float
/// that `floats` does not have are handed to `resolve` with the precision
/// of their suffix, and the double that it gives for them is added to
/// `floats`; digits for which it gives nothing are a syntax error. Nothing
/// else is added to `floats`, and no entry of it changes.
pub fn parse_diag_with<F: Fn(String, FloatWidth) -> Option<u64>>(
    text: &str,
    floats: &mut FloatTable,
    resolve: &F,
) -> (result: Result<DataItem, Error>)
    requires
        forall|digits: String, bitwidth: FloatWidth| resolve.requires((digits, bitwidth)),
    ensures
        agrees(old(floats).entries@, final(floats).entries@),
        resolved_by(old(floats).entries@, final(floats).entries@, *resolve),
        parsed_as(result, notation(text@, final(floats).entries@)),
{
    proof {
        lemma_resolved_same(floats.entries@, *resolve);
    }
    let clean = strip(text);
    let start = skip(&clean, 0);
    match read_item(&clean, start, floats, resolve) {
        Err(error) => Err(error),
        Ok((item, end)) => {
            let last = skip(&clean, end);
            if last == clean.len() {
                Ok(item)
            } else {
                Err(Error::Syntax)
            }
        },
    }
}

/// A table with the same entries.
fn copy_table(floats: &FloatTable) -> (copy: FloatTable)
    ensures
        copy.entries@ == floats.entries@,
{
    let mut copy = FloatTable::new();
    let mut i: usize = 0;
    while i < floats.entries.len()
        invariant
            i <= floats.entries.len(),
            copy.entries@ == floats.entries@.take(i as int),
        decreases floats.entries.len() - i,
    {
        let entry = &floats.entries[i];
        copy.entries.push(
            FloatText { value: entry.value, bitwidth: entry.bitwidth, text: entry.text.clone() },
        );
        assert(floats.entries@.take(i + 1) =~= floats.entries@.take(i as int).push(
            floats.entries@[i as int],
        ));
        i += 1;
    }
    assert(floats.entries@.take(i as int) =~= floats.entries@);
    copy
}

/// Reads the item that a text is the notation of, with the doubles that
/// `floats` gives for the digits of its floats. Digits that the table
/// does not have are a syntax error.
pub fn parse_diag(text: &str, floats: &FloatTable) -> (result: Result<DataItem, Error>)
    ensures
        parsed_as(result, notation(text@, floats.entries@)),
{
    let mut known = copy_table(floats);
    let nothing = |digits: String, bitwidth: FloatWidth| -> (value: Option<u64>)
        ensures
            value is None,
        { None };
    let clean = strip(text);
    let start = skip(&clean, 0);
    match read_plain(&clean, start, &mut known, &nothing) {
        Err(error) => Err(error),
        Ok((item, end)) => {
            let last = skip(&clean, end);
            if last == clean.len() {
                Ok(item)
            } else {
                Err(Error::Syntax)
            }
        },
    }
}

/// Reads the item at the position `at` with a table that does not grow.
fn read_plain<F: Fn(String, FloatWidth) -> Option<u64>>(
    text: &Vec<char>,
    at: usize,
    floats: &mut FloatTable,
    resolve: &F,
) -> (r: Result<(DataItem, usize), Error>)
    requires
        at <= text@.len(),
        forall|digits: String, bitwidth: FloatWidth| resolve.requires((digits, bitwidth)),
        silent(*resolve),
    ensures
        read_as(r, item(text@, at as int, old(floats).entries@), at as int, text@.len()),
{
    read_item(text, at, floats, resolve)
}

} // verus!
