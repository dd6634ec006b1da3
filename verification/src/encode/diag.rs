//! Diagnostic notation, in a compact and in a pretty layout, as styled
//! text.

use vstd::prelude::*;
use crate::encode::{Encoding, base64_text, byte_len, encode_base64, encode_hex, lemma_base64_len};
use crate::float::{FloatClass, FloatTable, FloatText, classify, is_finite, is_infinite, is_nan, is_negative, lookup, negative};
use crate::model::{ByteString, DataItem, FloatWidth, IntegerWidth, Simple, Tag, TextString};
use crate::style::{Color, Glyph, Intensity, Span, Style, emit, emit_string, glyphs, paint};
use crate::text::{capped, capped_add, decimal, decimal_len, hex_text, lemma_decimal_digits, lemma_hex_text_len, push_decimal, push_repeat, repeat};

verus! {

/// How diagnostic notation is laid out.
#[derive(Clone, Copy, Debug, PartialEq, Eq, Structural)]
pub enum Layout {
    /// Containers that are not trivial take one line for each element.
    Pretty,
    /// Everything on one line.
    Compact,
}

/// What an encoder knows of the place it writes at.
pub struct Frame {
    pub layout: Layout,
    pub encoding: Encoding,
    pub indent: nat,
}

/// A value together with the place it is written at: the layout, the base
/// for byte strings, and the column at which lines start.
pub struct Contextual<T> {
    pub layout: Layout,
    pub encoding: Encoding,
    pub indent: usize,
    pub inner: T,
}

impl Frame {
    /// The frame of the elements of a container that stands in this frame:
    /// four columns further in, unless the container is trivial.
    pub open spec fn inside(self, trivial: bool) -> Frame {
        Frame {
            layout: self.layout,
            encoding: self.encoding,
            indent: if trivial {
                self.indent
            } else {
                self.indent + 4
            },
        }
    }

    /// This frame with another base for byte strings.
    pub open spec fn encoded(self, encoding: Encoding) -> Frame {
        Frame { layout: self.layout, encoding, indent: self.indent }
    }

    /// The frame of what the tag `tag` holds: the tags 21, 22 and 23 choose
    /// the base for the byte strings below them, other tags change nothing.
    pub open spec fn tagged(self, tag: Tag) -> Frame {
        if tag.0 == 21 {
            self.encoded(Encoding::Base64Url)
        } else if tag.0 == 22 {
            self.encoded(Encoding::Base64)
        } else if tag.0 == 23 {
            self.encoded(Encoding::Base16)
        } else {
            self
        }
    }
}

impl<T> Contextual<T> {
    /// The place this value is written at.
    pub open spec fn frame(&self) -> Frame {
        Frame { layout: self.layout, encoding: self.encoding, indent: self.indent as nat }
    }

    /// Puts `inner` at the start of a line, with byte strings in base 16.
    pub fn new(layout: Layout, inner: T) -> (r: Self)
        ensures
            r.layout == layout,
            r.encoding == Encoding::Base16,
            r.indent == 0,
            r.inner == inner,
    {
        Self { layout, inner, encoding: Encoding::Base16, indent: 0 }
    }

    /// The same value in the same place, with another base for byte strings.
    pub fn with_encoding(&self, encoding: Encoding) -> (r: Self) where T: Copy
        ensures
            r.layout == self.layout,
            r.encoding == encoding,
            r.indent == self.indent,
            r.inner == self.inner,
    {
        Self { layout: self.layout, encoding, indent: self.indent, inner: self.inner }
    }

    /// Another value in the same place.
    pub fn wrap<U>(&self, inner: U) -> (r: Contextual<U>)
        ensures
            r.layout == self.layout,
            r.encoding == self.encoding,
            r.indent == self.indent,
            r.inner == inner,
    {
        Contextual { layout: self.layout, encoding: self.encoding, indent: self.indent, inner }
    }

    /// Whether the layout is the pretty one.
    pub fn pretty(&self) -> (r: bool)
        ensures
            r == (self.layout == Layout::Pretty),
    {
        self.layout == Layout::Pretty
    }

    /// The same value, `indent` columns further in.
    pub fn with_indent(&self, indent: usize) -> (r: Contextual<&T>)
        requires
            self.indent + indent <= usize::MAX,
        ensures
            r.layout == self.layout,
            r.encoding == self.encoding,
            r.indent == self.indent + indent,
            r.inner == &self.inner,
    {
        Contextual {
            layout: self.layout,
            encoding: self.encoding,
            indent: self.indent + indent,
            inner: &self.inner,
        }
    }

    /// The spaces that lead up to the column of this place.
    pub fn indent(&self) -> (r: String)
        ensures
            r@ == repeat(' ', self.indent as nat),
    {
        let mut output = String::new();
        push_repeat(&mut output, ' ', self.indent);
        assert(output@ =~= repeat(' ', self.indent as nat));
        output
    }
}

/// The suffix that records the width of an integer or of a tag: `_0` to
/// `_3` for one, two, four and eight following bytes, nothing otherwise.
pub open spec fn width_suffix(bitwidth: IntegerWidth) -> Seq<char> {
    match bitwidth {
        IntegerWidth::Eight => "_0"@,
        IntegerWidth::Sixteen => "_1"@,
        IntegerWidth::ThirtyTwo => "_2"@,
        IntegerWidth::SixtyFour => "_3"@,
        _ => Seq::empty(),
    }
}

/// The suffix that records the precision of a float: `_1` to `_3` for half,
/// single and double precision, nothing where none was chosen.
pub open spec fn precision_suffix(bitwidth: FloatWidth) -> Seq<char> {
    match bitwidth {
        FloatWidth::Sixteen => "_1"@,
        FloatWidth::ThirtyTwo => "_2"@,
        FloatWidth::SixtyFour => "_3"@,
        FloatWidth::Unknown => Seq::empty(),
    }
}

/// A number and its faint suffix.
pub open spec fn number_glyphs(digits: Seq<char>, suffix: Seq<char>, style: Style) -> Seq<Glyph> {
    paint(digits, style) + paint(suffix, style.with_intensity(Intensity::Faint))
}

/// The notation of a negative integer: the digits of `-1 - value`.
pub open spec fn negative_text(value: u64) -> Seq<char> {
    "-"@ + decimal((value + 1) as nat)
}

/// The text of a float without its suffix. A number is written with the
/// digits that `floats` gives for it, and with `.0` after them where they
/// hold neither a point nor an exponent.
pub open spec fn float_text(value: u64, bitwidth: FloatWidth, floats: Seq<FloatText>) -> Seq<char> {
    if is_nan(value) {
        "NaN"@
    } else if is_infinite(value) {
        if negative(value) {
            "-"@ + "Infinity"@
        } else {
            "Infinity"@
        }
    } else {
        let digits = match lookup(floats, value, bitwidth) {
            Some(digits) => digits,
            None => Seq::empty(),
        };
        if !digits.contains('.') && !digits.contains('e') {
            digits + ".0"@
        } else {
            digits
        }
    }
}

/// The notation of a simple value: a name for 20 to 23, `simple(N)` for
/// the others, each in its colour.
pub open spec fn simple_glyphs(simple: Simple, style: Style) -> Seq<Glyph> {
    if simple.0 == 20 {
        paint("false"@, style.with_color(Color::Green))
    } else if simple.0 == 21 {
        paint("true"@, style.with_color(Color::Green))
    } else if simple.0 == 22 {
        paint("null"@, style.with_color(Color::Red))
    } else if simple.0 == 23 {
        paint("undefined"@, style.with_color(Color::Red))
    } else {
        paint("simple("@ + decimal(simple.0 as nat) + ")"@, style.with_color(Color::Magenta))
    }
}

/// The text between the quotes of a text string: a backslash goes before
/// each quote and each backslash, every other character stands as it is.
pub open spec fn escaped(text: Seq<char>) -> Seq<char>
    decreases text.len(),
{
    if text.len() == 0 {
        Seq::empty()
    } else if text.last() == '"' || text.last() == '\\' {
        escaped(text.drop_last()).push('\\').push(text.last())
    } else {
        escaped(text.drop_last()).push(text.last())
    }
}

/// The notation of a text string, in blue.
pub open spec fn text_glyphs(text: Seq<char>, style: Style) -> Seq<Glyph> {
    paint("\""@ + escaped(text) + "\""@, style.with_color(Color::Blue))
}

/// What opens the notation of a byte string in the base `encoding`.
pub open spec fn bytes_prefix(encoding: Encoding) -> Seq<char> {
    match encoding {
        Encoding::Base16 => "h'"@,
        _ => "b64'"@,
    }
}

/// The digits of a byte string in the base `encoding`.
pub open spec fn bytes_body(data: Seq<u8>, encoding: Encoding) -> Seq<char> {
    match encoding {
        Encoding::Base64Url => base64_text(data, true),
        Encoding::Base64 => base64_text(data, false),
        Encoding::Base16 => hex_text(data),
    }
}

/// The notation of a byte string, in yellow, with faint delimiters.
pub open spec fn bytes_glyphs(data: Seq<u8>, encoding: Encoding, style: Style) -> Seq<Glyph> {
    let yellow = style.with_color(Color::Yellow);
    let faint = yellow.with_intensity(Intensity::Faint);
    paint(bytes_prefix(encoding), faint) + paint(bytes_body(data, encoding), yellow) + paint(
        "'"@,
        faint,
    )
}

/// What opens a tagged item: the tag in cyan, its faint suffix, a bracket.
pub open spec fn tag_opening(tag: Tag, bitwidth: IntegerWidth, style: Style) -> Seq<Glyph> {
    let cyan = style.with_color(Color::Cyan);
    paint(decimal(tag.0 as nat), cyan) + paint(
        width_suffix(bitwidth),
        cyan.with_intensity(Intensity::Faint),
    ) + paint("("@, cyan)
}

/// The line break before an element of a container that is laid out over
/// several lines, with the spaces up to the element's column.
pub open spec fn line_break(indent: nat, style: Style) -> Seq<Glyph> {
    paint("\n"@, style) + paint(repeat(' ', indent), style)
}

/// What opens a container: the bold bracket and, where the length is
/// indefinite, an underscore, with a space after it on a pretty single
/// line.
pub open spec fn container_opening(
    frame: Frame,
    style: Style,
    begin: Seq<char>,
    definite: bool,
    trivial: bool,
) -> Seq<Glyph> {
    paint(begin, style.with_intensity(Intensity::Bold)) + (if definite {
        Seq::empty()
    } else {
        paint("_"@, style.with_intensity(Intensity::Normal)) + (if trivial && frame.layout
            == Layout::Pretty {
            paint(" "@, style)
        } else {
            Seq::empty()
        })
    })
}

/// What stands before the element at `index` of a container whose elements
/// are written in the frame `inner`: a comma after an earlier element,
/// and then a space or, in the pretty layout where the container is not
/// trivial, a line break.
pub open spec fn container_lead(inner: Frame, style: Style, trivial: bool, index: int) -> Seq<
    Glyph,
> {
    let gap = if inner.layout == Layout::Pretty && !trivial {
        line_break(inner.indent, style)
    } else if index > 0 {
        paint(" "@, style)
    } else {
        Seq::empty()
    };
    if index == 0 {
        gap
    } else {
        paint(","@, style.with_intensity(Intensity::Normal)) + gap
    }
}

/// The first `count` elements of a container, each behind its lead.
pub open spec fn container_body(
    inner: Frame,
    style: Style,
    trivial: bool,
    parts: Seq<Seq<Glyph>>,
    count: nat,
) -> Seq<Glyph>
    decreases count,
{
    if count == 0 {
        Seq::empty()
    } else {
        container_body(inner, style, trivial, parts, (count - 1) as nat) + container_lead(
            inner,
            style,
            trivial,
            count - 1,
        ) + parts[count - 1]
    }
}

/// What closes a container: in the pretty layout, where the container is
/// not trivial, a comma and a line break back to the container's column;
/// then the bold bracket.
pub open spec fn container_closing(frame: Frame, style: Style, end: Seq<char>, trivial: bool) -> Seq<
    Glyph,
> {
    (if frame.layout == Layout::Pretty && !trivial {
        paint(","@, style.with_intensity(Intensity::Normal)) + line_break(frame.indent, style)
    } else {
        Seq::empty()
    }) + paint(end, style.with_intensity(Intensity::Bold))
}

/// The notation of a container whose elements, written in the frame
/// `frame.inside(trivial)`, are `parts`.
pub open spec fn container_glyphs(
    frame: Frame,
    style: Style,
    begin: Seq<char>,
    end: Seq<char>,
    definite: bool,
    trivial: bool,
    parts: Seq<Seq<Glyph>>,
) -> Seq<Glyph> {
    container_opening(frame, style, begin, definite, trivial) + container_body(
        frame.inside(trivial),
        style,
        trivial,
        parts,
        parts.len(),
    ) + container_closing(frame, style, end, trivial)
}

/// The sum of a sequence of numbers.
pub open spec fn sum(numbers: Seq<nat>) -> nat
    decreases numbers.len(),
{
    if numbers.len() == 0 {
        0
    } else {
        sum(numbers.drop_last()) + numbers.last()
    }
}

/// The estimate for a byte string of `len` bytes: no base takes more than
/// two characters for a byte and five around them.
pub open spec fn bytes_estimate(len: nat) -> nat {
    2 * len + 5
}

/// The estimate for a text string: its escaped text and two quotes.
pub open spec fn text_estimate(text: Seq<char>) -> nat {
    escaped(text).len() + 2
}

/// For a container, the estimate of each of its elements together with
/// what separates it from the next: two for an array element or a chunk,
/// four for a map entry, whose colon and space count too. Empty for what is
/// no container.
#[verifier::opaque]
pub open spec fn estimate_parts(item: DataItem, floats: Seq<FloatText>) -> Seq<nat>
    decreases item, 0nat,
{
    match item {
        DataItem::Array { data, .. } => Seq::new(
            data@.len(),
            |i: int|
                if 0 <= i < data@.len() {
                    estimate(data@[i], floats) + 2
                } else {
                    0
                },
        ),
        DataItem::Mapping { data, .. } => Seq::new(
            data@.len(),
            |i: int|
                if 0 <= i < data@.len() {
                    estimate(data@[i].0, floats) + estimate(data@[i].1, floats) + 4
                } else {
                    0
                },
        ),
        DataItem::IndefiniteByteString(chunks) => Seq::new(
            chunks@.len(),
            |i: int| bytes_estimate(chunks@[i].data@.len()) + 2,
        ),
        DataItem::IndefiniteTextString(chunks) => Seq::new(
            chunks@.len(),
            |i: int| text_estimate(chunks@[i].data@) + 2,
        ),
        _ => Seq::empty(),
    }
}

/// An upper bound for the length of the notation of `item` on one line.
/// A leaf counts its text and room for a suffix; a tag adds its number, a
/// suffix and two brackets; a container adds four for its delimiters to
/// the sum of [`estimate_parts`].
#[verifier::opaque]
pub open spec fn estimate(item: DataItem, floats: Seq<FloatText>) -> nat
    decreases item, 1nat,
{
    match item {
        DataItem::Integer { value, .. } => decimal(value as nat).len() + 2,
        DataItem::Negative { value, .. } => negative_text(value).len() + 2,
        DataItem::Float { value, bitwidth } => float_text(value, bitwidth, floats).len() + 2,
        DataItem::Simple(simple) => decimal(simple.0 as nat).len() + 8,
        DataItem::ByteString(bytes) => bytes_estimate(bytes.data@.len()),
        DataItem::TextString(text) => text_estimate(text.data@),
        DataItem::Tag { tag, value, .. } => decimal(tag.0 as nat).len() + 4 + estimate(
            *value,
            floats,
        ),
        _ => 4 + sum(estimate_parts(item, floats)),
    }
}

/// The length below which a container is written on one line.
pub const TRIVIAL_LENGTH: usize = 60;

/// Whether `item` is trivial: its estimate is below [`TRIVIAL_LENGTH`].
pub open spec fn trivial(item: DataItem, floats: Seq<FloatText>) -> bool {
    estimate(item, floats) < TRIVIAL_LENGTH
}

/// The bracket that opens the notation of a container.
pub open spec fn container_begin(item: DataItem) -> Seq<char> {
    match item {
        DataItem::Array { .. } => "["@,
        DataItem::Mapping { .. } => "{"@,
        _ => "("@,
    }
}

/// The bracket that closes the notation of a container.
pub open spec fn container_end(item: DataItem) -> Seq<char> {
    match item {
        DataItem::Array { .. } => "]"@,
        DataItem::Mapping { .. } => "}"@,
        _ => ")"@,
    }
}

/// Whether a container states its length: an array or a map with a width.
pub open spec fn container_definite(item: DataItem) -> bool {
    match item {
        DataItem::Array { bitwidth, .. } => bitwidth is Some,
        DataItem::Mapping { bitwidth, .. } => bitwidth is Some,
        _ => false,
    }
}

/// For a container, the notation of each of its elements in the frame
/// `inner`. The key of a map entry is bold. Empty for what is no container.
#[verifier::opaque]
pub open spec fn parts_glyphs(item: DataItem, inner: Frame, style: Style, floats: Seq<FloatText>) -> Seq<
    Seq<Glyph>,
>
    decreases item, 0nat,
{
    match item {
        DataItem::Array { data, .. } => Seq::new(
            data@.len(),
            |i: int|
                if 0 <= i < data@.len() {
                    item_glyphs(data@[i], inner, style, floats)
                } else {
                    Seq::empty()
                },
        ),
        DataItem::Mapping { data, .. } => Seq::new(
            data@.len(),
            |i: int|
                if 0 <= i < data@.len() {
                    item_glyphs(data@[i].0, inner, style.with_intensity(Intensity::Bold), floats)
                        + entry_colon(inner, style) + item_glyphs(data@[i].1, inner, style, floats)
                } else {
                    Seq::empty()
                },
        ),
        DataItem::IndefiniteByteString(chunks) => Seq::new(
            chunks@.len(),
            |i: int| bytes_glyphs(chunks@[i].data@, inner.encoding, style),
        ),
        DataItem::IndefiniteTextString(chunks) => Seq::new(
            chunks@.len(),
            |i: int| text_glyphs(chunks@[i].data@, style),
        ),
        _ => Seq::empty(),
    }
}

/// The notation of `item` in the frame `frame`, each character with its
/// style, where `style` is the style of the surroundings.
#[verifier::opaque]
pub open spec fn item_glyphs(item: DataItem, frame: Frame, style: Style, floats: Seq<FloatText>) -> Seq<
    Glyph,
>
    decreases item, 1nat,
{
    let inner = frame.inside(trivial(item, floats));
    match item {
        DataItem::Integer { value, bitwidth } => number_glyphs(
            decimal(value as nat),
            width_suffix(bitwidth),
            style,
        ),
        DataItem::Negative { value, bitwidth } => number_glyphs(
            negative_text(value),
            width_suffix(bitwidth),
            style,
        ),
        DataItem::Float { value, bitwidth } => number_glyphs(
            float_text(value, bitwidth, floats),
            precision_suffix(bitwidth),
            style,
        ),
        DataItem::Simple(simple) => simple_glyphs(simple, style),
        DataItem::ByteString(bytes) => bytes_glyphs(bytes.data@, frame.encoding, style),
        DataItem::TextString(text) => text_glyphs(text.data@, style),
        DataItem::Tag { tag, bitwidth, value } => tag_opening(tag, bitwidth, style) + item_glyphs(
            *value,
            frame.tagged(tag),
            style,
            floats,
        ) + paint(")"@, style.with_color(Color::Cyan)),
        _ => container_glyphs(
            frame,
            style,
            container_begin(item),
            container_end(item),
            container_definite(item),
            trivial(item, floats),
            parts_glyphs(item, inner, style, floats),
        ),
    }
}

/// What stands between the key and the value of a map entry: a colon, and
/// a space in the pretty layout.
pub open spec fn entry_colon(frame: Frame, style: Style) -> Seq<Glyph> {
    paint(":"@, style) + (if frame.layout == Layout::Pretty {
        paint(" "@, style)
    } else {
        Seq::empty()
    })
}

/// For an array or a map, how deep each element nests; for a map entry,
/// the deeper of key and value. Empty for everything else.
#[verifier::opaque]
pub open spec fn depth_parts(item: DataItem) -> Seq<nat>
    decreases item, 0nat,
{
    match item {
        DataItem::Array { data, .. } => Seq::new(
            data@.len(),
            |i: int|
                if 0 <= i < data@.len() {
                    depth(data@[i])
                } else {
                    0
                },
        ),
        DataItem::Mapping { data, .. } => Seq::new(
            data@.len(),
            |i: int|
                if 0 <= i < data@.len() {
                    if depth(data@[i].0) >= depth(data@[i].1) {
                        depth(data@[i].0)
                    } else {
                        depth(data@[i].1)
                    }
                } else {
                    0
                },
        ),
        _ => Seq::empty(),
    }
}

/// How deep the containers of `item` nest: each level may move the start
/// of the lines four columns further in. A tag adds no level.
#[verifier::opaque]
pub open spec fn depth(item: DataItem) -> nat
    decreases item, 1nat,
{
    match item {
        DataItem::Array { .. } => 1 + max_of(depth_parts(item)),
        DataItem::Mapping { .. } => 1 + max_of(depth_parts(item)),
        DataItem::IndefiniteByteString(_) => 1,
        DataItem::IndefiniteTextString(_) => 1,
        DataItem::Tag { value, .. } => depth(*value),
        _ => 0,
    }
}

/// The largest of a sequence of numbers, 0 where there is none.
pub open spec fn max_of(numbers: Seq<nat>) -> nat
    decreases numbers.len(),
{
    if numbers.len() == 0 {
        0
    } else {
        let rest = max_of(numbers.drop_last());
        if rest >= numbers.last() {
            rest
        } else {
            numbers.last()
        }
    }
}

/// Painting no text gives no glyphs.
pub proof fn lemma_paint_nothing(style: Style)
    ensures
        paint(Seq::empty(), style) == Seq::<Glyph>::empty(),
{
    assert(paint(Seq::empty(), style) =~= Seq::<Glyph>::empty());
}

/// Writes the faint suffix of an integer or of a tag.
fn write_width_suffix(bitwidth: IntegerWidth, style: Style, out: &mut Vec<Span>)
    ensures
        glyphs(final(out)@) == glyphs(old(out)@) + paint(
            width_suffix(bitwidth),
            style.with_intensity(Intensity::Faint),
        ),
{
    let faint = style.with_intensity(Intensity::Faint);
    match bitwidth {
        IntegerWidth::Eight => emit(out, "_0", faint),
        IntegerWidth::Sixteen => emit(out, "_1", faint),
        IntegerWidth::ThirtyTwo => emit(out, "_2", faint),
        IntegerWidth::SixtyFour => emit(out, "_3", faint),
        _ => {
            proof {
                lemma_paint_nothing(faint);
            }
        },
    }
}

/// Writes a non-negative integer.
fn write_integer(value: u64, bitwidth: IntegerWidth, style: Style, out: &mut Vec<Span>)
    ensures
        glyphs(final(out)@) == glyphs(old(out)@) + number_glyphs(
            decimal(value as nat),
            width_suffix(bitwidth),
            style,
        ),
{
    let mut digits = String::new();
    push_decimal(&mut digits, value as u128);
    assert(digits@ =~= decimal(value as nat));
    emit_string(out, digits, style);
    write_width_suffix(bitwidth, style, out);
}

/// Writes a negative integer: `-1 - value`, which may lie below the range
/// of a signed 64-bit number.
fn write_negative(value: u64, bitwidth: IntegerWidth, style: Style, out: &mut Vec<Span>)
    ensures
        glyphs(final(out)@) == glyphs(old(out)@) + number_glyphs(
            negative_text(value),
            width_suffix(bitwidth),
            style,
        ),
{
    let mut digits = "-".to_owned();
    push_decimal(&mut digits, value as u128 + 1);
    emit_string(out, digits, style);
    write_width_suffix(bitwidth, style, out);
}

/// Whether `text` holds the character `c`.
pub(crate) fn has_char(text: &str, c: char) -> (found: bool)
    ensures
        found == text@.contains(c),
{
    for x in it: text.chars()
        invariant
            it.seq() == text@,
            !text@.take(it.index() as int).contains(c),
    {
        if x == c {
            assert(text@[it.index() as int] == c);
            return true;
        }
        let ghost upto = text@.take(it.index() + 1);
        assert forall|j: int| 0 <= j < upto.len() implies #[trigger] upto[j] != c by {
            if j < it.index() {
                assert(text@.take(it.index() as int)[j] == text@[j]);
            }
        }
    }
    assert(text@.take(text@.len() as int) =~= text@);
    false
}

/// Appends the text of a float without its suffix.
pub(crate) fn push_float_text(out: &mut String, value: u64, bitwidth: FloatWidth, floats: &FloatTable)
    requires
        is_finite(value) ==> floats.text_of(value, bitwidth) is Some,
    ensures
        final(out)@ == old(out)@ + float_text(value, bitwidth, floats.entries@),
{
    match classify(value) {
        FloatClass::Nan => out.append("NaN"),
        FloatClass::Infinite => {
            if is_negative(value) {
                out.append("-");
            }
            out.append("Infinity");
        },
        FloatClass::Finite => {
            match floats.find(value, bitwidth) {
                Some(i) => {
                    let digits = floats.entries[i].text.as_str();
                    out.append(digits);
                    if !has_char(digits, '.') && !has_char(digits, 'e') {
                        out.append(".0");
                    }
                },
                None => {},
            }
        },
    }
}

/// Writes a float: a name for NaN and the infinities, else the digits from
/// the table, and its faint suffix.
fn write_float(value: u64, bitwidth: FloatWidth, floats: &FloatTable, style: Style, out: &mut Vec<Span>)
    requires
        is_finite(value) ==> floats.text_of(value, bitwidth) is Some,
    ensures
        glyphs(final(out)@) == glyphs(old(out)@) + number_glyphs(
            float_text(value, bitwidth, floats.entries@),
            precision_suffix(bitwidth),
            style,
        ),
{
    let ghost before = glyphs(out@);
    match classify(value) {
        FloatClass::Nan => emit(out, "NaN", style),
        FloatClass::Infinite => {
            if is_negative(value) {
                emit(out, "-", style);
                emit(out, "Infinity", style);
                proof {
                    crate::style::lemma_paint_concat("-"@, "Infinity"@, style);
                }
            } else {
                emit(out, "Infinity", style);
            }
        },
        FloatClass::Finite => {
            match floats.find(value, bitwidth) {
                Some(i) => {
                    let digits = floats.entries[i].text.clone();
                    let bare = !has_char(digits.as_str(), '.') && !has_char(digits.as_str(), 'e');
                    emit_string(out, digits, style);
                    if bare {
                        emit(out, ".0", style);
                        proof {
                            crate::style::lemma_paint_concat(digits@, ".0"@, style);
                        }
                    }
                },
                None => {},
            }
        },
    }
    assert(glyphs(out@) == before + paint(float_text(value, bitwidth, floats.entries@), style));
    let faint = style.with_intensity(Intensity::Faint);
    match bitwidth {
        FloatWidth::Sixteen => emit(out, "_1", faint),
        FloatWidth::ThirtyTwo => emit(out, "_2", faint),
        FloatWidth::SixtyFour => emit(out, "_3", faint),
        FloatWidth::Unknown => {
            proof {
                lemma_paint_nothing(faint);
            }
        },
    }
}

/// Writes a simple value.
fn write_simple(simple: Simple, style: Style, out: &mut Vec<Span>)
    ensures
        glyphs(final(out)@) == glyphs(old(out)@) + simple_glyphs(simple, style),
{
    if simple.0 == 20 {
        emit(out, "false", style.with_color(Color::Green));
    } else if simple.0 == 21 {
        emit(out, "true", style.with_color(Color::Green));
    } else if simple.0 == 22 {
        emit(out, "null", style.with_color(Color::Red));
    } else if simple.0 == 23 {
        emit(out, "undefined", style.with_color(Color::Red));
    } else {
        let mut text = "simple(".to_owned();
        push_decimal(&mut text, simple.0 as u128);
        text.push(')');
        proof {
            reveal_strlit(")");
            assert(text@ =~= "simple("@ + decimal(simple.0 as nat) + ")"@);
        }
        emit_string(out, text, style.with_color(Color::Magenta));
    }
}

/// Writes a text string between quotes.
fn write_text(text: &TextString, style: Style, out: &mut Vec<Span>)
    ensures
        glyphs(final(out)@) == glyphs(old(out)@) + text_glyphs(text.data@, style),
{
    let mut quoted = "\"".to_owned();
    let data = text.data.as_str();
    for c in it: data.chars()
        invariant
            it.seq() == data@,
            quoted@ == "\""@ + escaped(data@.take(it.index() as int)),
    {
        assert(c == data@[it.index() as int]);
        assert(data@.take(it.index() + 1).drop_last() =~= data@.take(it.index() as int));
        if c == '"' || c == '\\' {
            quoted.push('\\');
        }
        quoted.push(c);
    }
    quoted.push('"');
    proof {
        reveal_strlit("\"");
        assert(data@.take(data@.len() as int) =~= data@);
        assert(quoted@ =~= "\""@ + escaped(text.data@) + "\""@);
    }
    emit_string(out, quoted, style.with_color(Color::Blue));
}

/// Writes a byte string in the base `encoding`.
fn write_bytes(bytes: &ByteString, encoding: Encoding, style: Style, out: &mut Vec<Span>)
    ensures
        glyphs(final(out)@) == glyphs(old(out)@) + bytes_glyphs(bytes.data@, encoding, style),
{
    let yellow = style.with_color(Color::Yellow);
    let faint = yellow.with_intensity(Intensity::Faint);
    match encoding {
        Encoding::Base16 => emit(out, "h'", faint),
        _ => emit(out, "b64'", faint),
    }
    let len = byte_len(&bytes.data);
    let body = match encoding {
        Encoding::Base64Url => encode_base64(bytes.data.as_slice(), true),
        Encoding::Base64 => encode_base64(bytes.data.as_slice(), false),
        Encoding::Base16 => encode_hex(bytes.data.as_slice()),
    };
    emit_string(out, body, yellow);
    emit(out, "'", faint);
}

/// The sum of the first numbers is no more than the sum of all.
pub proof fn lemma_sum_take(numbers: Seq<nat>, count: int)
    requires
        0 <= count <= numbers.len(),
    ensures
        sum(numbers.take(count)) <= sum(numbers),
    decreases numbers.len(),
{
    if count == numbers.len() {
        assert(numbers.take(count) =~= numbers);
    } else {
        assert(numbers.drop_last().take(count) =~= numbers.take(count));
        lemma_sum_take(numbers.drop_last(), count);
    }
}

/// The sum grows by the number that is added at the end.
pub proof fn lemma_sum_step(numbers: Seq<nat>, count: int)
    requires
        0 <= count < numbers.len(),
    ensures
        sum(numbers.take(count + 1)) == sum(numbers.take(count)) + numbers[count],
{
    assert(numbers.take(count + 1).drop_last() =~= numbers.take(count));
}

/// The smaller of the estimate for a byte string of `len` bytes and `max`.
fn estimate_bytes(len: usize, max: usize) -> (r: usize)
    ensures
        r == capped(bytes_estimate(len as nat), max),
{
    let twice = capped_add(len, len, max);
    capped_add(twice, 5, max)
}

/// The smaller of the estimate for a text string and `max`.
fn estimate_text(text: &str, max: usize) -> (r: usize)
    ensures
        r == capped(text_estimate(text@), max),
{
    let mut len: usize = 0;
    for c in it: text.chars()
        invariant
            it.seq() == text@,
            len == capped(escaped(text@.take(it.index() as int)).len(), max),
    {
        assert(c == text@[it.index() as int]);
        assert(text@.take(it.index() + 1).drop_last() =~= text@.take(it.index() as int));
        if c == '"' || c == '\\' {
            len = capped_add(len, 2, max);
        } else {
            len = capped_add(len, 1, max);
        }
    }
    assert(text@.take(text@.len() as int) =~= text@);
    capped_add(len, 2, max)
}

/// The number of characters of the text of a float without its suffix.
fn float_len(value: u64, bitwidth: FloatWidth, floats: &FloatTable) -> (len: usize)
    requires
        is_finite(value) ==> floats.text_of(value, bitwidth) is Some,
    ensures
        len == capped(float_text(value, bitwidth, floats.entries@).len(), usize::MAX),
{
    proof {
        reveal_strlit("NaN");
        reveal_strlit("-");
        reveal_strlit("Infinity");
        reveal_strlit(".0");
    }
    match classify(value) {
        FloatClass::Nan => 3,
        FloatClass::Infinite => if is_negative(value) {
            9
        } else {
            8
        },
        FloatClass::Finite => {
            match floats.find(value, bitwidth) {
                Some(i) => {
                    let digits = floats.entries[i].text.as_str();
                    let len = digits.unicode_len();
                    if !has_char(digits, '.') && !has_char(digits, 'e') {
                        capped_add(len, 2, usize::MAX)
                    } else {
                        len
                    }
                },
                None => 0,
            }
        },
    }
}

impl DataItem {
    /// The smaller of [`estimate`] and `max`. The count stops as soon as it
    /// reaches `max`.
    pub fn estimate(&self, max: usize, floats: &FloatTable) -> (r: usize)
        requires
            floats.covers(*self),
        ensures
            r == capped(estimate(*self, floats.entries@), max),
        decreases self,
    {
        proof {
            reveal(estimate);
            reveal(estimate_parts);
        }
        match self {
            DataItem::Integer { value, .. } => capped_add(decimal_len(*value as u128), 2, max),
            DataItem::Negative { value, .. } => {
                proof {
                    reveal_strlit("-");
                }
                capped_add(decimal_len(*value as u128 + 1), 3, max)
            },
            DataItem::Float { value, bitwidth } => {
                let len = float_len(*value, *bitwidth, floats);
                capped_add(len, 2, max)
            },
            DataItem::Simple(simple) => capped_add(decimal_len(simple.0 as u128), 8, max),
            DataItem::ByteString(bytes) => estimate_bytes(bytes.data.len(), max),
            DataItem::TextString(text) => estimate_text(text.data.as_str(), max),
            DataItem::Array { data, .. } => {
                let ghost parts = estimate_parts(*self, floats.entries@);
                let mut len: usize = capped_add(4, 0, max);
                let mut i: usize = 0;
                assert(parts.take(0) =~= Seq::<nat>::empty());
                while i < data.len()
                    invariant
                        i <= data.len(),
                        self matches DataItem::Array { data: d, .. } && d == data,
                        floats.covers(*self),
                        parts.len() == data@.len(),
                        forall|j: int|
                            0 <= j < data@.len() ==> parts[j] == estimate(
                                data@[j],
                                floats.entries@,
                            ) + 2,
                        estimate(*self, floats.entries@) == 4 + sum(parts),
                        len == capped(4 + sum(parts.take(i as int)), max),
                    decreases data.len() - i,
                {
                    if len >= max {
                        proof {
                            lemma_sum_take(parts, i as int);
                            assert(parts.take(parts.len() as int) =~= parts);
                        }
                        return max;
                    }
                    let part = data[i].estimate(max, floats);
                    proof {
                        lemma_sum_step(parts, i as int);
                    }
                    len = capped_add(capped_add(len, part, max), 2, max);
                    i += 1;
                }
                assert(parts.take(i as int) =~= parts);
                len
            },
            DataItem::Mapping { data, .. } => {
                let ghost parts = estimate_parts(*self, floats.entries@);
                let mut len: usize = capped_add(4, 0, max);
                let mut i: usize = 0;
                assert(parts.take(0) =~= Seq::<nat>::empty());
                while i < data.len()
                    invariant
                        i <= data.len(),
                        self matches DataItem::Mapping { data: d, .. } && d == data,
                        floats.covers(*self),
                        parts.len() == data@.len(),
                        forall|j: int|
                            0 <= j < data@.len() ==> parts[j] == estimate(
                                data@[j].0,
                                floats.entries@,
                            ) + estimate(data@[j].1, floats.entries@) + 4,
                        estimate(*self, floats.entries@) == 4 + sum(parts),
                        len == capped(4 + sum(parts.take(i as int)), max),
                    decreases data.len() - i,
                {
                    if len >= max {
                        proof {
                            lemma_sum_take(parts, i as int);
                            assert(parts.take(parts.len() as int) =~= parts);
                        }
                        return max;
                    }
                    let key = data[i].0.estimate(max, floats);
                    let value = data[i].1.estimate(max, floats);
                    proof {
                        lemma_sum_step(parts, i as int);
                    }
                    len = capped_add(capped_add(capped_add(len, key, max), value, max), 4, max);
                    i += 1;
                }
                assert(parts.take(i as int) =~= parts);
                len
            },
            DataItem::IndefiniteByteString(chunks) => {
                let ghost parts = estimate_parts(*self, floats.entries@);
                let mut len: usize = capped_add(4, 0, max);
                let mut i: usize = 0;
                assert(parts.take(0) =~= Seq::<nat>::empty());
                while i < chunks.len()
                    invariant
                        i <= chunks.len(),
                        parts.len() == chunks@.len(),
                        forall|j: int|
                            0 <= j < chunks@.len() ==> parts[j] == bytes_estimate(
                                chunks@[j].data@.len(),
                            ) + 2,
                        estimate(*self, floats.entries@) == 4 + sum(parts),
                        len == capped(4 + sum(parts.take(i as int)), max),
                    decreases chunks.len() - i,
                {
                    let part = estimate_bytes(chunks[i].data.len(), max);
                    proof {
                        lemma_sum_step(parts, i as int);
                    }
                    len = capped_add(capped_add(len, part, max), 2, max);
                    i += 1;
                }
                assert(parts.take(i as int) =~= parts);
                len
            },
            DataItem::IndefiniteTextString(chunks) => {
                let ghost parts = estimate_parts(*self, floats.entries@);
                let mut len: usize = capped_add(4, 0, max);
                let mut i: usize = 0;
                assert(parts.take(0) =~= Seq::<nat>::empty());
                while i < chunks.len()
                    invariant
                        i <= chunks.len(),
                        parts.len() == chunks@.len(),
                        forall|j: int|
                            0 <= j < chunks@.len() ==> parts[j] == text_estimate(chunks@[j].data@)
                                + 2,
                        estimate(*self, floats.entries@) == 4 + sum(parts),
                        len == capped(4 + sum(parts.take(i as int)), max),
                    decreases chunks.len() - i,
                {
                    let part = estimate_text(chunks[i].data.as_str(), max);
                    proof {
                        lemma_sum_step(parts, i as int);
                    }
                    len = capped_add(capped_add(len, part, max), 2, max);
                    i += 1;
                }
                assert(parts.take(i as int) =~= parts);
                len
            },
            DataItem::Tag { tag, value, .. } => {
                let head = capped_add(decimal_len(tag.0 as u128), 4, max);
                let rest = value.estimate(max, floats);
                capped_add(head, rest, max)
            },
        }
    }
}

/// Whether `value` is written on one line: its estimate is below
/// [`TRIVIAL_LENGTH`].
pub fn is_trivial(value: &DataItem, floats: &FloatTable) -> (r: bool)
    requires
        floats.covers(*value),
    ensures
        r == trivial(*value, floats.entries@),
{
    value.estimate(TRIVIAL_LENGTH, floats) < TRIVIAL_LENGTH
}

/// The largest number is no smaller than any of them.
pub proof fn lemma_max_of(numbers: Seq<nat>, index: int)
    requires
        0 <= index < numbers.len(),
    ensures
        numbers[index] <= max_of(numbers),
    decreases numbers.len(),
{
    if index < numbers.len() - 1 {
        lemma_max_of(numbers.drop_last(), index);
    }
}

/// An element of an array nests less deep than the array.
pub proof fn lemma_depth_element(item: DataItem, index: int)
    requires
        item is Array,
        0 <= index < item->Array_data@.len(),
    ensures
        depth(item->Array_data@[index]) < depth(item),
{
    reveal(depth);
    reveal(depth_parts);
    lemma_max_of(depth_parts(item), index);
}

/// The key and the value of a map entry nest less deep than the map.
pub proof fn lemma_depth_entry(item: DataItem, index: int)
    requires
        item is Mapping,
        0 <= index < item->Mapping_data@.len(),
    ensures
        depth(item->Mapping_data@[index].0) < depth(item),
        depth(item->Mapping_data@[index].1) < depth(item),
{
    reveal(depth);
    reveal(depth_parts);
    lemma_max_of(depth_parts(item), index);
}

/// What a tag holds nests as deep as the tagged item.
pub proof fn lemma_depth_tagged(item: DataItem)
    requires
        item is Tag,
    ensures
        depth(*item->Tag_value) == depth(item),
{
    reveal(depth);
}

/// A container nests at least one level deep.
pub proof fn lemma_depth_container(item: DataItem)
    requires
        item is Array || item is Mapping || item is IndefiniteByteString
            || item is IndefiniteTextString,
    ensures
        depth(item) >= 1,
{
    reveal(depth);
}

/// The notation of a container is that of its elements between what opens
/// and what closes it.
pub proof fn lemma_container_notation(item: DataItem, frame: Frame, style: Style, floats: Seq<FloatText>)
    requires
        item is Array || item is Mapping || item is IndefiniteByteString
            || item is IndefiniteTextString,
    ensures
        item_glyphs(item, frame, style, floats) == container_glyphs(
            frame,
            style,
            container_begin(item),
            container_end(item),
            container_definite(item),
            trivial(item, floats),
            parts_glyphs(item, frame.inside(trivial(item, floats)), style, floats),
        ),
{
    reveal(item_glyphs);
    reveal(parts_glyphs);
}

/// A table that covers an array covers each of its elements.
pub proof fn lemma_covers_element(entries: Seq<FloatText>, item: DataItem, index: int)
    requires
        item is Array,
        crate::float::covers(entries, item),
        0 <= index < item->Array_data@.len(),
    ensures
        crate::float::covers(entries, item->Array_data@[index]),
{
}

/// A table that covers a map covers each key and each value.
pub proof fn lemma_covers_entry(entries: Seq<FloatText>, item: DataItem, index: int)
    requires
        item is Mapping,
        crate::float::covers(entries, item),
        0 <= index < item->Mapping_data@.len(),
    ensures
        crate::float::covers(entries, item->Mapping_data@[index].0),
        crate::float::covers(entries, item->Mapping_data@[index].1),
{
}

/// Writes a line break and the spaces up to the column of `place`.
fn write_line_break<T>(place: &Contextual<T>, style: Style, out: &mut Vec<Span>)
    ensures
        glyphs(final(out)@) == glyphs(old(out)@) + line_break(place.indent as nat, style),
{
    emit(out, "\n", style);
    emit_string(out, place.indent(), style);
}

/// Writes what opens a container.
fn write_opening<T>(
    place: &Contextual<T>,
    style: Style,
    begin: &str,
    definite: bool,
    trivial: bool,
    out: &mut Vec<Span>,
)
    ensures
        glyphs(final(out)@) == glyphs(old(out)@) + container_opening(
            place.frame(),
            style,
            begin@,
            definite,
            trivial,
        ),
{
    emit(out, begin, style.with_intensity(Intensity::Bold));
    if !definite {
        emit(out, "_", style.with_intensity(Intensity::Normal));
        if trivial && place.pretty() {
            emit(out, " ", style);
        }
    }
}

/// Writes what stands before the element at `index` of a container.
fn write_lead<T>(inner: &Contextual<T>, style: Style, trivial: bool, index: usize, out: &mut Vec<Span>)
    ensures
        glyphs(final(out)@) == glyphs(old(out)@) + container_lead(
            inner.frame(),
            style,
            trivial,
            index as int,
        ),
{
    if index > 0 {
        emit(out, ",", style.with_intensity(Intensity::Normal));
    }
    if inner.pretty() && !trivial {
        write_line_break(inner, style, out);
    } else if index > 0 {
        emit(out, " ", style);
    }
}

/// Writes what closes a container.
fn write_closing<T>(place: &Contextual<T>, style: Style, end: &str, trivial: bool, out: &mut Vec<Span>)
    ensures
        glyphs(final(out)@) == glyphs(old(out)@) + container_closing(
            place.frame(),
            style,
            end@,
            trivial,
        ),
{
    if place.pretty() && !trivial {
        emit(out, ",", style.with_intensity(Intensity::Normal));
        write_line_break(place, style, out);
    }
    emit(out, end, style.with_intensity(Intensity::Bold));
}

/// The body of a container grows by one element and its lead.
pub proof fn lemma_body_step(inner: Frame, style: Style, trivial: bool, parts: Seq<Seq<Glyph>>, count: nat)
    requires
        count < parts.len(),
    ensures
        container_body(inner, style, trivial, parts, count + 1) == container_body(
            inner,
            style,
            trivial,
            parts,
            count,
        ) + container_lead(inner, style, trivial, count as int) + parts[count as int],
{
}

/// The notation of what an array holds, element by element.
pub proof fn lemma_parts_of_array(item: DataItem, inner: Frame, style: Style, floats: Seq<FloatText>)
    requires
        item is Array,
    ensures
        parts_glyphs(item, inner, style, floats).len() == item->Array_data@.len(),
        forall|j: int|
            0 <= j < item->Array_data@.len() ==> #[trigger] parts_glyphs(
                item,
                inner,
                style,
                floats,
            )[j] == item_glyphs(item->Array_data@[j], inner, style, floats),
{
    reveal(parts_glyphs);
    reveal(item_glyphs);
}

/// The notation of what a map holds, entry by entry.
pub proof fn lemma_parts_of_mapping(item: DataItem, inner: Frame, style: Style, floats: Seq<FloatText>)
    requires
        item is Mapping,
    ensures
        parts_glyphs(item, inner, style, floats).len() == item->Mapping_data@.len(),
        forall|j: int|
            0 <= j < item->Mapping_data@.len() ==> #[trigger] parts_glyphs(
                item,
                inner,
                style,
                floats,
            )[j] == item_glyphs(
                item->Mapping_data@[j].0,
                inner,
                style.with_intensity(Intensity::Bold),
                floats,
            ) + entry_colon(inner, style) + item_glyphs(
                item->Mapping_data@[j].1,
                inner,
                style,
                floats,
            ),
{
    reveal(parts_glyphs);
    reveal(item_glyphs);
}

/// The notation of the chunks of an indefinite-length string, chunk by
/// chunk.
pub proof fn lemma_parts_of_chunks(item: DataItem, inner: Frame, style: Style, floats: Seq<FloatText>)
    ensures
        item matches DataItem::IndefiniteByteString(chunks) ==> parts_glyphs(
            item,
            inner,
            style,
            floats,
        ).len() == chunks@.len() && forall|j: int|
            0 <= j < chunks@.len() ==> #[trigger] parts_glyphs(item, inner, style, floats)[j]
                == bytes_glyphs(chunks@[j].data@, inner.encoding, style),
        item matches DataItem::IndefiniteTextString(chunks) ==> parts_glyphs(
            item,
            inner,
            style,
            floats,
        ).len() == chunks@.len() && forall|j: int|
            0 <= j < chunks@.len() ==> #[trigger] parts_glyphs(item, inner, style, floats)[j]
                == text_glyphs(chunks@[j].data@, style),
{
    reveal(parts_glyphs);
}

/// Writes an array.
#[verifier::rlimit(40)]
fn write_array(this: &Contextual<&DataItem>, style: Style, floats: &FloatTable, out: &mut Vec<Span>)
    requires
        this.inner is Array,
        floats.covers(*this.inner),
        this.indent + 4 * depth(*this.inner) <= usize::MAX,
    ensures
        glyphs(final(out)@) == glyphs(old(out)@) + item_glyphs(
            *this.inner,
            this.frame(),
            style,
            floats.entries@,
        ),
    decreases *this.inner, 1nat,
{
    let item: &DataItem = this.inner;
    if let DataItem::Array { data, bitwidth } = item {
        let trivial = is_trivial(item, floats);
        proof {
            lemma_depth_container(*item);
            lemma_container_notation(*item, this.frame(), style, floats.entries@);
        }
        let ghost start = glyphs(out@);
        write_opening(this, style, "[", bitwidth.is_some(), trivial, out);
        let inner = this.with_indent(if trivial { 0 } else { 4 });
        let ghost parts = parts_glyphs(*item, inner.frame(), style, floats.entries@);
        let ghost base = glyphs(out@);
        proof {
            assert(inner.frame() == this.frame().inside(trivial));
            lemma_parts_of_array(*item, inner.frame(), style, floats.entries@);
        }
        let mut i: usize = 0;
        while i < data.len()
            invariant
                i <= data.len(),
                item == this.inner,
                item matches DataItem::Array { data: d, .. } && d == data,
                floats.covers(*item),
                inner.indent + 4 * depth(*item) <= usize::MAX + 4,
                parts.len() == data@.len(),
                forall|j: int|
                    0 <= j < data@.len() ==> parts[j] == item_glyphs(
                        data@[j],
                        inner.frame(),
                        style,
                        floats.entries@,
                    ),
                glyphs(out@) == base + container_body(
                    inner.frame(),
                    style,
                    trivial,
                    parts,
                    i as nat,
                ),
            decreases data.len() - i,
        {
            write_lead(&inner, style, trivial, i, out);
            proof {
                lemma_depth_element(*item, i as int);
                lemma_covers_element(floats.entries@, *item, i as int);
                lemma_body_step(inner.frame(), style, trivial, parts, i as nat);
            }
            write_item(&inner.wrap(&data[i]), style, floats, out);
            i += 1;
        }
        write_closing(this, style, "]", trivial, out);
        proof {
            reveal_strlit("[");
            reveal_strlit("]");
        }
    }
}

/// Writes one entry of a map: the key in bold, a colon, the value.
fn write_entry(
    inner: &Contextual<&&DataItem>,
    index: usize,
    style: Style,
    floats: &FloatTable,
    out: &mut Vec<Span>,
)
    requires
        **inner.inner is Mapping,
        index < (**inner.inner)->Mapping_data@.len(),
        floats.covers(**inner.inner),
        inner.indent + 4 * depth(**inner.inner) <= usize::MAX + 4,
    ensures
        glyphs(final(out)@) == glyphs(old(out)@) + (item_glyphs(
            (**inner.inner)->Mapping_data@[index as int].0,
            inner.frame(),
            style.with_intensity(Intensity::Bold),
            floats.entries@,
        ) + entry_colon(inner.frame(), style) + item_glyphs(
            (**inner.inner)->Mapping_data@[index as int].1,
            inner.frame(),
            style,
            floats.entries@,
        )),
    decreases **inner.inner, 0nat,
{
    let item: &DataItem = *inner.inner;
    if let DataItem::Mapping { data, .. } = item {
        proof {
            lemma_depth_entry(*item, index as int);
            lemma_covers_entry(floats.entries@, *item, index as int);
        }
        let ghost before = glyphs(out@);
        write_item(&inner.wrap(&data[index].0), style.with_intensity(Intensity::Bold), floats, out);
        let ghost keyed = glyphs(out@);
        emit(out, ":", style);
        if inner.pretty() {
            emit(out, " ", style);
        }
        assert(glyphs(out@) == keyed + entry_colon(inner.frame(), style));
        write_item(&inner.wrap(&data[index].1), style, floats, out);
    }
}

/// Writes a map, each key in bold.
#[verifier::rlimit(40)]
fn write_mapping(this: &Contextual<&DataItem>, style: Style, floats: &FloatTable, out: &mut Vec<Span>)
    requires
        this.inner is Mapping,
        floats.covers(*this.inner),
        this.indent + 4 * depth(*this.inner) <= usize::MAX,
    ensures
        glyphs(final(out)@) == glyphs(old(out)@) + item_glyphs(
            *this.inner,
            this.frame(),
            style,
            floats.entries@,
        ),
    decreases *this.inner, 1nat,
{
    let item: &DataItem = this.inner;
    if let DataItem::Mapping { data, bitwidth } = item {
        let trivial = is_trivial(item, floats);
        proof {
            lemma_depth_container(*item);
            lemma_container_notation(*item, this.frame(), style, floats.entries@);
        }
        write_opening(this, style, "{", bitwidth.is_some(), trivial, out);
        let inner = this.with_indent(if trivial { 0 } else { 4 });
        let ghost parts = parts_glyphs(*item, inner.frame(), style, floats.entries@);
        let ghost base = glyphs(out@);
        proof {
            assert(inner.frame() == this.frame().inside(trivial));
            lemma_parts_of_mapping(*item, inner.frame(), style, floats.entries@);
        }
        let mut i: usize = 0;
        while i < data.len()
            invariant
                i <= data.len(),
                item == this.inner,
                inner.inner == &this.inner,
                item matches DataItem::Mapping { data: d, .. } && d == data,
                floats.covers(*item),
                inner.indent + 4 * depth(*item) <= usize::MAX + 4,
                parts.len() == data@.len(),
                forall|j: int|
                    0 <= j < data@.len() ==> parts[j] == item_glyphs(
                        data@[j].0,
                        inner.frame(),
                        style.with_intensity(Intensity::Bold),
                        floats.entries@,
                    ) + entry_colon(inner.frame(), style) + item_glyphs(
                        data@[j].1,
                        inner.frame(),
                        style,
                        floats.entries@,
                    ),
                glyphs(out@) == base + container_body(
                    inner.frame(),
                    style,
                    trivial,
                    parts,
                    i as nat,
                ),
            decreases data.len() - i,
        {
            write_lead(&inner, style, trivial, i, out);
            proof {
                lemma_body_step(inner.frame(), style, trivial, parts, i as nat);
            }
            write_entry(&inner, i, style, floats, out);
            i += 1;
        }
        write_closing(this, style, "}", trivial, out);
        proof {
            reveal_strlit("{");
            reveal_strlit("}");
        }
    }
}

/// Writes an indefinite-length byte string, chunk by chunk.
#[verifier::rlimit(40)]
fn write_byte_chunks(this: &Contextual<&DataItem>, style: Style, floats: &FloatTable, out: &mut Vec<Span>)
    requires
        this.inner is IndefiniteByteString,
        floats.covers(*this.inner),
        this.indent + 4 <= usize::MAX,
    ensures
        glyphs(final(out)@) == glyphs(old(out)@) + item_glyphs(
            *this.inner,
            this.frame(),
            style,
            floats.entries@,
        ),
{
    let item: &DataItem = this.inner;
    if let DataItem::IndefiniteByteString(chunks) = item {
        let trivial = is_trivial(item, floats);
        proof {
            lemma_container_notation(*item, this.frame(), style, floats.entries@);
        }
        write_opening(this, style, "(", false, trivial, out);
        let inner = this.with_indent(if trivial { 0 } else { 4 });
        let ghost parts = parts_glyphs(*item, inner.frame(), style, floats.entries@);
        let ghost base = glyphs(out@);
        proof {
            assert(inner.frame() == this.frame().inside(trivial));
            lemma_parts_of_chunks(*item, inner.frame(), style, floats.entries@);
        }
        let mut i: usize = 0;
        while i < chunks.len()
            invariant
                i <= chunks.len(),
                parts.len() == chunks@.len(),
                forall|j: int|
                    0 <= j < chunks@.len() ==> parts[j] == bytes_glyphs(
                        chunks@[j].data@,
                        inner.encoding,
                        style,
                    ),
                glyphs(out@) == base + container_body(
                    inner.frame(),
                    style,
                    trivial,
                    parts,
                    i as nat,
                ),
            decreases chunks.len() - i,
        {
            write_lead(&inner, style, trivial, i, out);
            proof {
                lemma_body_step(inner.frame(), style, trivial, parts, i as nat);
            }
            write_bytes(&chunks[i], inner.encoding, style, out);
            i += 1;
        }
        write_closing(this, style, ")", trivial, out);
    }
}

/// Writes an indefinite-length text string, chunk by chunk.
#[verifier::rlimit(40)]
fn write_text_chunks(this: &Contextual<&DataItem>, style: Style, floats: &FloatTable, out: &mut Vec<Span>)
    requires
        this.inner is IndefiniteTextString,
        floats.covers(*this.inner),
        this.indent + 4 <= usize::MAX,
    ensures
        glyphs(final(out)@) == glyphs(old(out)@) + item_glyphs(
            *this.inner,
            this.frame(),
            style,
            floats.entries@,
        ),
{
    let item: &DataItem = this.inner;
    if let DataItem::IndefiniteTextString(chunks) = item {
        let trivial = is_trivial(item, floats);
        proof {
            lemma_container_notation(*item, this.frame(), style, floats.entries@);
        }
        write_opening(this, style, "(", false, trivial, out);
        let inner = this.with_indent(if trivial { 0 } else { 4 });
        let ghost parts = parts_glyphs(*item, inner.frame(), style, floats.entries@);
        let ghost base = glyphs(out@);
        proof {
            assert(inner.frame() == this.frame().inside(trivial));
            lemma_parts_of_chunks(*item, inner.frame(), style, floats.entries@);
        }
        let mut i: usize = 0;
        while i < chunks.len()
            invariant
                i <= chunks.len(),
                parts.len() == chunks@.len(),
                forall|j: int|
                    0 <= j < chunks@.len() ==> parts[j] == text_glyphs(chunks@[j].data@, style),
                glyphs(out@) == base + container_body(
                    inner.frame(),
                    style,
                    trivial,
                    parts,
                    i as nat,
                ),
            decreases chunks.len() - i,
        {
            write_lead(&inner, style, trivial, i, out);
            proof {
                lemma_body_step(inner.frame(), style, trivial, parts, i as nat);
            }
            write_text(&chunks[i], style, out);
            i += 1;
        }
        write_closing(this, style, ")", trivial, out);
    }
}

/// Writes a tagged item. The tags 21 to 23 choose the base of the byte
/// strings below them.
fn write_tagged(this: &Contextual<&DataItem>, style: Style, floats: &FloatTable, out: &mut Vec<Span>)
    requires
        this.inner is Tag,
        floats.covers(*this.inner),
        this.indent + 4 * depth(*this.inner) <= usize::MAX,
    ensures
        glyphs(final(out)@) == glyphs(old(out)@) + item_glyphs(
            *this.inner,
            this.frame(),
            style,
            floats.entries@,
        ),
    decreases *this.inner, 1nat,
{
    let item: &DataItem = this.inner;
    if let DataItem::Tag { tag, bitwidth, value } = item {
        proof {
            reveal(item_glyphs);
            lemma_depth_tagged(*item);
        }
        let ghost start = glyphs(out@);
        let cyan = style.with_color(Color::Cyan);
        let mut digits = String::new();
        push_decimal(&mut digits, tag.0 as u128);
        assert(digits@ =~= decimal(tag.0 as nat));
        emit_string(out, digits, cyan);
        write_width_suffix(*bitwidth, cyan, out);
        emit(out, "(", cyan);
        assert(glyphs(out@) == start + tag_opening(*tag, *bitwidth, style));
        let inner = if tag.0 == 21 {
            this.with_encoding(Encoding::Base64Url)
        } else if tag.0 == 22 {
            this.with_encoding(Encoding::Base64)
        } else if tag.0 == 23 {
            this.with_encoding(Encoding::Base16)
        } else {
            this.wrap(item)
        };
        assert(inner.frame() == this.frame().tagged(*tag));
        write_item(&inner.wrap(&**value), style, floats, out);
        emit(out, ")", cyan);
    }
}

/// Writes the notation of an item at its place.
pub fn write_item(this: &Contextual<&DataItem>, style: Style, floats: &FloatTable, out: &mut Vec<Span>)
    requires
        floats.covers(*this.inner),
        this.indent + 4 * depth(*this.inner) <= usize::MAX,
    ensures
        glyphs(final(out)@) == glyphs(old(out)@) + item_glyphs(
            *this.inner,
            this.frame(),
            style,
            floats.entries@,
        ),
    decreases *this.inner, 2nat,
{
    let item: &DataItem = this.inner;
    match item {
        DataItem::Integer { value, bitwidth } => {
            proof {
                reveal(item_glyphs);
            }
            write_integer(*value, *bitwidth, style, out)
        },
        DataItem::Negative { value, bitwidth } => {
            proof {
                reveal(item_glyphs);
            }
            write_negative(*value, *bitwidth, style, out)
        },
        DataItem::Float { value, bitwidth } => {
            proof {
                reveal(item_glyphs);
            }
            write_float(*value, *bitwidth, floats, style, out)
        },
        DataItem::Simple(simple) => {
            proof {
                reveal(item_glyphs);
            }
            write_simple(*simple, style, out)
        },
        DataItem::ByteString(bytes) => {
            proof {
                reveal(item_glyphs);
            }
            write_bytes(bytes, this.encoding, style, out)
        },
        DataItem::TextString(text) => {
            proof {
                reveal(item_glyphs);
            }
            write_text(text, style, out)
        },
        DataItem::Array { .. } => write_array(this, style, floats, out),
        DataItem::Mapping { .. } => write_mapping(this, style, floats, out),
        DataItem::IndefiniteByteString(_) => {
            proof {
                lemma_depth_container(*item);
            }
            write_byte_chunks(this, style, floats, out)
        },
        DataItem::IndefiniteTextString(_) => {
            proof {
                lemma_depth_container(*item);
            }
            write_text_chunks(this, style, floats, out)
        },
        DataItem::Tag { .. } => write_tagged(this, style, floats, out),
    }
}

impl DataItem {
    /// The diagnostic notation of this item on one line.
    pub fn compact_diag(&self, floats: &FloatTable) -> (r: Vec<Span>)
        requires
            floats.covers(*self),
            4 * depth(*self) <= usize::MAX,
        ensures
            glyphs(r@) == item_glyphs(
                *self,
                Frame { layout: Layout::Compact, encoding: Encoding::Base16, indent: 0 },
                Style::plain(),
                floats.entries@,
            ),
    {
        let mut out = Vec::new();
        write_item(&Contextual::new(Layout::Compact, self), Style::plain(), floats, &mut out);
        out
    }

    /// The diagnostic notation of this item with one line for each element
    /// of a container that is not trivial.
    pub fn pretty_diag(&self, floats: &FloatTable) -> (r: Vec<Span>)
        requires
            floats.covers(*self),
            4 * depth(*self) <= usize::MAX,
        ensures
            glyphs(r@) == item_glyphs(
                *self,
                Frame { layout: Layout::Pretty, encoding: Encoding::Base16, indent: 0 },
                Style::plain(),
                floats.entries@,
            ),
    {
        let mut out = Vec::new();
        write_item(&Contextual::new(Layout::Pretty, self), Style::plain(), floats, &mut out);
        out
    }
}

/// No number is larger than the sum that it is part of.
pub proof fn lemma_sum_part(numbers: Seq<nat>, index: int)
    requires
        0 <= index < numbers.len(),
    ensures
        numbers[index] <= sum(numbers),
    decreases numbers.len(),
{
    if index < numbers.len() - 1 {
        lemma_sum_part(numbers.drop_last(), index);
    }
}

/// A number with its suffix is no longer than its digits and two.
pub proof fn lemma_number_len(digits: Seq<char>, bitwidth: IntegerWidth, style: Style)
    ensures
        number_glyphs(digits, width_suffix(bitwidth), style).len() <= digits.len() + 2,
{
    reveal_strlit("_0");
    reveal_strlit("_1");
    reveal_strlit("_2");
    reveal_strlit("_3");
}

/// The notation of a byte string is within its estimate in every base.
pub proof fn lemma_bytes_len(data: Seq<u8>, encoding: Encoding, style: Style)
    ensures
        bytes_glyphs(data, encoding, style).len() <= bytes_estimate(data.len()),
{
    reveal_strlit("h'");
    reveal_strlit("b64'");
    reveal_strlit("'");
    lemma_hex_text_len(data);
    lemma_base64_len(data, true);
    lemma_base64_len(data, false);
}

/// The notation of a text string has the length of its estimate.
pub proof fn lemma_text_len(text: Seq<char>, style: Style)
    ensures
        text_glyphs(text, style).len() == text_estimate(text),
{
    reveal_strlit("\"");
}

/// The notation of a simple value is within its estimate.
pub proof fn lemma_simple_len(simple: Simple, style: Style)
    ensures
        simple_glyphs(simple, style).len() <= decimal(simple.0 as nat).len() + 8,
{
    reveal_strlit("false");
    reveal_strlit("true");
    reveal_strlit("null");
    reveal_strlit("undefined");
    reveal_strlit("simple(");
    reveal_strlit(")");
    lemma_decimal_digits(simple.0 as nat);
}

/// On one line, the elements of a container and what separates them take
/// no more than the elements and two characters for each.
pub proof fn lemma_body_len(inner: Frame, style: Style, parts: Seq<Seq<Glyph>>, bounds: Seq<nat>, count: nat)
    requires
        count <= parts.len(),
        parts.len() == bounds.len(),
        forall|i: int| 0 <= i < count ==> (#[trigger] parts[i]).len() + 2 <= bounds[i],
    ensures
        container_body(inner, style, true, parts, count).len() <= sum(bounds.take(count as int)),
    decreases count,
{
    reveal_strlit(",");
    reveal_strlit(" ");
    if count > 0 {
        lemma_body_len(inner, style, parts, bounds, (count - 1) as nat);
        lemma_sum_step(bounds, count - 1);
        assert(parts[count - 1].len() + 2 <= bounds[count - 1]);
    } else {
        assert(bounds.take(0) =~= Seq::<nat>::empty());
    }
}

/// A container on one line takes no more than four characters and its
/// elements with two characters for each.
pub proof fn lemma_container_len(
    frame: Frame,
    style: Style,
    begin: Seq<char>,
    end: Seq<char>,
    definite: bool,
    parts: Seq<Seq<Glyph>>,
    bounds: Seq<nat>,
)
    requires
        begin.len() == 1,
        end.len() == 1,
        parts.len() == bounds.len(),
        forall|i: int| 0 <= i < parts.len() ==> (#[trigger] parts[i]).len() + 2 <= bounds[i],
    ensures
        container_glyphs(frame, style, begin, end, definite, true, parts).len() <= 4 + sum(
            bounds,
        ),
{
    reveal_strlit("_");
    reveal_strlit(" ");
    lemma_body_len(frame.inside(true), style, parts, bounds, parts.len());
    assert(bounds.take(bounds.len() as int) =~= bounds);
}

/// The notation of an item whose estimate is below the trivial length is
/// no longer than the estimate, in every layout and at every place.
pub proof fn lemma_within_estimate(item: DataItem, frame: Frame, style: Style, floats: Seq<FloatText>)
    requires
        trivial(item, floats),
    ensures
        item_glyphs(item, frame, style, floats).len() <= estimate(item, floats),
    decreases item,
{
    reveal(item_glyphs);
    reveal(estimate);
    match item {
        DataItem::Integer { value, bitwidth } => {
            lemma_number_len(decimal(value as nat), bitwidth, style);
        },
        DataItem::Negative { value, bitwidth } => {
            lemma_number_len(negative_text(value), bitwidth, style);
        },
        DataItem::Float { value, bitwidth } => {
            reveal_strlit("_1");
            reveal_strlit("_2");
            reveal_strlit("_3");
        },
        DataItem::Simple(simple) => {
            lemma_simple_len(simple, style);
        },
        DataItem::ByteString(bytes) => {
            lemma_bytes_len(bytes.data@, frame.encoding, style);
        },
        DataItem::TextString(text) => {
            lemma_text_len(text.data@, style);
        },
        DataItem::Tag { tag, bitwidth, value } => {
            lemma_within_estimate(*value, frame.tagged(tag), style, floats);
            lemma_number_len(decimal(tag.0 as nat), bitwidth, style.with_color(Color::Cyan));
            reveal_strlit("(");
            reveal_strlit(")");
        },
        _ => {
            reveal(parts_glyphs);
            reveal(estimate_parts);
            reveal_strlit("[");
            reveal_strlit("]");
            reveal_strlit("{");
            reveal_strlit("}");
            reveal_strlit("(");
            reveal_strlit(")");
            reveal_strlit(":");
            reveal_strlit(" ");
            let inner = frame.inside(true);
            let parts = parts_glyphs(item, inner, style, floats);
            let bounds = estimate_parts(item, floats);
            assert(parts.len() == bounds.len());
            assert forall|i: int| 0 <= i < parts.len() implies (#[trigger] parts[i]).len() + 2
                <= bounds[i] by {
                lemma_sum_part(bounds, i);
                match item {
                    DataItem::Array { data, .. } => {
                        lemma_within_estimate(data@[i], inner, style, floats);
                    },
                    DataItem::Mapping { data, .. } => {
                        lemma_within_estimate(
                            data@[i].0,
                            inner,
                            style.with_intensity(Intensity::Bold),
                            floats,
                        );
                        lemma_within_estimate(data@[i].1, inner, style, floats);
                    },
                    DataItem::IndefiniteByteString(chunks) => {
                        lemma_bytes_len(chunks@[i].data@, inner.encoding, style);
                    },
                    DataItem::IndefiniteTextString(chunks) => {
                        lemma_text_len(chunks@[i].data@, style);
                    },
                    _ => {},
                }
            }
            lemma_container_len(
                frame,
                style,
                container_begin(item),
                container_end(item),
                container_definite(item),
                parts,
                bounds,
            );
        },
    }
}

/// Whatever is written on one line because it is trivial, in either
/// layout, takes fewer characters than the trivial length.
pub proof fn lemma_trivial_is_short(item: DataItem, frame: Frame, style: Style, floats: Seq<FloatText>)
    requires
        trivial(item, floats),
    ensures
        item_glyphs(item, frame, style, floats).len() < TRIVIAL_LENGTH,
{
    lemma_within_estimate(item, frame, style, floats);
}

/// Whether a tag chooses the base of the byte strings below it.
pub open spec fn base_tag(tag: Tag) -> bool {
    tag.0 == 21 || tag.0 == 22 || tag.0 == 23
}

/// Whether every byte string of `item` stands below a tag that chooses its
/// base.
pub open spec fn bases_chosen(item: DataItem) -> bool
    decreases item,
{
    match item {
        DataItem::ByteString(_) => false,
        DataItem::IndefiniteByteString(chunks) => chunks@.len() == 0,
        DataItem::Array { data, .. } => forall|i: int|
            0 <= i < data@.len() ==> bases_chosen(#[trigger] data@[i]),
        DataItem::Mapping { data, .. } => forall|i: int|
            0 <= i < data@.len() ==> bases_chosen((#[trigger] data@[i]).0) && bases_chosen(
                data@[i].1,
            ),
        DataItem::Tag { tag, value, .. } => base_tag(tag) || bases_chosen(*value),
        _ => true,
    }
}

/// What separates the elements of a container does not depend on the
/// base.
pub proof fn lemma_body_ignores_base(
    inner: Frame,
    encoding: Encoding,
    style: Style,
    trivial: bool,
    parts: Seq<Seq<Glyph>>,
    count: nat,
)
    ensures
        container_body(inner.encoded(encoding), style, trivial, parts, count) == container_body(
            inner,
            style,
            trivial,
            parts,
            count,
        ),
    decreases count,
{
    if count > 0 {
        lemma_body_ignores_base(inner, encoding, style, trivial, parts, (count - 1) as nat);
    }
}

/// The base of the surroundings shows in byte strings only: an item whose
/// byte strings all stand below a tag that chooses their base is written
/// the same in every base.
pub proof fn lemma_base_shows_in_bytes_only(
    item: DataItem,
    frame: Frame,
    encoding: Encoding,
    style: Style,
    floats: Seq<FloatText>,
)
    requires
        bases_chosen(item),
    ensures
        item_glyphs(item, frame.encoded(encoding), style, floats) == item_glyphs(
            item,
            frame,
            style,
            floats,
        ),
    decreases item,
{
    reveal(item_glyphs);
    let other = frame.encoded(encoding);
    let flat = trivial(item, floats);
    assert(other.inside(flat) == frame.inside(flat).encoded(encoding));
    lemma_body_ignores_base(
        frame.inside(flat),
        encoding,
        style,
        flat,
        parts_glyphs(item, frame.inside(flat), style, floats),
        parts_glyphs(item, frame.inside(flat), style, floats).len(),
    );
    match item {
        DataItem::Tag { tag, value, .. } => {
            if !base_tag(tag) {
                lemma_base_shows_in_bytes_only(*value, frame, encoding, style, floats);
                assert(other.tagged(tag) == frame.encoded(encoding));
                assert(frame.tagged(tag) == frame);
            } else {
                assert(other.tagged(tag) == frame.tagged(tag));
            }
        },
        DataItem::Array { data, .. } => {
            reveal(parts_glyphs);
            let inner = frame.inside(flat);
            assert forall|i: int| 0 <= i < data@.len() implies item_glyphs(
                #[trigger] data@[i],
                inner.encoded(encoding),
                style,
                floats,
            ) == item_glyphs(data@[i], inner, style, floats) by {
                lemma_base_shows_in_bytes_only(data@[i], inner, encoding, style, floats);
            }
            assert(parts_glyphs(item, other.inside(flat), style, floats) =~= parts_glyphs(
                item,
                inner,
                style,
                floats,
            ));
        },
        DataItem::Mapping { data, .. } => {
            reveal(parts_glyphs);
            let inner = frame.inside(flat);
            let bold = style.with_intensity(Intensity::Bold);
            assert forall|i: int| 0 <= i < data@.len() implies item_glyphs(
                (#[trigger] data@[i]).0,
                inner.encoded(encoding),
                bold,
                floats,
            ) == item_glyphs(data@[i].0, inner, bold, floats) && item_glyphs(
                data@[i].1,
                inner.encoded(encoding),
                style,
                floats,
            ) == item_glyphs(data@[i].1, inner, style, floats) by {
                lemma_base_shows_in_bytes_only(data@[i].0, inner, encoding, bold, floats);
                lemma_base_shows_in_bytes_only(data@[i].1, inner, encoding, style, floats);
            }
            assert(parts_glyphs(item, other.inside(flat), style, floats) =~= parts_glyphs(
                item,
                inner,
                style,
                floats,
            ));
        },
        DataItem::IndefiniteByteString(_) => {
            reveal(parts_glyphs);
            assert(parts_glyphs(item, other.inside(flat), style, floats) =~= parts_glyphs(
                item,
                frame.inside(flat),
                style,
                floats,
            ));
        },
        DataItem::IndefiniteTextString(_) => {
            reveal(parts_glyphs);
            assert(parts_glyphs(item, other.inside(flat), style, floats) =~= parts_glyphs(
                item,
                frame.inside(flat),
                style,
                floats,
            ));
        },
        _ => {},
    }
}

/// A tag that chooses a base is written the same in every base of the
/// surroundings: what it holds is written in the base of the tag.
pub proof fn lemma_base_tag_decides(
    item: DataItem,
    frame: Frame,
    encoding: Encoding,
    style: Style,
    floats: Seq<FloatText>,
)
    requires
        item matches DataItem::Tag { tag, .. } && base_tag(tag),
    ensures
        item_glyphs(item, frame.encoded(encoding), style, floats) == item_glyphs(
            item,
            frame,
            style,
            floats,
        ),
{
    lemma_base_shows_in_bytes_only(item, frame, encoding, style, floats);
}

/// An element of an array is written in the base of the array's place,
/// whatever the other elements are: a byte string beside a tag that
/// chooses a base keeps the base of the surroundings.
pub proof fn lemma_sibling_keeps_base(
    item: DataItem,
    index: int,
    frame: Frame,
    style: Style,
    floats: Seq<FloatText>,
)
    requires
        item is Array,
        0 <= index < item->Array_data@.len(),
    ensures
        parts_glyphs(item, frame.inside(trivial(item, floats)), style, floats)[index]
            == item_glyphs(
            item->Array_data@[index],
            frame.inside(trivial(item, floats)),
            style,
            floats,
        ),
        frame.inside(trivial(item, floats)).encoding == frame.encoding,
        item->Array_data@[index] matches DataItem::ByteString(bytes) ==> parts_glyphs(
            item,
            frame.inside(trivial(item, floats)),
            style,
            floats,
        )[index] == bytes_glyphs(bytes.data@, frame.encoding, style),
{
    reveal(parts_glyphs);
    reveal(item_glyphs);
}

/// The key and the value of a map entry are written in the base of the
/// map's place, whatever the other entries are.
pub proof fn lemma_entry_keeps_base(
    item: DataItem,
    index: int,
    frame: Frame,
    style: Style,
    floats: Seq<FloatText>,
)
    requires
        item is Mapping,
        0 <= index < item->Mapping_data@.len(),
    ensures
        parts_glyphs(item, frame.inside(trivial(item, floats)), style, floats)[index]
            == item_glyphs(
            item->Mapping_data@[index].0,
            frame.inside(trivial(item, floats)),
            style.with_intensity(Intensity::Bold),
            floats,
        ) + entry_colon(frame.inside(trivial(item, floats)), style) + item_glyphs(
            item->Mapping_data@[index].1,
            frame.inside(trivial(item, floats)),
            style,
            floats,
        ),
        frame.inside(trivial(item, floats)).encoding == frame.encoding,
{
    reveal(parts_glyphs);
    reveal(item_glyphs);
}

/// No number is larger than the largest, and the largest is one of them
/// or 0.
pub proof fn lemma_max_of_bound(numbers: Seq<nat>, limit: nat)
    requires
        forall|i: int| 0 <= i < numbers.len() ==> #[trigger] numbers[i] <= limit,
    ensures
        max_of(numbers) <= limit,
    decreases numbers.len(),
{
    if numbers.len() > 0 {
        lemma_max_of_bound(numbers.drop_last(), limit);
    }
}

impl DataItem {
    /// Whether the containers of this item nest no deeper than `limit`.
    pub fn nests_within(&self, limit: usize) -> (r: bool)
        ensures
            r == (depth(*self) <= limit),
        decreases self,
    {
        proof {
            reveal(depth);
            reveal(depth_parts);
        }
        match self {
            DataItem::Array { data, .. } => {
                if limit == 0 {
                    return false;
                }
                let ghost parts = depth_parts(*self);
                let mut i: usize = 0;
                while i < data.len()
                    invariant
                        i <= data.len(),
                        limit > 0,
                        self matches DataItem::Array { data: d, .. } && d == data,
                        parts == depth_parts(*self),
                        depth(*self) == 1 + max_of(parts),
                        parts.len() == data@.len(),
                        forall|j: int| 0 <= j < data@.len() ==> parts[j] == depth(data@[j]),
                        forall|j: int| 0 <= j < i ==> #[trigger] parts[j] <= limit - 1,
                    decreases data.len() - i,
                {
                    if !data[i].nests_within(limit - 1) {
                        proof {
                            lemma_max_of(parts, i as int);
                            assert(parts[i as int] == depth(data@[i as int]));
                        }
                        return false;
                    }
                    assert(parts[i as int] == depth(data@[i as int]));
                    i += 1;
                }
                proof {
                    lemma_max_of_bound(parts, (limit - 1) as nat);
                }
                true
            },
            DataItem::Mapping { data, .. } => {
                if limit == 0 {
                    return false;
                }
                let ghost parts = depth_parts(*self);
                let mut i: usize = 0;
                while i < data.len()
                    invariant
                        i <= data.len(),
                        limit > 0,
                        self matches DataItem::Mapping { data: d, .. } && d == data,
                        parts == depth_parts(*self),
                        depth(*self) == 1 + max_of(parts),
                        parts.len() == data@.len(),
                        forall|j: int|
                            0 <= j < data@.len() ==> parts[j] >= depth(data@[j].0) && parts[j]
                                >= depth(data@[j].1) && (parts[j] == depth(data@[j].0)
                                || parts[j] == depth(data@[j].1)),
                        forall|j: int| 0 <= j < i ==> #[trigger] parts[j] <= limit - 1,
                    decreases data.len() - i,
                {
                    assert(parts[i as int] >= depth(data@[i as int].0) && parts[i as int] >= depth(
                        data@[i as int].1,
                    ) && (parts[i as int] == depth(data@[i as int].0) || parts[i as int] == depth(
                        data@[i as int].1,
                    )));
                    if !data[i].0.nests_within(limit - 1) || !data[i].1.nests_within(limit - 1) {
                        proof {
                            lemma_max_of(parts, i as int);
                        }
                        return false;
                    }
                    i += 1;
                }
                proof {
                    lemma_max_of_bound(parts, (limit - 1) as nat);
                }
                true
            },
            DataItem::IndefiniteByteString(_) => limit >= 1,
            DataItem::IndefiniteTextString(_) => limit >= 1,
            DataItem::Tag { value, .. } => value.nests_within(limit),
            _ => true,
        }
    }
}

} // verus!
