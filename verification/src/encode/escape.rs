//! Where the escape character can come from: diagnostic notation holds
//! none unless a text string of the item or a float text of the table
//! does, so its plain form is its ANSI form without the SGR sequences.

use vstd::prelude::*;
use vstd::utf8::encode_utf8;
use crate::encode::diag::{Frame, Layout, bytes_body, bytes_glyphs, bytes_prefix, container_begin, container_body, container_closing, container_definite, container_end, container_glyphs, container_lead, container_opening, entry_colon, escaped, float_text, item_glyphs, lemma_container_notation, lemma_parts_of_array, lemma_parts_of_chunks, lemma_parts_of_mapping, line_break, negative_text, number_glyphs, parts_glyphs, precision_suffix, simple_glyphs, tag_opening, text_glyphs, trivial, width_suffix};
use crate::encode::{Encoding, base64_digit, base64_text};
use crate::float::{FloatText, lookup};
use crate::model::{DataItem, FloatWidth, IntegerWidth, Simple, Tag};
use crate::output::{Coloring, notation, top};
use crate::sink::{ansi_glyphs, escape_free, lemma_plain_is_stripped, strip_sgr};
use crate::style::{Color, Glyph, Intensity, Style, letters, paint};
use crate::text::{decimal, digit_char, hex_text, lemma_decimal_digits, repeat};

verus! {

/// Whether no text string of `item` holds the escape character.
pub open spec fn texts_clean(item: DataItem) -> bool
    decreases item,
{
    match item {
        DataItem::TextString(text) => escape_free(text.data@),
        DataItem::IndefiniteTextString(chunks) => forall|i: int|
            0 <= i < chunks@.len() ==> escape_free((#[trigger] chunks@[i]).data@),
        DataItem::Array { data, .. } => forall|i: int|
            0 <= i < data@.len() ==> texts_clean(#[trigger] data@[i]),
        DataItem::Mapping { data, .. } => forall|i: int|
            0 <= i < data@.len() ==> texts_clean((#[trigger] data@[i]).0) && texts_clean(
                data@[i].1,
            ),
        DataItem::Tag { value, .. } => texts_clean(*value),
        _ => true,
    }
}

/// Whether no float text of a table holds the escape character.
pub open spec fn table_clean(floats: Seq<FloatText>) -> bool {
    forall|i: int| 0 <= i < floats.len() ==> escape_free((#[trigger] floats[i]).text@)
}

/// Whether none of the styled characters is the escape character.
pub open spec fn clean(text: Seq<Glyph>) -> bool {
    forall|i: int| 0 <= i < text.len() ==> (#[trigger] text[i]).0 != '\x1b'
}

/// Styled characters without the escape character are text without it.
pub proof fn lemma_clean_letters(text: Seq<Glyph>)
    requires
        clean(text),
    ensures
        escape_free(letters(text)),
{
    assert forall|i: int| 0 <= i < letters(text).len() implies #[trigger] letters(text)[i]
        != '\x1b' by {
        assert(letters(text)[i] == text[i].0);
    }
}

/// Text without the escape character stays without it in any style.
proof fn lemma_clean_paint(text: Seq<char>, style: Style)
    requires
        escape_free(text),
    ensures
        clean(paint(text, style)),
{
    assert forall|i: int| 0 <= i < paint(text, style).len() implies (#[trigger] paint(
        text,
        style,
    )[i]).0 != '\x1b' by {
        assert(paint(text, style)[i].0 == text[i]);
    }
}

/// Two texts without the escape character are one without it.
proof fn lemma_escape_free_concat(a: Seq<char>, b: Seq<char>)
    requires
        escape_free(a),
        escape_free(b),
    ensures
        escape_free(a + b),
{
    assert forall|i: int| 0 <= i < (a + b).len() implies #[trigger] (a + b)[i] != '\x1b' by {
        if i < a.len() {
            assert((a + b)[i] == a[i]);
        } else {
            assert((a + b)[i] == b[i - a.len()]);
        }
    }
}

/// Styled characters without the escape character, one run behind another.
proof fn lemma_clean_concat(a: Seq<Glyph>, b: Seq<Glyph>)
    requires
        clean(a),
        clean(b),
    ensures
        clean(a + b),
{
    assert forall|i: int| 0 <= i < (a + b).len() implies (#[trigger] (a + b)[i]).0
        != '\x1b' by {
        if i < a.len() {
            assert((a + b)[i] == a[i]);
        } else {
            assert((a + b)[i] == b[i - a.len()]);
        }
    }
}

/// The marks of notation hold no escape character.
proof fn lemma_marks()
    ensures
        escape_free("["@),
        escape_free("]"@),
        escape_free("{"@),
        escape_free("}"@),
        escape_free("("@),
        escape_free(")"@),
        escape_free("_"@),
        escape_free(" "@),
        escape_free(","@),
        escape_free(":"@),
        escape_free("\""@),
        escape_free("'"@),
        escape_free("h'"@),
        escape_free("b64'"@),
        escape_free("\n"@),
        escape_free("-"@),
        escape_free(".0"@),
        escape_free("NaN"@),
        escape_free("Infinity"@),
        escape_free("false"@),
        escape_free("true"@),
        escape_free("null"@),
        escape_free("undefined"@),
        escape_free("simple("@),
        escape_free("_0"@),
        escape_free("_1"@),
        escape_free("_2"@),
        escape_free("_3"@),
{
    reveal_strlit("[");
    reveal_strlit("]");
    reveal_strlit("{");
    reveal_strlit("}");
    reveal_strlit("(");
    reveal_strlit(")");
    reveal_strlit("_");
    reveal_strlit(" ");
    reveal_strlit(",");
    reveal_strlit(":");
    reveal_strlit("\"");
    reveal_strlit("'");
    reveal_strlit("h'");
    reveal_strlit("b64'");
    reveal_strlit("\n");
    reveal_strlit("-");
    reveal_strlit(".0");
    reveal_strlit("NaN");
    reveal_strlit("Infinity");
    reveal_strlit("false");
    reveal_strlit("true");
    reveal_strlit("null");
    reveal_strlit("undefined");
    reveal_strlit("simple(");
    reveal_strlit("_0");
    reveal_strlit("_1");
    reveal_strlit("_2");
    reveal_strlit("_3");
}

/// Decimal digits hold no escape character.
proof fn lemma_decimal_clean(n: nat)
    ensures
        escape_free(decimal(n)),
{
    lemma_decimal_digits(n);
}

/// Hexadecimal digits hold no escape character.
proof fn lemma_hex_clean(data: Seq<u8>)
    ensures
        escape_free(hex_text(data)),
    decreases data.len(),
{
    if data.len() > 0 {
        lemma_hex_clean(data.drop_last());
        let pair = seq![
            digit_char((data.last() / 16) as nat),
            digit_char((data.last() % 16) as nat),
        ];
        assert(escape_free(pair));
        lemma_escape_free_concat(hex_text(data.drop_last()), pair);
    }
}

/// Base64 digits hold no escape character.
proof fn lemma_base64_clean(data: Seq<u8>, url_safe: bool)
    ensures
        escape_free(base64_text(data, url_safe)),
    decreases data.len(),
{
    assert forall|value: nat| #[trigger] base64_digit(value, url_safe) != '\x1b' by {}
    if data.len() >= 3 {
        lemma_base64_clean(data.skip(3), url_safe);
        let four = seq![
            base64_digit((data[0] / 4) as nat, url_safe),
            base64_digit(((data[0] % 4) * 16 + data[1] / 16) as nat, url_safe),
            base64_digit(((data[1] % 16) * 4 + data[2] / 64) as nat, url_safe),
            base64_digit((data[2] % 64) as nat, url_safe),
        ];
        assert(escape_free(four));
        lemma_escape_free_concat(four, base64_text(data.skip(3), url_safe));
    }
}

/// A text string between its quotes holds the escape character only where
/// the text does.
proof fn lemma_escaped_clean(text: Seq<char>)
    requires
        escape_free(text),
    ensures
        escape_free(escaped(text)),
    decreases text.len(),
{
    if text.len() > 0 {
        assert forall|i: int| 0 <= i < text.drop_last().len() implies #[trigger] text.drop_last()[i]
            != '\x1b' by {
            assert(text.drop_last()[i] == text[i]);
        }
        lemma_escaped_clean(text.drop_last());
        assert(text.last() == text[text.len() - 1]);
    }
}

/// What a table gives for a float is the text of one of its entries.
proof fn lemma_lookup_clean(floats: Seq<FloatText>, value: u64, bitwidth: FloatWidth)
    requires
        table_clean(floats),
    ensures
        lookup(floats, value, bitwidth) matches Some(text) ==> escape_free(text),
    decreases floats.len(),
{
    if floats.len() > 0 {
        assert(escape_free(floats[0].text@));
        assert forall|i: int| 0 <= i < floats.skip(1).len() implies escape_free(
            (#[trigger] floats.skip(1)[i]).text@,
        ) by {
            assert(floats.skip(1)[i] == floats[i + 1]);
        }
        lemma_lookup_clean(floats.skip(1), value, bitwidth);
    }
}

/// A number and its suffix hold no escape character.
proof fn lemma_number_clean(digits: Seq<char>, suffix: Seq<char>, style: Style)
    requires
        escape_free(digits),
        escape_free(suffix),
    ensures
        clean(number_glyphs(digits, suffix, style)),
{
    lemma_clean_paint(digits, style);
    lemma_clean_paint(suffix, style.with_intensity(Intensity::Faint));
    lemma_clean_concat(paint(digits, style), paint(suffix, style.with_intensity(Intensity::Faint)));
}

/// The suffix of a width holds no escape character.
proof fn lemma_suffix_clean(bitwidth: IntegerWidth, precision: FloatWidth)
    ensures
        escape_free(width_suffix(bitwidth)),
        escape_free(precision_suffix(precision)),
{
    lemma_marks();
}

/// The text of a float holds no escape character unless the table's text
/// for it does.
proof fn lemma_float_clean(value: u64, bitwidth: FloatWidth, floats: Seq<FloatText>)
    requires
        table_clean(floats),
    ensures
        escape_free(float_text(value, bitwidth, floats)),
{
    lemma_marks();
    lemma_lookup_clean(floats, value, bitwidth);
    lemma_escape_free_concat("-"@, "Infinity"@);
    let digits = match lookup(floats, value, bitwidth) {
        Some(digits) => digits,
        None => Seq::empty(),
    };
    lemma_escape_free_concat(digits, ".0"@);
}

/// The notation of a simple value holds no escape character.
proof fn lemma_simple_clean(simple: Simple, style: Style)
    ensures
        clean(simple_glyphs(simple, style)),
{
    lemma_marks();
    lemma_decimal_clean(simple.0 as nat);
    lemma_escape_free_concat("simple("@, decimal(simple.0 as nat));
    lemma_escape_free_concat("simple("@ + decimal(simple.0 as nat), ")"@);
    lemma_clean_paint("false"@, style.with_color(Color::Green));
    lemma_clean_paint("true"@, style.with_color(Color::Green));
    lemma_clean_paint("null"@, style.with_color(Color::Red));
    lemma_clean_paint("undefined"@, style.with_color(Color::Red));
    lemma_clean_paint(
        "simple("@ + decimal(simple.0 as nat) + ")"@,
        style.with_color(Color::Magenta),
    );
}

/// The notation of a byte string holds no escape character.
proof fn lemma_bytes_clean(data: Seq<u8>, encoding: Encoding, style: Style)
    ensures
        clean(bytes_glyphs(data, encoding, style)),
{
    lemma_marks();
    lemma_hex_clean(data);
    lemma_base64_clean(data, true);
    lemma_base64_clean(data, false);
    let yellow = style.with_color(Color::Yellow);
    let faint = yellow.with_intensity(Intensity::Faint);
    lemma_clean_paint(bytes_prefix(encoding), faint);
    lemma_clean_paint(bytes_body(data, encoding), yellow);
    lemma_clean_paint("'"@, faint);
    lemma_clean_concat(paint(bytes_prefix(encoding), faint), paint(bytes_body(data, encoding), yellow));
    lemma_clean_concat(
        paint(bytes_prefix(encoding), faint) + paint(bytes_body(data, encoding), yellow),
        paint("'"@, faint),
    );
}

/// The notation of a text string holds the escape character only where
/// the text does.
proof fn lemma_text_clean(text: Seq<char>, style: Style)
    requires
        escape_free(text),
    ensures
        clean(text_glyphs(text, style)),
{
    lemma_marks();
    lemma_escaped_clean(text);
    lemma_escape_free_concat("\""@, escaped(text));
    lemma_escape_free_concat("\""@ + escaped(text), "\""@);
    lemma_clean_paint("\""@ + escaped(text) + "\""@, style.with_color(Color::Blue));
}

/// What opens a tagged item holds no escape character.
proof fn lemma_tag_clean(tag: Tag, bitwidth: IntegerWidth, style: Style)
    ensures
        clean(tag_opening(tag, bitwidth, style)),
        clean(paint(")"@, style.with_color(Color::Cyan))),
{
    lemma_marks();
    lemma_decimal_clean(tag.0 as nat);
    let cyan = style.with_color(Color::Cyan);
    lemma_clean_paint(decimal(tag.0 as nat), cyan);
    lemma_clean_paint(width_suffix(bitwidth), cyan.with_intensity(Intensity::Faint));
    lemma_clean_paint("("@, cyan);
    lemma_clean_paint(")"@, cyan);
    lemma_clean_concat(
        paint(decimal(tag.0 as nat), cyan),
        paint(width_suffix(bitwidth), cyan.with_intensity(Intensity::Faint)),
    );
    lemma_clean_concat(
        paint(decimal(tag.0 as nat), cyan) + paint(
            width_suffix(bitwidth),
            cyan.with_intensity(Intensity::Faint),
        ),
        paint("("@, cyan),
    );
}

/// A line break and the spaces behind it hold no escape character.
proof fn lemma_break_clean(indent: nat, style: Style)
    ensures
        clean(line_break(indent, style)),
{
    lemma_marks();
    lemma_clean_paint("\n"@, style);
    lemma_clean_paint(repeat(' ', indent), style);
    lemma_clean_concat(paint("\n"@, style), paint(repeat(' ', indent), style));
}

/// What stands around and between the elements of a container holds no
/// escape character.
proof fn lemma_frame_clean(
    frame: Frame,
    style: Style,
    begin: Seq<char>,
    end: Seq<char>,
    definite: bool,
    trivial: bool,
    index: int,
)
    requires
        escape_free(begin),
        escape_free(end),
    ensures
        clean(container_opening(frame, style, begin, definite, trivial)),
        clean(container_lead(frame.inside(trivial), style, trivial, index)),
        clean(container_closing(frame, style, end, trivial)),
        clean(entry_colon(frame.inside(trivial), style)),
{
    lemma_marks();
    let inner = frame.inside(trivial);
    let bold = style.with_intensity(Intensity::Bold);
    let normal = style.with_intensity(Intensity::Normal);
    let nothing = Seq::<Glyph>::empty();
    lemma_clean_paint(begin, bold);
    lemma_clean_paint(end, bold);
    lemma_clean_paint("_"@, normal);
    lemma_clean_paint(","@, normal);
    lemma_clean_paint(" "@, style);
    lemma_clean_paint(":"@, style);
    lemma_break_clean(inner.indent, style);
    lemma_break_clean(frame.indent, style);
    lemma_clean_concat(paint("_"@, normal), paint(" "@, style));
    lemma_clean_concat(paint("_"@, normal), nothing);
    lemma_clean_concat(paint(begin, bold), nothing);
    lemma_clean_concat(paint(begin, bold), paint("_"@, normal) + paint(" "@, style));
    lemma_clean_concat(paint(begin, bold), paint("_"@, normal) + nothing);
    lemma_clean_concat(paint(","@, normal), line_break(inner.indent, style));
    lemma_clean_concat(paint(","@, normal), paint(" "@, style));
    lemma_clean_concat(paint(","@, normal), nothing);
    lemma_clean_concat(paint(","@, normal), line_break(frame.indent, style));
    lemma_clean_concat(paint(","@, normal) + line_break(frame.indent, style), paint(end, bold));
    lemma_clean_concat(nothing, paint(end, bold));
    lemma_clean_concat(paint(":"@, style), paint(" "@, style));
    lemma_clean_concat(paint(":"@, style), nothing);
}

/// The elements of a container, each behind its lead, hold no escape
/// character where none of the elements does.
proof fn lemma_body_clean(
    frame: Frame,
    style: Style,
    trivial: bool,
    parts: Seq<Seq<Glyph>>,
    count: nat,
)
    requires
        count <= parts.len(),
        forall|i: int| 0 <= i < parts.len() ==> clean(#[trigger] parts[i]),
    ensures
        clean(container_body(frame.inside(trivial), style, trivial, parts, count)),
    decreases count,
{
    if count > 0 {
        let inner = frame.inside(trivial);
        lemma_body_clean(frame, style, trivial, parts, (count - 1) as nat);
        lemma_frame_clean(frame, style, Seq::empty(), Seq::empty(), true, trivial, count - 1);
        let before = container_body(inner, style, trivial, parts, (count - 1) as nat);
        let lead = container_lead(inner, style, trivial, count - 1);
        lemma_clean_concat(before, lead);
        lemma_clean_concat(before + lead, parts[count - 1]);
    }
}

/// A container holds no escape character where none of its elements does.
proof fn lemma_container_clean(
    frame: Frame,
    style: Style,
    begin: Seq<char>,
    end: Seq<char>,
    definite: bool,
    trivial: bool,
    parts: Seq<Seq<Glyph>>,
)
    requires
        escape_free(begin),
        escape_free(end),
        forall|i: int| 0 <= i < parts.len() ==> clean(#[trigger] parts[i]),
    ensures
        clean(container_glyphs(frame, style, begin, end, definite, trivial, parts)),
{
    lemma_frame_clean(frame, style, begin, end, definite, trivial, 0);
    lemma_body_clean(frame, style, trivial, parts, parts.len());
    let opening = container_opening(frame, style, begin, definite, trivial);
    let body = container_body(frame.inside(trivial), style, trivial, parts, parts.len());
    let closing = container_closing(frame, style, end, trivial);
    lemma_clean_concat(opening, body);
    lemma_clean_concat(opening + body, closing);
}

/// The notation of an item holds no escape character unless one of its
/// text strings or a float text of the table does.
pub proof fn lemma_notation_clean(item: DataItem, frame: Frame, style: Style, floats: Seq<FloatText>)
    requires
        texts_clean(item),
        table_clean(floats),
    ensures
        clean(item_glyphs(item, frame, style, floats)),
    decreases item,
{
    lemma_marks();
    let flat = trivial(item, floats);
    let inner = frame.inside(flat);
    match item {
        DataItem::Integer { value, bitwidth } => {
            reveal(item_glyphs);
            lemma_decimal_clean(value as nat);
            lemma_suffix_clean(bitwidth, FloatWidth::Unknown);
            lemma_number_clean(decimal(value as nat), width_suffix(bitwidth), style);
        },
        DataItem::Negative { value, bitwidth } => {
            reveal(item_glyphs);
            lemma_decimal_clean((value + 1) as nat);
            lemma_escape_free_concat("-"@, decimal((value + 1) as nat));
            lemma_suffix_clean(bitwidth, FloatWidth::Unknown);
            lemma_number_clean(negative_text(value), width_suffix(bitwidth), style);
        },
        DataItem::Float { value, bitwidth } => {
            reveal(item_glyphs);
            lemma_float_clean(value, bitwidth, floats);
            lemma_suffix_clean(IntegerWidth::Unknown, bitwidth);
            lemma_number_clean(
                float_text(value, bitwidth, floats),
                precision_suffix(bitwidth),
                style,
            );
        },
        DataItem::Simple(simple) => {
            reveal(item_glyphs);
            lemma_simple_clean(simple, style);
        },
        DataItem::ByteString(bytes) => {
            reveal(item_glyphs);
            lemma_bytes_clean(bytes.data@, frame.encoding, style);
        },
        DataItem::TextString(text) => {
            reveal(item_glyphs);
            lemma_text_clean(text.data@, style);
        },
        DataItem::Tag { tag, bitwidth, value } => {
            reveal(item_glyphs);
            lemma_notation_clean(*value, frame.tagged(tag), style, floats);
            lemma_tag_clean(tag, bitwidth, style);
            let opening = tag_opening(tag, bitwidth, style);
            let within = item_glyphs(*value, frame.tagged(tag), style, floats);
            lemma_clean_concat(opening, within);
            lemma_clean_concat(opening + within, paint(")"@, style.with_color(Color::Cyan)));
        },
        DataItem::Array { data, .. } => {
            let parts = parts_glyphs(item, inner, style, floats);
            lemma_container_notation(item, frame, style, floats);
            lemma_parts_of_array(item, inner, style, floats);
            assert forall|i: int| 0 <= i < parts.len() implies clean(#[trigger] parts[i]) by {
                lemma_notation_clean(data@[i], inner, style, floats);
            }
            lemma_container_clean(
                frame,
                style,
                container_begin(item),
                container_end(item),
                container_definite(item),
                flat,
                parts,
            );
        },
        DataItem::Mapping { data, .. } => {
            let parts = parts_glyphs(item, inner, style, floats);
            let bold = style.with_intensity(Intensity::Bold);
            lemma_container_notation(item, frame, style, floats);
            lemma_parts_of_mapping(item, inner, style, floats);
            lemma_frame_clean(frame, style, Seq::empty(), Seq::empty(), true, flat, 0);
            assert forall|i: int| 0 <= i < parts.len() implies clean(#[trigger] parts[i]) by {
                lemma_notation_clean(data@[i].0, inner, bold, floats);
                lemma_notation_clean(data@[i].1, inner, style, floats);
                let key = item_glyphs(data@[i].0, inner, bold, floats);
                let value = item_glyphs(data@[i].1, inner, style, floats);
                lemma_clean_concat(key, entry_colon(inner, style));
                lemma_clean_concat(key + entry_colon(inner, style), value);
            }
            lemma_container_clean(
                frame,
                style,
                container_begin(item),
                container_end(item),
                container_definite(item),
                flat,
                parts,
            );
        },
        DataItem::IndefiniteByteString(chunks) => {
            let parts = parts_glyphs(item, inner, style, floats);
            lemma_container_notation(item, frame, style, floats);
            lemma_parts_of_chunks(item, inner, style, floats);
            assert forall|i: int| 0 <= i < parts.len() implies clean(#[trigger] parts[i]) by {
                lemma_bytes_clean(chunks@[i].data@, inner.encoding, style);
            }
            lemma_container_clean(
                frame,
                style,
                container_begin(item),
                container_end(item),
                container_definite(item),
                flat,
                parts,
            );
        },
        DataItem::IndefiniteTextString(chunks) => {
            let parts = parts_glyphs(item, inner, style, floats);
            lemma_container_notation(item, frame, style, floats);
            lemma_parts_of_chunks(item, inner, style, floats);
            assert forall|i: int| 0 <= i < parts.len() implies clean(#[trigger] parts[i]) by {
                lemma_text_clean(chunks@[i].data@, style);
            }
            lemma_container_clean(
                frame,
                style,
                container_begin(item),
                container_end(item),
                container_definite(item),
                flat,
                parts,
            );
        },
    }
}

/// The notation of an item without styles is its notation with ANSI
/// escape codes without the SGR sequences, at every place and in either
/// layout, where no text string of the item and no float text of the
/// table holds the escape character.
pub proof fn lemma_plain_notation_is_stripped(
    item: DataItem,
    frame: Frame,
    style: Style,
    floats: Seq<FloatText>,
    current: Style,
)
    requires
        texts_clean(item),
        table_clean(floats),
    ensures
        escape_free(letters(item_glyphs(item, frame, style, floats))),
        strip_sgr(ansi_glyphs(item_glyphs(item, frame, style, floats), current)) == letters(
            item_glyphs(item, frame, style, floats),
        ),
{
    lemma_notation_clean(item, frame, style, floats);
    lemma_clean_letters(item_glyphs(item, frame, style, floats));
    lemma_plain_is_stripped(item_glyphs(item, frame, style, floats), current);
}

/// The bytes of diagnostic notation that is written without colours are
/// the text that is written with colours, without its SGR sequences, as
/// UTF-8: styling adds, drops and moves no character. This holds where no
/// text string of the item and no float text of the table holds the
/// escape character.
pub proof fn lemma_plain_output_is_stripped(value: DataItem, layout: Layout, floats: Seq<FloatText>)
    requires
        texts_clean(value),
        table_clean(floats),
    ensures
        ({
            let text = item_glyphs(value, top(layout), Style::plain(), floats) + paint(
                "\n"@,
                Style::plain(),
            );
            let coloured = ansi_glyphs(text, Style::plain().resolved());
            &&& notation(value, layout, Coloring::Always, floats) == encode_utf8(coloured)
            &&& notation(value, layout, Coloring::Auto, floats) == encode_utf8(coloured)
            &&& notation(value, layout, Coloring::Never, floats) == encode_utf8(strip_sgr(coloured))
            &&& escape_free(strip_sgr(coloured))
        }),
{
    let line = item_glyphs(value, top(layout), Style::plain(), floats);
    let end = paint("\n"@, Style::plain());
    lemma_marks();
    lemma_notation_clean(value, top(layout), Style::plain(), floats);
    lemma_clean_paint("\n"@, Style::plain());
    lemma_clean_concat(line, end);
    lemma_clean_letters(line + end);
    lemma_plain_is_stripped(line + end, Style::plain().resolved());
}

} // verus!
