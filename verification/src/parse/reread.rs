//! What the encoder writes on one line, read again: the parser gives an
//! item that the encoder writes in the same way.

use vstd::prelude::*;
use crate::encode::Encoding;
use crate::encode::diag::{Frame, Layout, float_text, negative_text, precision_suffix, width_suffix, bytes_glyphs, container_body, container_closing, container_glyphs, container_lead, container_opening, entry_colon, item_glyphs, lemma_container_notation, lemma_parts_of_array, lemma_parts_of_chunks, lemma_parts_of_mapping, number_glyphs, parts_glyphs, simple_glyphs, tag_opening, text_glyphs, trivial};
use crate::error::Error;
use crate::text::decimal;
use crate::float::FloatText;
use crate::model::{DataItem, Simple};
use crate::parse::compact::{byte_chunks_text, bytes_text, lemma_notation_back, lemma_shown_text, pairs_text, quoted_text, readable, readable_pairs, readable_trees, shown, text_chunks_text, tree_text, trees_text};
use crate::parse::diag::{notation, parsed_as};
use crate::style::{Color, Glyph, Intensity, Style, lemma_letters_concat, lemma_letters_paint, letters, paint};
use crate::tree::{Chunk, Tree, tree, tree_pairs, trees};

verus! {

/// Texts in a row, with a comma and a space between them.
pub open spec fn row(texts: Seq<Seq<char>>) -> Seq<char>
    decreases texts.len(),
{
    if texts.len() == 0 {
        Seq::empty()
    } else if texts.len() == 1 {
        texts[0]
    } else {
        texts[0] + ", "@ + row(texts.skip(1))
    }
}

/// A row ends with a comma, a space and its last text.
proof fn lemma_row_last(texts: Seq<Seq<char>>)
    requires
        texts.len() >= 2,
    ensures
        row(texts) == row(texts.drop_last()) + ", "@ + texts.last(),
    decreases texts.len(),
{
    let rest = texts.skip(1);
    let front = texts.drop_last();
    if texts.len() == 2 {
        assert(row(rest) == texts[1]);
        assert(row(front) == texts[0]);
    } else {
        lemma_row_last(rest);
        assert(rest.drop_last() =~= front.skip(1));
        assert(row(front) == texts[0] + ", "@ + row(front.skip(1)));
        assert(row(texts) =~= row(front) + ", "@ + texts.last());
    }
}

/// In the compact layout the elements of a container are written as a
/// row.
proof fn lemma_body_row(
    inner: Frame,
    style: Style,
    trivial: bool,
    parts: Seq<Seq<Glyph>>,
    texts: Seq<Seq<char>>,
    count: nat,
)
    requires
        inner.layout == Layout::Compact,
        parts.len() == texts.len(),
        forall|i: int| 0 <= i < parts.len() ==> letters(parts[i]) == #[trigger] texts[i],
        count <= parts.len(),
    ensures
        letters(container_body(inner, style, trivial, parts, count)) == row(
            texts.take(count as int),
        ),
    decreases count,
{
    reveal_strlit(",");
    reveal_strlit(" ");
    reveal_strlit(", ");
    if count == 0 {
        assert(letters(Seq::<Glyph>::empty()) =~= Seq::<char>::empty());
        assert(texts.take(0) =~= Seq::<Seq<char>>::empty());
    } else {
        let before = container_body(inner, style, trivial, parts, (count - 1) as nat);
        let lead = container_lead(inner, style, trivial, count - 1);
        let last = parts[count - 1];
        lemma_body_row(inner, style, trivial, parts, texts, (count - 1) as nat);
        lemma_letters_concat(before + lead, last);
        lemma_letters_concat(before, lead);
        assert(letters(last) == texts[count - 1]);
        let taken = texts.take(count as int);
        assert(taken.drop_last() =~= texts.take(count - 1));
        if count == 1 {
            assert(lead =~= Seq::<Glyph>::empty());
            assert(letters(lead) =~= Seq::<char>::empty());
            assert(row(texts.take(0)) =~= Seq::<char>::empty());
            assert(letters(before) + letters(lead) + letters(last) =~= texts[0]);
        } else {
            let comma = paint(","@, style.with_intensity(Intensity::Normal));
            assert(lead =~= comma + paint(" "@, style));
            assert(letters(lead) =~= ", "@);
            lemma_row_last(taken);
        }
    }
}

/// The notation of items in a row is the row of their notations.
proof fn lemma_trees_row(data: Seq<Tree>, base: Encoding, texts: Seq<Seq<char>>)
    requires
        texts.len() == data.len(),
        forall|i: int| 0 <= i < data.len() ==> #[trigger] texts[i] == tree_text(data[i], base),
    ensures
        trees_text(data, base) == row(texts),
    decreases data.len(),
{
    if data.len() >= 2 {
        lemma_trees_row(data.skip(1), base, texts.skip(1));
    }
}

/// The notation of map entries in a row is the row of their notations.
proof fn lemma_pairs_row(data: Seq<(Tree, Tree)>, base: Encoding, texts: Seq<Seq<char>>)
    requires
        texts.len() == data.len(),
        forall|i: int|
            0 <= i < data.len() ==> #[trigger] texts[i] == tree_text(data[i].0, base) + ":"@
                + tree_text(data[i].1, base),
    ensures
        pairs_text(data, base) == row(texts),
    decreases data.len(),
{
    if data.len() >= 2 {
        lemma_pairs_row(data.skip(1), base, texts.skip(1));
        assert(pairs_text(data, base) =~= texts[0] + ", "@ + row(texts.skip(1)));
    }
}

/// The notation of byte string chunks in a row is the row of their
/// notations.
proof fn lemma_byte_chunks_row(chunks: Seq<Chunk<u8>>, base: Encoding, texts: Seq<Seq<char>>)
    requires
        texts.len() == chunks.len(),
        forall|i: int|
            0 <= i < chunks.len() ==> #[trigger] texts[i] == bytes_text(chunks[i].data, base),
    ensures
        byte_chunks_text(chunks, base) == row(texts),
    decreases chunks.len(),
{
    if chunks.len() >= 2 {
        lemma_byte_chunks_row(chunks.skip(1), base, texts.skip(1));
    }
}

/// The notation of text string chunks in a row is the row of their
/// notations.
proof fn lemma_text_chunks_row(chunks: Seq<Chunk<char>>, texts: Seq<Seq<char>>)
    requires
        texts.len() == chunks.len(),
        forall|i: int| 0 <= i < chunks.len() ==> #[trigger] texts[i] == quoted_text(chunks[i].data),
    ensures
        text_chunks_text(chunks) == row(texts),
    decreases chunks.len(),
{
    if chunks.len() >= 2 {
        lemma_text_chunks_row(chunks.skip(1), texts.skip(1));
    }
}

/// Each of the items in a row that can be read back can be read back.
proof fn lemma_readable_each(data: Seq<Tree>, index: int)
    requires
        readable_trees(data),
        0 <= index < data.len(),
    ensures
        readable(data[index]),
    decreases data.len(),
{
    if index > 0 {
        lemma_readable_each(data.skip(1), index - 1);
    }
}

/// Each key and each value of the entries that can be read back can be
/// read back.
proof fn lemma_readable_entry(data: Seq<(Tree, Tree)>, index: int)
    requires
        readable_pairs(data),
        0 <= index < data.len(),
    ensures
        readable(data[index].0),
        readable(data[index].1),
    decreases data.len(),
{
    if index > 0 {
        lemma_readable_entry(data.skip(1), index - 1);
    }
}

/// In the compact layout a container is its bracket, an underscore where
/// its length is open, its elements as a row, and its bracket.
proof fn lemma_container_letters(
    frame: Frame,
    style: Style,
    begin: Seq<char>,
    end: Seq<char>,
    definite: bool,
    trivial: bool,
    parts: Seq<Seq<Glyph>>,
    texts: Seq<Seq<char>>,
)
    requires
        frame.layout == Layout::Compact,
        parts.len() == texts.len(),
        forall|i: int| 0 <= i < parts.len() ==> letters(parts[i]) == #[trigger] texts[i],
    ensures
        letters(container_glyphs(frame, style, begin, end, definite, trivial, parts)) == begin + (
        if definite {
            Seq::<char>::empty()
        } else {
            "_"@
        }) + row(texts) + end,
{
    let opening = container_opening(frame, style, begin, definite, trivial);
    let body = container_body(frame.inside(trivial), style, trivial, parts, parts.len());
    let closing = container_closing(frame, style, end, trivial);
    lemma_body_row(frame.inside(trivial), style, trivial, parts, texts, parts.len());
    assert(texts.take(texts.len() as int) =~= texts);
    lemma_letters_concat(opening + body, closing);
    lemma_letters_concat(opening, body);
    let mark = if definite {
        Seq::<char>::empty()
    } else {
        "_"@
    };
    assert(letters(opening) =~= begin + mark);
    assert(letters(closing) =~= end);
}

/// The characters of a number and its suffix.
proof fn lemma_number_letters(digits: Seq<char>, suffix: Seq<char>, style: Style)
    ensures
        letters(number_glyphs(digits, suffix, style)) == digits + suffix,
{
    lemma_letters_concat(paint(digits, style), paint(suffix, style.with_intensity(Intensity::Faint)));
    lemma_letters_paint(digits, style);
    lemma_letters_paint(suffix, style.with_intensity(Intensity::Faint));
}

/// The characters of a byte string.
proof fn lemma_bytes_letters(data: Seq<u8>, base: Encoding, style: Style)
    ensures
        letters(bytes_glyphs(data, base, style)) == bytes_text(data, base),
{
    assert(letters(bytes_glyphs(data, base, style)) =~= bytes_text(data, base));
}

/// The characters of a text string.
proof fn lemma_text_letters(data: Seq<char>, style: Style)
    ensures
        letters(text_glyphs(data, style)) == quoted_text(data),
{
    lemma_letters_paint(quoted_text(data), style.with_color(Color::Blue));
}

/// The characters of a simple value.
proof fn lemma_simple_letters(simple: Simple, style: Style)
    ensures
        letters(simple_glyphs(simple, style)) == tree_text(Tree::Simple(simple.0), Encoding::Base16),
{
    assert(letters(simple_glyphs(simple, style)) =~= tree_text(
        Tree::Simple(simple.0),
        Encoding::Base16,
    ));
}

/// What the encoder writes for an item in the compact layout is the
/// compact notation of the item, with every style left out.
pub proof fn lemma_compact_letters(item: DataItem, frame: Frame, style: Style, floats: Seq<FloatText>)
    requires
        frame.layout == Layout::Compact,
        readable(tree(item)),
    ensures
        letters(item_glyphs(item, frame, style, floats)) == tree_text(tree(item), frame.encoding),
    decreases item,
{
    reveal(tree);
    match item {
        DataItem::Integer { value, bitwidth } => {
            reveal(item_glyphs);
            lemma_number_letters(decimal(value as nat), width_suffix(bitwidth), style);
        },
        DataItem::Negative { value, bitwidth } => {
            reveal(item_glyphs);
            lemma_number_letters(negative_text(value), width_suffix(bitwidth), style);
        },
        DataItem::Float { value, bitwidth } => {
            reveal(item_glyphs);
            lemma_number_letters(
                float_text(value, bitwidth, floats),
                precision_suffix(bitwidth),
                style,
            );
        },
        DataItem::Simple(simple) => {
            reveal(item_glyphs);
            lemma_simple_letters(simple, style);
        },
        DataItem::ByteString(bytes) => {
            reveal(item_glyphs);
            lemma_bytes_letters(bytes.data@, frame.encoding, style);
        },
        DataItem::TextString(text) => {
            reveal(item_glyphs);
            lemma_text_letters(text.data@, style);
        },
        DataItem::Tag { tag, bitwidth, value } => {
            lemma_compact_letters(*value, frame.tagged(tag), style, floats);
            lemma_tagged_letters(item, frame, style, floats);
        },
        DataItem::Array { data, bitwidth } => {
            reveal(trees);
            reveal_strlit("[");
            reveal_strlit("]");
            let inner = frame.inside(trivial(item, floats));
            let parts = parts_glyphs(item, inner, style, floats);
            let elements = trees(item);
            let texts = Seq::new(data@.len(), |i: int| tree_text(elements[i], frame.encoding));
            lemma_container_notation(item, frame, style, floats);
            lemma_parts_of_array(item, inner, style, floats);
            assert forall|i: int| 0 <= i < parts.len() implies letters(parts[i])
                == #[trigger] texts[i] by {
                lemma_readable_each(elements, i);
                lemma_compact_letters(data@[i], inner, style, floats);
            }
            lemma_trees_row(elements, frame.encoding, texts);
            lemma_container_letters(
                frame,
                style,
                "["@,
                "]"@,
                bitwidth is Some,
                trivial(item, floats),
                parts,
                texts,
            );
        },
        DataItem::Mapping { data, bitwidth } => {
            reveal(tree_pairs);
            reveal_strlit("{");
            reveal_strlit("}");
            reveal_strlit(":");
            let inner = frame.inside(trivial(item, floats));
            let parts = parts_glyphs(item, inner, style, floats);
            let entries = tree_pairs(item);
            let texts = Seq::new(
                data@.len(),
                |i: int|
                    tree_text(entries[i].0, frame.encoding) + ":"@ + tree_text(
                        entries[i].1,
                        frame.encoding,
                    ),
            );
            lemma_container_notation(item, frame, style, floats);
            lemma_parts_of_mapping(item, inner, style, floats);
            assert forall|i: int| 0 <= i < parts.len() implies letters(parts[i])
                == #[trigger] texts[i] by {
                lemma_readable_entry(entries, i);
                let bold = style.with_intensity(Intensity::Bold);
                lemma_compact_letters(data@[i].0, inner, bold, floats);
                lemma_compact_letters(data@[i].1, inner, style, floats);
                let key = item_glyphs(data@[i].0, inner, bold, floats);
                let value = item_glyphs(data@[i].1, inner, style, floats);
                lemma_letters_concat(key + entry_colon(inner, style), value);
                lemma_letters_concat(key, entry_colon(inner, style));
                assert(letters(entry_colon(inner, style)) =~= ":"@);
            }
            lemma_pairs_row(entries, frame.encoding, texts);
            lemma_container_letters(
                frame,
                style,
                "{"@,
                "}"@,
                bitwidth is Some,
                trivial(item, floats),
                parts,
                texts,
            );
        },
        DataItem::IndefiniteByteString(chunks) => {
            reveal_strlit("(");
            reveal_strlit(")");
            reveal_strlit("(_");
            reveal_strlit("_");
            let inner = frame.inside(trivial(item, floats));
            let parts = parts_glyphs(item, inner, style, floats);
            let texts = Seq::new(
                chunks@.len(),
                |i: int| bytes_text(chunks@[i].data@, frame.encoding),
            );
            lemma_container_notation(item, frame, style, floats);
            lemma_parts_of_chunks(item, inner, style, floats);
            assert forall|i: int| 0 <= i < parts.len() implies letters(parts[i])
                == #[trigger] texts[i] by {
                lemma_bytes_letters(chunks@[i].data@, frame.encoding, style);
            }
            lemma_byte_chunks_row(tree(item)->ByteChunks_0, frame.encoding, texts);
            lemma_container_letters(
                frame,
                style,
                "("@,
                ")"@,
                false,
                trivial(item, floats),
                parts,
                texts,
            );
            assert("("@ + "_"@ =~= "(_"@);
        },
        DataItem::IndefiniteTextString(chunks) => {
            reveal_strlit("(");
            reveal_strlit(")");
            reveal_strlit("(_");
            reveal_strlit("_");
            let inner = frame.inside(trivial(item, floats));
            let parts = parts_glyphs(item, inner, style, floats);
            let texts = Seq::new(chunks@.len(), |i: int| quoted_text(chunks@[i].data@));
            lemma_container_notation(item, frame, style, floats);
            lemma_parts_of_chunks(item, inner, style, floats);
            assert forall|i: int| 0 <= i < parts.len() implies letters(parts[i])
                == #[trigger] texts[i] by {
                lemma_text_letters(chunks@[i].data@, style);
            }
            lemma_text_chunks_row(tree(item)->TextChunks_0, texts);
            lemma_container_letters(
                frame,
                style,
                "("@,
                ")"@,
                false,
                trivial(item, floats),
                parts,
                texts,
            );
            assert("("@ + "_"@ =~= "(_"@);
        },
    }
}

/// The characters of a tagged item are the tag, its suffix, and the
/// characters of the item between brackets.
proof fn lemma_tagged_letters(item: DataItem, frame: Frame, style: Style, floats: Seq<FloatText>)
    requires
        item is Tag,
    ensures
        letters(item_glyphs(item, frame, style, floats)) == decimal(item->Tag_tag.0 as nat)
            + width_suffix(item->Tag_bitwidth) + "("@ + letters(
            item_glyphs(*item->Tag_value, frame.tagged(item->Tag_tag), style, floats),
        ) + ")"@,
{
    reveal(item_glyphs);
    if let DataItem::Tag { tag, bitwidth, value } = item {
        let opening = tag_opening(tag, bitwidth, style);
        let inner = item_glyphs(*value, frame.tagged(tag), style, floats);
        let closing = paint(")"@, style.with_color(Color::Cyan));
        lemma_letters_concat(opening + inner, closing);
        lemma_letters_concat(opening, inner);
        assert(letters(opening) =~= decimal(tag.0 as nat) + width_suffix(bitwidth) + "("@);
        assert(letters(closing) =~= ")"@);
    }
}

/// The place of an item that stands alone on one line.
pub open spec fn line(encoding: Encoding) -> Frame {
    Frame { layout: Layout::Compact, encoding, indent: 0 }
}

/// What the encoder writes for an item on one line is read as the item
/// that this notation shows. This holds of an item without a float
/// that is a number, whose integers and tags fit their widths, and whose
/// notation holds no `#`, with which a comment would start.
pub proof fn lemma_written_is_read(
    item: DataItem,
    encoding: Encoding,
    style: Style,
    written: Seq<FloatText>,
    read: Seq<FloatText>,
)
    requires
        readable(tree(item)),
        !letters(item_glyphs(item, line(encoding), style, written)).contains('#'),
    ensures
        notation(letters(item_glyphs(item, line(encoding), style, written)), read) == Ok::<
            Tree,
            Error,
        >(shown(tree(item))),
{
    lemma_compact_letters(item, line(encoding), style, written);
    lemma_notation_back(tree(item), encoding, read);
}

/// Reading what the encoder wrote for an item on one line, and writing
/// the result on one line again, gives the same text. This holds of an
/// item without a float that is a number, whose integers and tags fit
/// their widths, and whose notation holds no `#`.
pub proof fn lemma_read_and_written_again(
    item: DataItem,
    again: DataItem,
    encoding: Encoding,
    style: Style,
    written: Seq<FloatText>,
    read: Seq<FloatText>,
)
    requires
        readable(tree(item)),
        !letters(item_glyphs(item, line(encoding), style, written)).contains('#'),
        parsed_as(
            Ok(again),
            notation(letters(item_glyphs(item, line(encoding), style, written)), read),
        ),
    ensures
        letters(item_glyphs(again, line(encoding), style, read)) == letters(
            item_glyphs(item, line(encoding), style, written),
        ),
{
    lemma_written_is_read(item, encoding, style, written, read);
    lemma_compact_letters(item, line(encoding), style, written);
    lemma_shown_text(tree(item), encoding);
    lemma_compact_letters(again, line(encoding), style, read);
}

} // verus!
