//! What the decoder makes of encodings: the encoding of every item that
//! can be encoded is recognized as one complete item, whatever follows
//! it, and every proper prefix of it as truncated.

use vstd::prelude::*;
use vstd::utf8::encode_utf8;
use crate::encode::bytes::{be_bytes, chunk_bytes, encoding, follow_len, header, info, lemma_children_bytes_start, lemma_children_bytes_step, string_bytes, well_formed};
use crate::model::{ByteString, DataItem, FloatWidth, IntegerWidth, TextString, indefinite};
use crate::error::Error;
use crate::parse::bytes::{Shape, replies, argument, argument_len, byte_chunks_bytes, entries_bytes, lemma_array_children, lemma_be_value_of_bytes, lemma_byte_chunks, lemma_items_split, lemma_mapping_children, lemma_pow256, lemma_text_chunks, recognize, recognize_chunks, recognize_entries, recognize_items, recognize_open, sequence_bytes, text_chunks_bytes};
use crate::precision::{lemma_half_widen_narrow, lemma_single_widen_narrow, wire_bits, wire_width};

verus! {

/// A header has its initial byte and the bytes of its argument, and says
/// its argument back.
pub proof fn lemma_header(major: nat, bitwidth: IntegerWidth, value: u64, rest: Seq<u8>)
    requires
        major <= 6,
        bitwidth.holds(value),
    ensures
        header(major, bitwidth, value).len() == 1 + follow_len(bitwidth.resolved(value)),
        (header(major, bitwidth, value) + rest)[0] / 32 == major,
        (header(major, bitwidth, value) + rest)[0] % 32 < 28,
        argument_len(((header(major, bitwidth, value) + rest)[0] % 32) as nat) == follow_len(
            bitwidth.resolved(value),
        ),
        argument(header(major, bitwidth, value) + rest) == value,
{
    let width = bitwidth.resolved(value);
    let follow = follow_len(width);
    let head = header(major, bitwidth, value);
    let bytes = head + rest;
    lemma_pow256();
    if follow > 0 {
        lemma_be_value_of_bytes(value as nat, follow);
    }
    assert(head[0] == (major * 32 + info(width, value)) as u8);
    assert(bytes[0] == head[0]);
    assert(bytes.subrange(1, (1 + follow) as int) =~= be_bytes(value as nat, follow));
}

/// A header that is cut short is truncated.
pub proof fn lemma_header_cut(major: nat, bitwidth: IntegerWidth, value: u64, len: int)
    requires
        major <= 6,
        bitwidth.holds(value),
        0 <= len < header(major, bitwidth, value).len(),
    ensures
        recognize(header(major, bitwidth, value).take(len)) == Shape::Truncated,
{
    lemma_header(major, bitwidth, value, Seq::empty());
    let head = header(major, bitwidth, value);
    assert(head + Seq::<u8>::empty() =~= head);
    let bytes = head.take(len);
    if len > 0 {
        assert(bytes[0] == head[0]);
    }
}

/// A definite-length string is one complete item, whatever follows it.
pub proof fn lemma_string_complete(major: nat, data: Seq<u8>, bitwidth: IntegerWidth, rest: Seq<u8>)
    requires
        major == 2 || major == 3,
        data.len() <= u64::MAX,
        bitwidth.holds(data.len() as u64),
        major == 3 ==> vstd::utf8::valid_utf8(data),
    ensures
        recognize(string_bytes(major, data, bitwidth) + rest) == Shape::Complete(
            string_bytes(major, data, bitwidth).len(),
        ),
        string_bytes(major, data, bitwidth).len() >= 1,
        (string_bytes(major, data, bitwidth) + rest)[0] != 0xff,
        (string_bytes(major, data, bitwidth) + rest)[0] / 32 == major,
        (string_bytes(major, data, bitwidth) + rest)[0] % 32 != 31,
{
    let head = header(major, bitwidth, data.len() as u64);
    let bytes = string_bytes(major, data, bitwidth) + rest;
    lemma_header(major, bitwidth, data.len() as u64, data + rest);
    assert(bytes =~= head + (data + rest));
    assert(bytes.subrange(head.len() as int, (head.len() + data.len()) as int) =~= data);
}

/// A definite-length string that is cut short is truncated.
pub proof fn lemma_string_cut(major: nat, data: Seq<u8>, bitwidth: IntegerWidth, len: int)
    requires
        major == 2 || major == 3,
        data.len() <= u64::MAX,
        bitwidth.holds(data.len() as u64),
        0 <= len < string_bytes(major, data, bitwidth).len(),
    ensures
        recognize(string_bytes(major, data, bitwidth).take(len)) == Shape::Truncated,
{
    let head = header(major, bitwidth, data.len() as u64);
    let whole = string_bytes(major, data, bitwidth);
    if len < head.len() {
        lemma_header_cut(major, bitwidth, data.len() as u64, len);
        assert(whole.take(len) =~= head.take(len));
    } else {
        let part = data.take(len - head.len());
        lemma_header(major, bitwidth, data.len() as u64, part);
        assert(whole.take(len) =~= head + part);
    }
}

/// A float or a simple value is one complete item, whatever follows it,
/// and truncated where it is cut short.
pub proof fn lemma_special(item: DataItem, rest: Seq<u8>, len: int)
    requires
        item is Float || item is Simple,
        well_formed(item),
    ensures
        recognize(encoding(item) + rest) == Shape::Complete(encoding(item).len()),
        0 <= len < encoding(item).len() ==> recognize(encoding(item).take(len))
            == Shape::Truncated,
        encoding(item).len() >= 1,
        (encoding(item) + rest)[0] != 0xff,
{
    reveal(encoding);
    let whole = encoding(item);
    let bytes = whole + rest;
    let cut = whole.take(len);
    match item {
        DataItem::Float { value, bitwidth } => {
            let bits = wire_bits(value, bitwidth) as nat;
            let count: nat = match wire_width(value, bitwidth) {
                FloatWidth::Sixteen => 2,
                FloatWidth::ThirtyTwo => 4,
                _ => 8,
            };
            lemma_pow256();
            if wire_width(value, bitwidth) == FloatWidth::Sixteen {
                lemma_half_widen_narrow(value as int);
            } else if wire_width(value, bitwidth) == FloatWidth::ThirtyTwo {
                lemma_single_widen_narrow(value as int);
            }
            lemma_be_value_of_bytes(bits, count);
            assert(whole.len() == 1 + count);
            assert(bytes[0] == whole[0]);
            if 0 < len < whole.len() {
                assert(cut[0] == whole[0]);
            }
        },
        DataItem::Simple(simple) => {
            assert(bytes[0] == whole[0]);
            if simple.0 >= 24 {
                assert(bytes[1] == simple.0);
            }
            if 0 < len < whole.len() {
                assert(cut[0] == whole[0]);
            }
        },
        _ => {},
    }
}

/// Whether every item can be encoded.
pub open spec fn all_well_formed(items: Seq<DataItem>) -> bool {
    forall|i: int| 0 <= i < items.len() ==> well_formed(#[trigger] items[i])
}

/// Whether every key and every value can be encoded.
pub open spec fn all_entries_well_formed(entries: Seq<(DataItem, DataItem)>) -> bool {
    forall|i: int|
        0 <= i < entries.len() ==> well_formed((#[trigger] entries[i]).0) && well_formed(
            entries[i].1,
        )
}

/// Whether the width of every chunk holds the length of the chunk.
pub open spec fn all_byte_chunks_fit(chunks: Seq<ByteString>) -> bool {
    forall|i: int|
        0 <= i < chunks.len() ==> (#[trigger] chunks[i]).bitwidth.holds(
            chunks[i].data@.len() as u64,
        )
}

/// Whether the width of every chunk holds the length of the chunk.
pub open spec fn all_text_chunks_fit(chunks: Seq<TextString>) -> bool {
    forall|i: int|
        0 <= i < chunks.len() ==> encode_utf8((#[trigger] chunks[i]).data@).len() <= u64::MAX
            && chunks[i].bitwidth.holds(encode_utf8(chunks[i].data@).len() as u64)
}

/// A vector holds no more than its length can count.
pub proof fn lemma_vec_len<T>(v: Vec<T>)
    ensures
        v@.len() <= usize::MAX,
{
    assert(v.len() == v@.len());
}

/// Items in a row are encoded as the first and then the others.
pub proof fn lemma_sequence_first(items: Seq<DataItem>)
    requires
        items.len() > 0,
    ensures
        sequence_bytes(items) == encoding(items[0]) + sequence_bytes(items.skip(1)),
    decreases items.len(),
{
    if items.len() == 1 {
        assert(items.drop_last() =~= Seq::<DataItem>::empty());
        assert(items.skip(1) =~= Seq::<DataItem>::empty());
        assert(sequence_bytes(items) =~= encoding(items[0]) + sequence_bytes(items.skip(1)));
    } else {
        lemma_sequence_first(items.drop_last());
        assert(items.drop_last().skip(1) =~= items.skip(1).drop_last());
        assert(items.drop_last()[0] == items[0]);
        assert(items.skip(1).last() == items.last());
        assert(sequence_bytes(items) =~= encoding(items[0]) + sequence_bytes(items.skip(1)));
    }
}

/// Map entries in a row are encoded as the first and then the others.
pub proof fn lemma_entries_first(entries: Seq<(DataItem, DataItem)>)
    requires
        entries.len() > 0,
    ensures
        entries_bytes(entries) == encoding(entries[0].0) + encoding(entries[0].1)
            + entries_bytes(entries.skip(1)),
    decreases entries.len(),
{
    if entries.len() == 1 {
        assert(entries.drop_last() =~= Seq::<(DataItem, DataItem)>::empty());
        assert(entries.skip(1) =~= Seq::<(DataItem, DataItem)>::empty());
        assert(entries_bytes(entries) =~= encoding(entries[0].0) + encoding(entries[0].1)
            + entries_bytes(entries.skip(1)));
    } else {
        lemma_entries_first(entries.drop_last());
        assert(entries.drop_last().skip(1) =~= entries.skip(1).drop_last());
        assert(entries.drop_last()[0] == entries[0]);
        assert(entries.skip(1).last() == entries.last());
        assert(entries_bytes(entries) =~= encoding(entries[0].0) + encoding(entries[0].1)
            + entries_bytes(entries.skip(1)));
    }
}

/// Byte string chunks in a row are encoded as the first and then the
/// others.
pub proof fn lemma_byte_chunks_first(chunks: Seq<ByteString>)
    requires
        chunks.len() > 0,
    ensures
        byte_chunks_bytes(chunks) == string_bytes(2, chunks[0].data@, chunks[0].bitwidth)
            + byte_chunks_bytes(chunks.skip(1)),
    decreases chunks.len(),
{
    if chunks.len() == 1 {
        assert(chunks.drop_last() =~= Seq::<ByteString>::empty());
        assert(chunks.skip(1) =~= Seq::<ByteString>::empty());
        assert(byte_chunks_bytes(chunks) =~= string_bytes(
            2,
            chunks[0].data@,
            chunks[0].bitwidth,
        ) + byte_chunks_bytes(chunks.skip(1)));
    } else {
        lemma_byte_chunks_first(chunks.drop_last());
        assert(chunks.drop_last().skip(1) =~= chunks.skip(1).drop_last());
        assert(chunks.drop_last()[0] == chunks[0]);
        assert(chunks.skip(1).last() == chunks.last());
        assert(byte_chunks_bytes(chunks) =~= string_bytes(
            2,
            chunks[0].data@,
            chunks[0].bitwidth,
        ) + byte_chunks_bytes(chunks.skip(1)));
    }
}

/// Text string chunks in a row are encoded as the first and then the
/// others.
pub proof fn lemma_text_chunks_first(chunks: Seq<TextString>)
    requires
        chunks.len() > 0,
    ensures
        text_chunks_bytes(chunks) == string_bytes(
            3,
            encode_utf8(chunks[0].data@),
            chunks[0].bitwidth,
        ) + text_chunks_bytes(chunks.skip(1)),
    decreases chunks.len(),
{
    if chunks.len() == 1 {
        assert(chunks.drop_last() =~= Seq::<TextString>::empty());
        assert(chunks.skip(1) =~= Seq::<TextString>::empty());
        assert(text_chunks_bytes(chunks) =~= string_bytes(
            3,
            encode_utf8(chunks[0].data@),
            chunks[0].bitwidth,
        ) + text_chunks_bytes(chunks.skip(1)));
    } else {
        lemma_text_chunks_first(chunks.drop_last());
        assert(chunks.drop_last().skip(1) =~= chunks.skip(1).drop_last());
        assert(chunks.drop_last()[0] == chunks[0]);
        assert(chunks.skip(1).last() == chunks.last());
        assert(text_chunks_bytes(chunks) =~= string_bytes(
            3,
            encode_utf8(chunks[0].data@),
            chunks[0].bitwidth,
        ) + text_chunks_bytes(chunks.skip(1)));
    }
}

/// Byte string chunks and the break behind them are complete, whatever
/// follows.
pub proof fn lemma_byte_chunks_complete(chunks: Seq<ByteString>, rest: Seq<u8>)
    requires
        all_byte_chunks_fit(chunks),
    ensures
        recognize_chunks(byte_chunks_bytes(chunks) + seq![0xffu8] + rest, 2) == Shape::Complete(
            byte_chunks_bytes(chunks).len() + 1,
        ),
    decreases chunks.len(),
{
    let bytes = byte_chunks_bytes(chunks) + seq![0xffu8] + rest;
    if chunks.len() == 0 {
        assert(bytes[0] == 0xff);
    } else {
        lemma_byte_chunks_first(chunks);
        let first = string_bytes(2, chunks[0].data@, chunks[0].bitwidth);
        let others = byte_chunks_bytes(chunks.skip(1)) + seq![0xffu8] + rest;
        assert(bytes =~= first + others);
        lemma_vec_len(chunks[0].data);
        lemma_string_complete(2, chunks[0].data@, chunks[0].bitwidth, others);
        assert(bytes.skip(first.len() as int) =~= others);
        assert forall|i: int| 0 <= i < chunks.skip(1).len() implies (#[trigger] chunks.skip(
            1,
        )[i]).bitwidth.holds(chunks.skip(1)[i].data@.len() as u64) by {
            assert(chunks.skip(1)[i] == chunks[i + 1]);
        }
        lemma_byte_chunks_complete(chunks.skip(1), rest);
    }
}

/// Text string chunks and the break behind them are complete, whatever
/// follows.
pub proof fn lemma_text_chunks_complete(chunks: Seq<TextString>, rest: Seq<u8>)
    requires
        all_text_chunks_fit(chunks),
    ensures
        recognize_chunks(text_chunks_bytes(chunks) + seq![0xffu8] + rest, 3) == Shape::Complete(
            text_chunks_bytes(chunks).len() + 1,
        ),
    decreases chunks.len(),
{
    let bytes = text_chunks_bytes(chunks) + seq![0xffu8] + rest;
    if chunks.len() == 0 {
        assert(bytes[0] == 0xff);
    } else {
        lemma_text_chunks_first(chunks);
        let data = encode_utf8(chunks[0].data@);
        let first = string_bytes(3, data, chunks[0].bitwidth);
        let others = text_chunks_bytes(chunks.skip(1)) + seq![0xffu8] + rest;
        assert(bytes =~= first + others);
        vstd::utf8::encode_utf8_valid_utf8(chunks[0].data@);
        lemma_string_complete(3, data, chunks[0].bitwidth, others);
        assert(bytes.skip(first.len() as int) =~= others);
        assert forall|i: int| 0 <= i < chunks.skip(1).len() implies encode_utf8(
            (#[trigger] chunks.skip(1)[i]).data@,
        ).len() <= u64::MAX && chunks.skip(1)[i].bitwidth.holds(
            encode_utf8(chunks.skip(1)[i].data@).len() as u64,
        ) by {
            assert(chunks.skip(1)[i] == chunks[i + 1]);
        }
        lemma_text_chunks_complete(chunks.skip(1), rest);
    }
}

/// The encoding of a tagged item is complete where that of the item
/// below the tag is.
proof fn lemma_tag_complete(item: DataItem, rest: Seq<u8>)
    requires
        item is Tag,
        well_formed(item),
    ensures
        recognize(encoding(item) + rest) == Shape::Complete(encoding(item).len()),
        encoding(item).len() >= 1,
        (encoding(item) + rest)[0] != 0xff,
    decreases item, 0nat,
{
    reveal(encoding);
    let whole = encoding(item);
    let bytes = whole + rest;
    if let DataItem::Tag { tag, bitwidth, value } = item {
        let head = header(6, bitwidth, tag.0);
        lemma_children_bytes_start(item);
        lemma_children_bytes_step(item, 0);
        lemma_header(6, bitwidth, tag.0, encoding(*value) + rest);
        lemma_complete(*value, rest);
        assert(whole =~= head + encoding(*value));
        assert(bytes =~= head + (encoding(*value) + rest));
        assert(bytes.skip(head.len() as int) =~= encoding(*value) + rest);
    }
}

/// The encoding of an array is complete.
#[verifier::rlimit(40)]
proof fn lemma_array_complete(item: DataItem, rest: Seq<u8>)
    requires
        item is Array,
        well_formed(item),
    ensures
        recognize(encoding(item) + rest) == Shape::Complete(encoding(item).len()),
        encoding(item).len() >= 1,
        (encoding(item) + rest)[0] != 0xff,
    decreases item, 0nat,
{
    reveal(encoding);
    let whole = encoding(item);
    let bytes = whole + rest;
    if let DataItem::Array { data, bitwidth } = item {
        let body = sequence_bytes(data@);
        lemma_vec_len(data);
        lemma_array_children(item, data@.len());
        assert(data@.take(data@.len() as int) =~= data@);
        assert(chunk_bytes(item, 0) =~= Seq::<u8>::empty());
        match bitwidth {
            Some(width) => {
                let head = header(4, width, data@.len() as u64);
                lemma_header(4, width, data@.len() as u64, body + rest);
                lemma_items_complete(data@, rest);
                assert(whole =~= head + body);
                assert(bytes =~= head + (body + rest));
                assert(bytes.skip(head.len() as int) =~= body + rest);
            },
            None => {
                lemma_open_complete(data@, rest);
                assert(whole =~= seq![0x9fu8] + body + seq![0xffu8]);
                assert(bytes.skip(1) =~= body + seq![0xffu8] + rest);
                assert(bytes[0] == 0x9f);
            },
        }
    }
}

/// The encoding of a map is complete.
#[verifier::rlimit(40)]
proof fn lemma_mapping_complete(item: DataItem, rest: Seq<u8>)
    requires
        item is Mapping,
        well_formed(item),
    ensures
        recognize(encoding(item) + rest) == Shape::Complete(encoding(item).len()),
        encoding(item).len() >= 1,
        (encoding(item) + rest)[0] != 0xff,
    decreases item, 0nat,
{
    reveal(encoding);
    let whole = encoding(item);
    let bytes = whole + rest;
    if let DataItem::Mapping { data, bitwidth } = item {
        let body = entries_bytes(data@);
        lemma_vec_len(data);
        lemma_mapping_children(item, data@.len());
        assert(data@.take(data@.len() as int) =~= data@);
        assert(chunk_bytes(item, 0) =~= Seq::<u8>::empty());
        match bitwidth {
            Some(width) => {
                let head = header(5, width, data@.len() as u64);
                lemma_header(5, width, data@.len() as u64, body + rest);
                lemma_pairs_complete(data@, rest);
                assert(whole =~= head + body);
                assert(bytes =~= head + (body + rest));
                assert(bytes.skip(head.len() as int) =~= body + rest);
            },
            None => {
                lemma_entries_complete(data@, rest);
                assert(whole =~= seq![0xbfu8] + body + seq![0xffu8]);
                assert(bytes.skip(1) =~= body + seq![0xffu8] + rest);
                assert(bytes[0] == 0xbf);
            },
        }
    }
}

/// The encoding of an indefinite-length string is complete.
proof fn lemma_chunked_complete(item: DataItem, rest: Seq<u8>)
    requires
        item is IndefiniteByteString || item is IndefiniteTextString,
        well_formed(item),
    ensures
        recognize(encoding(item) + rest) == Shape::Complete(encoding(item).len()),
        encoding(item).len() >= 1,
        (encoding(item) + rest)[0] != 0xff,
{
    reveal(encoding);
    let whole = encoding(item);
    let bytes = whole + rest;
    lemma_children_bytes_start(item);
    match item {
        DataItem::IndefiniteByteString(chunks) => {
            let body = byte_chunks_bytes(chunks@);
            lemma_byte_chunks(item, chunks@.len());
            assert(chunks@.take(chunks@.len() as int) =~= chunks@);
            lemma_byte_chunks_complete(chunks@, rest);
            assert(whole =~= seq![0x5fu8] + body + seq![0xffu8]);
            assert(bytes.skip(1) =~= body + seq![0xffu8] + rest);
            assert(bytes[0] == 0x5f);
        },
        DataItem::IndefiniteTextString(chunks) => {
            let body = text_chunks_bytes(chunks@);
            lemma_text_chunks(item, chunks@.len());
            assert(chunks@.take(chunks@.len() as int) =~= chunks@);
            lemma_text_chunks_complete(chunks@, rest);
            assert(whole =~= seq![0x7fu8] + body + seq![0xffu8]);
            assert(bytes.skip(1) =~= body + seq![0xffu8] + rest);
            assert(bytes[0] == 0x7f);
        },
        _ => {},
    }
}

/// The encoding of an item that can be encoded is one complete item,
/// whatever follows it; it has at least one byte and does not start with
/// a break.
pub proof fn lemma_complete(item: DataItem, rest: Seq<u8>)
    requires
        well_formed(item),
    ensures
        recognize(encoding(item) + rest) == Shape::Complete(encoding(item).len()),
        encoding(item).len() >= 1,
        (encoding(item) + rest)[0] != 0xff,
    decreases item, 1nat,
{
    match item {
        DataItem::Integer { value, bitwidth } => {
            reveal(encoding);
            lemma_header(0, bitwidth, value, rest);
        },
        DataItem::Negative { value, bitwidth } => {
            reveal(encoding);
            lemma_header(1, bitwidth, value, rest);
        },
        DataItem::ByteString(string) => {
            reveal(encoding);
            lemma_vec_len(string.data);
            lemma_string_complete(2, string.data@, string.bitwidth, rest);
        },
        DataItem::TextString(string) => {
            reveal(encoding);
            vstd::utf8::encode_utf8_valid_utf8(string.data@);
            lemma_string_complete(3, encode_utf8(string.data@), string.bitwidth, rest);
        },
        DataItem::Float { .. } => {
            lemma_special(item, rest, 0);
        },
        DataItem::Simple(_) => {
            lemma_special(item, rest, 0);
        },
        DataItem::Tag { .. } => {
            lemma_tag_complete(item, rest);
        },
        DataItem::Array { .. } => {
            lemma_array_complete(item, rest);
        },
        DataItem::Mapping { .. } => {
            lemma_mapping_complete(item, rest);
        },
        _ => {
            lemma_chunked_complete(item, rest);
        },
    }
}

/// Items in a row that can be encoded are as many complete items,
/// whatever follows them.
pub proof fn lemma_items_complete(items: Seq<DataItem>, rest: Seq<u8>)
    requires
        all_well_formed(items),
    ensures
        recognize_items(sequence_bytes(items) + rest, items.len()) == Shape::Complete(
            sequence_bytes(items).len(),
        ),
    decreases items, 0nat,
{
    let bytes = sequence_bytes(items) + rest;
    if items.len() > 0 {
        lemma_sequence_first(items);
        let first = encoding(items[0]);
        let others = sequence_bytes(items.skip(1)) + rest;
        assert(bytes =~= first + others);
        lemma_complete(items[0], others);
        assert(bytes.skip(first.len() as int) =~= others);
        assert forall|i: int| 0 <= i < items.skip(1).len() implies well_formed(
            #[trigger] items.skip(1)[i],
        ) by {
            assert(items.skip(1)[i] == items[i + 1]);
        }
        lemma_items_complete(items.skip(1), rest);
    }
}

/// Items in a row that can be encoded, and the break behind them, are
/// complete, whatever follows.
pub proof fn lemma_open_complete(items: Seq<DataItem>, rest: Seq<u8>)
    requires
        all_well_formed(items),
    ensures
        recognize_open(sequence_bytes(items) + seq![0xffu8] + rest) == Shape::Complete(
            sequence_bytes(items).len() + 1,
        ),
    decreases items, 0nat,
{
    let bytes = sequence_bytes(items) + seq![0xffu8] + rest;
    if items.len() == 0 {
        assert(bytes[0] == 0xff);
    } else {
        lemma_sequence_first(items);
        let first = encoding(items[0]);
        let others = sequence_bytes(items.skip(1)) + seq![0xffu8] + rest;
        assert(bytes =~= first + others);
        lemma_complete(items[0], others);
        assert(bytes.skip(first.len() as int) =~= others);
        assert forall|i: int| 0 <= i < items.skip(1).len() implies well_formed(
            #[trigger] items.skip(1)[i],
        ) by {
            assert(items.skip(1)[i] == items[i + 1]);
        }
        lemma_open_complete(items.skip(1), rest);
    }
}

/// A key and a value that can be encoded are two complete items, whatever
/// follows them.
pub proof fn lemma_pair_complete(entry: (DataItem, DataItem), rest: Seq<u8>)
    requires
        well_formed(entry.0),
        well_formed(entry.1),
    ensures
        recognize_items(encoding(entry.0) + encoding(entry.1) + rest, 2) == Shape::Complete(
            encoding(entry.0).len() + encoding(entry.1).len(),
        ),
        (encoding(entry.0) + encoding(entry.1) + rest)[0] != 0xff,
        encoding(entry.0).len() + encoding(entry.1).len() >= 2,
    decreases entry, 0nat,
{
    reveal_with_fuel(recognize_items, 3);
    let key = encoding(entry.0);
    let value = encoding(entry.1);
    let bytes = key + value + rest;
    lemma_complete(entry.0, value + rest);
    lemma_complete(entry.1, rest);
    assert(bytes =~= key + (value + rest));
    assert(bytes.skip(key.len() as int) =~= value + rest);
    assert((value + rest).skip(value.len() as int) =~= rest);
}

/// Map entries in a row that can be encoded are twice as many complete
/// items, whatever follows them.
pub proof fn lemma_pairs_complete(entries: Seq<(DataItem, DataItem)>, rest: Seq<u8>)
    requires
        all_entries_well_formed(entries),
    ensures
        recognize_items(entries_bytes(entries) + rest, 2 * entries.len()) == Shape::Complete(
            entries_bytes(entries).len(),
        ),
    decreases entries, 0nat,
{
    let bytes = entries_bytes(entries) + rest;
    if entries.len() > 0 {
        lemma_entries_first(entries);
        let first = encoding(entries[0].0) + encoding(entries[0].1);
        let others = entries_bytes(entries.skip(1)) + rest;
        assert(bytes =~= first + others);
        lemma_pair_complete(entries[0], others);
        assert(bytes.skip(first.len() as int) =~= others);
        assert forall|i: int| 0 <= i < entries.skip(1).len() implies well_formed(
            (#[trigger] entries.skip(1)[i]).0,
        ) && well_formed(entries.skip(1)[i].1) by {
            assert(entries.skip(1)[i] == entries[i + 1]);
        }
        lemma_pairs_complete(entries.skip(1), rest);
        lemma_items_split(bytes, 2, (2 * (entries.len() - 1)) as nat);
    }
}

/// Map entries in a row that can be encoded, and the break behind them,
/// are complete, whatever follows.
pub proof fn lemma_entries_complete(entries: Seq<(DataItem, DataItem)>, rest: Seq<u8>)
    requires
        all_entries_well_formed(entries),
    ensures
        recognize_entries(entries_bytes(entries) + seq![0xffu8] + rest) == Shape::Complete(
            entries_bytes(entries).len() + 1,
        ),
    decreases entries, 0nat,
{
    let bytes = entries_bytes(entries) + seq![0xffu8] + rest;
    if entries.len() == 0 {
        assert(bytes[0] == 0xff);
    } else {
        lemma_entries_first(entries);
        let first = encoding(entries[0].0) + encoding(entries[0].1);
        let others = entries_bytes(entries.skip(1)) + seq![0xffu8] + rest;
        assert(bytes =~= first + others);
        lemma_pair_complete(entries[0], others);
        assert(bytes.skip(first.len() as int) =~= others);
        assert forall|i: int| 0 <= i < entries.skip(1).len() implies well_formed(
            (#[trigger] entries.skip(1)[i]).0,
        ) && well_formed(entries.skip(1)[i].1) by {
            assert(entries.skip(1)[i] == entries[i + 1]);
        }
        lemma_entries_complete(entries.skip(1), rest);
    }
}

/// Byte string chunks and their break, cut short, are truncated.
pub proof fn lemma_byte_chunks_cut(chunks: Seq<ByteString>, len: int)
    requires
        all_byte_chunks_fit(chunks),
        0 <= len < byte_chunks_bytes(chunks).len() + 1,
    ensures
        recognize_chunks((byte_chunks_bytes(chunks) + seq![0xffu8]).take(len), 2)
            == Shape::Truncated,
    decreases chunks.len(),
{
    let whole = byte_chunks_bytes(chunks) + seq![0xffu8];
    let bytes = whole.take(len);
    if chunks.len() > 0 && len > 0 {
        lemma_byte_chunks_first(chunks);
        let first = string_bytes(2, chunks[0].data@, chunks[0].bitwidth);
        let others = byte_chunks_bytes(chunks.skip(1)) + seq![0xffu8];
        assert(whole =~= first + others);
        lemma_vec_len(chunks[0].data);
        if len < first.len() {
            lemma_string_complete(2, chunks[0].data@, chunks[0].bitwidth, Seq::empty());
            lemma_string_cut(2, chunks[0].data@, chunks[0].bitwidth, len);
            assert(bytes =~= first.take(len));
            assert(bytes[0] == (first + Seq::<u8>::empty())[0]);
        } else {
            let part = others.take(len - first.len());
            lemma_string_complete(2, chunks[0].data@, chunks[0].bitwidth, part);
            assert(bytes =~= first + part);
            assert(bytes.skip(first.len() as int) =~= part);
            assert forall|i: int| 0 <= i < chunks.skip(1).len() implies (#[trigger] chunks.skip(
                1,
            )[i]).bitwidth.holds(chunks.skip(1)[i].data@.len() as u64) by {
                assert(chunks.skip(1)[i] == chunks[i + 1]);
            }
            lemma_byte_chunks_cut(chunks.skip(1), len - first.len());
        }
    }
}

/// Text string chunks and their break, cut short, are truncated.
pub proof fn lemma_text_chunks_cut(chunks: Seq<TextString>, len: int)
    requires
        all_text_chunks_fit(chunks),
        0 <= len < text_chunks_bytes(chunks).len() + 1,
    ensures
        recognize_chunks((text_chunks_bytes(chunks) + seq![0xffu8]).take(len), 3)
            == Shape::Truncated,
    decreases chunks.len(),
{
    let whole = text_chunks_bytes(chunks) + seq![0xffu8];
    let bytes = whole.take(len);
    if chunks.len() > 0 && len > 0 {
        lemma_text_chunks_first(chunks);
        let data = encode_utf8(chunks[0].data@);
        let first = string_bytes(3, data, chunks[0].bitwidth);
        let others = text_chunks_bytes(chunks.skip(1)) + seq![0xffu8];
        assert(whole =~= first + others);
        vstd::utf8::encode_utf8_valid_utf8(chunks[0].data@);
        if len < first.len() {
            lemma_string_complete(3, data, chunks[0].bitwidth, Seq::empty());
            lemma_string_cut(3, data, chunks[0].bitwidth, len);
            assert(bytes =~= first.take(len));
            assert(bytes[0] == (first + Seq::<u8>::empty())[0]);
        } else {
            let part = others.take(len - first.len());
            lemma_string_complete(3, data, chunks[0].bitwidth, part);
            assert(bytes =~= first + part);
            assert(bytes.skip(first.len() as int) =~= part);
            assert forall|i: int| 0 <= i < chunks.skip(1).len() implies encode_utf8(
                (#[trigger] chunks.skip(1)[i]).data@,
            ).len() <= u64::MAX && chunks.skip(1)[i].bitwidth.holds(
                encode_utf8(chunks.skip(1)[i].data@).len() as u64,
            ) by {
                assert(chunks.skip(1)[i] == chunks[i + 1]);
            }
            lemma_text_chunks_cut(chunks.skip(1), len - first.len());
        }
    }
}

/// A tagged item that is cut short is truncated.
proof fn lemma_tag_cut(item: DataItem, len: int)
    requires
        item is Tag,
        well_formed(item),
        0 <= len < encoding(item).len(),
    ensures
        recognize(encoding(item).take(len)) == Shape::Truncated,
    decreases item, 0nat,
{
    reveal(encoding);
    let whole = encoding(item);
    if let DataItem::Tag { tag, bitwidth, value } = item {
        let head = header(6, bitwidth, tag.0);
        lemma_children_bytes_start(item);
        lemma_children_bytes_step(item, 0);
        assert(whole =~= head + encoding(*value));
        if len < head.len() {
            lemma_header_cut(6, bitwidth, tag.0, len);
            assert(whole.take(len) =~= head.take(len));
        } else {
            let part = encoding(*value).take(len - head.len());
            lemma_header(6, bitwidth, tag.0, part);
            lemma_cut(*value, len - head.len());
            assert(whole.take(len) =~= head + part);
            assert((head + part).skip(head.len() as int) =~= part);
        }
    }
}

/// An array that is cut short is truncated.
#[verifier::rlimit(40)]
proof fn lemma_array_cut(item: DataItem, len: int)
    requires
        item is Array,
        well_formed(item),
        0 <= len < encoding(item).len(),
    ensures
        recognize(encoding(item).take(len)) == Shape::Truncated,
    decreases item, 0nat,
{
    reveal(encoding);
    let whole = encoding(item);
    if let DataItem::Array { data, bitwidth } = item {
        let body = sequence_bytes(data@);
        lemma_vec_len(data);
        lemma_array_children(item, data@.len());
        assert(data@.take(data@.len() as int) =~= data@);
        assert(chunk_bytes(item, 0) =~= Seq::<u8>::empty());
        match bitwidth {
            Some(width) => {
                let head = header(4, width, data@.len() as u64);
                assert(whole =~= head + body);
                if len < head.len() {
                    lemma_header_cut(4, width, data@.len() as u64, len);
                    assert(whole.take(len) =~= head.take(len));
                } else {
                    let part = body.take(len - head.len());
                    lemma_header(4, width, data@.len() as u64, part);
                    lemma_items_cut(data@, len - head.len());
                    assert(whole.take(len) =~= head + part);
                    assert((head + part).skip(head.len() as int) =~= part);
                }
            },
            None => {
                assert(whole =~= seq![0x9fu8] + (body + seq![0xffu8]));
                if len > 0 {
                    let part = (body + seq![0xffu8]).take(len - 1);
                    lemma_open_cut(data@, len - 1);
                    assert(whole.take(len) =~= seq![0x9fu8] + part);
                    assert((seq![0x9fu8] + part).skip(1) =~= part);
                    assert(whole.take(len)[0] == 0x9f);
                }
            },
        }
    }
}

/// A map that is cut short is truncated.
#[verifier::rlimit(40)]
proof fn lemma_mapping_cut(item: DataItem, len: int)
    requires
        item is Mapping,
        well_formed(item),
        0 <= len < encoding(item).len(),
    ensures
        recognize(encoding(item).take(len)) == Shape::Truncated,
    decreases item, 0nat,
{
    reveal(encoding);
    let whole = encoding(item);
    if let DataItem::Mapping { data, bitwidth } = item {
        let body = entries_bytes(data@);
        lemma_vec_len(data);
        lemma_mapping_children(item, data@.len());
        assert(data@.take(data@.len() as int) =~= data@);
        assert(chunk_bytes(item, 0) =~= Seq::<u8>::empty());
        match bitwidth {
            Some(width) => {
                let head = header(5, width, data@.len() as u64);
                assert(whole =~= head + body);
                if len < head.len() {
                    lemma_header_cut(5, width, data@.len() as u64, len);
                    assert(whole.take(len) =~= head.take(len));
                } else {
                    let part = body.take(len - head.len());
                    lemma_header(5, width, data@.len() as u64, part);
                    lemma_pairs_cut(data@, len - head.len());
                    assert(whole.take(len) =~= head + part);
                    assert((head + part).skip(head.len() as int) =~= part);
                }
            },
            None => {
                assert(whole =~= seq![0xbfu8] + (body + seq![0xffu8]));
                if len > 0 {
                    let part = (body + seq![0xffu8]).take(len - 1);
                    lemma_entries_cut(data@, len - 1);
                    assert(whole.take(len) =~= seq![0xbfu8] + part);
                    assert((seq![0xbfu8] + part).skip(1) =~= part);
                    assert(whole.take(len)[0] == 0xbf);
                }
            },
        }
    }
}

/// An indefinite-length string that is cut short is truncated.
proof fn lemma_chunked_cut(item: DataItem, len: int)
    requires
        item is IndefiniteByteString || item is IndefiniteTextString,
        well_formed(item),
        0 <= len < encoding(item).len(),
    ensures
        recognize(encoding(item).take(len)) == Shape::Truncated,
{
    reveal(encoding);
    let whole = encoding(item);
    lemma_children_bytes_start(item);
    match item {
        DataItem::IndefiniteByteString(chunks) => {
            let body = byte_chunks_bytes(chunks@);
            lemma_byte_chunks(item, chunks@.len());
            assert(chunks@.take(chunks@.len() as int) =~= chunks@);
            assert(whole =~= seq![0x5fu8] + (body + seq![0xffu8]));
            if len > 0 {
                let part = (body + seq![0xffu8]).take(len - 1);
                lemma_byte_chunks_cut(chunks@, len - 1);
                assert(whole.take(len) =~= seq![0x5fu8] + part);
                assert((seq![0x5fu8] + part).skip(1) =~= part);
                assert(whole.take(len)[0] == 0x5f);
            }
        },
        DataItem::IndefiniteTextString(chunks) => {
            let body = text_chunks_bytes(chunks@);
            lemma_text_chunks(item, chunks@.len());
            assert(chunks@.take(chunks@.len() as int) =~= chunks@);
            assert(whole =~= seq![0x7fu8] + (body + seq![0xffu8]));
            if len > 0 {
                let part = (body + seq![0xffu8]).take(len - 1);
                lemma_text_chunks_cut(chunks@, len - 1);
                assert(whole.take(len) =~= seq![0x7fu8] + part);
                assert((seq![0x7fu8] + part).skip(1) =~= part);
                assert(whole.take(len)[0] == 0x7f);
            }
        },
        _ => {},
    }
}

/// Every proper prefix of the encoding of an item that can be encoded is
/// truncated: the decoder waits for the rest.
pub proof fn lemma_cut(item: DataItem, len: int)
    requires
        well_formed(item),
        0 <= len < encoding(item).len(),
    ensures
        recognize(encoding(item).take(len)) == Shape::Truncated,
    decreases item, 1nat,
{
    match item {
        DataItem::Integer { value, bitwidth } => {
            reveal(encoding);
            lemma_header_cut(0, bitwidth, value, len);
        },
        DataItem::Negative { value, bitwidth } => {
            reveal(encoding);
            lemma_header_cut(1, bitwidth, value, len);
        },
        DataItem::ByteString(string) => {
            reveal(encoding);
            lemma_vec_len(string.data);
            lemma_string_cut(2, string.data@, string.bitwidth, len);
        },
        DataItem::TextString(string) => {
            reveal(encoding);
            lemma_string_cut(3, encode_utf8(string.data@), string.bitwidth, len);
        },
        DataItem::Float { .. } => {
            lemma_special(item, Seq::empty(), len);
        },
        DataItem::Simple(_) => {
            lemma_special(item, Seq::empty(), len);
        },
        DataItem::Tag { .. } => {
            lemma_tag_cut(item, len);
        },
        DataItem::Array { .. } => {
            lemma_array_cut(item, len);
        },
        DataItem::Mapping { .. } => {
            lemma_mapping_cut(item, len);
        },
        _ => {
            lemma_chunked_cut(item, len);
        },
    }
}

/// Items in a row that are cut short are truncated.
pub proof fn lemma_items_cut(items: Seq<DataItem>, len: int)
    requires
        all_well_formed(items),
        0 <= len < sequence_bytes(items).len(),
    ensures
        recognize_items(sequence_bytes(items).take(len), items.len()) == Shape::Truncated,
    decreases items, 0nat,
{
    let whole = sequence_bytes(items);
    let bytes = whole.take(len);
    if items.len() > 0 {
        lemma_sequence_first(items);
        let first = encoding(items[0]);
        let others = sequence_bytes(items.skip(1));
        if len < first.len() {
            lemma_cut(items[0], len);
            assert(bytes =~= first.take(len));
        } else {
            let part = others.take(len - first.len());
            lemma_complete(items[0], part);
            assert(bytes =~= first + part);
            assert(bytes.skip(first.len() as int) =~= part);
            assert forall|i: int| 0 <= i < items.skip(1).len() implies well_formed(
                #[trigger] items.skip(1)[i],
            ) by {
                assert(items.skip(1)[i] == items[i + 1]);
            }
            lemma_items_cut(items.skip(1), len - first.len());
        }
    }
}

/// Items in a row and their break, cut short, are truncated.
pub proof fn lemma_open_cut(items: Seq<DataItem>, len: int)
    requires
        all_well_formed(items),
        0 <= len < sequence_bytes(items).len() + 1,
    ensures
        recognize_open((sequence_bytes(items) + seq![0xffu8]).take(len)) == Shape::Truncated,
    decreases items, 0nat,
{
    let whole = sequence_bytes(items) + seq![0xffu8];
    let bytes = whole.take(len);
    if items.len() > 0 && len > 0 {
        lemma_sequence_first(items);
        let first = encoding(items[0]);
        let others = sequence_bytes(items.skip(1)) + seq![0xffu8];
        assert(whole =~= first + others);
        if len < first.len() {
            lemma_complete(items[0], Seq::empty());
            lemma_cut(items[0], len);
            assert(bytes =~= first.take(len));
            assert(bytes[0] == (first + Seq::<u8>::empty())[0]);
        } else {
            let part = others.take(len - first.len());
            lemma_complete(items[0], part);
            assert(bytes =~= first + part);
            assert(bytes.skip(first.len() as int) =~= part);
            assert forall|i: int| 0 <= i < items.skip(1).len() implies well_formed(
                #[trigger] items.skip(1)[i],
            ) by {
                assert(items.skip(1)[i] == items[i + 1]);
            }
            lemma_open_cut(items.skip(1), len - first.len());
        }
    }
}

/// A key and a value that are cut short are truncated.
pub proof fn lemma_pair_cut(entry: (DataItem, DataItem), len: int)
    requires
        well_formed(entry.0),
        well_formed(entry.1),
        0 <= len < encoding(entry.0).len() + encoding(entry.1).len(),
    ensures
        recognize_items((encoding(entry.0) + encoding(entry.1)).take(len), 2) == Shape::Truncated,
    decreases entry, 0nat,
{
    reveal_with_fuel(recognize_items, 3);
    let key = encoding(entry.0);
    let value = encoding(entry.1);
    let bytes = (key + value).take(len);
    if len < key.len() {
        lemma_cut(entry.0, len);
        assert(bytes =~= key.take(len));
    } else {
        let part = value.take(len - key.len());
        lemma_complete(entry.0, part);
        lemma_cut(entry.1, len - key.len());
        assert(bytes =~= key + part);
        assert(bytes.skip(key.len() as int) =~= part);
    }
}

/// Map entries in a row that are cut short are truncated.
pub proof fn lemma_pairs_cut(entries: Seq<(DataItem, DataItem)>, len: int)
    requires
        all_entries_well_formed(entries),
        0 <= len < entries_bytes(entries).len(),
    ensures
        recognize_items(entries_bytes(entries).take(len), 2 * entries.len())
            == Shape::Truncated,
    decreases entries, 0nat,
{
    let whole = entries_bytes(entries);
    let bytes = whole.take(len);
    if entries.len() > 0 {
        lemma_entries_first(entries);
        let first = encoding(entries[0].0) + encoding(entries[0].1);
        let others = entries_bytes(entries.skip(1));
        assert(whole =~= first + others);
        lemma_items_split(bytes, 2, (2 * (entries.len() - 1)) as nat);
        if len < first.len() {
            lemma_pair_cut(entries[0], len);
            assert(bytes =~= first.take(len));
        } else {
            let part = others.take(len - first.len());
            lemma_pair_complete(entries[0], part);
            assert(bytes =~= first + part);
            assert(bytes.skip(first.len() as int) =~= part);
            assert forall|i: int| 0 <= i < entries.skip(1).len() implies well_formed(
                (#[trigger] entries.skip(1)[i]).0,
            ) && well_formed(entries.skip(1)[i].1) by {
                assert(entries.skip(1)[i] == entries[i + 1]);
            }
            lemma_pairs_cut(entries.skip(1), len - first.len());
        }
    }
}

/// Map entries in a row and their break, cut short, are truncated.
pub proof fn lemma_entries_cut(entries: Seq<(DataItem, DataItem)>, len: int)
    requires
        all_entries_well_formed(entries),
        0 <= len < entries_bytes(entries).len() + 1,
    ensures
        recognize_entries((entries_bytes(entries) + seq![0xffu8]).take(len))
            == Shape::Truncated,
    decreases entries, 0nat,
{
    let whole = entries_bytes(entries) + seq![0xffu8];
    let bytes = whole.take(len);
    if entries.len() > 0 && len > 0 {
        lemma_entries_first(entries);
        let first = encoding(entries[0].0) + encoding(entries[0].1);
        let others = entries_bytes(entries.skip(1)) + seq![0xffu8];
        assert(whole =~= first + others);
        if len < first.len() {
            lemma_pair_complete(entries[0], Seq::empty());
            lemma_pair_cut(entries[0], len);
            assert(bytes =~= first.take(len));
            assert(bytes[0] == (first + Seq::<u8>::empty())[0]);
        } else {
            let part = others.take(len - first.len());
            lemma_pair_complete(entries[0], part);
            assert(bytes =~= first + part);
            assert(bytes.skip(first.len() as int) =~= part);
            assert forall|i: int| 0 <= i < entries.skip(1).len() implies well_formed(
                (#[trigger] entries.skip(1)[i]).0,
            ) && well_formed(entries.skip(1)[i].1) by {
                assert(entries.skip(1)[i] == entries[i + 1]);
            }
            lemma_entries_cut(entries.skip(1), len - first.len());
        }
    }
}

/// What the decoder owes for the first `len` bytes of the encoding of an
/// item: nothing yet while bytes are missing, and the item with its whole
/// length once they are all there.
pub proof fn lemma_partial(
    item: DataItem,
    len: int,
    result: Result<Option<(DataItem, usize)>, Error>,
)
    requires
        well_formed(item),
        0 <= len <= encoding(item).len(),
        replies(encoding(item).take(len), recognize(encoding(item).take(len)), result),
    ensures
        len < encoding(item).len() ==> result == Ok::<Option<(DataItem, usize)>, Error>(None),
        len == encoding(item).len() ==> (result matches Ok(Some((_, used))) && used == len),
{
    if len < encoding(item).len() {
        lemma_cut(item, len);
    } else {
        lemma_complete(item, Seq::empty());
        assert(encoding(item) + Seq::<u8>::empty() =~= encoding(item));
        assert(encoding(item).take(len) =~= encoding(item));
    }
}

} // verus!
