//! The binary decoder: from bytes to an item that remembers how it was
//! encoded.

use vstd::prelude::*;
use vstd::slice::{slice_subrange, slice_to_vec};
use vstd::utf8::{decode_utf8, encode_utf8, valid_utf8};
use crate::encode::bytes::{be_bytes, be_value, children_bytes, lemma_children_bytes_start, lemma_children_bytes_step, chunk_bytes, encoding, header, string_bytes, well_formed};

use crate::parse::quiet::{lemma_same_tree, quiet, quieted, quiets};
use crate::precision::{widen_half, widen_single};
use crate::tree::tree;
use crate::error::Error;
use crate::model::{ByteString, DataItem, FloatWidth, IntegerWidth, Simple, Tag, TextString};

verus! {

/// What a sequence of bytes starts with.
pub enum Shape {
    /// A complete item of this many bytes.
    Complete(nat),
    /// The beginning of an item; the bytes end before it does.
    Truncated,
    /// Something that is no item, however it goes on.
    Malformed,
    /// An item with a text string that is no UTF-8.
    InvalidUtf8,
}

/// The shape of what comes `by` bytes further on, seen from here.
pub open spec fn shifted(shape: Shape, by: nat) -> Shape {
    match shape {
        Shape::Complete(len) => Shape::Complete(len + by),
        _ => shape,
    }
}

/// The number of bytes that follow the initial byte for the argument:
/// one, two, four or eight for the additional information 24 to 27.
pub open spec fn argument_len(info: nat) -> nat {
    if info == 24 {
        1
    } else if info == 25 {
        2
    } else if info == 26 {
        4
    } else if info == 27 {
        8
    } else {
        0
    }
}

/// The argument of a header: the additional information itself below 24,
/// else the number in the bytes that follow.
pub open spec fn argument(bytes: Seq<u8>) -> nat {
    let info = (bytes[0] % 32) as nat;
    if info < 24 {
        info
    } else {
        be_value(bytes.subrange(1, (1 + argument_len(info)) as int))
    }
}

/// The shape of `count` items in a row.
pub open spec fn recognize_items(bytes: Seq<u8>, count: nat) -> Shape
    decreases bytes.len(), 1nat, count,
{
    if count == 0 {
        Shape::Complete(0)
    } else {
        match recognize(bytes) {
            Shape::Complete(len) => if len == 0 || len > bytes.len() {
                Shape::Malformed
            } else {
                shifted(recognize_items(bytes.skip(len as int), (count - 1) as nat), len)
            },
            shape => shape,
        }
    }
}

/// The shape of items in a row up to a break.
pub open spec fn recognize_open(bytes: Seq<u8>) -> Shape
    decreases bytes.len(), 1nat, 0nat,
{
    if bytes.len() == 0 {
        Shape::Truncated
    } else if bytes[0] == 0xff {
        Shape::Complete(1)
    } else {
        match recognize(bytes) {
            Shape::Complete(len) => if len == 0 || len > bytes.len() {
                Shape::Malformed
            } else {
                shifted(recognize_open(bytes.skip(len as int)), len)
            },
            shape => shape,
        }
    }
}

/// The shape of map entries in a row up to a break: a key and a value
/// each. A break in the place of a value is malformed.
pub open spec fn recognize_entries(bytes: Seq<u8>) -> Shape
    decreases bytes.len(), 2nat, 0nat,
{
    if bytes.len() == 0 {
        Shape::Truncated
    } else if bytes[0] == 0xff {
        Shape::Complete(1)
    } else {
        match recognize_items(bytes, 2) {
            Shape::Complete(len) => if len == 0 || len > bytes.len() {
                Shape::Malformed
            } else {
                shifted(recognize_entries(bytes.skip(len as int)), len)
            },
            shape => shape,
        }
    }
}

/// The shape of the chunks of an indefinite-length string of the major
/// type `major`, up to a break: each chunk is a definite-length string of
/// the same major type.
pub open spec fn recognize_chunks(bytes: Seq<u8>, major: nat) -> Shape
    decreases bytes.len(), 1nat, 0nat,
{
    if bytes.len() == 0 {
        Shape::Truncated
    } else if bytes[0] == 0xff {
        Shape::Complete(1)
    } else if bytes[0] / 32 != major || bytes[0] % 32 == 31 {
        Shape::Malformed
    } else {
        match recognize(bytes) {
            Shape::Complete(len) => if len == 0 || len > bytes.len() {
                Shape::Malformed
            } else {
                shifted(recognize_chunks(bytes.skip(len as int), major), len)
            },
            shape => shape,
        }
    }
}

/// The shape of a simple value or a float. A simple value in two bytes is
/// 24 or more; a break that ends nothing is malformed.
pub open spec fn recognize_special(bytes: Seq<u8>) -> Shape {
    let info = bytes[0] % 32;
    if info < 24 {
        Shape::Complete(1)
    } else if 28 <= info {
        Shape::Malformed
    } else if bytes.len() < 1 + argument_len(info as nat) {
        Shape::Truncated
    } else if info == 24 && bytes[1] < 24 {
        Shape::Malformed
    } else {
        Shape::Complete(1 + argument_len(info as nat))
    }
}

/// The shape of what `bytes` starts with: the grammar of CBOR.
pub open spec fn recognize(bytes: Seq<u8>) -> Shape
    decreases bytes.len(), 0nat, 0nat,
{
    if bytes.len() == 0 {
        Shape::Truncated
    } else {
        let major = bytes[0] / 32;
        let info = (bytes[0] % 32) as nat;
        let head = 1 + argument_len(info);
        if major == 7 {
            recognize_special(bytes)
        } else if 28 <= info <= 30 {
            Shape::Malformed
        } else if info == 31 {
            if major == 2 || major == 3 {
                shifted(recognize_chunks(bytes.skip(1), major as nat), 1)
            } else if major == 4 {
                shifted(recognize_open(bytes.skip(1)), 1)
            } else if major == 5 {
                shifted(recognize_entries(bytes.skip(1)), 1)
            } else {
                Shape::Malformed
            }
        } else if bytes.len() < head {
            Shape::Truncated
        } else if major <= 1 {
            Shape::Complete(head)
        } else if major == 2 {
            if bytes.len() < head + argument(bytes) {
                Shape::Truncated
            } else {
                Shape::Complete(head + argument(bytes))
            }
        } else if major == 3 {
            if bytes.len() < head + argument(bytes) {
                Shape::Truncated
            } else if valid_utf8(bytes.subrange(head as int, (head + argument(bytes)) as int)) {
                Shape::Complete(head + argument(bytes))
            } else {
                Shape::InvalidUtf8
            }
        } else if major == 4 {
            shifted(recognize_items(bytes.skip(head as int), argument(bytes)), head)
        } else if major == 5 {
            shifted(recognize_items(bytes.skip(head as int), 2 * argument(bytes)), head)
        } else {
            shifted(recognize(bytes.skip(head as int)), head)
        }
    }
}

/// Whether every width of `item` is chosen.
pub open spec fn determined(item: DataItem) -> bool
    decreases item,
{
    match item {
        DataItem::Integer { bitwidth, .. } => bitwidth != IntegerWidth::Unknown,
        DataItem::Negative { bitwidth, .. } => bitwidth != IntegerWidth::Unknown,
        DataItem::ByteString(bytes) => bytes.bitwidth != IntegerWidth::Unknown,
        DataItem::TextString(text) => text.bitwidth != IntegerWidth::Unknown,
        DataItem::IndefiniteByteString(chunks) => forall|i: int|
            0 <= i < chunks@.len() ==> (#[trigger] chunks@[i]).bitwidth != IntegerWidth::Unknown,
        DataItem::IndefiniteTextString(chunks) => forall|i: int|
            0 <= i < chunks@.len() ==> (#[trigger] chunks@[i]).bitwidth != IntegerWidth::Unknown,
        DataItem::Array { data, bitwidth } => bitwidth != Some(IntegerWidth::Unknown) && forall|
            i: int,
        | 0 <= i < data@.len() ==> determined(#[trigger] data@[i]),
        DataItem::Mapping { data, bitwidth } => bitwidth != Some(IntegerWidth::Unknown) && forall|
            i: int,
        |
            0 <= i < data@.len() ==> determined((#[trigger] data@[i]).0) && determined(
                data@[i].1,
            ),
        DataItem::Tag { bitwidth, value, .. } => bitwidth != IntegerWidth::Unknown && determined(
            *value,
        ),
        DataItem::Float { bitwidth, .. } => bitwidth != FloatWidth::Unknown,
        DataItem::Simple(_) => true,
    }
}

/// Whether `item` is what the first `used` bytes of `bytes` encode, with
/// every width as the bytes have it.
pub open spec fn parsed(bytes: Seq<u8>, item: DataItem, used: nat) -> bool {
    &&& 1 <= used <= bytes.len()
    &&& encoding(item) == bytes.take(used as int)
    &&& well_formed(item)
    &&& determined(item)
}

/// Whether `result` is the answer to bytes of the shape `shape`: the item
/// and its length for a complete item, nothing for a truncated one, and
/// the error otherwise.
pub open spec fn answers(
    bytes: Seq<u8>,
    shape: Shape,
    result: Result<Option<(DataItem, usize)>, Error>,
) -> bool {
    match shape {
        Shape::Complete(len) => result matches Ok(Some((item, used))) && used == len && parsed(
            bytes,
            item,
            len,
        ),
        Shape::Truncated => result matches Ok(None),
        Shape::Malformed => result matches Err(Error::Malformed),
        Shape::InvalidUtf8 => result matches Err(Error::InvalidUtf8),
    }
}

/// 256 to the power of `count`.
pub open spec fn pow256(count: nat) -> nat
    decreases count,
{
    if count == 0 {
        1
    } else {
        256 * pow256((count - 1) as nat)
    }
}

/// The number that bytes stand for is below 256 to the power of their
/// count.
pub proof fn lemma_be_value_bound(bytes: Seq<u8>)
    ensures
        be_value(bytes) < pow256(bytes.len()),
    decreases bytes.len(),
{
    if bytes.len() > 0 {
        lemma_be_value_bound(bytes.drop_last());
    }
}

/// Writing the number that bytes stand for gives the bytes back.
pub proof fn lemma_be_bytes_of_value(bytes: Seq<u8>)
    ensures
        be_bytes(be_value(bytes), bytes.len()) == bytes,
    decreases bytes.len(),
{
    if bytes.len() > 0 {
        lemma_be_bytes_of_value(bytes.drop_last());
        assert(be_bytes(be_value(bytes), bytes.len()) =~= bytes);
    }
}

/// Reading the bytes that were written for a number gives the number
/// back, where the bytes hold it.
pub proof fn lemma_be_value_of_bytes(value: nat, count: nat)
    requires
        value < pow256(count),
    ensures
        be_value(be_bytes(value, count)) == value,
        be_bytes(value, count).len() == count,
    decreases count,
{
    if count > 0 {
        lemma_be_value_of_bytes(value / 256, (count - 1) as nat);
        assert(be_bytes(value, count).drop_last() =~= be_bytes(value / 256, (count - 1) as nat));
    }
}

/// The powers of 256 up to the eighth.
pub proof fn lemma_pow256()
    ensures
        pow256(0) == 1,
        pow256(1) == 0x100,
        pow256(2) == 0x1_0000,
        pow256(4) == 0x1_0000_0000,
        pow256(8) == 0x1_0000_0000_0000_0000,
{
    reveal_with_fuel(pow256, 9);
}

/// The number that up to eight bytes stand for.
pub fn read_be(bytes: &[u8]) -> (value: u64)
    requires
        bytes@.len() <= 8,
    ensures
        value == be_value(bytes@),
{
    let mut value: u64 = 0;
    let mut i: usize = 0;
    while i < bytes.len()
        invariant
            i <= bytes.len(),
            bytes@.len() <= 8,
            value == be_value(bytes@.take(i as int)),
        decreases bytes.len() - i,
    {
        proof {
            lemma_be_value_bound(bytes@.take(i as int));
            reveal_with_fuel(pow256, 9);
            assert(bytes@.take(i + 1).drop_last() =~= bytes@.take(i as int));
        }
        value = value * 256 + bytes[i] as u64;
        i += 1;
    }
    assert(bytes@.take(i as int) =~= bytes@);
    value
}

/// `String::from_utf8`: the text that bytes encode, where they are UTF-8,
/// and nothing where they are not.
#[verifier::external_body]
fn text_of(bytes: Vec<u8>) -> (text: Option<String>)
    ensures
        text is Some <==> valid_utf8(bytes@),
        text matches Some(t) ==> t@ == decode_utf8(bytes@),
{
    String::from_utf8(bytes).ok()
}

/// The width of an argument by the additional information.
fn width_of(info: u8) -> (bitwidth: IntegerWidth)
    requires
        info < 28,
    ensures
        bitwidth != IntegerWidth::Unknown,
        crate::encode::bytes::follow_len(bitwidth) == argument_len(info as nat),
        info < 24 <==> bitwidth == IntegerWidth::Zero,
        info >= 24 ==> crate::encode::bytes::info(bitwidth, 0) == info,
{
    if info == 24 {
        IntegerWidth::Eight
    } else if info == 25 {
        IntegerWidth::Sixteen
    } else if info == 26 {
        IntegerWidth::ThirtyTwo
    } else if info == 27 {
        IntegerWidth::SixtyFour
    } else {
        IntegerWidth::Zero
    }
}

/// A header that was read: the width of its argument, the argument, and
/// the number of its bytes.
pub struct Head {
    pub bitwidth: IntegerWidth,
    pub argument: u64,
    pub len: usize,
}

/// Reads the header that `bytes` starts with, if the bytes hold all of it.
fn read_head(bytes: &[u8]) -> (head: Option<Head>)
    requires
        bytes@.len() > 0,
        bytes@[0] % 32 < 28,
    ensures
        head is None <==> bytes@.len() < 1 + argument_len((bytes@[0] % 32) as nat),
        head matches Some(h) ==> head_of(bytes@, h),
{
    let info = bytes[0] % 32;
    let bitwidth = width_of(info);
    if info < 24 {
        proof {
            assert(be_bytes(info as nat, 0) =~= Seq::<u8>::empty());
            assert(bytes@.take(1) =~= seq![bytes@[0]]);
        }
        return Some(Head { bitwidth, argument: info as u64, len: 1 });
    }
    let follow: usize = if info == 24 {
        1
    } else if info == 25 {
        2
    } else if info == 26 {
        4
    } else {
        8
    };
    if bytes.len() - 1 < follow {
        return None;
    }
    let digits = slice_subrange(bytes, 1, 1 + follow);
    let argument = read_be(digits);
    proof {
        lemma_be_value_bound(digits@);
        lemma_be_bytes_of_value(digits@);
        lemma_pow256();
        assert(bytes@.take(1 + follow) =~= seq![bytes@[0]] + digits@);
    }
    Some(Head { bitwidth, argument, len: 1 + follow })
}

/// Whether `head` is the header that `bytes` starts with.
pub open spec fn head_of(bytes: Seq<u8>, head: Head) -> bool {
    &&& head.len == 1 + argument_len((bytes[0] % 32) as nat)
    &&& head.len <= bytes.len()
    &&& head.argument == argument(bytes)
    &&& head.bitwidth != IntegerWidth::Unknown
    &&& head.bitwidth.holds(head.argument)
    &&& header((bytes[0] / 32) as nat, head.bitwidth, head.argument) == bytes.take(
        head.len as int,
    )
}

/// The encodings of items in a row.
pub open spec fn sequence_bytes(items: Seq<DataItem>) -> Seq<u8>
    decreases items.len(),
{
    if items.len() == 0 {
        Seq::empty()
    } else {
        sequence_bytes(items.drop_last()) + encoding(items.last())
    }
}

/// The encodings of map entries in a row, each key before its value.
pub open spec fn entries_bytes(entries: Seq<(DataItem, DataItem)>) -> Seq<u8>
    decreases entries.len(),
{
    if entries.len() == 0 {
        Seq::empty()
    } else {
        entries_bytes(entries.drop_last()) + encoding(entries.last().0) + encoding(
            entries.last().1,
        )
    }
}

/// What an array holds is encoded element by element.
pub proof fn lemma_array_children(item: DataItem, count: nat)
    requires
        item is Array,
        count <= item->Array_data@.len(),
    ensures
        children_bytes(item, count) == sequence_bytes(item->Array_data@.take(count as int)),
    decreases count,
{
    let data = item->Array_data@;
    lemma_children_bytes_start(item);
    if count > 0 {
        lemma_array_children(item, (count - 1) as nat);
        lemma_children_bytes_step(item, (count - 1) as nat);
        assert(data.take(count as int).drop_last() =~= data.take(count - 1));
    } else {
        assert(data.take(0) =~= Seq::<DataItem>::empty());
    }
}

/// What a map holds is encoded entry by entry.
pub proof fn lemma_mapping_children(item: DataItem, count: nat)
    requires
        item is Mapping,
        count <= item->Mapping_data@.len(),
    ensures
        children_bytes(item, 2 * count) == entries_bytes(
            item->Mapping_data@.take(count as int),
        ),
    decreases count,
{
    let data = item->Mapping_data@;
    lemma_children_bytes_start(item);
    if count > 0 {
        lemma_mapping_children(item, (count - 1) as nat);
        assert(data.take(count as int).drop_last() =~= data.take(count - 1));
        lemma_children_bytes_step(item, (2 * count - 1) as nat);
        lemma_children_bytes_step(item, (2 * count - 2) as nat);
    } else {
        assert(data.take(0) =~= Seq::<(DataItem, DataItem)>::empty());
    }
}

/// Reads a simple value or a float.
fn parse_special(bytes: &[u8]) -> (result: Result<Option<(DataItem, usize)>, Error>)
    requires
        bytes@.len() > 0,
        bytes@[0] / 32 == 7,
    ensures
        answers(bytes@, recognize_special(bytes@), result),
{
    proof {
        reveal(encoding);
        lemma_pow256();
    }
    let info = bytes[0] % 32;
    if info < 24 {
        assert(bytes@.take(1) =~= seq![bytes@[0]]);
        return Ok(Some((DataItem::Simple(Simple(info)), 1)));
    }
    if info >= 28 {
        return Err(Error::Malformed);
    }
    let follow: usize = if info == 24 {
        1
    } else if info == 25 {
        2
    } else if info == 26 {
        4
    } else {
        8
    };
    if bytes.len() - 1 < follow {
        return Ok(None);
    }
    let digits = slice_subrange(bytes, 1, 1 + follow);
    let bits = read_be(digits);
    proof {
        lemma_be_value_bound(digits@);
        lemma_be_bytes_of_value(digits@);
        assert(bytes@.take(1 + follow) =~= seq![bytes@[0]] + digits@);
    }
    if info == 24 {
        if bits < 24 {
            assert(digits@ =~= seq![bytes@[1]]);
            assert(be_value(seq![bytes@[1]].drop_last()) == 0);
            return Err(Error::Malformed);
        }
        assert(digits@ =~= seq![bytes@[1]]);
        assert(be_value(seq![bytes@[1]].drop_last()) == 0);
        assert(bytes@.take(2) =~= seq![0xf8u8, bytes@[1]]);
        Ok(Some((DataItem::Simple(Simple(bits as u8)), 2)))
    } else if info == 25 {
        let value = widen_half(bits as u16);
        Ok(Some((DataItem::Float { value, bitwidth: FloatWidth::Sixteen }, 3)))
    } else if info == 26 {
        let value = widen_single(bits as u32);
        Ok(Some((DataItem::Float { value, bitwidth: FloatWidth::ThirtyTwo }, 5)))
    } else {
        Ok(Some((DataItem::Float { value: bits, bitwidth: FloatWidth::SixtyFour }, 9)))
    }
}

/// The bytes of a definite-length string whose header was read: nothing
/// where the bytes end before the string does.
fn payload<'a>(bytes: &'a [u8], head: &Head) -> (data: Option<&'a [u8]>)
    requires
        head.len <= bytes@.len(),
    ensures
        data is None <==> bytes@.len() < head.len + head.argument,
        data matches Some(d) ==> d@ == bytes@.subrange(
            head.len as int,
            head.len + head.argument,
        ),
{
    if head.argument > (bytes.len() - head.len) as u64 {
        None
    } else {
        Some(slice_subrange(bytes, head.len, head.len + head.argument as usize))
    }
}

/// Whether `result` fails as bytes of the shape `shape` ask: nothing for
/// truncated bytes, the error for the others.
pub open spec fn fails_as<T>(shape: Shape, result: Result<Option<T>, Error>) -> bool {
    match shape {
        Shape::Complete(_) => result matches Ok(Some(_)),
        Shape::Truncated => result matches Ok(None),
        Shape::Malformed => result matches Err(Error::Malformed),
        Shape::InvalidUtf8 => result matches Err(Error::InvalidUtf8),
    }
}

/// Whether the items are well formed, with every width chosen.
pub open spec fn all_parsed(items: Seq<DataItem>) -> bool {
    forall|i: int|
        0 <= i < items.len() ==> well_formed(#[trigger] items[i]) && determined(items[i])
}

/// Whether the keys and values are well formed, with every width chosen.
pub open spec fn all_entries_parsed(entries: Seq<(DataItem, DataItem)>) -> bool {
    forall|i: int|
        0 <= i < entries.len() ==> well_formed((#[trigger] entries[i]).0) && determined(
            entries[i].0,
        ) && well_formed(entries[i].1) && determined(entries[i].1)
}

/// Reads a definite-length byte string.
fn parse_byte_string(bytes: &[u8]) -> (result: Result<Option<(ByteString, usize)>, Error>)
    requires
        bytes@.len() > 0,
        bytes@[0] / 32 == 2,
        bytes@[0] % 32 < 28,
    ensures
        fails_as(recognize(bytes@), result),
        result matches Ok(Some((string, used))) ==> recognize(bytes@) == Shape::Complete(
            used as nat,
        ) && 1 <= used <= bytes@.len() && string_bytes(2, string.data@, string.bitwidth)
            == bytes@.take(used as int) && string.bitwidth != IntegerWidth::Unknown
            && string.bitwidth.holds(string.data@.len() as u64),
{
    match read_head(bytes) {
        None => Ok(None),
        Some(head) => {
            match payload(bytes, &head) {
                None => Ok(None),
                Some(data) => {
                    let len = bytes.len();
                    assert(head.len + head.argument <= len);
                    let used = head.len + head.argument as usize;
                    assert(data@ =~= bytes@.subrange(head.len as int, used as int));
                    assert(bytes@.take(used as int) =~= bytes@.take(head.len as int) + data@);
                    Ok(Some((ByteString { data: slice_to_vec(data), bitwidth: head.bitwidth }, used)))
                },
            }
        },
    }
}

/// Reads a definite-length text string.
fn parse_text_string(bytes: &[u8]) -> (result: Result<Option<(TextString, usize)>, Error>)
    requires
        bytes@.len() > 0,
        bytes@[0] / 32 == 3,
        bytes@[0] % 32 < 28,
    ensures
        fails_as(recognize(bytes@), result),
        result matches Ok(Some((string, used))) ==> recognize(bytes@) == Shape::Complete(
            used as nat,
        ) && 1 <= used <= bytes@.len() && string_bytes(
            3,
            encode_utf8(string.data@),
            string.bitwidth,
        ) == bytes@.take(used as int) && string.bitwidth != IntegerWidth::Unknown
            && encode_utf8(string.data@).len() <= u64::MAX && string.bitwidth.holds(
            encode_utf8(string.data@).len() as u64,
        ),
{
    match read_head(bytes) {
        None => Ok(None),
        Some(head) => {
            match payload(bytes, &head) {
                None => Ok(None),
                Some(data) => {
                    let len = bytes.len();
                    assert(head.len + head.argument <= len);
                    let used = head.len + head.argument as usize;
                    assert(data@ =~= bytes@.subrange(head.len as int, used as int));
                    assert(bytes@.take(used as int) =~= bytes@.take(head.len as int) + data@);
                    match text_of(slice_to_vec(data)) {
                        None => Err(Error::InvalidUtf8),
                        Some(text) => {
                            proof {
                                vstd::utf8::decode_utf8_encode_utf8(data@);
                            }
                            Ok(Some((TextString { data: text, bitwidth: head.bitwidth }, used)))
                        },
                    }
                },
            }
        },
    }
}

/// The encodings of byte string chunks in a row.
pub open spec fn byte_chunks_bytes(chunks: Seq<ByteString>) -> Seq<u8>
    decreases chunks.len(),
{
    if chunks.len() == 0 {
        Seq::empty()
    } else {
        byte_chunks_bytes(chunks.drop_last()) + string_bytes(
            2,
            chunks.last().data@,
            chunks.last().bitwidth,
        )
    }
}

/// The encodings of text string chunks in a row.
pub open spec fn text_chunks_bytes(chunks: Seq<TextString>) -> Seq<u8>
    decreases chunks.len(),
{
    if chunks.len() == 0 {
        Seq::empty()
    } else {
        text_chunks_bytes(chunks.drop_last()) + string_bytes(
            3,
            encode_utf8(chunks.last().data@),
            chunks.last().bitwidth,
        )
    }
}

/// The chunks of an indefinite-length byte string are encoded one by one.
pub proof fn lemma_byte_chunks(item: DataItem, count: nat)
    requires
        item is IndefiniteByteString,
        count <= item->IndefiniteByteString_0@.len(),
    ensures
        chunk_bytes(item, count) == byte_chunks_bytes(
            item->IndefiniteByteString_0@.take(count as int),
        ),
    decreases count,
{
    let chunks = item->IndefiniteByteString_0@;
    if count > 0 {
        lemma_byte_chunks(item, (count - 1) as nat);
        assert(chunks.take(count as int).drop_last() =~= chunks.take(count - 1));
    } else {
        assert(chunks.take(0) =~= Seq::<ByteString>::empty());
    }
}

/// The chunks of an indefinite-length text string are encoded one by one.
pub proof fn lemma_text_chunks(item: DataItem, count: nat)
    requires
        item is IndefiniteTextString,
        count <= item->IndefiniteTextString_0@.len(),
    ensures
        chunk_bytes(item, count) == text_chunks_bytes(
            item->IndefiniteTextString_0@.take(count as int),
        ),
    decreases count,
{
    let chunks = item->IndefiniteTextString_0@;
    if count > 0 {
        lemma_text_chunks(item, (count - 1) as nat);
        assert(chunks.take(count as int).drop_last() =~= chunks.take(count - 1));
    } else {
        assert(chunks.take(0) =~= Seq::<TextString>::empty());
    }
}

/// Reads the chunks of an indefinite-length byte string, up to the break.
fn parse_byte_chunks(bytes: &[u8]) -> (result: Result<Option<(Vec<ByteString>, usize)>, Error>)
    ensures
        fails_as(recognize_chunks(bytes@, 2), result),
        result matches Ok(Some((chunks, used))) ==> recognize_chunks(bytes@, 2)
            == Shape::Complete(used as nat) && 1 <= used <= bytes@.len() && byte_chunks_bytes(
            chunks@,
        ) + seq![0xffu8] == bytes@.take(used as int) && forall|i: int|
            0 <= i < chunks@.len() ==> (#[trigger] chunks@[i]).bitwidth != IntegerWidth::Unknown
                && chunks@[i].bitwidth.holds(chunks@[i].data@.len() as u64),
{
    let mut chunks: Vec<ByteString> = Vec::new();
    let mut at: usize = 0;
    assert(bytes@.skip(0) =~= bytes@);
    assert(bytes@.take(0) =~= Seq::<u8>::empty());
    loop
        invariant
            at <= bytes@.len(),
            recognize_chunks(bytes@, 2) == shifted(
                recognize_chunks(bytes@.skip(at as int), 2),
                at as nat,
            ),
            byte_chunks_bytes(chunks@) == bytes@.take(at as int),
            forall|i: int|
                0 <= i < chunks@.len() ==> (#[trigger] chunks@[i]).bitwidth
                    != IntegerWidth::Unknown && chunks@[i].bitwidth.holds(
                    chunks@[i].data@.len() as u64,
                ),
        decreases bytes@.len() - at,
    {
        if at == bytes.len() {
            return Ok(None);
        }
        let rest = slice_subrange(bytes, at, bytes.len());
        assert(rest@ == bytes@.skip(at as int));
        if bytes[at] == 0xff {
            assert(bytes@.take(at + 1) =~= bytes@.take(at as int) + seq![0xffu8]);
            return Ok(Some((chunks, at + 1)));
        }
        if bytes[at] / 32 != 2 || bytes[at] % 32 == 31 {
            return Err(Error::Malformed);
        }
        if bytes[at] % 32 >= 28 {
            assert(recognize(rest@) == Shape::Malformed);
            return Err(Error::Malformed);
        }
        match parse_byte_string(rest) {
            Ok(Some((chunk, used))) => {
                proof {
                    assert(rest@.skip(used as int) =~= bytes@.skip(at + used));
                    assert(bytes@.take(at + used) =~= bytes@.take(at as int) + rest@.take(
                        used as int,
                    ));
                    assert(chunks@.push(chunk).drop_last() =~= chunks@);
                }
                chunks.push(chunk);
                at = at + used;
            },
            Ok(None) => {
                return Ok(None);
            },
            Err(error) => {
                return Err(error);
            },
        }
    }
}

/// Reads the chunks of an indefinite-length text string, up to the break.
fn parse_text_chunks(bytes: &[u8]) -> (result: Result<Option<(Vec<TextString>, usize)>, Error>)
    ensures
        fails_as(recognize_chunks(bytes@, 3), result),
        result matches Ok(Some((chunks, used))) ==> recognize_chunks(bytes@, 3)
            == Shape::Complete(used as nat) && 1 <= used <= bytes@.len() && text_chunks_bytes(
            chunks@,
        ) + seq![0xffu8] == bytes@.take(used as int) && forall|i: int|
            0 <= i < chunks@.len() ==> (#[trigger] chunks@[i]).bitwidth != IntegerWidth::Unknown
                && encode_utf8(chunks@[i].data@).len() <= u64::MAX && chunks@[i].bitwidth.holds(
                encode_utf8(chunks@[i].data@).len() as u64,
            ),
{
    let mut chunks: Vec<TextString> = Vec::new();
    let mut at: usize = 0;
    assert(bytes@.skip(0) =~= bytes@);
    assert(bytes@.take(0) =~= Seq::<u8>::empty());
    loop
        invariant
            at <= bytes@.len(),
            recognize_chunks(bytes@, 3) == shifted(
                recognize_chunks(bytes@.skip(at as int), 3),
                at as nat,
            ),
            text_chunks_bytes(chunks@) == bytes@.take(at as int),
            forall|i: int|
                0 <= i < chunks@.len() ==> (#[trigger] chunks@[i]).bitwidth
                    != IntegerWidth::Unknown && encode_utf8(chunks@[i].data@).len() <= u64::MAX
                    && chunks@[i].bitwidth.holds(encode_utf8(chunks@[i].data@).len() as u64),
        decreases bytes@.len() - at,
    {
        if at == bytes.len() {
            return Ok(None);
        }
        let rest = slice_subrange(bytes, at, bytes.len());
        assert(rest@ == bytes@.skip(at as int));
        if bytes[at] == 0xff {
            assert(bytes@.take(at + 1) =~= bytes@.take(at as int) + seq![0xffu8]);
            return Ok(Some((chunks, at + 1)));
        }
        if bytes[at] / 32 != 3 || bytes[at] % 32 == 31 {
            return Err(Error::Malformed);
        }
        if bytes[at] % 32 >= 28 {
            assert(recognize(rest@) == Shape::Malformed);
            return Err(Error::Malformed);
        }
        match parse_text_string(rest) {
            Ok(Some((chunk, used))) => {
                proof {
                    assert(rest@.skip(used as int) =~= bytes@.skip(at + used));
                    assert(bytes@.take(at + used) =~= bytes@.take(at as int) + rest@.take(
                        used as int,
                    ));
                    assert(chunks@.push(chunk).drop_last() =~= chunks@);
                }
                chunks.push(chunk);
                at = at + used;
            },
            Ok(None) => {
                return Ok(None);
            },
            Err(error) => {
                return Err(error);
            },
        }
    }
}

/// A complete item takes at least one byte and no more than there are.
pub proof fn lemma_recognize_bounds(bytes: Seq<u8>)
    ensures
        recognize(bytes) matches Shape::Complete(len) ==> 1 <= len <= bytes.len(),
    decreases bytes.len(), 0nat, 0nat,
{
    if bytes.len() > 0 {
        let major = bytes[0] / 32;
        let info = (bytes[0] % 32) as nat;
        let head = 1 + argument_len(info);
        if major == 7 {
        } else if 28 <= info <= 30 {
        } else if info == 31 {
            if major == 2 || major == 3 {
                lemma_chunks_bounds(bytes.skip(1), major as nat);
            } else if major == 4 {
                lemma_open_bounds(bytes.skip(1));
            } else if major == 5 {
                lemma_entries_bounds(bytes.skip(1));
            }
        } else if bytes.len() < head {
        } else if major == 4 {
            lemma_items_bounds(bytes.skip(head as int), argument(bytes));
        } else if major == 5 {
            lemma_items_bounds(bytes.skip(head as int), 2 * argument(bytes));
        } else if major == 6 {
            lemma_recognize_bounds(bytes.skip(head as int));
        }
    }
}

/// Complete items in a row take at least one byte each and no more than
/// there are.
pub proof fn lemma_items_bounds(bytes: Seq<u8>, count: nat)
    ensures
        recognize_items(bytes, count) matches Shape::Complete(len) ==> count <= len
            <= bytes.len(),
    decreases bytes.len(), 1nat, count,
{
    if count > 0 {
        lemma_recognize_bounds(bytes);
        if let Shape::Complete(len) = recognize(bytes) {
            lemma_items_bounds(bytes.skip(len as int), (count - 1) as nat);
        }
    }
}

/// Complete items up to a break take at least one byte and no more than
/// there are.
pub proof fn lemma_open_bounds(bytes: Seq<u8>)
    ensures
        recognize_open(bytes) matches Shape::Complete(len) ==> 1 <= len <= bytes.len(),
    decreases bytes.len(), 1nat, 0nat,
{
    if bytes.len() > 0 && bytes[0] != 0xff {
        lemma_recognize_bounds(bytes);
        if let Shape::Complete(len) = recognize(bytes) {
            lemma_open_bounds(bytes.skip(len as int));
        }
    }
}

/// Complete map entries up to a break take at least one byte and no more
/// than there are.
pub proof fn lemma_entries_bounds(bytes: Seq<u8>)
    ensures
        recognize_entries(bytes) matches Shape::Complete(len) ==> 1 <= len <= bytes.len(),
    decreases bytes.len(), 2nat, 0nat,
{
    if bytes.len() > 0 && bytes[0] != 0xff {
        lemma_items_bounds(bytes, 2);
        if let Shape::Complete(len) = recognize_items(bytes, 2) {
            lemma_entries_bounds(bytes.skip(len as int));
        }
    }
}

/// Complete chunks up to a break take at least one byte and no more than
/// there are.
pub proof fn lemma_chunks_bounds(bytes: Seq<u8>, major: nat)
    ensures
        recognize_chunks(bytes, major) matches Shape::Complete(len) ==> 1 <= len <= bytes.len(),
    decreases bytes.len(), 1nat, 0nat,
{
    if bytes.len() > 0 && bytes[0] != 0xff && !(bytes[0] / 32 != major || bytes[0] % 32 == 31) {
        lemma_recognize_bounds(bytes);
        if let Shape::Complete(len) = recognize(bytes) {
            lemma_chunks_bounds(bytes.skip(len as int), major);
        }
    }
}

/// Items in a row are some of them and then the others.
pub proof fn lemma_items_split(bytes: Seq<u8>, first: nat, second: nat)
    ensures
        recognize_items(bytes, first + second) == (match recognize_items(bytes, first) {
            Shape::Complete(len) => shifted(
                recognize_items(bytes.skip(len as int), second),
                len,
            ),
            shape => shape,
        }),
    decreases first,
{
    if first == 0 {
        assert(bytes.skip(0) =~= bytes);
        let rest = recognize_items(bytes, second);
        assert(shifted(rest, 0) == rest);
    } else {
        lemma_recognize_bounds(bytes);
        match recognize(bytes) {
            Shape::Complete(len) => {
                let rest = bytes.skip(len as int);
                lemma_items_split(rest, (first - 1) as nat, second);
                lemma_items_bounds(rest, (first - 1) as nat);
                match recognize_items(rest, (first - 1) as nat) {
                    Shape::Complete(more) => {
                        assert(rest.skip(more as int) =~= bytes.skip((len + more) as int));
                    },
                    _ => {},
                }
            },
            _ => {},
        }
    }
}

/// Reads two items in a row: a key and a value.
fn parse_pair(bytes: &[u8]) -> (result: Result<Option<((DataItem, DataItem), usize)>, Error>)
    ensures
        fails_as(recognize_items(bytes@, 2), result),
        result matches Ok(Some((entry, used))) ==> recognize_items(bytes@, 2) == Shape::Complete(
            used as nat,
        ) && 2 <= used <= bytes@.len() && encoding(entry.0) + encoding(entry.1) == bytes@.take(
            used as int,
        ) && well_formed(entry.0) && determined(entry.0) && well_formed(entry.1) && determined(
            entry.1,
        ),
    decreases bytes@.len(), 2nat,
{
    proof {
        reveal_with_fuel(recognize_items, 3);
    }
    let (key, key_len) = match parse_item(bytes) {
        Ok(Some(found)) => found,
        Ok(None) => {
            return Ok(None);
        },
        Err(error) => {
            return Err(error);
        },
    };
    let after = slice_subrange(bytes, key_len, bytes.len());
    assert(after@ == bytes@.skip(key_len as int));
    let (value, value_len) = match parse_item(after) {
        Ok(Some(found)) => found,
        Ok(None) => {
            return Ok(None);
        },
        Err(error) => {
            return Err(error);
        },
    };
    proof {
        assert(bytes@.take(key_len + value_len) =~= bytes@.take(key_len as int) + after@.take(
            value_len as int,
        ));
    }
    Ok(Some(((key, value), key_len + value_len)))
}

/// Reads `count` items in a row.
fn parse_items(bytes: &[u8], count: u64) -> (result: Result<Option<(Vec<DataItem>, usize)>, Error>)
    ensures
        fails_as(recognize_items(bytes@, count as nat), result),
        result matches Ok(Some((items, used))) ==> recognize_items(bytes@, count as nat)
            == Shape::Complete(used as nat) && used <= bytes@.len() && items@.len() == count
            && sequence_bytes(items@) == bytes@.take(used as int) && all_parsed(items@),
    decreases bytes@.len(), 2nat,
{
    let mut items: Vec<DataItem> = Vec::new();
    let mut at: usize = 0;
    let mut i: u64 = 0;
    assert(bytes@.skip(0) =~= bytes@);
    assert(bytes@.take(0) =~= Seq::<u8>::empty());
    while i < count
        invariant
            at <= bytes@.len(),
            i <= count,
            i <= at,
            items@.len() == i,
            recognize_items(bytes@, count as nat) == shifted(
                recognize_items(bytes@.skip(at as int), (count - i) as nat),
                at as nat,
            ),
            sequence_bytes(items@) == bytes@.take(at as int),
            all_parsed(items@),
        decreases count - i,
    {
        let rest = slice_subrange(bytes, at, bytes.len());
        assert(rest@ == bytes@.skip(at as int));
        match parse_item(rest) {
            Ok(Some((item, used))) => {
                proof {
                    assert(rest@.skip(used as int) =~= bytes@.skip(at + used));
                    assert(bytes@.take(at + used) =~= bytes@.take(at as int) + rest@.take(
                        used as int,
                    ));
                    assert(items@.push(item).drop_last() =~= items@);
                }
                items.push(item);
                at = at + used;
                i = i + 1;
            },
            Ok(None) => {
                return Ok(None);
            },
            Err(error) => {
                return Err(error);
            },
        }
    }
    Ok(Some((items, at)))
}

/// Reads `count` map entries in a row, a key and a value each.
fn parse_pairs(bytes: &[u8], count: u64) -> (result: Result<
    Option<(Vec<(DataItem, DataItem)>, usize)>,
    Error,
>)
    ensures
        fails_as(recognize_items(bytes@, 2 * count as nat), result),
        result matches Ok(Some((entries, used))) ==> recognize_items(bytes@, 2 * count as nat)
            == Shape::Complete(used as nat) && used <= bytes@.len() && entries@.len() == count
            && entries_bytes(entries@) == bytes@.take(used as int) && all_entries_parsed(
            entries@,
        ),
    decreases bytes@.len(), 3nat,
{
    let mut entries: Vec<(DataItem, DataItem)> = Vec::new();
    let mut at: usize = 0;
    let mut i: u64 = 0;
    assert(bytes@.skip(0) =~= bytes@);
    assert(bytes@.take(0) =~= Seq::<u8>::empty());
    while i < count
        invariant
            at <= bytes@.len(),
            i <= count,
            i <= at,
            entries@.len() == i,
            recognize_items(bytes@, 2 * count as nat) == shifted(
                recognize_items(bytes@.skip(at as int), (2 * (count - i)) as nat),
                at as nat,
            ),
            entries_bytes(entries@) == bytes@.take(at as int),
            all_entries_parsed(entries@),
        decreases count - i,
    {
        let rest = slice_subrange(bytes, at, bytes.len());
        assert(rest@ == bytes@.skip(at as int));
        proof {
            lemma_items_split(rest@, 2, (2 * (count - i - 1)) as nat);
        }
        match parse_pair(rest) {
            Ok(Some((entry, used))) => {
                proof {
                    assert(rest@.skip(used as int) =~= bytes@.skip(at + used));
                    assert(bytes@.take(at + used) =~= bytes@.take(at as int) + rest@.take(
                        used as int,
                    ));
                    assert(entries@.push(entry).drop_last() =~= entries@);
                }
                entries.push(entry);
                at = at + used;
                i = i + 1;
            },
            Ok(None) => {
                return Ok(None);
            },
            Err(error) => {
                return Err(error);
            },
        }
    }
    Ok(Some((entries, at)))
}

/// Reads items in a row up to a break.
fn parse_open(bytes: &[u8]) -> (result: Result<Option<(Vec<DataItem>, usize)>, Error>)
    ensures
        fails_as(recognize_open(bytes@), result),
        result matches Ok(Some((items, used))) ==> recognize_open(bytes@) == Shape::Complete(
            used as nat,
        ) && 1 <= used <= bytes@.len() && sequence_bytes(items@) + seq![0xffu8] == bytes@.take(
            used as int,
        ) && all_parsed(items@),
    decreases bytes@.len(), 2nat,
{
    let mut items: Vec<DataItem> = Vec::new();
    let mut at: usize = 0;
    assert(bytes@.skip(0) =~= bytes@);
    assert(bytes@.take(0) =~= Seq::<u8>::empty());
    loop
        invariant
            at <= bytes@.len(),
            recognize_open(bytes@) == shifted(recognize_open(bytes@.skip(at as int)), at as nat),
            sequence_bytes(items@) == bytes@.take(at as int),
            all_parsed(items@),
        decreases bytes@.len() - at,
    {
        if at == bytes.len() {
            return Ok(None);
        }
        let rest = slice_subrange(bytes, at, bytes.len());
        assert(rest@ == bytes@.skip(at as int));
        if bytes[at] == 0xff {
            assert(bytes@.take(at + 1) =~= bytes@.take(at as int) + seq![0xffu8]);
            return Ok(Some((items, at + 1)));
        }
        match parse_item(rest) {
            Ok(Some((item, used))) => {
                proof {
                    assert(rest@.skip(used as int) =~= bytes@.skip(at + used));
                    assert(bytes@.take(at + used) =~= bytes@.take(at as int) + rest@.take(
                        used as int,
                    ));
                    assert(items@.push(item).drop_last() =~= items@);
                }
                items.push(item);
                at = at + used;
            },
            Ok(None) => {
                return Ok(None);
            },
            Err(error) => {
                return Err(error);
            },
        }
    }
}

/// Reads map entries in a row up to a break.
fn parse_entries(bytes: &[u8]) -> (result: Result<
    Option<(Vec<(DataItem, DataItem)>, usize)>,
    Error,
>)
    ensures
        fails_as(recognize_entries(bytes@), result),
        result matches Ok(Some((entries, used))) ==> recognize_entries(bytes@)
            == Shape::Complete(used as nat) && 1 <= used <= bytes@.len() && entries_bytes(
            entries@,
        ) + seq![0xffu8] == bytes@.take(used as int) && all_entries_parsed(entries@),
    decreases bytes@.len(), 3nat,
{
    let mut entries: Vec<(DataItem, DataItem)> = Vec::new();
    let mut at: usize = 0;
    assert(bytes@.skip(0) =~= bytes@);
    assert(bytes@.take(0) =~= Seq::<u8>::empty());
    loop
        invariant
            at <= bytes@.len(),
            recognize_entries(bytes@) == shifted(
                recognize_entries(bytes@.skip(at as int)),
                at as nat,
            ),
            entries_bytes(entries@) == bytes@.take(at as int),
            all_entries_parsed(entries@),
        decreases bytes@.len() - at,
    {
        if at == bytes.len() {
            return Ok(None);
        }
        let rest = slice_subrange(bytes, at, bytes.len());
        assert(rest@ == bytes@.skip(at as int));
        if bytes[at] == 0xff {
            assert(bytes@.take(at + 1) =~= bytes@.take(at as int) + seq![0xffu8]);
            return Ok(Some((entries, at + 1)));
        }
        match parse_pair(rest) {
            Ok(Some((entry, used))) => {
                proof {
                    assert(rest@.skip(used as int) =~= bytes@.skip(at + used));
                    assert(bytes@.take(at + used) =~= bytes@.take(at as int) + rest@.take(
                        used as int,
                    ));
                    assert(entries@.push(entry).drop_last() =~= entries@);
                }
                entries.push(entry);
                at = at + used;
            },
            Ok(None) => {
                return Ok(None);
            },
            Err(error) => {
                return Err(error);
            },
        }
    }
}

/// Reads an indefinite-length string, behind its initial byte.
fn parse_open_string(bytes: &[u8]) -> (result: Result<Option<(DataItem, usize)>, Error>)
    requires
        bytes@.len() > 0,
        bytes@[0] % 32 == 31,
        bytes@[0] / 32 == 2 || bytes@[0] / 32 == 3,
    ensures
        answers(bytes@, recognize(bytes@), result),
{
    let rest = slice_subrange(bytes, 1, bytes.len());
    assert(rest@ == bytes@.skip(1));
    assert(bytes@.take(1) =~= seq![bytes@[0]]);
    proof {
        reveal(encoding);
    }
    if bytes[0] / 32 == 2 {
        match parse_byte_chunks(rest) {
            Ok(Some((chunks, used))) => {
                let item = DataItem::IndefiniteByteString(chunks);
                proof {
                    lemma_byte_chunks(item, chunks@.len());
                    lemma_children_bytes_start(item);
                    assert(chunks@.take(chunks@.len() as int) =~= chunks@);
                    assert(bytes@.take(1 + used) =~= seq![bytes@[0]] + rest@.take(used as int));
                    assert(encoding(item) =~= bytes@.take(1 + used));
                }
                Ok(Some((item, 1 + used)))
            },
            Ok(None) => Ok(None),
            Err(error) => Err(error),
        }
    } else {
        match parse_text_chunks(rest) {
            Ok(Some((chunks, used))) => {
                let item = DataItem::IndefiniteTextString(chunks);
                proof {
                    lemma_text_chunks(item, chunks@.len());
                    lemma_children_bytes_start(item);
                    assert(chunks@.take(chunks@.len() as int) =~= chunks@);
                    assert(bytes@.take(1 + used) =~= seq![bytes@[0]] + rest@.take(used as int));
                    assert(encoding(item) =~= bytes@.take(1 + used));
                }
                Ok(Some((item, 1 + used)))
            },
            Ok(None) => Ok(None),
            Err(error) => Err(error),
        }
    }
}

/// Reads an indefinite-length array, behind its initial byte.
fn parse_open_array(bytes: &[u8]) -> (result: Result<Option<(DataItem, usize)>, Error>)
    requires
        bytes@.len() > 0,
        bytes@[0] == 0x9f,
    ensures
        answers(bytes@, recognize(bytes@), result),
    decreases bytes@.len(), 0nat,
{
    let rest = slice_subrange(bytes, 1, bytes.len());
    assert(rest@ == bytes@.skip(1));
    assert(bytes@.take(1) =~= seq![bytes@[0]]);
    match parse_open(rest) {
        Ok(Some((items, used))) => {
            let item = DataItem::Array { data: items, bitwidth: None };
            proof {
                reveal(encoding);
                lemma_array_children(item, items@.len());
                assert(items@.take(items@.len() as int) =~= items@);
                assert(bytes@.take(1 + used) =~= seq![bytes@[0]] + rest@.take(used as int));
                assert(encoding(item) =~= bytes@.take(1 + used));
            }
            Ok(Some((item, 1 + used)))
        },
        Ok(None) => Ok(None),
        Err(error) => Err(error),
    }
}

/// Reads an indefinite-length map, behind its initial byte.
fn parse_open_mapping(bytes: &[u8]) -> (result: Result<Option<(DataItem, usize)>, Error>)
    requires
        bytes@.len() > 0,
        bytes@[0] == 0xbf,
    ensures
        answers(bytes@, recognize(bytes@), result),
    decreases bytes@.len(), 0nat,
{
    let rest = slice_subrange(bytes, 1, bytes.len());
    assert(rest@ == bytes@.skip(1));
    assert(bytes@.take(1) =~= seq![bytes@[0]]);
    match parse_entries(rest) {
        Ok(Some((entries, used))) => {
            let item = DataItem::Mapping { data: entries, bitwidth: None };
            proof {
                reveal(encoding);
                lemma_mapping_children(item, entries@.len());
                assert(entries@.take(entries@.len() as int) =~= entries@);
                assert(bytes@.take(1 + used) =~= seq![bytes@[0]] + rest@.take(used as int));
                assert(encoding(item) =~= bytes@.take(1 + used));
            }
            Ok(Some((item, 1 + used)))
        },
        Ok(None) => Ok(None),
        Err(error) => Err(error),
    }
}

/// Reads a definite-length array, behind its header.
fn parse_array(bytes: &[u8], head: &Head) -> (result: Result<Option<(DataItem, usize)>, Error>)
    requires
        bytes@.len() > 0,
        bytes@[0] / 32 == 4,
        bytes@[0] % 32 < 28,
        head_of(bytes@, *head),
    ensures
        answers(bytes@, recognize(bytes@), result),
    decreases bytes@.len(), 0nat,
{
    let rest = slice_subrange(bytes, head.len, bytes.len());
    assert(rest@ == bytes@.skip(head.len as int));
    match parse_items(rest, head.argument) {
        Ok(Some((items, used))) => {
            let item = DataItem::Array { data: items, bitwidth: Some(head.bitwidth) };
            proof {
                reveal(encoding);
                lemma_array_children(item, items@.len());
                assert(items@.take(items@.len() as int) =~= items@);
                assert(bytes@.take(head.len + used) =~= bytes@.take(head.len as int) + rest@.take(
                    used as int,
                ));
                assert(encoding(item) =~= bytes@.take(head.len + used));
            }
            Ok(Some((item, head.len + used)))
        },
        Ok(None) => Ok(None),
        Err(error) => Err(error),
    }
}

/// Reads a definite-length map, behind its header.
fn parse_mapping(bytes: &[u8], head: &Head) -> (result: Result<Option<(DataItem, usize)>, Error>)
    requires
        bytes@.len() > 0,
        bytes@[0] / 32 == 5,
        bytes@[0] % 32 < 28,
        head_of(bytes@, *head),
    ensures
        answers(bytes@, recognize(bytes@), result),
    decreases bytes@.len(), 0nat,
{
    let rest = slice_subrange(bytes, head.len, bytes.len());
    assert(rest@ == bytes@.skip(head.len as int));
    match parse_pairs(rest, head.argument) {
        Ok(Some((entries, used))) => {
            let item = DataItem::Mapping { data: entries, bitwidth: Some(head.bitwidth) };
            proof {
                reveal(encoding);
                lemma_mapping_children(item, entries@.len());
                assert(entries@.take(entries@.len() as int) =~= entries@);
                assert(bytes@.take(head.len + used) =~= bytes@.take(head.len as int) + rest@.take(
                    used as int,
                ));
                assert(encoding(item) =~= bytes@.take(head.len + used));
            }
            Ok(Some((item, head.len + used)))
        },
        Ok(None) => Ok(None),
        Err(error) => Err(error),
    }
}

/// Reads a tagged item, behind the header of the tag.
fn parse_tagged(bytes: &[u8], head: &Head) -> (result: Result<Option<(DataItem, usize)>, Error>)
    requires
        bytes@.len() > 0,
        bytes@[0] / 32 == 6,
        bytes@[0] % 32 < 28,
        head_of(bytes@, *head),
    ensures
        answers(bytes@, recognize(bytes@), result),
    decreases bytes@.len(), 0nat,
{
    let rest = slice_subrange(bytes, head.len, bytes.len());
    assert(rest@ == bytes@.skip(head.len as int));
    match parse_item(rest) {
        Ok(Some((value, used))) => {
            let item = DataItem::Tag {
                tag: Tag(head.argument),
                bitwidth: head.bitwidth,
                value: Box::new(value),
            };
            proof {
                reveal(encoding);
                lemma_children_bytes_start(item);
                lemma_children_bytes_step(item, 0);
                assert(bytes@.take(head.len + used) =~= bytes@.take(head.len as int) + rest@.take(
                    used as int,
                ));
                assert(encoding(item) =~= bytes@.take(head.len + used));
            }
            Ok(Some((item, head.len + used)))
        },
        Ok(None) => Ok(None),
        Err(error) => Err(error),
    }
}

/// Reads the item that `bytes` starts with.
fn parse_item(bytes: &[u8]) -> (result: Result<Option<(DataItem, usize)>, Error>)
    ensures
        answers(bytes@, recognize(bytes@), result),
    decreases bytes@.len(), 1nat,
{
    if bytes.len() == 0 {
        return Ok(None);
    }
    let major = bytes[0] / 32;
    let info = bytes[0] % 32;
    if major == 7 {
        return parse_special(bytes);
    }
    if 28 <= info && info <= 30 {
        return Err(Error::Malformed);
    }
    if info == 31 {
        return if major == 2 || major == 3 {
            parse_open_string(bytes)
        } else if major == 4 {
            parse_open_array(bytes)
        } else if major == 5 {
            parse_open_mapping(bytes)
        } else {
            Err(Error::Malformed)
        };
    }
    if major == 2 {
        return match parse_byte_string(bytes) {
            Ok(Some((string, used))) => {
                proof {
                    reveal(encoding);
                }
                Ok(Some((DataItem::ByteString(string), used)))
            },
            Ok(None) => Ok(None),
            Err(error) => Err(error),
        };
    }
    if major == 3 {
        return match parse_text_string(bytes) {
            Ok(Some((string, used))) => {
                proof {
                    reveal(encoding);
                }
                Ok(Some((DataItem::TextString(string), used)))
            },
            Ok(None) => Ok(None),
            Err(error) => Err(error),
        };
    }
    let head = match read_head(bytes) {
        Some(head) => head,
        None => {
            return Ok(None);
        },
    };
    if major == 0 {
        proof {
            reveal(encoding);
        }
        Ok(Some((DataItem::Integer { value: head.argument, bitwidth: head.bitwidth }, head.len)))
    } else if major == 1 {
        proof {
            reveal(encoding);
        }
        Ok(Some((DataItem::Negative { value: head.argument, bitwidth: head.bitwidth }, head.len)))
    } else if major == 4 {
        parse_array(bytes, &head)
    } else if major == 5 {
        parse_mapping(bytes, &head)
    } else {
        parse_tagged(bytes, &head)
    }
}

/// Whether `item` is what `bytes` hold: the item that they are the
/// encoding of, with the quiet NaN in place of every NaN. Where that item
/// has no other NaN, `item` has the bytes as its encoding.
pub open spec fn held(bytes: Seq<u8>, item: DataItem) -> bool {
    exists|read: DataItem|
        #[trigger] encoding(read) == bytes && well_formed(read) && determined(read) && tree(item)
            == quieted(tree(read)) && (quieted(tree(read)) == tree(read) ==> encoding(item)
            == bytes)
}

/// Whether `item` is what the first `used` of the bytes hold, and can be
/// encoded again.
pub open spec fn kept(bytes: Seq<u8>, item: DataItem, used: nat) -> bool {
    &&& 1 <= used <= bytes.len()
    &&& held(bytes.take(used as int), item)
    &&& well_formed(item)
    &&& determined(item)
}

/// Whether `result` is what the decoder owes for bytes of the shape
/// `shape`.
pub open spec fn replies(
    bytes: Seq<u8>,
    shape: Shape,
    result: Result<Option<(DataItem, usize)>, Error>,
) -> bool {
    match shape {
        Shape::Complete(len) => result matches Ok(Some((item, used))) && used == len && kept(
            bytes,
            item,
            len,
        ),
        Shape::Truncated => result matches Ok(None),
        Shape::Malformed => result matches Err(Error::Malformed),
        Shape::InvalidUtf8 => result matches Err(Error::InvalidUtf8),
    }
}

/// An item that was read, with the quiet NaN in place of every NaN, is
/// what its encoding holds.
pub proof fn lemma_held(read: DataItem, item: DataItem)
    requires
        well_formed(read),
        determined(read),
        quiets(read, item),
    ensures
        held(encoding(read), item),
        well_formed(item),
        determined(item),
{
    if quieted(tree(read)) == tree(read) {
        lemma_same_tree(item, read);
    }
    assert(encoding(read) == encoding(read) && well_formed(read));
}

/// Whether bytes hold no NaN but the quiet one: every item that they are
/// the encoding of is kept as it is.
pub open spec fn quiet_only(bytes: Seq<u8>) -> bool {
    forall|read: DataItem| #[trigger] encoding(read) == bytes ==> quieted(tree(read)) == tree(read)
}

/// What was read from bytes that hold no NaN but the quiet one has those
/// bytes as its encoding: decoding and encoding again gives the bytes
/// back.
pub proof fn lemma_encodes_back(bytes: Seq<u8>, item: DataItem)
    requires
        held(bytes, item),
        quiet_only(bytes),
    ensures
        encoding(item) == bytes,
{
    let read = choose|read: DataItem|
        #[trigger] encoding(read) == bytes && well_formed(read) && determined(read) && tree(item)
            == quieted(tree(read)) && (quieted(tree(read)) == tree(read) ==> encoding(item)
            == bytes);
    assert(encoding(read) == bytes);
}

/// Reads the item that `bytes` starts with, if they hold a complete one,
/// and says how many bytes it takes. More bytes may follow it. Bytes that
/// end before the item does are no error: the answer is `None`. Every NaN
/// is read as the quiet NaN.
pub fn parse_bytes_partial(bytes: &[u8]) -> (result: Result<Option<(DataItem, usize)>, Error>)
    ensures
        replies(bytes@, recognize(bytes@), result),
{
    match parse_item(bytes) {
        Ok(Some((read, used))) => {
            let ghost raw = read;
            let item = quiet(read);
            proof {
                lemma_held(raw, item);
            }
            Ok(Some((item, used)))
        },
        Ok(None) => Ok(None),
        Err(error) => Err(error),
    }
}

/// Reads the item that `bytes` are the encoding of, with the quiet NaN in
/// place of every NaN.
pub fn parse_bytes(bytes: &[u8]) -> (result: Result<DataItem, Error>)
    ensures
        match recognize(bytes@) {
            Shape::Complete(len) => if len == bytes@.len() {
                result matches Ok(item) && held(bytes@, item) && well_formed(item) && determined(
                    item,
                )
            } else {
                result matches Err(Error::TrailingInput)
            },
            Shape::Truncated => result matches Err(Error::Truncated),
            Shape::Malformed => result matches Err(Error::Malformed),
            Shape::InvalidUtf8 => result matches Err(Error::InvalidUtf8),
        },
{
    match parse_bytes_partial(bytes) {
        Ok(Some((item, used))) => {
            if used == bytes.len() {
                assert(bytes@.take(used as int) =~= bytes@);
                Ok(item)
            } else {
                Err(Error::TrailingInput)
            }
        },
        Ok(None) => Err(Error::Truncated),
        Err(error) => Err(error),
    }
}

} // verus!
