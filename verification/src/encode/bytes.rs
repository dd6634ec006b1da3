//! The binary encoding: each item as the bytes that its widths ask for.

use vstd::prelude::*;
use vstd::utf8::encode_utf8;
use crate::model::{DataItem, FloatWidth, IntegerWidth, Simple, child, child_count, chunk_count, indefinite};
use crate::precision::{is_representable, representable, wire, wire_bits, wire_width};

verus! {

/// The last `count` bytes of `value`, most significant first.
pub open spec fn be_bytes(value: nat, count: nat) -> Seq<u8>
    decreases count,
{
    if count == 0 {
        Seq::empty()
    } else {
        be_bytes(value / 256, (count - 1) as nat).push((value % 256) as u8)
    }
}

/// The number that bytes stand for, most significant first.
pub open spec fn be_value(bytes: Seq<u8>) -> nat
    decreases bytes.len(),
{
    if bytes.len() == 0 {
        0
    } else {
        be_value(bytes.drop_last()) * 256 + bytes.last() as nat
    }
}

/// The number of bytes that follow the initial byte for an argument of a
/// width.
pub open spec fn follow_len(bitwidth: IntegerWidth) -> nat {
    match bitwidth {
        IntegerWidth::Eight => 1,
        IntegerWidth::Sixteen => 2,
        IntegerWidth::ThirtyTwo => 4,
        IntegerWidth::SixtyFour => 8,
        _ => 0,
    }
}

/// The additional information of the initial byte for an argument of a
/// width: the argument itself where it is packed into the byte.
pub open spec fn info(bitwidth: IntegerWidth, value: u64) -> nat {
    match bitwidth {
        IntegerWidth::Eight => 24,
        IntegerWidth::Sixteen => 25,
        IntegerWidth::ThirtyTwo => 26,
        IntegerWidth::SixtyFour => 27,
        _ => value as nat,
    }
}

/// The header of an item: the initial byte with the major type and the
/// additional information, and the argument in the bytes that follow. A
/// width that is not chosen is the narrowest.
pub open spec fn header(major: nat, bitwidth: IntegerWidth, value: u64) -> Seq<u8> {
    let width = bitwidth.resolved(value);
    seq![(major * 32 + info(width, value)) as u8] + be_bytes(value as nat, follow_len(width))
}

/// The header that leaves the length open.
pub open spec fn open_header(major: nat) -> Seq<u8> {
    seq![(major * 32 + 31) as u8]
}

/// The bytes of a definite-length string.
pub open spec fn string_bytes(major: nat, data: Seq<u8>, bitwidth: IntegerWidth) -> Seq<u8> {
    header(major, bitwidth, data.len() as u64) + data
}

/// The bytes of a float: the initial byte of its precision and its bit
/// pattern.
pub open spec fn float_bytes(value: u64, bitwidth: FloatWidth) -> Seq<u8> {
    match wire_width(value, bitwidth) {
        FloatWidth::Sixteen => seq![0xf9u8] + be_bytes(wire_bits(value, bitwidth) as nat, 2),
        FloatWidth::ThirtyTwo => seq![0xfau8] + be_bytes(wire_bits(value, bitwidth) as nat, 4),
        _ => seq![0xfbu8] + be_bytes(wire_bits(value, bitwidth) as nat, 8),
    }
}

/// The bytes of a simple value: one byte below 24, two from there on.
pub open spec fn simple_bytes(simple: Simple) -> Seq<u8> {
    if simple.0 < 24 {
        seq![(0xe0 + simple.0) as u8]
    } else {
        seq![0xf8u8, simple.0]
    }
}

/// The header of an item that holds others, or chunks.
pub open spec fn container_header(item: DataItem) -> Seq<u8> {
    match item {
        DataItem::Array { data, bitwidth: Some(bitwidth) } => header(
            4,
            bitwidth,
            data@.len() as u64,
        ),
        DataItem::Array { bitwidth: None, .. } => open_header(4),
        DataItem::Mapping { data, bitwidth: Some(bitwidth) } => header(
            5,
            bitwidth,
            data@.len() as u64,
        ),
        DataItem::Mapping { bitwidth: None, .. } => open_header(5),
        DataItem::Tag { tag, bitwidth, .. } => header(6, bitwidth, tag.0),
        DataItem::IndefiniteByteString(_) => open_header(2),
        DataItem::IndefiniteTextString(_) => open_header(3),
        _ => Seq::empty(),
    }
}

/// The bytes of the first `count` chunks of an indefinite-length string.
pub open spec fn chunk_bytes(item: DataItem, count: nat) -> Seq<u8>
    decreases count,
{
    if count == 0 {
        Seq::empty()
    } else {
        chunk_bytes(item, (count - 1) as nat) + (match item {
            DataItem::IndefiniteByteString(chunks) => string_bytes(
                2,
                chunks@[count - 1].data@,
                chunks@[count - 1].bitwidth,
            ),
            DataItem::IndefiniteTextString(chunks) => string_bytes(
                3,
                encode_utf8(chunks@[count - 1].data@),
                chunks@[count - 1].bitwidth,
            ),
            _ => Seq::empty(),
        })
    }
}

/// The bytes of the first `count` items that an array, a map or a tag
/// holds.
#[verifier::opaque]
pub open spec fn children_bytes(item: DataItem, count: nat) -> Seq<u8>
    decreases item, 0nat, count,
{
    if count == 0 || count > child_count(item) {
        Seq::empty()
    } else {
        children_bytes(item, (count - 1) as nat) + encoding(child(item, count - 1))
    }
}

/// The binary encoding of `item`.
#[verifier::opaque]
pub open spec fn encoding(item: DataItem) -> Seq<u8>
    decreases item, 1nat, 0nat,
{
    match item {
        DataItem::Integer { value, bitwidth } => header(0, bitwidth, value),
        DataItem::Negative { value, bitwidth } => header(1, bitwidth, value),
        DataItem::ByteString(bytes) => string_bytes(2, bytes.data@, bytes.bitwidth),
        DataItem::TextString(text) => string_bytes(3, encode_utf8(text.data@), text.bitwidth),
        DataItem::Float { value, bitwidth } => float_bytes(value, bitwidth),
        DataItem::Simple(simple) => simple_bytes(simple),
        _ => container_header(item) + children_bytes(item, child_count(item)) + chunk_bytes(
            item,
            chunk_count(item),
        ) + (if indefinite(item) {
            seq![0xffu8]
        } else {
            Seq::empty()
        }),
    }
}

/// Whether the chunks of an indefinite-length string can be encoded: each
/// width holds the length of its chunk.
pub open spec fn chunks_fit(item: DataItem) -> bool {
    match item {
        DataItem::IndefiniteByteString(chunks) => forall|i: int|
            0 <= i < chunks@.len() ==> (#[trigger] chunks@[i]).bitwidth.holds(
                chunks@[i].data@.len() as u64,
            ),
        DataItem::IndefiniteTextString(chunks) => forall|i: int|
            0 <= i < chunks@.len() ==> encode_utf8((#[trigger] chunks@[i]).data@).len()
                <= u64::MAX && chunks@[i].bitwidth.holds(
                encode_utf8(chunks@[i].data@).len() as u64,
            ),
        _ => true,
    }
}

/// Whether `item` can be encoded: every width holds its argument, every
/// float can be written in its precision without loss, and the length of
/// every text fits into 64 bits.
pub open spec fn well_formed(item: DataItem) -> bool
    decreases item,
{
    match item {
        DataItem::Integer { value, bitwidth } => bitwidth.holds(value),
        DataItem::Negative { value, bitwidth } => bitwidth.holds(value),
        DataItem::ByteString(bytes) => bytes.bitwidth.holds(bytes.data@.len() as u64),
        DataItem::TextString(text) => encode_utf8(text.data@).len() <= u64::MAX
            && text.bitwidth.holds(encode_utf8(text.data@).len() as u64),
        DataItem::Float { value, bitwidth } => representable(value, bitwidth),
        DataItem::Simple(_) => true,
        DataItem::Array { data, bitwidth } => (bitwidth matches Some(width) ==> width.holds(
            data@.len() as u64,
        )) && forall|i: int| 0 <= i < data@.len() ==> well_formed(#[trigger] data@[i]),
        DataItem::Mapping { data, bitwidth } => (bitwidth matches Some(width) ==> width.holds(
            data@.len() as u64,
        )) && forall|i: int|
            0 <= i < data@.len() ==> well_formed((#[trigger] data@[i]).0) && well_formed(
                data@[i].1,
            ),
        DataItem::Tag { tag, bitwidth, value } => bitwidth.holds(tag.0) && well_formed(*value),
        _ => chunks_fit(item),
    }
}

/// Appends the last `count` bytes of `value`, most significant first.
pub fn push_be(out: &mut Vec<u8>, value: u64, count: usize)
    ensures
        final(out)@ == old(out)@ + be_bytes(value as nat, count as nat),
    decreases count,
{
    if count > 0 {
        push_be(out, value / 256, count - 1);
        out.push((value % 256) as u8);
    }
}

/// Appends a header.
pub fn push_header(out: &mut Vec<u8>, major: u8, bitwidth: IntegerWidth, value: u64)
    requires
        major < 8,
        bitwidth.holds(value),
    ensures
        final(out)@ == old(out)@ + header(major as nat, bitwidth, value),
{
    let base: u8 = major * 32;
    match bitwidth.resolve(value) {
        IntegerWidth::Eight => {
            out.push(base + 24);
            push_be(out, value, 1);
        },
        IntegerWidth::Sixteen => {
            out.push(base + 25);
            push_be(out, value, 2);
        },
        IntegerWidth::ThirtyTwo => {
            out.push(base + 26);
            push_be(out, value, 4);
        },
        IntegerWidth::SixtyFour => {
            out.push(base + 27);
            push_be(out, value, 8);
        },
        _ => {
            out.push(base + value as u8);
            assert(be_bytes(value as nat, 0) =~= Seq::<u8>::empty());
        },
    }
}

/// Appends the bytes of a slice.
pub fn push_all(out: &mut Vec<u8>, data: &[u8])
    ensures
        final(out)@ == old(out)@ + data@,
{
    let mut i: usize = 0;
    while i < data.len()
        invariant
            i <= data.len(),
            out@ == old(out)@ + data@.take(i as int),
        decreases data.len() - i,
    {
        out.push(data[i]);
        assert(data@.take(i + 1) =~= data@.take(i as int).push(data@[i as int]));
        i += 1;
    }
    assert(data@.take(i as int) =~= data@);
}

/// Appends the bytes of a definite-length string.
pub fn push_string(out: &mut Vec<u8>, major: u8, data: &[u8], bitwidth: IntegerWidth)
    requires
        major < 8,
        bitwidth.holds(data@.len() as u64),
    ensures
        final(out)@ == old(out)@ + string_bytes(major as nat, data@, bitwidth),
{
    push_header(out, major, bitwidth, data.len() as u64);
    push_all(out, data);
}

/// The children grow by the bytes of the next child.
pub proof fn lemma_children_bytes_step(item: DataItem, count: nat)
    requires
        count < child_count(item),
    ensures
        children_bytes(item, count + 1) == children_bytes(item, count) + encoding(
            child(item, count as int),
        ),
        children_bytes(item, 0) == Seq::<u8>::empty(),
{
    reveal(children_bytes);
    reveal(encoding);
}

/// An item holds no bytes of children before its first child.
pub proof fn lemma_children_bytes_start(item: DataItem)
    ensures
        children_bytes(item, 0) == Seq::<u8>::empty(),
{
    reveal(children_bytes);
}

impl DataItem {
    /// Appends the binary encoding of this item.
    #[verifier::rlimit(40)]
    pub fn encode_into(&self, out: &mut Vec<u8>)
        requires
            well_formed(*self),
        ensures
            final(out)@ == old(out)@ + encoding(*self),
        decreases self,
    {
        let ghost start = out@;
        proof {
            reveal(encoding);
            lemma_children_bytes_start(*self);
        }
        match self {
            DataItem::Integer { value, bitwidth } => {
                push_header(out, 0, *bitwidth, *value);
                return ;
            },
            DataItem::Negative { value, bitwidth } => {
                push_header(out, 1, *bitwidth, *value);
                return ;
            },
            DataItem::ByteString(bytes) => {
                push_string(out, 2, bytes.data.as_slice(), bytes.bitwidth);
                return ;
            },
            DataItem::TextString(text) => {
                push_string(out, 3, text.data.as_str().as_bytes(), text.bitwidth);
                return ;
            },
            DataItem::Float { value, bitwidth } => {
                let (width, bits) = wire(*value, *bitwidth);
                match width {
                    FloatWidth::Sixteen => {
                        out.push(0xf9);
                        push_be(out, bits, 2);
                    },
                    FloatWidth::ThirtyTwo => {
                        out.push(0xfa);
                        push_be(out, bits, 4);
                    },
                    _ => {
                        out.push(0xfb);
                        push_be(out, bits, 8);
                    },
                }
                return ;
            },
            DataItem::Simple(simple) => {
                if simple.0 < 24 {
                    out.push(0xe0 + simple.0);
                } else {
                    out.push(0xf8);
                    out.push(simple.0);
                }
                assert(out@ =~= start + simple_bytes(*simple));
                return ;
            },
            DataItem::Array { data, bitwidth } => {
                match bitwidth {
                    Some(bitwidth) => push_header(out, 4, *bitwidth, data.len() as u64),
                    None => out.push(0x9f),
                }
                let ghost headed = out@;
                let mut i: usize = 0;
                while i < data.len()
                    invariant
                        i <= data.len(),
                        self matches DataItem::Array { data: d, .. } && d == data,
                        well_formed(*self),
                        out@ == headed + children_bytes(*self, i as nat),
                    decreases data.len() - i,
                {
                    proof {
                        lemma_children_bytes_step(*self, i as nat);
                    }
                    data[i].encode_into(out);
                    i += 1;
                }
            },
            DataItem::Mapping { data, bitwidth } => {
                match bitwidth {
                    Some(bitwidth) => push_header(out, 5, *bitwidth, data.len() as u64),
                    None => out.push(0xbf),
                }
                let ghost headed = out@;
                let mut i: usize = 0;
                while i < data.len()
                    invariant
                        i <= data.len(),
                        self matches DataItem::Mapping { data: d, .. } && d == data,
                        well_formed(*self),
                        out@ == headed + children_bytes(*self, (2 * i) as nat),
                    decreases data.len() - i,
                {
                    proof {
                        lemma_children_bytes_step(*self, (2 * i) as nat);
                        lemma_children_bytes_step(*self, (2 * i + 1) as nat);
                    }
                    data[i].0.encode_into(out);
                    data[i].1.encode_into(out);
                    i += 1;
                }
            },
            DataItem::Tag { tag, bitwidth, value } => {
                push_header(out, 6, *bitwidth, tag.0);
                proof {
                    lemma_children_bytes_step(*self, 0);
                }
                value.encode_into(out);
            },
            DataItem::IndefiniteByteString(chunks) => {
                out.push(0x5f);
                let ghost headed = out@;
                let mut i: usize = 0;
                while i < chunks.len()
                    invariant
                        i <= chunks.len(),
                        self matches DataItem::IndefiniteByteString(c) && c == chunks,
                        well_formed(*self),
                        out@ == headed + chunk_bytes(*self, i as nat),
                    decreases chunks.len() - i,
                {
                    push_string(out, 2, chunks[i].data.as_slice(), chunks[i].bitwidth);
                    i += 1;
                }
            },
            DataItem::IndefiniteTextString(chunks) => {
                out.push(0x7f);
                let ghost headed = out@;
                let mut i: usize = 0;
                while i < chunks.len()
                    invariant
                        i <= chunks.len(),
                        self matches DataItem::IndefiniteTextString(c) && c == chunks,
                        well_formed(*self),
                        out@ == headed + chunk_bytes(*self, i as nat),
                    decreases chunks.len() - i,
                {
                    push_string(out, 3, chunks[i].data.as_str().as_bytes(), chunks[i].bitwidth);
                    i += 1;
                }
            },
        }
        let ends = match self {
            DataItem::Array { bitwidth, .. } => bitwidth.is_none(),
            DataItem::Mapping { bitwidth, .. } => bitwidth.is_none(),
            DataItem::Tag { .. } => false,
            _ => true,
        };
        if ends {
            out.push(0xff);
        }
        assert(out@ =~= start + encoding(*self)) by {
            reveal(encoding);
            reveal(children_bytes);
            match *self {
                DataItem::Array { .. } => {
                    assert(chunk_bytes(*self, 0) =~= Seq::<u8>::empty());
                },
                DataItem::Mapping { .. } => {
                    assert(chunk_bytes(*self, 0) =~= Seq::<u8>::empty());
                },
                DataItem::Tag { .. } => {
                    assert(chunk_bytes(*self, 0) =~= Seq::<u8>::empty());
                },
                _ => {},
            }
        }
    }

    /// The binary encoding of this item.
    pub fn to_bytes(&self) -> (bytes: Vec<u8>)
        requires
            well_formed(*self),
        ensures
            bytes@ == encoding(*self),
    {
        let mut bytes = Vec::new();
        self.encode_into(&mut bytes);
        bytes
    }
}

impl DataItem {
    /// Whether this item can be encoded.
    pub fn is_well_formed(&self) -> (r: bool)
        ensures
            r == well_formed(*self),
        decreases self,
    {
        match self {
            DataItem::Integer { value, bitwidth } => bitwidth.can_hold(*value),
            DataItem::Negative { value, bitwidth } => bitwidth.can_hold(*value),
            DataItem::ByteString(bytes) => bytes.bitwidth.can_hold(bytes.data.len() as u64),
            DataItem::TextString(text) => text.bitwidth.can_hold(
                text.data.as_str().as_bytes().len() as u64,
            ),
            DataItem::Float { value, bitwidth } => is_representable(*value, *bitwidth),
            DataItem::Simple(_) => true,
            DataItem::Array { data, bitwidth } => {
                match bitwidth {
                    Some(width) => {
                        if !width.can_hold(data.len() as u64) {
                            return false;
                        }
                    },
                    None => {},
                }
                let mut i: usize = 0;
                while i < data.len()
                    invariant
                        i <= data.len(),
                        self matches DataItem::Array { data: d, .. } && d == data,
                        forall|j: int| 0 <= j < i ==> well_formed(#[trigger] data@[j]),
                    decreases data.len() - i,
                {
                    if !data[i].is_well_formed() {
                        return false;
                    }
                    i += 1;
                }
                true
            },
            DataItem::Mapping { data, bitwidth } => {
                match bitwidth {
                    Some(width) => {
                        if !width.can_hold(data.len() as u64) {
                            return false;
                        }
                    },
                    None => {},
                }
                let mut i: usize = 0;
                while i < data.len()
                    invariant
                        i <= data.len(),
                        self matches DataItem::Mapping { data: d, .. } && d == data,
                        forall|j: int|
                            0 <= j < i ==> well_formed((#[trigger] data@[j]).0) && well_formed(
                                data@[j].1,
                            ),
                    decreases data.len() - i,
                {
                    if !data[i].0.is_well_formed() || !data[i].1.is_well_formed() {
                        return false;
                    }
                    i += 1;
                }
                true
            },
            DataItem::Tag { tag, bitwidth, value } => bitwidth.can_hold(tag.0)
                && value.is_well_formed(),
            DataItem::IndefiniteByteString(chunks) => {
                let mut i: usize = 0;
                while i < chunks.len()
                    invariant
                        i <= chunks.len(),
                        self matches DataItem::IndefiniteByteString(c) && c == chunks,
                        forall|j: int|
                            0 <= j < i ==> (#[trigger] chunks@[j]).bitwidth.holds(
                                chunks@[j].data@.len() as u64,
                            ),
                    decreases chunks.len() - i,
                {
                    if !chunks[i].bitwidth.can_hold(chunks[i].data.len() as u64) {
                        return false;
                    }
                    i += 1;
                }
                true
            },
            DataItem::IndefiniteTextString(chunks) => {
                let mut i: usize = 0;
                while i < chunks.len()
                    invariant
                        i <= chunks.len(),
                        self matches DataItem::IndefiniteTextString(c) && c == chunks,
                        forall|j: int|
                            0 <= j < i ==> encode_utf8((#[trigger] chunks@[j]).data@).len()
                                <= u64::MAX && chunks@[j].bitwidth.holds(
                                encode_utf8(chunks@[j].data@).len() as u64,
                            ),
                    decreases chunks.len() - i,
                {
                    if !chunks[i].bitwidth.can_hold(
                        chunks[i].data.as_str().as_bytes().len() as u64,
                    ) {
                        return false;
                    }
                    i += 1;
                }
                true
            },
        }
    }
}

} // verus!
