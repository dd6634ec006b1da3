//! The data model: a CBOR value together with the encoding choices that
//! distinguish two byte sequences of the same logical value.

use vstd::prelude::*;

verus! {

/// The width of the argument that follows a CBOR initial byte.
#[derive(Clone, Copy, Debug, PartialEq, Eq, Structural)]
pub enum IntegerWidth {
    /// Not chosen yet: an encoder picks the narrowest width that fits.
    Unknown,
    /// The argument is packed into the initial byte (0 to 23).
    Zero,
    /// One following byte.
    Eight,
    /// Two following bytes.
    Sixteen,
    /// Four following bytes.
    ThirtyTwo,
    /// Eight following bytes.
    SixtyFour,
}

/// The precision in which a float is written on the wire.
#[derive(Clone, Copy, Debug, PartialEq, Eq, Structural)]
pub enum FloatWidth {
    /// Not chosen yet.
    Unknown,
    /// Half precision.
    Sixteen,
    /// Single precision.
    ThirtyTwo,
    /// Double precision.
    SixtyFour,
}

/// A semantic tag number.
#[derive(Clone, Copy, Debug, PartialEq, Eq, Structural)]
pub struct Tag(pub u64);

/// A simple value (major type 7 with an argument below 256).
#[derive(Clone, Copy, Debug, PartialEq, Eq, Structural)]
pub struct Simple(pub u8);

/// A definite-length byte string.
#[derive(Clone, Debug, PartialEq, Eq)]
pub struct ByteString {
    pub data: Vec<u8>,
    pub bitwidth: IntegerWidth,
}

/// A definite-length text string.
#[derive(Clone, Debug, PartialEq, Eq)]
pub struct TextString {
    pub data: String,
    pub bitwidth: IntegerWidth,
}

/// One CBOR data item with all of its encoding detail.
#[derive(Debug, PartialEq, Eq)]
pub enum DataItem {
    /// A non-negative integer.
    Integer { value: u64, bitwidth: IntegerWidth },
    /// A negative integer; it stands for `-1 - value`.
    Negative { value: u64, bitwidth: IntegerWidth },
    /// A definite-length byte string.
    ByteString(ByteString),
    /// A definite-length text string.
    TextString(TextString),
    /// An indefinite-length byte string, chunk by chunk.
    IndefiniteByteString(Vec<ByteString>),
    /// An indefinite-length text string, chunk by chunk.
    IndefiniteTextString(Vec<TextString>),
    /// An array; `bitwidth` is `None` for the indefinite-length form.
    Array { data: Vec<DataItem>, bitwidth: Option<IntegerWidth> },
    /// A map, its entries in encoded order; `bitwidth` is `None` for the
    /// indefinite-length form.
    Mapping { data: Vec<(DataItem, DataItem)>, bitwidth: Option<IntegerWidth> },
    /// A tagged item.
    Tag { tag: Tag, bitwidth: IntegerWidth, value: Box<DataItem> },
    /// A float, held as the bit pattern of an IEEE 754 double. The decoder
    /// gives the one quiet NaN for every NaN.
    Float { value: u64, bitwidth: FloatWidth },
    /// A simple value.
    Simple(Simple),
}

impl IntegerWidth {
    /// Whether an argument of this width can hold `value`.
    pub open spec fn holds(self, value: u64) -> bool {
        match self {
            IntegerWidth::Unknown => true,
            IntegerWidth::Zero => value < 24,
            IntegerWidth::Eight => value <= 0xff,
            IntegerWidth::Sixteen => value <= 0xffff,
            IntegerWidth::ThirtyTwo => value <= 0xffff_ffff,
            IntegerWidth::SixtyFour => true,
        }
    }

    /// The narrowest width that holds `value`.
    pub open spec fn narrowest(value: u64) -> IntegerWidth {
        if value < 24 {
            IntegerWidth::Zero
        } else if value <= 0xff {
            IntegerWidth::Eight
        } else if value <= 0xffff {
            IntegerWidth::Sixteen
        } else if value <= 0xffff_ffff {
            IntegerWidth::ThirtyTwo
        } else {
            IntegerWidth::SixtyFour
        }
    }

    /// This width, or the narrowest one for `value` where none was chosen.
    pub open spec fn resolved(self, value: u64) -> IntegerWidth {
        if self == IntegerWidth::Unknown {
            Self::narrowest(value)
        } else {
            self
        }
    }

    /// Whether an argument of this width can hold `value`.
    pub fn can_hold(self, value: u64) -> (r: bool)
        ensures
            r == self.holds(value),
    {
        match self {
            IntegerWidth::Unknown => true,
            IntegerWidth::Zero => value < 24,
            IntegerWidth::Eight => value <= 0xff,
            IntegerWidth::Sixteen => value <= 0xffff,
            IntegerWidth::ThirtyTwo => value <= 0xffff_ffff,
            IntegerWidth::SixtyFour => true,
        }
    }

    /// Computes [`IntegerWidth::resolved`].
    pub fn resolve(self, value: u64) -> (r: IntegerWidth)
        ensures
            r == self.resolved(value),
            r != IntegerWidth::Unknown,
            self.holds(value) ==> r.holds(value),
    {
        match self {
            IntegerWidth::Unknown => {
                if value < 24 {
                    IntegerWidth::Zero
                } else if value <= 0xff {
                    IntegerWidth::Eight
                } else if value <= 0xffff {
                    IntegerWidth::Sixteen
                } else if value <= 0xffff_ffff {
                    IntegerWidth::ThirtyTwo
                } else {
                    IntegerWidth::SixtyFour
                }
            },
            _ => self,
        }
    }
}

/// The number of items that an array, a map or a tag holds.
pub open spec fn child_count(item: DataItem) -> nat {
    match item {
        DataItem::Array { data, .. } => data@.len(),
        DataItem::Mapping { data, .. } => 2 * data@.len(),
        DataItem::Tag { .. } => 1,
        _ => 0,
    }
}

/// The item at `index` of those that an array, a map or a tag holds; a
/// map holds each key before its value.
pub open spec fn child(item: DataItem, index: int) -> DataItem {
    match item {
        DataItem::Array { data, .. } => data@[index],
        DataItem::Mapping { data, .. } => if index % 2 == 0 {
            data@[index / 2].0
        } else {
            data@[index / 2].1
        },
        DataItem::Tag { value, .. } => *value,
        _ => item,
    }
}

/// Whether an item ends with a break.
pub open spec fn indefinite(item: DataItem) -> bool {
    match item {
        DataItem::Array { bitwidth, .. } => bitwidth is None,
        DataItem::Mapping { bitwidth, .. } => bitwidth is None,
        DataItem::IndefiniteByteString(_) => true,
        DataItem::IndefiniteTextString(_) => true,
        _ => false,
    }
}

/// The number of chunks of an indefinite-length string.
pub open spec fn chunk_count(item: DataItem) -> nat {
    match item {
        DataItem::IndefiniteByteString(chunks) => chunks@.len(),
        DataItem::IndefiniteTextString(chunks) => chunks@.len(),
        _ => 0,
    }
}

} // verus!
