//! The value of an item as mathematics sees it: sequences in place of
//! vectors and strings, with every width kept.

use vstd::prelude::*;
use crate::model::{ByteString, DataItem, FloatWidth, IntegerWidth, TextString};

verus! {

/// A definite-length string of bytes or of characters, with the width of
/// its length.
pub struct Chunk<T> {
    pub data: Seq<T>,
    pub bitwidth: IntegerWidth,
}

/// What an item is, whatever holds it in memory.
pub enum Tree {
    Integer { value: u64, bitwidth: IntegerWidth },
    Negative { value: u64, bitwidth: IntegerWidth },
    Bytes(Chunk<u8>),
    Text(Chunk<char>),
    ByteChunks(Seq<Chunk<u8>>),
    TextChunks(Seq<Chunk<char>>),
    Array { data: Seq<Tree>, bitwidth: Option<IntegerWidth> },
    Mapping { data: Seq<(Tree, Tree)>, bitwidth: Option<IntegerWidth> },
    Tag { tag: u64, bitwidth: IntegerWidth, value: Box<Tree> },
    Float { value: u64, bitwidth: FloatWidth },
    Simple(u8),
}

/// What a byte string is.
pub open spec fn byte_chunk(string: ByteString) -> Chunk<u8> {
    Chunk { data: string.data@, bitwidth: string.bitwidth }
}

/// What a text string is.
pub open spec fn text_chunk(string: TextString) -> Chunk<char> {
    Chunk { data: string.data@, bitwidth: string.bitwidth }
}

/// What the elements of an array are.
#[verifier::opaque]
pub open spec fn trees(item: DataItem) -> Seq<Tree>
    decreases item, 0nat,
{
    match item {
        DataItem::Array { data, .. } => Seq::new(
            data@.len(),
            |i: int|
                if 0 <= i < data@.len() {
                    tree(data@[i])
                } else {
                    Tree::Simple(0)
                },
        ),
        _ => Seq::empty(),
    }
}

/// What the entries of a map are.
#[verifier::opaque]
pub open spec fn tree_pairs(item: DataItem) -> Seq<(Tree, Tree)>
    decreases item, 0nat,
{
    match item {
        DataItem::Mapping { data, .. } => Seq::new(
            data@.len(),
            |i: int|
                if 0 <= i < data@.len() {
                    (tree(data@[i].0), tree(data@[i].1))
                } else {
                    (Tree::Simple(0), Tree::Simple(0))
                },
        ),
        _ => Seq::empty(),
    }
}

/// What an item is.
#[verifier::opaque]
pub open spec fn tree(item: DataItem) -> Tree
    decreases item, 1nat,
{
    match item {
        DataItem::Integer { value, bitwidth } => Tree::Integer { value, bitwidth },
        DataItem::Negative { value, bitwidth } => Tree::Negative { value, bitwidth },
        DataItem::ByteString(string) => Tree::Bytes(byte_chunk(string)),
        DataItem::TextString(string) => Tree::Text(text_chunk(string)),
        DataItem::IndefiniteByteString(chunks) => Tree::ByteChunks(
            Seq::new(chunks@.len(), |i: int| byte_chunk(chunks@[i])),
        ),
        DataItem::IndefiniteTextString(chunks) => Tree::TextChunks(
            Seq::new(chunks@.len(), |i: int| text_chunk(chunks@[i])),
        ),
        DataItem::Array { bitwidth, .. } => Tree::Array { data: trees(item), bitwidth },
        DataItem::Mapping { bitwidth, .. } => Tree::Mapping { data: tree_pairs(item), bitwidth },
        DataItem::Tag { tag, bitwidth, value } => Tree::Tag {
            tag: tag.0,
            bitwidth,
            value: Box::new(tree(*value)),
        },
        DataItem::Float { value, bitwidth } => Tree::Float { value, bitwidth },
        DataItem::Simple(simple) => Tree::Simple(simple.0),
    }
}

/// What an array of the given elements is.
pub proof fn lemma_tree_of_array(data: Vec<DataItem>, bitwidth: Option<IntegerWidth>, elements: Seq<Tree>)
    requires
        elements.len() == data@.len(),
        forall|i: int| 0 <= i < data@.len() ==> elements[i] == tree(#[trigger] data@[i]),
    ensures
        tree(DataItem::Array { data, bitwidth }) == (Tree::Array { data: elements, bitwidth }),
{
    reveal(tree);
    reveal(trees);
    assert(trees(DataItem::Array { data, bitwidth }) =~= elements);
}

/// What a map of the given entries is.
pub proof fn lemma_tree_of_mapping(
    data: Vec<(DataItem, DataItem)>,
    bitwidth: Option<IntegerWidth>,
    entries: Seq<(Tree, Tree)>,
)
    requires
        entries.len() == data@.len(),
        forall|i: int|
            0 <= i < data@.len() ==> entries[i] == (
                tree((#[trigger] data@[i]).0),
                tree(data@[i].1),
            ),
    ensures
        tree(DataItem::Mapping { data, bitwidth }) == (Tree::Mapping { data: entries, bitwidth }),
{
    reveal(tree);
    reveal(tree_pairs);
    assert(tree_pairs(DataItem::Mapping { data, bitwidth }) =~= entries);
}

} // verus!
