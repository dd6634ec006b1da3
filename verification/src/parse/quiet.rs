//! Every NaN is read as the one quiet NaN: what else its bits hold is not
//! kept. An item without such a NaN is read as it was encoded.

use vstd::prelude::*;

use crate::encode::bytes::{children_bytes, chunk_bytes, encoding, well_formed};
use crate::float::{FloatClass, classify, is_nan};
use crate::model::{DataItem, FloatWidth, child, child_count, chunk_count};
use crate::parse::bytes::determined;
use crate::precision::representable;
use crate::tree::{Tree, byte_chunk, lemma_tree_of_array, lemma_tree_of_mapping, text_chunk, tree, tree_pairs, trees};

verus! {

/// The bits of the quiet NaN that stands for every NaN.
pub const QUIET_NAN: u64 = 0x7ff8_0000_0000_0000;

/// The bits of a float as they are kept: the quiet NaN for every NaN.
pub open spec fn quiet_bits(value: u64) -> u64 {
    if is_nan(value) {
        QUIET_NAN
    } else {
        value
    }
}

/// An item as it is kept: with the quiet NaN in place of every NaN.
pub open spec fn quieted(item: Tree) -> Tree
    decreases item,
{
    match item {
        Tree::Float { value, bitwidth } => Tree::Float { value: quiet_bits(value), bitwidth },
        Tree::Array { data, bitwidth } => Tree::Array {
            data: Seq::new(
                data.len(),
                |i: int|
                    if 0 <= i < data.len() {
                        quieted(data[i])
                    } else {
                        Tree::Simple(0)
                    },
            ),
            bitwidth,
        },
        Tree::Mapping { data, bitwidth } => Tree::Mapping {
            data: Seq::new(
                data.len(),
                |i: int|
                    if 0 <= i < data.len() {
                        (quieted(data[i].0), quieted(data[i].1))
                    } else {
                        (Tree::Simple(0), Tree::Simple(0))
                    },
            ),
            bitwidth,
        },
        Tree::Tag { tag, bitwidth, value } => Tree::Tag {
            tag,
            bitwidth,
            value: Box::new(quieted(*value)),
        },
        _ => item,
    }
}

/// The children of two items with equal encodings, child by child, have
/// equal encodings.
proof fn lemma_same_children(a: DataItem, b: DataItem, count: nat)
    requires
        child_count(a) == child_count(b),
        forall|i: int|
            0 <= i < child_count(a) ==> encoding(#[trigger] child(a, i)) == encoding(child(b, i)),
        count <= child_count(a),
    ensures
        children_bytes(a, count) == children_bytes(b, count),
    decreases count,
{
    reveal(children_bytes);
    reveal(encoding);
    if count > 0 {
        lemma_same_children(a, b, (count - 1) as nat);
        assert(encoding(child(a, count - 1)) == encoding(child(b, count - 1)));
    }
}

/// What the chunks of an indefinite-length string are, chunk by chunk.
proof fn lemma_chunks_of(item: DataItem)
    ensures
        item matches DataItem::IndefiniteByteString(chunks) ==> tree(item) is ByteChunks && tree(
            item,
        )->ByteChunks_0.len() == chunks@.len() && forall|i: int|
            0 <= i < chunks@.len() ==> (#[trigger] tree(item)->ByteChunks_0[i]) == byte_chunk(
                chunks@[i],
            ),
        item matches DataItem::IndefiniteTextString(chunks) ==> tree(item) is TextChunks && tree(
            item,
        )->TextChunks_0.len() == chunks@.len() && forall|i: int|
            0 <= i < chunks@.len() ==> (#[trigger] tree(item)->TextChunks_0[i]) == text_chunk(
                chunks@[i],
            ),
        !(item is IndefiniteByteString) ==> !(tree(item) is ByteChunks),
        !(item is IndefiniteTextString) ==> !(tree(item) is TextChunks),
{
    reveal(tree);
    reveal(trees);
    reveal(tree_pairs);
}

/// The chunks of two indefinite-length strings that hold the same are
/// encoded alike.
proof fn lemma_same_chunks(a: DataItem, b: DataItem, count: nat)
    requires
        tree(a) == tree(b),
        a is IndefiniteByteString || a is IndefiniteTextString,
        count <= chunk_count(a),
    ensures
        chunk_count(a) == chunk_count(b),
        chunk_bytes(a, count) == chunk_bytes(b, count),
    decreases count,
{
    lemma_chunks_of(a);
    lemma_chunks_of(b);
    if count > 0 {
        lemma_same_chunks(a, b, (count - 1) as nat);
        match (a, b) {
            (DataItem::IndefiniteByteString(x), DataItem::IndefiniteByteString(y)) => {
                assert(tree(a)->ByteChunks_0[count - 1] == byte_chunk(x@[count - 1]));
                assert(tree(b)->ByteChunks_0[count - 1] == byte_chunk(y@[count - 1]));
            },
            (DataItem::IndefiniteTextString(x), DataItem::IndefiniteTextString(y)) => {
                assert(tree(a)->TextChunks_0[count - 1] == text_chunk(x@[count - 1]));
                assert(tree(b)->TextChunks_0[count - 1] == text_chunk(y@[count - 1]));
            },
            _ => {},
        }
    }
}

/// Two indefinite-length strings that hold the same can be encoded alike.
proof fn lemma_same_strings(a: DataItem, b: DataItem)
    requires
        tree(a) == tree(b),
        a is IndefiniteByteString || a is IndefiniteTextString,
    ensures
        well_formed(a) == well_formed(b),
        determined(a) == determined(b),
{
    lemma_chunks_of(a);
    lemma_chunks_of(b);
    match (a, b) {
        (DataItem::IndefiniteByteString(x), DataItem::IndefiniteByteString(y)) => {
            assert forall|i: int| 0 <= i < x@.len() implies byte_chunk(#[trigger] x@[i])
                == byte_chunk(y@[i]) by {
                assert(tree(a)->ByteChunks_0[i] == byte_chunk(x@[i]));
                assert(tree(b)->ByteChunks_0[i] == byte_chunk(y@[i]));
            }
            assert forall|i: int| 0 <= i < y@.len() implies byte_chunk(x@[i]) == byte_chunk(
                #[trigger] y@[i],
            ) by {
                assert(byte_chunk(x@[i]) == byte_chunk(y@[i]));
            }
        },
        (DataItem::IndefiniteTextString(x), DataItem::IndefiniteTextString(y)) => {
            assert forall|i: int| 0 <= i < x@.len() implies text_chunk(#[trigger] x@[i])
                == text_chunk(y@[i]) by {
                assert(tree(a)->TextChunks_0[i] == text_chunk(x@[i]));
                assert(tree(b)->TextChunks_0[i] == text_chunk(y@[i]));
            }
            assert forall|i: int| 0 <= i < y@.len() implies text_chunk(x@[i]) == text_chunk(
                #[trigger] y@[i],
            ) by {
                assert(text_chunk(x@[i]) == text_chunk(y@[i]));
            }
        },
        _ => {},
    }
}

/// Two items that hold the same have the same encoding, and each can be
/// encoded where the other can.
pub proof fn lemma_same_tree(a: DataItem, b: DataItem)
    requires
        tree(a) == tree(b),
    ensures
        encoding(a) == encoding(b),
        well_formed(a) == well_formed(b),
        determined(a) == determined(b),
    decreases a,
{
    reveal(tree);
    reveal(trees);
    reveal(tree_pairs);
    reveal(encoding);
    reveal(children_bytes);
    match (a, b) {
        (DataItem::Array { data: x, .. }, DataItem::Array { data: y, .. }) => {
            assert(trees(a).len() == trees(b).len());
            assert forall|i: int| 0 <= i < x@.len() implies encoding(#[trigger] x@[i])
                == encoding(y@[i]) && well_formed(x@[i]) == well_formed(y@[i]) && determined(
                x@[i],
            ) == determined(y@[i]) by {
                assert(trees(a)[i] == trees(b)[i]);
                lemma_same_tree(x@[i], y@[i]);
            }
            assert forall|i: int| 0 <= i < y@.len() implies well_formed(x@[i]) == well_formed(
                #[trigger] y@[i],
            ) && determined(x@[i]) == determined(y@[i]) by {
                assert(encoding(x@[i]) == encoding(y@[i]));
            }
            assert forall|i: int| 0 <= i < child_count(a) implies encoding(
                #[trigger] child(a, i),
            ) == encoding(child(b, i)) by {
                assert(encoding(x@[i]) == encoding(y@[i]));
            }
            lemma_same_children(a, b, child_count(a));
        },
        (DataItem::Mapping { data: x, .. }, DataItem::Mapping { data: y, .. }) => {
            assert(tree_pairs(a).len() == tree_pairs(b).len());
            assert forall|i: int| 0 <= i < x@.len() implies encoding((#[trigger] x@[i]).0)
                == encoding(y@[i].0) && encoding(x@[i].1) == encoding(y@[i].1) && well_formed(
                x@[i].0,
            ) == well_formed(y@[i].0) && well_formed(x@[i].1) == well_formed(y@[i].1)
                && determined(x@[i].0) == determined(y@[i].0) && determined(x@[i].1)
                == determined(y@[i].1) by {
                assert(tree_pairs(a)[i] == tree_pairs(b)[i]);
                lemma_same_tree(x@[i].0, y@[i].0);
                lemma_same_tree(x@[i].1, y@[i].1);
            }
            assert forall|i: int| 0 <= i < y@.len() implies well_formed(x@[i].0) == well_formed(
                (#[trigger] y@[i]).0,
            ) && well_formed(x@[i].1) == well_formed(y@[i].1) && determined(x@[i].0)
                == determined(y@[i].0) && determined(x@[i].1) == determined(y@[i].1) by {
                assert(encoding(x@[i].0) == encoding(y@[i].0));
            }
            assert forall|i: int| 0 <= i < child_count(a) implies encoding(
                #[trigger] child(a, i),
            ) == encoding(child(b, i)) by {
                assert(encoding(x@[i / 2].0) == encoding(y@[i / 2].0));
            }
            lemma_same_children(a, b, child_count(a));
        },
        (DataItem::Tag { value: x, .. }, DataItem::Tag { value: y, .. }) => {
            lemma_same_tree(*x, *y);
            assert(encoding(child(a, 0)) == encoding(child(b, 0)));
            lemma_same_children(a, b, 1);
        },
        (DataItem::IndefiniteByteString(_), _) => {
            lemma_same_chunks(a, b, chunk_count(a));
            lemma_same_strings(a, b);
            lemma_same_children(a, b, 0);
        },
        (DataItem::IndefiniteTextString(_), _) => {
            lemma_same_chunks(a, b, chunk_count(a));
            lemma_same_strings(a, b);
            lemma_same_children(a, b, 0);
        },
        _ => {},
    }
}

/// The bits of a float as they are kept.
pub fn quiet_float(value: u64) -> (r: u64)
    ensures
        r == quiet_bits(value),
{
    match classify(value) {
        FloatClass::Nan => QUIET_NAN,
        _ => value,
    }
}

/// The quiet NaN can be written in every precision.
proof fn lemma_quiet_fits(value: u64, bitwidth: FloatWidth)
    requires
        representable(value, bitwidth),
    ensures
        representable(quiet_bits(value), bitwidth),
{
}

/// The items of a vector in reverse order.
fn turned<T>(back: Vec<T>) -> (out: Vec<T>)
    ensures
        out@.len() == back@.len(),
        forall|j: int| 0 <= j < out@.len() ==> out@[j] == back@[back@.len() - 1 - j],
{
    let ghost whole = back@;
    let mut back = back;
    let mut out: Vec<T> = Vec::new();
    while back.len() > 0
        invariant
            back@ =~= whole.take(back@.len() as int),
            out@.len() + back@.len() == whole.len(),
            forall|j: int| 0 <= j < out@.len() ==> out@[j] == whole[whole.len() - 1 - j],
        decreases back@.len(),
    {
        match back.pop() {
            Some(last) => {
                out.push(last);
            },
            None => {},
        }
    }
    out
}

/// Whether `kept` is `read` with the quiet NaN in place of every NaN,
/// and can be encoded where `read` can.
pub open spec fn quiets(read: DataItem, kept: DataItem) -> bool {
    &&& tree(kept) == quieted(tree(read))
    &&& well_formed(read) ==> well_formed(kept)
    &&& determined(read) ==> determined(kept)
}

/// Puts the quiet NaN in place of every NaN of an item.
pub fn quiet(item: DataItem) -> (kept: DataItem)
    ensures
        quiets(item, kept),
    decreases item,
{
    let ghost whole = item;
    proof {
        reveal(tree);
        reveal(trees);
        reveal(tree_pairs);
    }
    match item {
        DataItem::Float { value, bitwidth } => {
            proof {
                if representable(value, bitwidth) {
                    lemma_quiet_fits(value, bitwidth);
                }
            }
            DataItem::Float { value: quiet_float(value), bitwidth }
        },
        DataItem::Tag { tag, bitwidth, value } => {
            let inner = quiet(*value);
            DataItem::Tag { tag, bitwidth, value: Box::new(inner) }
        },
        DataItem::Array { data, bitwidth } => {
            let ghost read = data;
            let mut data = data;
            let mut back: Vec<DataItem> = Vec::new();
            while data.len() > 0
                invariant
                    item == whole,
                    whole matches DataItem::Array { data: d, .. } && d == read,
                    data@ =~= read@.take(data@.len() as int),
                    back@.len() + data@.len() == read@.len(),
                    forall|j: int|
                        0 <= j < back@.len() ==> quiets(
                            read@[read@.len() - 1 - j],
                            #[trigger] back@[j],
                        ),
                decreases data@.len(),
            {
                match data.pop() {
                    Some(last) => {
                        assert(last == read@[data@.len() as int]);
                        let kept = quiet(last);
                        back.push(kept);
                    },
                    None => {},
                }
            }
            let out = turned(back);
            proof {
                let elements = Seq::new(read@.len(), |i: int| quieted(tree(read@[i])));
                assert forall|i: int| 0 <= i < out@.len() implies elements[i] == tree(
                    #[trigger] out@[i],
                ) && quiets(read@[i], out@[i]) by {
                    assert(quiets(read@[read@.len() - 1 - (read@.len() - 1 - i)], back@[read@.len() - 1 - i]));
                }
                lemma_tree_of_array(out, bitwidth, elements);
                assert(trees(whole).len() == read@.len());
                assert forall|i: int| 0 <= i < read@.len() implies quieted(
                    tree(whole),
                )->Array_data[i] == elements[i] by {
                    assert(trees(whole)[i] == tree(read@[i]));
                }
                assert(quieted(tree(whole))->Array_data =~= elements);
            }
            DataItem::Array { data: out, bitwidth }
        },
        DataItem::Mapping { data, bitwidth } => {
            let ghost read = data;
            let mut data = data;
            let mut back: Vec<(DataItem, DataItem)> = Vec::new();
            while data.len() > 0
                invariant
                    item == whole,
                    whole matches DataItem::Mapping { data: d, .. } && d == read,
                    data@ =~= read@.take(data@.len() as int),
                    back@.len() + data@.len() == read@.len(),
                    forall|j: int|
                        0 <= j < back@.len() ==> quiets(
                            read@[read@.len() - 1 - j].0,
                            (#[trigger] back@[j]).0,
                        ) && quiets(read@[read@.len() - 1 - j].1, back@[j].1),
                decreases data@.len(),
            {
                match data.pop() {
                    Some((key, value)) => {
                        assert((key, value) == read@[data@.len() as int]);
                        let key = quiet(key);
                        let value = quiet(value);
                        back.push((key, value));
                    },
                    None => {},
                }
            }
            let out = turned(back);
            proof {
                let entries = Seq::new(
                    read@.len(),
                    |i: int| (quieted(tree(read@[i].0)), quieted(tree(read@[i].1))),
                );
                assert forall|i: int| 0 <= i < out@.len() implies entries[i] == (
                    tree((#[trigger] out@[i]).0),
                    tree(out@[i].1),
                ) && quiets(read@[i].0, out@[i].0) && quiets(read@[i].1, out@[i].1) by {
                    assert(quiets(read@[read@.len() - 1 - (read@.len() - 1 - i)].0, back@[read@.len() - 1 - i].0));
                }
                lemma_tree_of_mapping(out, bitwidth, entries);
                assert(tree_pairs(whole).len() == read@.len());
                assert forall|i: int| 0 <= i < read@.len() implies quieted(
                    tree(whole),
                )->Mapping_data[i] == entries[i] by {
                    assert(tree_pairs(whole)[i] == (tree(read@[i].0), tree(read@[i].1)));
                }
                assert(quieted(tree(whole))->Mapping_data =~= entries);
            }
            DataItem::Mapping { data: out, bitwidth }
        },
        other => other,
    }
}

} // verus!
