//! Floats as bit patterns. A float is held as the 64 bits of an IEEE 754
//! double; what can be said of it from the bits is said here, and its
//! decimal text is taken from a table that the caller fills.

use vstd::prelude::*;
use crate::model::{DataItem, FloatWidth};

verus! {

/// The biased exponent of a double: bits 52 to 62.
pub open spec fn exponent(bits: u64) -> nat {
    ((bits as nat) / 0x10_0000_0000_0000) % 0x800
}

/// The fraction of a double: bits 0 to 51.
pub open spec fn fraction(bits: u64) -> nat {
    (bits as nat) % 0x10_0000_0000_0000
}

/// Whether the sign bit of a double is set.
pub open spec fn negative(bits: u64) -> bool {
    bits >= 0x8000_0000_0000_0000
}

/// Whether the double is a NaN.
pub open spec fn is_nan(bits: u64) -> bool {
    exponent(bits) == 0x7ff && fraction(bits) != 0
}

/// Whether the double is an infinity.
pub open spec fn is_infinite(bits: u64) -> bool {
    exponent(bits) == 0x7ff && fraction(bits) == 0
}

/// Whether the double is a number: neither NaN nor infinite.
pub open spec fn is_finite(bits: u64) -> bool {
    exponent(bits) != 0x7ff
}

/// The three kinds of double that notation tells apart.
#[derive(Clone, Copy, Debug, PartialEq, Eq, Structural)]
pub enum FloatClass {
    Nan,
    Infinite,
    Finite,
}

/// Tells NaN, the infinities and the numbers apart.
pub fn classify(bits: u64) -> (class: FloatClass)
    ensures
        class == FloatClass::Nan <==> is_nan(bits),
        class == FloatClass::Infinite <==> is_infinite(bits),
        class == FloatClass::Finite <==> is_finite(bits),
{
    let exponent = (bits / 0x10_0000_0000_0000) % 0x800;
    let fraction = bits % 0x10_0000_0000_0000;
    if exponent != 0x7ff {
        FloatClass::Finite
    } else if fraction == 0 {
        FloatClass::Infinite
    } else {
        FloatClass::Nan
    }
}

/// Whether the sign bit of a double is set.
pub fn is_negative(bits: u64) -> (r: bool)
    ensures
        r == negative(bits),
{
    bits >= 0x8000_0000_0000_0000
}

/// The decimal text of one float, as written at the precision `bitwidth`.
#[derive(Clone, Debug, PartialEq, Eq)]
pub struct FloatText {
    pub value: u64,
    pub bitwidth: FloatWidth,
    pub text: String,
}

/// The decimal texts of the floats that are to be written. The library
/// does no floating-point arithmetic: whoever wants a number written
/// supplies its digits here.
#[derive(Clone, Debug, PartialEq, Eq)]
pub struct FloatTable {
    pub entries: Vec<FloatText>,
}

/// The text that `entries` gives for a float: that of the first entry with
/// this value and precision.
pub open spec fn lookup(entries: Seq<FloatText>, value: u64, bitwidth: FloatWidth) -> Option<
    Seq<char>,
>
    decreases entries.len(),
{
    if entries.len() == 0 {
        None
    } else if entries[0].value == value && entries[0].bitwidth == bitwidth {
        Some(entries[0].text@)
    } else {
        lookup(entries.skip(1), value, bitwidth)
    }
}

/// Whether `entries` has a text for every number among the floats of
/// `item`. NaN and the infinities need none.
pub open spec fn covers(entries: Seq<FloatText>, item: DataItem) -> bool
    decreases item,
{
    match item {
        DataItem::Float { value, bitwidth } => is_finite(value) ==> lookup(
            entries,
            value,
            bitwidth,
        ) is Some,
        DataItem::Array { data, .. } => forall|i: int|
            0 <= i < data@.len() ==> covers(entries, #[trigger] data@[i]),
        DataItem::Mapping { data, .. } => forall|i: int|
            0 <= i < data@.len() ==> covers(entries, (#[trigger] data@[i]).0) && covers(
                entries,
                data@[i].1,
            ),
        DataItem::Tag { value, .. } => covers(entries, *value),
        _ => true,
    }
}

impl FloatTable {
    /// The text that this table gives for a float.
    pub open spec fn text_of(&self, value: u64, bitwidth: FloatWidth) -> Option<Seq<char>> {
        lookup(self.entries@, value, bitwidth)
    }

    /// Whether this table has a text for every number among the floats of
    /// `item`.
    pub open spec fn covers(&self, item: DataItem) -> bool {
        covers(self.entries@, item)
    }

    /// A table without entries.
    pub fn new() -> (table: FloatTable)
        ensures
            table.entries@.len() == 0,
    {
        FloatTable { entries: Vec::new() }
    }

    /// The position of the first entry for a float, if there is one.
    pub fn find(&self, value: u64, bitwidth: FloatWidth) -> (found: Option<usize>)
        ensures
            found is Some <==> self.text_of(value, bitwidth) is Some,
            found matches Some(i) ==> i < self.entries@.len() && self.text_of(value, bitwidth)
                == Some(self.entries@[i as int].text@),
    {
        let mut i: usize = 0;
        assert(self.entries@.skip(0) =~= self.entries@);
        while i < self.entries.len()
            invariant
                i <= self.entries.len(),
                lookup(self.entries@.skip(i as int), value, bitwidth) == lookup(
                    self.entries@,
                    value,
                    bitwidth,
                ),
            decreases self.entries.len() - i,
        {
            let ghost rest = self.entries@.skip(i as int);
            assert(rest[0] == self.entries@[i as int]);
            assert(rest.skip(1) =~= self.entries@.skip(i + 1));
            if self.entries[i].value == value && self.entries[i].bitwidth == bitwidth {
                return Some(i);
            }
            i += 1;
        }
        None
    }

    /// Adds the text for a float. An entry that is there already stays in
    /// force.
    pub fn insert(&mut self, value: u64, bitwidth: FloatWidth, text: String)
        ensures
            final(self).entries@ == old(self).entries@.push(FloatText { value, bitwidth, text }),
            final(self).text_of(value, bitwidth) is Some,
            forall|v: u64, w: FloatWidth| #[trigger]
                old(self).text_of(v, w) is Some ==> final(self).text_of(v, w) == old(self).text_of(
                    v,
                    w,
                ),
    {
        proof {
            lemma_lookup_push(self.entries@, FloatText { value, bitwidth, text }, value, bitwidth);
            assert forall|v: u64, w: FloatWidth|
                lookup(self.entries@, v, w) is Some implies lookup(
                self.entries@.push(FloatText { value, bitwidth, text }),
                v,
                w,
            ) == lookup(self.entries@, v, w) by {
                lemma_lookup_push(self.entries@, FloatText { value, bitwidth, text }, v, w);
            }
        }
        self.entries.push(FloatText { value, bitwidth, text });
    }
}

/// An entry added at the end is found where no earlier entry matches, and
/// changes nothing where one does.
pub proof fn lemma_lookup_push(entries: Seq<FloatText>, entry: FloatText, value: u64, bitwidth: FloatWidth)
    ensures
        lookup(entries, value, bitwidth) is Some ==> lookup(entries.push(entry), value, bitwidth)
            == lookup(entries, value, bitwidth),
        lookup(entries, value, bitwidth) is None ==> lookup(entries.push(entry), value, bitwidth)
            == (if entry.value == value && entry.bitwidth == bitwidth {
            Some(entry.text@)
        } else {
            None
        }),
    decreases entries.len(),
{
    if entries.len() == 0 {
        assert(entries.push(entry).skip(1).len() == 0);
        assert(lookup(entries.push(entry).skip(1), value, bitwidth) is None);
        assert(entries.push(entry)[0] == entry);
    } else {
        assert(entries.push(entry)[0] == entries[0]);
        assert(entries.push(entry).skip(1) =~= entries.skip(1).push(entry));
        lemma_lookup_push(entries.skip(1), entry, value, bitwidth);
    }
}

/// Whether a table has every text that another has, unchanged.
pub open spec fn extends(old: Seq<FloatText>, new: Seq<FloatText>) -> bool {
    forall|value: u64, bitwidth: FloatWidth| #[trigger]
        lookup(old, value, bitwidth) is Some ==> lookup(new, value, bitwidth) == lookup(
            old,
            value,
            bitwidth,
        )
}

/// A table that has every text of another covers what the other covers.
pub proof fn lemma_covers_extends(old: Seq<FloatText>, new: Seq<FloatText>, item: DataItem)
    requires
        covers(old, item),
        extends(old, new),
    ensures
        covers(new, item),
    decreases item,
{
    match item {
        DataItem::Float { value, bitwidth } => {
            if is_finite(value) {
                assert(lookup(old, value, bitwidth) is Some);
            }
        },
        DataItem::Array { data, .. } => {
            assert forall|i: int| 0 <= i < data@.len() implies covers(new, #[trigger] data@[i]) by {
                lemma_covers_extends(old, new, data@[i]);
            }
        },
        DataItem::Mapping { data, .. } => {
            assert forall|i: int| 0 <= i < data@.len() implies covers(
                new,
                (#[trigger] data@[i]).0,
            ) && covers(new, data@[i].1) by {
                lemma_covers_extends(old, new, data@[i].0);
                lemma_covers_extends(old, new, data@[i].1);
            }
        },
        DataItem::Tag { value, .. } => {
            lemma_covers_extends(old, new, *value);
        },
        _ => {},
    }
}

/// Whether `new` is `old` with entries behind it that `render` gave: each
/// of them is for a number that had no text before it, and holds the text
/// that `render` returned for the number and its precision.
pub open spec fn filled<F: Fn(u64, FloatWidth) -> String>(
    old: Seq<FloatText>,
    new: Seq<FloatText>,
    render: F,
) -> bool {
    &&& old.len() <= new.len()
    &&& new.take(old.len() as int) == old
    &&& forall|i: int|
        old.len() <= i < new.len() ==> is_finite((#[trigger] new[i]).value) && lookup(
            new.take(i),
            new[i].value,
            new[i].bitwidth,
        ) is None && render.ensures((new[i].value, new[i].bitwidth), new[i].text)
}

/// What was filled twice in a row was filled.
pub proof fn lemma_filled_twice<F: Fn(u64, FloatWidth) -> String>(
    first: Seq<FloatText>,
    second: Seq<FloatText>,
    third: Seq<FloatText>,
    render: F,
)
    requires
        filled(first, second, render),
        filled(second, third, render),
    ensures
        filled(first, third, render),
{
    assert(third.take(first.len() as int) =~= third.take(second.len() as int).take(
        first.len() as int,
    ));
    assert forall|i: int| first.len() <= i < third.len() implies is_finite(
        (#[trigger] third[i]).value,
    ) && lookup(third.take(i), third[i].value, third[i].bitwidth) is None && render.ensures(
        (third[i].value, third[i].bitwidth),
        third[i].text,
    ) by {
        if i < second.len() {
            assert(third[i] == third.take(second.len() as int)[i]);
            assert(third.take(i) =~= second.take(i));
        }
    }
}

impl FloatTable {
    /// Adds what is missing for the floats of `item`, asking `render` for
    /// the digits of each number that has none yet. Nothing else is added,
    /// and no entry changes.
    pub fn add_item<F: Fn(u64, FloatWidth) -> String>(&mut self, item: &DataItem, render: &F)
        requires
            forall|value: u64, bitwidth: FloatWidth| render.requires((value, bitwidth)),
        ensures
            final(self).covers(*item),
            extends(old(self).entries@, final(self).entries@),
            filled(old(self).entries@, final(self).entries@, *render),
        decreases item,
    {
        proof {
            assert(self.entries@.take(self.entries@.len() as int) =~= self.entries@);
        }
        match item {
            DataItem::Float { value, bitwidth } => {
                if let FloatClass::Finite = classify(*value) {
                    if self.find(*value, *bitwidth).is_none() {
                        let text = render(*value, *bitwidth);
                        let ghost before = *self;
                        self.insert(*value, *bitwidth, text);
                        proof {
                            assert(self.entries@.take(before.entries@.len() as int)
                                =~= before.entries@);
                            assert forall|v: u64, w: FloatWidth| #[trigger]
                                lookup(before.entries@, v, w) is Some implies lookup(
                                self.entries@,
                                v,
                                w,
                            ) == lookup(before.entries@, v, w) by {
                                assert(before.text_of(v, w) is Some);
                            }
                        }
                    }
                }
            },
            DataItem::Array { data, .. } => {
                let mut i: usize = 0;
                while i < data.len()
                    invariant
                        i <= data.len(),
                        item matches DataItem::Array { data: d, .. } && d == data,
                        forall|value: u64, bitwidth: FloatWidth| render.requires((value, bitwidth)),
                        extends(old(self).entries@, self.entries@),
                        filled(old(self).entries@, self.entries@, *render),
                        forall|j: int| 0 <= j < i ==> covers(self.entries@, #[trigger] data@[j]),
                    decreases data.len() - i,
                {
                    let ghost before = self.entries@;
                    self.add_item(&data[i], render);
                    proof {
                        lemma_filled_twice(old(self).entries@, before, self.entries@, *render);
                        assert forall|j: int| 0 <= j < i implies covers(
                            self.entries@,
                            #[trigger] data@[j],
                        ) by {
                            lemma_covers_extends(before, self.entries@, data@[j]);
                        }
                    }
                    i += 1;
                }
            },
            DataItem::Mapping { data, .. } => {
                let mut i: usize = 0;
                while i < data.len()
                    invariant
                        i <= data.len(),
                        item matches DataItem::Mapping { data: d, .. } && d == data,
                        forall|value: u64, bitwidth: FloatWidth| render.requires((value, bitwidth)),
                        extends(old(self).entries@, self.entries@),
                        filled(old(self).entries@, self.entries@, *render),
                        forall|j: int|
                            0 <= j < i ==> covers(self.entries@, (#[trigger] data@[j]).0)
                                && covers(self.entries@, data@[j].1),
                    decreases data.len() - i,
                {
                    let ghost before = self.entries@;
                    self.add_item(&data[i].0, render);
                    let ghost between = self.entries@;
                    self.add_item(&data[i].1, render);
                    proof {
                        lemma_filled_twice(old(self).entries@, before, between, *render);
                        lemma_filled_twice(old(self).entries@, between, self.entries@, *render);
                        lemma_covers_extends(between, self.entries@, data@[i as int].0);
                        assert forall|j: int| 0 <= j < i implies covers(
                            self.entries@,
                            (#[trigger] data@[j]).0,
                        ) && covers(self.entries@, data@[j].1) by {
                            lemma_covers_extends(before, self.entries@, data@[j].0);
                            lemma_covers_extends(before, self.entries@, data@[j].1);
                        }
                    }
                    i += 1;
                }
            },
            DataItem::Tag { value, .. } => {
                self.add_item(value, render);
            },
            _ => {},
        }
    }

    /// The table for the floats of `item`, with the digits that `render`
    /// gives for each number.
    pub fn for_item<F: Fn(u64, FloatWidth) -> String>(item: &DataItem, render: &F) -> (table:
        FloatTable)
        requires
            forall|value: u64, bitwidth: FloatWidth| render.requires((value, bitwidth)),
        ensures
            table.covers(*item),
            filled(Seq::empty(), table.entries@, *render),
    {
        let mut table = FloatTable::new();
        assert(table.entries@ =~= Seq::<FloatText>::empty());
        table.add_item(item, render);
        table
    }

    /// Whether this table has a text for every number among the floats of
    /// `item`.
    pub fn has_all(&self, item: &DataItem) -> (r: bool)
        ensures
            r == self.covers(*item),
        decreases item,
    {
        match item {
            DataItem::Float { value, bitwidth } => {
                match classify(*value) {
                    FloatClass::Finite => self.find(*value, *bitwidth).is_some(),
                    _ => true,
                }
            },
            DataItem::Array { data, .. } => {
                let mut i: usize = 0;
                while i < data.len()
                    invariant
                        i <= data.len(),
                        item matches DataItem::Array { data: d, .. } && d == data,
                        forall|j: int| 0 <= j < i ==> covers(self.entries@, #[trigger] data@[j]),
                    decreases data.len() - i,
                {
                    if !self.has_all(&data[i]) {
                        return false;
                    }
                    i += 1;
                }
                true
            },
            DataItem::Mapping { data, .. } => {
                let mut i: usize = 0;
                while i < data.len()
                    invariant
                        i <= data.len(),
                        item matches DataItem::Mapping { data: d, .. } && d == data,
                        forall|j: int|
                            0 <= j < i ==> covers(self.entries@, (#[trigger] data@[j]).0)
                                && covers(self.entries@, data@[j].1),
                    decreases data.len() - i,
                {
                    if !self.has_all(&data[i].0) || !self.has_all(&data[i].1) {
                        return false;
                    }
                    i += 1;
                }
                true
            },
            DataItem::Tag { value, .. } => self.has_all(value),
            _ => true,
        }
    }
}

} // verus!
