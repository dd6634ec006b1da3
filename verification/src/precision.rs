//! The three precisions of IEEE 754 floats, as arithmetic on bit patterns.
//! A half or single precision float is widened to the double of the same
//! value when it is read, and a double is narrowed when it is written in a
//! smaller precision; narrowing succeeds exactly for the doubles that come
//! from widening.

use vstd::prelude::*;
use crate::model::{DataItem, FloatWidth};

verus! {

/// Doubles `fraction` until it reaches `top`, counting the exponent down.
pub open spec fn grow(fraction: int, exponent: int, top: int) -> (int, int)
    decreases 2 * top - fraction,
{
    if fraction <= 0 || fraction >= top {
        (fraction, exponent)
    } else {
        grow(2 * fraction, exponent - 1, top)
    }
}

/// Halves `fraction` `count` times, if that loses no bit.
pub open spec fn shrink(fraction: int, count: nat) -> Option<int>
    decreases count,
{
    if count == 0 {
        Some(fraction)
    } else if fraction % 2 == 0 {
        shrink(fraction / 2, (count - 1) as nat)
    } else {
        None
    }
}

/// The double with the value of the half precision float `bits`.
/// Infinities and NaNs keep their fraction bits, moved to the top.
pub open spec fn half_to_double(bits: int) -> int {
    let sign = bits / 0x8000;
    let exponent = (bits / 0x400) % 32;
    let fraction = bits % 0x400;
    let high = sign * 0x8000_0000_0000_0000;
    if exponent == 31 {
        high + 0x7ff0_0000_0000_0000 + fraction * 0x400_0000_0000
    } else if exponent > 0 {
        high + (exponent + 1008) * 0x10_0000_0000_0000 + fraction * 0x400_0000_0000
    } else if fraction == 0 {
        high
    } else {
        let (grown, field) = grow(fraction, 1009, 0x400);
        high + field * 0x10_0000_0000_0000 + (grown - 0x400) * 0x400_0000_0000
    }
}

/// The half precision float with the value of the double `bits`, if
/// there is one.
pub open spec fn double_to_half(bits: int) -> Option<int> {
    let sign = bits / 0x8000_0000_0000_0000;
    let exponent = (bits / 0x10_0000_0000_0000) % 0x800;
    let fraction = bits % 0x10_0000_0000_0000;
    let high = sign * 0x8000;
    if fraction % 0x400_0000_0000 != 0 {
        None
    } else if exponent == 0x7ff {
        Some(high + 0x7c00 + fraction / 0x400_0000_0000)
    } else if exponent == 0 {
        if fraction == 0 {
            Some(high)
        } else {
            None
        }
    } else if 1008 < exponent < 1039 {
        Some(high + (exponent - 1008) * 0x400 + fraction / 0x400_0000_0000)
    } else if 998 < exponent <= 1008 {
        match shrink(0x400 + fraction / 0x400_0000_0000, (1009 - exponent) as nat) {
            Some(small) => Some(high + small),
            None => None,
        }
    } else {
        None
    }
}

/// The double with the value of the single precision float `bits`.
/// Infinities and NaNs keep their fraction bits, moved to the top.
pub open spec fn single_to_double(bits: int) -> int {
    let sign = bits / 0x8000_0000;
    let exponent = (bits / 0x80_0000) % 256;
    let fraction = bits % 0x80_0000;
    let high = sign * 0x8000_0000_0000_0000;
    if exponent == 255 {
        high + 0x7ff0_0000_0000_0000 + fraction * 0x2000_0000
    } else if exponent > 0 {
        high + (exponent + 896) * 0x10_0000_0000_0000 + fraction * 0x2000_0000
    } else if fraction == 0 {
        high
    } else {
        let (grown, field) = grow(fraction, 897, 0x80_0000);
        high + field * 0x10_0000_0000_0000 + (grown - 0x80_0000) * 0x2000_0000
    }
}

/// The single precision float with the value of the double `bits`, if
/// there is one.
pub open spec fn double_to_single(bits: int) -> Option<int> {
    let sign = bits / 0x8000_0000_0000_0000;
    let exponent = (bits / 0x10_0000_0000_0000) % 0x800;
    let fraction = bits % 0x10_0000_0000_0000;
    let high = sign * 0x8000_0000;
    if fraction % 0x2000_0000 != 0 {
        None
    } else if exponent == 0x7ff {
        Some(high + 0x7f80_0000 + fraction / 0x2000_0000)
    } else if exponent == 0 {
        if fraction == 0 {
            Some(high)
        } else {
            None
        }
    } else if 896 < exponent < 1151 {
        Some(high + (exponent - 896) * 0x80_0000 + fraction / 0x2000_0000)
    } else if 873 < exponent <= 896 {
        match shrink(0x80_0000 + fraction / 0x2000_0000, (897 - exponent) as nat) {
            Some(small) => Some(high + small),
            None => None,
        }
    } else {
        None
    }
}

/// Whether the double `bits` can be written in the precision `bitwidth`
/// without loss.
pub open spec fn representable(bits: u64, bitwidth: FloatWidth) -> bool {
    match bitwidth {
        FloatWidth::Sixteen => double_to_half(bits as int) is Some,
        FloatWidth::ThirtyTwo => double_to_single(bits as int) is Some,
        _ => true,
    }
}

/// Whether every float of `item` can be written in its precision without
/// loss.
pub open spec fn precise(item: DataItem) -> bool
    decreases item,
{
    match item {
        DataItem::Float { value, bitwidth } => representable(value, bitwidth),
        DataItem::Array { data, .. } => forall|i: int|
            0 <= i < data@.len() ==> precise(#[trigger] data@[i]),
        DataItem::Mapping { data, .. } => forall|i: int|
            0 <= i < data@.len() ==> precise((#[trigger] data@[i]).0) && precise(data@[i].1),
        DataItem::Tag { value, .. } => precise(*value),
        _ => true,
    }
}

/// The precision in which a float is written: the chosen one, or the
/// narrowest without loss where none was chosen.
pub open spec fn wire_width(bits: u64, bitwidth: FloatWidth) -> FloatWidth {
    match bitwidth {
        FloatWidth::Unknown => if double_to_half(bits as int) is Some {
            FloatWidth::Sixteen
        } else if double_to_single(bits as int) is Some {
            FloatWidth::ThirtyTwo
        } else {
            FloatWidth::SixtyFour
        },
        _ => bitwidth,
    }
}

/// The bit pattern that is written for the double `bits` in the precision
/// `wire_width(bits, bitwidth)`.
pub open spec fn wire_bits(bits: u64, bitwidth: FloatWidth) -> int {
    match wire_width(bits, bitwidth) {
        FloatWidth::Sixteen => match double_to_half(bits as int) {
            Some(small) => small,
            None => 0,
        },
        FloatWidth::ThirtyTwo => match double_to_single(bits as int) {
            Some(small) => small,
            None => 0,
        },
        _ => bits as int,
    }
}

/// Growing a fraction below `top` doubles it some times over, and
/// shrinking undoes it.
pub proof fn lemma_grow_shrink(fraction: int, exponent: int, top: int)
    requires
        0 < fraction < top,
    ensures
        top <= grow(fraction, exponent, top).0 < 2 * top,
        grow(fraction, exponent, top).1 < exponent,
        shrink(grow(fraction, exponent, top).0, (exponent - grow(fraction, exponent, top).1) as nat)
            == Some(fraction),
    decreases 2 * top - fraction,
{
    if 2 * fraction < top {
        lemma_grow_shrink(2 * fraction, exponent - 1, top);
        let grown = grow(fraction, exponent, top);
        lemma_shrink_doubled(fraction, grown.0, (exponent - 1 - grown.1) as nat);
    } else {
        assert(grow(2 * fraction, exponent - 1, top) == (2 * fraction, exponent - 1));
        assert(shrink(2 * fraction, 1) == shrink(fraction, 0));
    }
}

/// What shrinks to twice a number shrinks to the number in one more step.
pub proof fn lemma_shrink_doubled(fraction: int, grown: int, count: nat)
    requires
        shrink(grown, count) == Some(2 * fraction),
    ensures
        shrink(grown, count + 1) == Some(fraction),
    decreases count,
{
    if count == 0 {
        assert(shrink(grown / 2, 0) == Some(grown / 2));
    } else {
        lemma_shrink_doubled(fraction, grown / 2, (count - 1) as nat);
    }
}

/// What shrinks to a number is that number doubled as many times, and
/// growing the number gives it back.
pub proof fn lemma_shrink_grow(grown: int, count: nat, exponent: int, top: int)
    requires
        top <= grown < 2 * top,
        count >= 1,
        shrink(grown, count) is Some,
    ensures
        0 < shrink(grown, count)->0 < top,
        grow(shrink(grown, count)->0, exponent, top) == (grown, exponent - count),
    decreases count,
{
    let small = shrink(grown, count)->0;
    lemma_shrink_last(grown, count);
    let once = shrink(grown, (count - 1) as nat)->0;
    if count == 1 {
        assert(once == grown);
        assert(grow(2 * small, exponent - 1, top) == (grown, exponent - 1));
    } else {
        lemma_shrink_grow(grown, (count - 1) as nat, exponent - 1, top);
        assert(grow(2 * small, exponent - 1, top) == (grown, exponent - count));
    }
}

/// The last step of shrinking halves what the steps before it gave.
pub proof fn lemma_shrink_last(grown: int, count: nat)
    requires
        count >= 1,
        shrink(grown, count) is Some,
    ensures
        shrink(grown, (count - 1) as nat) is Some,
        shrink(grown, (count - 1) as nat)->0 == 2 * shrink(grown, count)->0,
    decreases count,
{
    if count == 1 {
        assert(shrink(grown / 2, 0) == Some(grown / 2));
    } else {
        lemma_shrink_last(grown / 2, (count - 1) as nat);
    }
}

/// Growing a positive fraction below two to the `bits` takes no more than
/// `bits` steps.
pub proof fn lemma_grow_count(fraction: int, exponent: int, top: int, bits: nat)
    requires
        0 < fraction < top,
        top == vstd::arithmetic::power2::pow2(bits),
    ensures
        exponent - grow(fraction, exponent, top).1 <= bits,
    decreases bits,
{
    vstd::arithmetic::power2::lemma2_to64();
    if bits == 0 {
    } else {
        vstd::arithmetic::power2::lemma_pow2_unfold(bits);
        let half_top = vstd::arithmetic::power2::pow2((bits - 1) as nat) as int;
        if fraction < half_top {
            lemma_grow_count(fraction, exponent, half_top, (bits - 1) as nat);
            lemma_grow_further(fraction, exponent, half_top);
        } else {
            assert(grow(2 * fraction, exponent - 1, top) == (2 * fraction, exponent - 1));
        }
    }
}

/// Growing up to twice a bound takes one step more than growing up to the
/// bound.
pub proof fn lemma_grow_further(fraction: int, exponent: int, top: int)
    requires
        0 < fraction < top,
    ensures
        grow(fraction, exponent, 2 * top) == (
            2 * grow(fraction, exponent, top).0,
            grow(fraction, exponent, top).1 - 1,
        ),
    decreases 2 * top - fraction,
{
    if 2 * fraction < top {
        lemma_grow_further(2 * fraction, exponent - 1, top);
    } else {
        assert(grow(2 * fraction, exponent - 1, top) == (2 * fraction, exponent - 1));
        assert(grow(4 * fraction, exponent - 2, 2 * top) == (4 * fraction, exponent - 2));
        assert(grow(2 * fraction, exponent - 1, 2 * top) == grow(
            4 * fraction,
            exponent - 2,
            2 * top,
        ));
    }
}

/// Widening a half precision float and narrowing the double gives the
/// float back.
#[verifier::rlimit(40)]
pub proof fn lemma_half_narrow_widen(bits: int)
    requires
        0 <= bits < 0x1_0000,
    ensures
        0 <= half_to_double(bits) < 0x1_0000_0000_0000_0000,
        double_to_half(half_to_double(bits)) == Some(bits),
{
    let sign = bits / 0x8000;
    let exponent = (bits / 0x400) % 32;
    let fraction = bits % 0x400;
    let wide = half_to_double(bits);
    assert(bits == sign * 0x8000 + exponent * 0x400 + fraction);
    assert(0 <= sign <= 1);
    if exponent == 0 && fraction != 0 {
        lemma_grow_shrink(fraction, 1009, 0x400);
        let (grown, field) = grow(fraction, 1009, 0x400);
        vstd::arithmetic::power2::lemma2_to64();
        lemma_grow_count(fraction, 1009, 0x400, 10);
        let body = field * 0x10_0000_0000_0000 + (grown - 0x400) * 0x400_0000_0000;
        assert(wide == sign * 0x8000_0000_0000_0000 + body);
        assert(0 <= (grown - 0x400) * 0x400_0000_0000 < 0x10_0000_0000_0000);
        assert(wide / 0x8000_0000_0000_0000 == sign);
        assert((wide / 0x10_0000_0000_0000) % 0x800 == field);
        assert(wide % 0x10_0000_0000_0000 == (grown - 0x400) * 0x400_0000_0000);
        assert(((grown - 0x400) * 0x400_0000_0000) % 0x400_0000_0000 == 0);
        assert(((grown - 0x400) * 0x400_0000_0000) / 0x400_0000_0000 == grown - 0x400);
    } else if exponent == 31 {
        let body = 0x7ff0_0000_0000_0000 + fraction * 0x400_0000_0000;
        assert(wide == sign * 0x8000_0000_0000_0000 + body);
        assert(wide / 0x8000_0000_0000_0000 == sign);
        assert((wide / 0x10_0000_0000_0000) % 0x800 == 0x7ff);
        assert(wide % 0x10_0000_0000_0000 == fraction * 0x400_0000_0000);
        assert((fraction * 0x400_0000_0000) % 0x400_0000_0000 == 0);
        assert((fraction * 0x400_0000_0000) / 0x400_0000_0000 == fraction);
    } else if exponent > 0 {
        let body = (exponent + 1008) * 0x10_0000_0000_0000 + fraction * 0x400_0000_0000;
        assert(wide == sign * 0x8000_0000_0000_0000 + body);
        assert(wide / 0x8000_0000_0000_0000 == sign);
        assert((wide / 0x10_0000_0000_0000) % 0x800 == exponent + 1008);
        assert(wide % 0x10_0000_0000_0000 == fraction * 0x400_0000_0000);
        assert((fraction * 0x400_0000_0000) % 0x400_0000_0000 == 0);
        assert((fraction * 0x400_0000_0000) / 0x400_0000_0000 == fraction);
    } else {
        assert(wide == sign * 0x8000_0000_0000_0000);
    }
}

/// A double that narrows to a half precision float is what that float
/// widens to.
pub proof fn lemma_half_widen_narrow(bits: int)
    requires
        0 <= bits < 0x1_0000_0000_0000_0000,
        double_to_half(bits) is Some,
    ensures
        0 <= double_to_half(bits)->0 < 0x1_0000,
        half_to_double(double_to_half(bits)->0) == bits,
{
    let sign = bits / 0x8000_0000_0000_0000;
    let exponent = (bits / 0x10_0000_0000_0000) % 0x800;
    let fraction = bits % 0x10_0000_0000_0000;
    let small = double_to_half(bits)->0;
    let part = fraction / 0x400_0000_0000;
    assert(bits == sign * 0x8000_0000_0000_0000 + exponent * 0x10_0000_0000_0000 + fraction);
    assert(fraction == part * 0x400_0000_0000);
    assert(0 <= part < 0x400);
    assert(0 <= sign <= 1);
    if exponent == 0x7ff {
        assert(small == sign * 0x8000 + 31 * 0x400 + part);
        assert((small / 0x400) % 32 == 31);
        assert(small % 0x400 == part);
        assert(small / 0x8000 == sign);
    } else if exponent == 0 {
        assert(small == sign * 0x8000);
    } else if exponent > 1008 {
        assert(small == sign * 0x8000 + (exponent - 1008) * 0x400 + part);
        assert((small / 0x400) % 32 == exponent - 1008);
        assert(small % 0x400 == part);
        assert(small / 0x8000 == sign);
    } else {
        let count = (1009 - exponent) as nat;
        let grown = 0x400 + part;
        lemma_shrink_grow(grown, count, 1009, 0x400);
        let low = shrink(grown, count)->0;
        assert(small == sign * 0x8000 + low);
        assert((small / 0x400) % 32 == 0);
        assert(small % 0x400 == low);
        assert(small / 0x8000 == sign);
    }
}

/// Widening a single precision float and narrowing the double gives the
/// float back.
#[verifier::rlimit(40)]
pub proof fn lemma_single_narrow_widen(bits: int)
    requires
        0 <= bits < 0x1_0000_0000,
    ensures
        0 <= single_to_double(bits) < 0x1_0000_0000_0000_0000,
        double_to_single(single_to_double(bits)) == Some(bits),
{
    let sign = bits / 0x8000_0000;
    let exponent = (bits / 0x80_0000) % 256;
    let fraction = bits % 0x80_0000;
    let wide = single_to_double(bits);
    assert(bits == sign * 0x8000_0000 + exponent * 0x80_0000 + fraction);
    assert(0 <= sign <= 1);
    if exponent == 0 && fraction != 0 {
        lemma_grow_shrink(fraction, 897, 0x80_0000);
        let (grown, field) = grow(fraction, 897, 0x80_0000);
        vstd::arithmetic::power2::lemma2_to64();
        lemma_grow_count(fraction, 897, 0x80_0000, 23);
        let body = field * 0x10_0000_0000_0000 + (grown - 0x80_0000) * 0x2000_0000;
        assert(wide == sign * 0x8000_0000_0000_0000 + body);
        assert(0 <= (grown - 0x80_0000) * 0x2000_0000 < 0x10_0000_0000_0000);
        assert(wide / 0x8000_0000_0000_0000 == sign);
        assert((wide / 0x10_0000_0000_0000) % 0x800 == field);
        assert(wide % 0x10_0000_0000_0000 == (grown - 0x80_0000) * 0x2000_0000);
        assert(((grown - 0x80_0000) * 0x2000_0000) % 0x2000_0000 == 0);
        assert(((grown - 0x80_0000) * 0x2000_0000) / 0x2000_0000 == grown - 0x80_0000);
    } else if exponent == 255 {
        let body = 0x7ff0_0000_0000_0000 + fraction * 0x2000_0000;
        assert(wide == sign * 0x8000_0000_0000_0000 + body);
        assert(wide / 0x8000_0000_0000_0000 == sign);
        assert((wide / 0x10_0000_0000_0000) % 0x800 == 0x7ff);
        assert(wide % 0x10_0000_0000_0000 == fraction * 0x2000_0000);
        assert((fraction * 0x2000_0000) % 0x2000_0000 == 0);
        assert((fraction * 0x2000_0000) / 0x2000_0000 == fraction);
    } else if exponent > 0 {
        let body = (exponent + 896) * 0x10_0000_0000_0000 + fraction * 0x2000_0000;
        assert(wide == sign * 0x8000_0000_0000_0000 + body);
        assert(wide / 0x8000_0000_0000_0000 == sign);
        assert((wide / 0x10_0000_0000_0000) % 0x800 == exponent + 896);
        assert(wide % 0x10_0000_0000_0000 == fraction * 0x2000_0000);
        assert((fraction * 0x2000_0000) % 0x2000_0000 == 0);
        assert((fraction * 0x2000_0000) / 0x2000_0000 == fraction);
    } else {
        assert(wide == sign * 0x8000_0000_0000_0000);
    }
}

/// A double that narrows to a single precision float is what that float
/// widens to.
pub proof fn lemma_single_widen_narrow(bits: int)
    requires
        0 <= bits < 0x1_0000_0000_0000_0000,
        double_to_single(bits) is Some,
    ensures
        0 <= double_to_single(bits)->0 < 0x1_0000_0000,
        single_to_double(double_to_single(bits)->0) == bits,
{
    let sign = bits / 0x8000_0000_0000_0000;
    let exponent = (bits / 0x10_0000_0000_0000) % 0x800;
    let fraction = bits % 0x10_0000_0000_0000;
    let small = double_to_single(bits)->0;
    let part = fraction / 0x2000_0000;
    assert(bits == sign * 0x8000_0000_0000_0000 + exponent * 0x10_0000_0000_0000 + fraction);
    assert(fraction == part * 0x2000_0000);
    assert(0 <= part < 0x80_0000);
    assert(0 <= sign <= 1);
    if exponent == 0x7ff {
        assert(small == sign * 0x8000_0000 + 255 * 0x80_0000 + part);
        assert((small / 0x80_0000) % 256 == 255);
        assert(small % 0x80_0000 == part);
        assert(small / 0x8000_0000 == sign);
    } else if exponent == 0 {
        assert(small == sign * 0x8000_0000);
    } else if exponent > 896 {
        assert(small == sign * 0x8000_0000 + (exponent - 896) * 0x80_0000 + part);
        assert((small / 0x80_0000) % 256 == exponent - 896);
        assert(small % 0x80_0000 == part);
        assert(small / 0x8000_0000 == sign);
    } else {
        let count = (897 - exponent) as nat;
        let grown = 0x80_0000 + part;
        lemma_shrink_grow(grown, count, 897, 0x80_0000);
        let low = shrink(grown, count)->0;
        assert(small == sign * 0x8000_0000 + low);
        assert((small / 0x80_0000) % 256 == 0);
        assert(small % 0x80_0000 == low);
        assert(small / 0x8000_0000 == sign);
    }
}

/// Widens a half precision float to the double of the same value.
pub fn widen_half(bits: u16) -> (wide: u64)
    ensures
        wide == half_to_double(bits as int),
        double_to_half(wide as int) == Some(bits as int),
{
    proof {
        lemma_half_narrow_widen(bits as int);
    }
    let sign: u64 = (bits / 0x8000) as u64;
    let exponent: u64 = ((bits / 0x400) % 32) as u64;
    let fraction: u64 = (bits % 0x400) as u64;
    let high: u64 = sign * 0x8000_0000_0000_0000;
    if exponent == 31 {
        high + 0x7ff0_0000_0000_0000 + fraction * 0x400_0000_0000
    } else if exponent > 0 {
        high + (exponent + 1008) * 0x10_0000_0000_0000 + fraction * 0x400_0000_0000
    } else if fraction == 0 {
        high
    } else {
        let mut grown: u64 = fraction;
        let mut field: u64 = 1009;
        proof {
            vstd::arithmetic::power2::lemma2_to64();
            lemma_grow_count(fraction as int, 1009, 0x400, 10);
            lemma_grow_shrink(fraction as int, 1009, 0x400);
        }
        while grown < 0x400
            invariant
                0 < grown < 2048,
                grow(grown as int, field as int, 0x400) == grow(fraction as int, 1009, 0x400),
                grow(fraction as int, 1009, 0x400).1 >= 999,
                grown < 0x400 ==> field > 999,
                field <= 1009,
            decreases 2048 - grown,
        {
            grown = 2 * grown;
            field = field - 1;
            proof {
                if grown < 0x400 {
                    lemma_grow_shrink(grown as int, field as int, 0x400);
                }
            }
        }
        high + field * 0x10_0000_0000_0000 + (grown - 0x400) * 0x400_0000_0000
    }
}

/// Narrows a double to the half precision float of the same value, if
/// there is one.
pub fn narrow_half(bits: u64) -> (small: Option<u16>)
    ensures
        small is Some <==> double_to_half(bits as int) is Some,
        small matches Some(narrow) ==> double_to_half(bits as int) == Some(narrow as int)
            && half_to_double(narrow as int) == bits,
{
    proof {
        if double_to_half(bits as int) is Some {
            lemma_half_widen_narrow(bits as int);
        }
    }
    let sign: u64 = bits / 0x8000_0000_0000_0000;
    let exponent: u64 = (bits / 0x10_0000_0000_0000) % 0x800;
    let fraction: u64 = bits % 0x10_0000_0000_0000;
    let high: u64 = sign * 0x8000;
    let part: u64 = fraction / 0x400_0000_0000;
    if fraction % 0x400_0000_0000 != 0 {
        None
    } else if exponent == 0x7ff {
        Some((high + 0x7c00 + part) as u16)
    } else if exponent == 0 {
        if fraction == 0 {
            Some(high as u16)
        } else {
            None
        }
    } else if exponent > 1008 {
        if exponent < 1039 {
            Some((high + (exponent - 1008) * 0x400 + part) as u16)
        } else {
            None
        }
    } else if exponent > 998 {
        let mut value: u64 = 0x400 + part;
        let mut count: u64 = 1009 - exponent;
        while count > 0
            invariant
                shrink(value as int, count as nat) == shrink(
                    0x400 + part as int,
                    (1009 - exponent) as nat,
                ),
                value <= 0x400 + part,
                double_to_half(bits as int) == (match shrink(
                    0x400 + part as int,
                    (1009 - exponent) as nat,
                ) {
                    Some(small) => Some(high + small),
                    None => None,
                }),
            decreases count,
        {
            if value % 2 != 0 {
                return None;
            }
            value = value / 2;
            count = count - 1;
        }
        Some((high + value) as u16)
    } else {
        None
    }
}

/// Widens a single precision float to the double of the same value.
pub fn widen_single(bits: u32) -> (wide: u64)
    ensures
        wide == single_to_double(bits as int),
        double_to_single(wide as int) == Some(bits as int),
{
    proof {
        lemma_single_narrow_widen(bits as int);
    }
    let sign: u64 = (bits / 0x8000_0000) as u64;
    let exponent: u64 = ((bits / 0x80_0000) % 256) as u64;
    let fraction: u64 = (bits % 0x80_0000) as u64;
    let high: u64 = sign * 0x8000_0000_0000_0000;
    if exponent == 255 {
        high + 0x7ff0_0000_0000_0000 + fraction * 0x2000_0000
    } else if exponent > 0 {
        high + (exponent + 896) * 0x10_0000_0000_0000 + fraction * 0x2000_0000
    } else if fraction == 0 {
        high
    } else {
        let mut grown: u64 = fraction;
        let mut field: u64 = 897;
        proof {
            vstd::arithmetic::power2::lemma2_to64();
            lemma_grow_count(fraction as int, 897, 0x80_0000, 23);
            lemma_grow_shrink(fraction as int, 897, 0x80_0000);
        }
        while grown < 0x80_0000
            invariant
                0 < grown < 16777216,
                grow(grown as int, field as int, 0x80_0000) == grow(fraction as int, 897, 0x80_0000),
                grow(fraction as int, 897, 0x80_0000).1 >= 874,
                grown < 0x80_0000 ==> field > 874,
                field <= 897,
            decreases 16777216 - grown,
        {
            grown = 2 * grown;
            field = field - 1;
            proof {
                if grown < 0x80_0000 {
                    lemma_grow_shrink(grown as int, field as int, 0x80_0000);
                }
            }
        }
        high + field * 0x10_0000_0000_0000 + (grown - 0x80_0000) * 0x2000_0000
    }
}

/// Narrows a double to the single precision float of the same value, if
/// there is one.
pub fn narrow_single(bits: u64) -> (small: Option<u32>)
    ensures
        small is Some <==> double_to_single(bits as int) is Some,
        small matches Some(narrow) ==> double_to_single(bits as int) == Some(narrow as int)
            && single_to_double(narrow as int) == bits,
{
    proof {
        if double_to_single(bits as int) is Some {
            lemma_single_widen_narrow(bits as int);
        }
    }
    let sign: u64 = bits / 0x8000_0000_0000_0000;
    let exponent: u64 = (bits / 0x10_0000_0000_0000) % 0x800;
    let fraction: u64 = bits % 0x10_0000_0000_0000;
    let high: u64 = sign * 0x8000_0000;
    let part: u64 = fraction / 0x2000_0000;
    if fraction % 0x2000_0000 != 0 {
        None
    } else if exponent == 0x7ff {
        Some((high + 0x7f80_0000 + part) as u32)
    } else if exponent == 0 {
        if fraction == 0 {
            Some(high as u32)
        } else {
            None
        }
    } else if exponent > 896 {
        if exponent < 1151 {
            Some((high + (exponent - 896) * 0x80_0000 + part) as u32)
        } else {
            None
        }
    } else if exponent > 873 {
        let mut value: u64 = 0x80_0000 + part;
        let mut count: u64 = 897 - exponent;
        while count > 0
            invariant
                shrink(value as int, count as nat) == shrink(
                    0x80_0000 + part as int,
                    (897 - exponent) as nat,
                ),
                value <= 0x80_0000 + part,
                double_to_single(bits as int) == (match shrink(
                    0x80_0000 + part as int,
                    (897 - exponent) as nat,
                ) {
                    Some(small) => Some(high + small),
                    None => None,
                }),
            decreases count,
        {
            if value % 2 != 0 {
                return None;
            }
            value = value / 2;
            count = count - 1;
        }
        Some((high + value) as u32)
    } else {
        None
    }
}

/// The precision and the bit pattern in which a float is written.
pub fn wire(bits: u64, bitwidth: FloatWidth) -> (r: (FloatWidth, u64))
    requires
        representable(bits, bitwidth),
    ensures
        r.0 == wire_width(bits, bitwidth),
        r.1 == wire_bits(bits, bitwidth),
        r.0 != FloatWidth::Unknown,
        r.0 == FloatWidth::Sixteen ==> r.1 < 0x1_0000 && half_to_double(r.1 as int) == bits,
        r.0 == FloatWidth::ThirtyTwo ==> r.1 < 0x1_0000_0000 && single_to_double(r.1 as int)
            == bits,
        r.0 == FloatWidth::SixtyFour ==> r.1 == bits,
{
    match bitwidth {
        FloatWidth::Unknown => {
            match narrow_half(bits) {
                Some(small) => (FloatWidth::Sixteen, small as u64),
                None => match narrow_single(bits) {
                    Some(small) => (FloatWidth::ThirtyTwo, small as u64),
                    None => (FloatWidth::SixtyFour, bits),
                },
            }
        },
        FloatWidth::Sixteen => {
            match narrow_half(bits) {
                Some(small) => (FloatWidth::Sixteen, small as u64),
                None => (FloatWidth::Sixteen, 0),
            }
        },
        FloatWidth::ThirtyTwo => {
            match narrow_single(bits) {
                Some(small) => (FloatWidth::ThirtyTwo, small as u64),
                None => (FloatWidth::ThirtyTwo, 0),
            }
        },
        FloatWidth::SixtyFour => (FloatWidth::SixtyFour, bits),
    }
}

/// Whether the double `bits` can be written in the precision `bitwidth`
/// without loss.
pub fn is_representable(bits: u64, bitwidth: FloatWidth) -> (r: bool)
    ensures
        r == representable(bits, bitwidth),
{
    match bitwidth {
        FloatWidth::Sixteen => narrow_half(bits).is_some(),
        FloatWidth::ThirtyTwo => narrow_single(bits).is_some(),
        _ => true,
    }
}

impl DataItem {
    /// Whether every float of this item can be written in its precision
    /// without loss.
    pub fn is_precise(&self) -> (r: bool)
        ensures
            r == precise(*self),
        decreases self,
    {
        match self {
            DataItem::Float { value, bitwidth } => is_representable(*value, *bitwidth),
            DataItem::Array { data, .. } => {
                let mut i: usize = 0;
                while i < data.len()
                    invariant
                        i <= data.len(),
                        self matches DataItem::Array { data: d, .. } && d == data,
                        forall|j: int| 0 <= j < i ==> precise(#[trigger] data@[j]),
                    decreases data.len() - i,
                {
                    if !data[i].is_precise() {
                        return false;
                    }
                    i += 1;
                }
                true
            },
            DataItem::Mapping { data, .. } => {
                let mut i: usize = 0;
                while i < data.len()
                    invariant
                        i <= data.len(),
                        self matches DataItem::Mapping { data: d, .. } && d == data,
                        forall|j: int|
                            0 <= j < i ==> precise((#[trigger] data@[j]).0) && precise(
                                data@[j].1,
                            ),
                    decreases data.len() - i,
                {
                    if !data[i].0.is_precise() || !data[i].1.is_precise() {
                        return false;
                    }
                    i += 1;
                }
                true
            },
            DataItem::Tag { value, .. } => value.is_precise(),
            _ => true,
        }
    }
}

} // verus!
