//! Numbers and bytes as text: decimal and hexadecimal digits, and the
//! growing of a `String` one character at a time.

use vstd::prelude::*;

verus! {

/// `String::push` appends one character to the string.
pub assume_specification[ String::push ](s: &mut String, c: char)
    ensures
        final(s)@ == old(s)@.push(c),
;

/// The character of a digit below 16: `0` to `9`, then `a` to `f`.
pub open spec fn digit_char(d: nat) -> char {
    if d < 10 {
        (48 + d) as u8 as char
    } else {
        (87 + d) as u8 as char
    }
}

/// The decimal digits of `n`, most significant first, without leading zeros.
pub open spec fn decimal(n: nat) -> Seq<char>
    decreases n,
{
    if n < 10 {
        seq![digit_char(n)]
    } else {
        decimal(n / 10).push(digit_char(n % 10))
    }
}

/// The lowercase hexadecimal digits of `n`, without leading zeros.
pub open spec fn hex_digits(n: nat) -> Seq<char>
    decreases n,
{
    if n < 16 {
        seq![digit_char(n)]
    } else {
        hex_digits(n / 16).push(digit_char(n % 16))
    }
}

/// `count` copies of the character `c`.
pub open spec fn repeat(c: char, count: nat) -> Seq<char> {
    Seq::new(count, |i: int| c)
}

/// The hexadecimal digits of `n`, filled with zeros on the left up to
/// `width` characters; longer where `n` needs more.
pub open spec fn hex_padded(n: nat, width: nat) -> Seq<char> {
    let digits = hex_digits(n);
    if digits.len() >= width {
        digits
    } else {
        repeat('0', (width - digits.len()) as nat) + digits
    }
}

/// Two hexadecimal digits for each byte of `data`.
pub open spec fn hex_text(data: Seq<u8>) -> Seq<char>
    decreases data.len(),
{
    if data.len() == 0 {
        Seq::empty()
    } else {
        hex_text(data.drop_last()) + seq![
            digit_char((data.last() / 16) as nat),
            digit_char((data.last() % 16) as nat),
        ]
    }
}

/// A decimal number has at least one digit, and each digit is `0` to `9`.
pub proof fn lemma_decimal_digits(n: nat)
    ensures
        decimal(n).len() >= 1,
        forall|i: int| 0 <= i < decimal(n).len() ==> '0' <= #[trigger] decimal(n)[i] <= '9',
    decreases n,
{
    if n >= 10 {
        lemma_decimal_digits(n / 10);
    }
}

/// A number below `10^k` has at most `k` decimal digits.
pub proof fn lemma_decimal_len(n: nat, k: nat)
    requires
        k >= 1,
        n < vstd::arithmetic::power::pow(10, k),
    ensures
        decimal(n).len() <= k,
    decreases k,
{
    vstd::arithmetic::power::lemma_pow1(10);
    reveal(vstd::arithmetic::power::pow);
    if n >= 10 {
        assert(k >= 2) by {
            if k == 1 {
                assert(vstd::arithmetic::power::pow(10, 1) == 10);
            }
        }
        assert(vstd::arithmetic::power::pow(10, k) == 10 * vstd::arithmetic::power::pow(
            10,
            (k - 1) as nat,
        ));
        lemma_decimal_len(n / 10, (k - 1) as nat);
    }
}

/// The character of a digit below 16.
pub fn digit(d: u8) -> (c: char)
    requires
        d < 16,
    ensures
        c == digit_char(d as nat),
{
    if d < 10 {
        (48 + d) as char
    } else {
        (87 + d) as char
    }
}

/// Appends the decimal digits of `n`.
pub fn push_decimal(out: &mut String, n: u128)
    ensures
        final(out)@ == old(out)@ + decimal(n as nat),
    decreases n,
{
    if n >= 10 {
        push_decimal(out, n / 10);
    }
    out.push(digit((n % 10) as u8));
}

/// Appends the hexadecimal digits of `n`, without leading zeros.
pub fn push_hex_digits(out: &mut String, n: u128)
    ensures
        final(out)@ == old(out)@ + hex_digits(n as nat),
    decreases n,
{
    if n >= 16 {
        push_hex_digits(out, n / 16);
    }
    out.push(digit((n % 16) as u8));
}

/// Appends `count` copies of `c`.
pub fn push_repeat(out: &mut String, c: char, count: usize)
    ensures
        final(out)@ == old(out)@ + repeat(c, count as nat),
{
    let mut i: usize = 0;
    while i < count
        invariant
            i <= count,
            out@ == old(out)@ + repeat(c, i as nat),
        decreases count - i,
    {
        out.push(c);
        i += 1;
    }
}

/// A number below `16^k` has at most `k` hexadecimal digits.
pub proof fn lemma_hex_len(n: nat, k: nat)
    requires
        k >= 1,
        n < vstd::arithmetic::power::pow(16, k),
    ensures
        hex_digits(n).len() <= k,
    decreases k,
{
    vstd::arithmetic::power::lemma_pow1(16);
    reveal(vstd::arithmetic::power::pow);
    if n >= 16 {
        assert(k >= 2) by {
            if k == 1 {
                assert(vstd::arithmetic::power::pow(16, 1) == 16);
            }
        }
        assert(vstd::arithmetic::power::pow(16, k) == 16 * vstd::arithmetic::power::pow(
            16,
            (k - 1) as nat,
        ));
        lemma_hex_len(n / 16, (k - 1) as nat);
    }
}

/// The number of hexadecimal digits of `n`.
pub fn hex_len(n: u128) -> (len: usize)
    ensures
        len == hex_digits(n as nat).len(),
        1 <= len <= 32,
{
    proof {
        assert(vstd::arithmetic::power::pow(16, 32) == 0x1_0000_0000_0000_0000_0000_0000_0000_0000)
            by {
            reveal_with_fuel(vstd::arithmetic::power::pow, 33);
        }
        lemma_hex_len(n as nat, 32);
    }
    let mut len: usize = 1;
    let mut rest: u128 = n;
    while rest >= 16
        invariant
            1 <= len,
            hex_digits(n as nat).len() == hex_digits(rest as nat).len() + len - 1,
            hex_digits(n as nat).len() <= 32,
        decreases rest,
    {
        rest = rest / 16;
        len += 1;
    }
    len
}

/// Appends the hexadecimal digits of `n`, filled with zeros up to `width`.
pub fn push_hex_padded(out: &mut String, n: u128, width: usize)
    ensures
        final(out)@ == old(out)@ + hex_padded(n as nat, width as nat),
{
    let len = hex_len(n);
    if len < width {
        push_repeat(out, '0', width - len);
    }
    push_hex_digits(out, n);
}

/// The number of decimal digits of `n`.
pub fn decimal_len(n: u128) -> (len: usize)
    ensures
        len == decimal(n as nat).len(),
        1 <= len <= 39,
{
    proof {
        assert(vstd::arithmetic::power::pow(10, 39) == 1_000_000_000_000_000_000_000_000_000_000_000_000_000)
            by {
            reveal_with_fuel(vstd::arithmetic::power::pow, 40);
        }
        lemma_decimal_len(n as nat, 39);
    }
    let mut len: usize = 1;
    let mut rest: u128 = n;
    while rest >= 10
        invariant
            1 <= len,
            decimal(n as nat).len() == decimal(rest as nat).len() + len - 1,
            decimal(n as nat).len() <= 39,
        decreases rest,
    {
        rest = rest / 10;
        len += 1;
    }
    len
}

/// The smaller of `n` and `max`.
pub open spec fn capped(n: nat, max: usize) -> nat {
    if n < max {
        n
    } else {
        max as nat
    }
}

/// The smaller of `a + b` and `max`, computed without overflow.
pub fn capped_add(a: usize, b: usize, max: usize) -> (r: usize)
    ensures
        r == capped((a + b) as nat, max),
{
    if a >= max || b >= max - a {
        max
    } else {
        a + b
    }
}

/// Hexadecimal text has two characters for each byte.
pub proof fn lemma_hex_text_len(data: Seq<u8>)
    ensures
        hex_text(data).len() == 2 * data.len(),
    decreases data.len(),
{
    if data.len() > 0 {
        lemma_hex_text_len(data.drop_last());
    }
}

} // verus!
