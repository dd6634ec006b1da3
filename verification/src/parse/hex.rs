//! Hexadecimal text: digits, two to a byte, between which white space and
//! comments from `#` to the end of the line may stand.

use vstd::prelude::*;
use crate::encode::bytes::well_formed;
use crate::error::Error;
use crate::model::DataItem;
use crate::parse::bytes::{Shape, determined, held, parse_bytes, recognize};

verus! {

/// The value of a hexadecimal digit, in either case.
pub open spec fn hex_value(c: char) -> Option<nat> {
    if '0' <= c && c <= '9' {
        Some((c as nat - 48) as nat)
    } else if 'a' <= c && c <= 'f' {
        Some((c as nat - 87) as nat)
    } else if 'A' <= c && c <= 'F' {
        Some((c as nat - 55) as nat)
    } else {
        None
    }
}

/// Whether a character is ASCII white space: a space, a tab, a line feed,
/// a form feed or a carriage return.
pub open spec fn is_space(c: char) -> bool {
    c == ' ' || c == '\t' || c == '\n' || c == '\x0c' || c == '\r'
}

/// Whether the character at `at` stands in a comment: behind a `#` on the
/// same line, or is the `#` itself.
pub open spec fn commented(text: Seq<char>, at: int) -> bool
    decreases at + 1,
{
    if at < 0 || at >= text.len() {
        false
    } else if text[at] == '#' {
        true
    } else if text[at] == '\n' {
        false
    } else {
        commented(text, at - 1)
    }
}

/// The characters among the first `upto` of a text that stand neither in
/// a comment nor for white space.
pub open spec fn digits(text: Seq<char>, upto: nat) -> Seq<char>
    decreases upto,
{
    if upto == 0 || upto > text.len() {
        Seq::empty()
    } else if commented(text, upto - 1) || is_space(text[upto - 1]) {
        digits(text, (upto - 1) as nat)
    } else {
        digits(text, (upto - 1) as nat).push(text[upto - 1])
    }
}

/// Whether characters are hexadecimal digits, an even number of them.
pub open spec fn pairs(digits: Seq<char>) -> bool {
    digits.len() % 2 == 0 && forall|i: int|
        0 <= i < digits.len() ==> hex_value(#[trigger] digits[i]) is Some
}

/// The bytes that hexadecimal digits stand for, two digits each.
pub open spec fn paired(digits: Seq<char>) -> Seq<u8> {
    Seq::new(
        digits.len() / 2,
        |i: int| (16 * hex_value(digits[2 * i])->0 + hex_value(digits[2 * i + 1])->0) as u8,
    )
}

/// The digits among the first characters of a text are among those of the
/// whole.
pub proof fn lemma_digits_grow(text: Seq<char>, upto: nat, at: int)
    requires
        upto <= text.len(),
        0 <= at < digits(text, upto).len(),
    ensures
        digits(text, text.len()).len() >= digits(text, upto).len(),
        digits(text, text.len())[at] == digits(text, upto)[at],
    decreases text.len() - upto,
{
    if upto < text.len() {
        lemma_digits_grow(text, upto + 1, at);
    }
}

/// The value of a hexadecimal digit, if the character is one.
fn digit_value(c: char) -> (value: Option<u8>)
    ensures
        value is Some <==> hex_value(c) is Some,
        value matches Some(v) ==> v == hex_value(c)->0 && v < 16,
{
    if '0' <= c && c <= '9' {
        Some((c as u32 - 48) as u8)
    } else if 'a' <= c && c <= 'f' {
        Some((c as u32 - 87) as u8)
    } else if 'A' <= c && c <= 'F' {
        Some((c as u32 - 55) as u8)
    } else {
        None
    }
}

/// The bytes that hexadecimal text stands for; nothing where a character
/// outside of comments is neither a digit nor white space, or where the
/// digits do not pair up.
pub fn hex_to_bytes(text: &str) -> (bytes: Option<Vec<u8>>)
    ensures
        bytes is Some <==> pairs(digits(text@, text@.len())),
        bytes matches Some(b) ==> b@ == paired(digits(text@, text@.len())),
{
    let mut out: Vec<u8> = Vec::new();
    let mut pending: Option<u8> = None;
    let mut comment = false;
    for c in it: text.chars()
        invariant
            it.seq() == text@,
            comment == commented(text@, it.index() - 1),
            forall|i: int|
                0 <= i < digits(text@, it.index() as nat).len() ==> hex_value(
                    #[trigger] digits(text@, it.index() as nat)[i],
                ) is Some,
            out@.len() == digits(text@, it.index() as nat).len() / 2,
            forall|i: int|
                0 <= i < out@.len() ==> out@[i] == (16 * hex_value(
                    digits(text@, it.index() as nat)[2 * i],
                )->0 + hex_value(digits(text@, it.index() as nat)[2 * i + 1])->0) as u8,
            pending is Some <==> digits(text@, it.index() as nat).len() % 2 == 1,
            pending matches Some(high) ==> high < 16 && high == hex_value(
                digits(text@, it.index() as nat).last(),
            )->0,
    {
        let ghost before = digits(text@, it.index() as nat);
        let ghost after = digits(text@, (it.index() + 1) as nat);
        assert(c == text@[it.index() as int]);
        if comment {
            if c == '\n' {
                comment = false;
            }
        } else if c == '#' {
            comment = true;
        } else if c == ' ' || c == '\t' || c == '\n' || c == '\x0c' || c == '\r' {
        } else {
            assert(after == before.push(c));
            match digit_value(c) {
                None => {
                    proof {
                        lemma_digits_grow(text@, (it.index() + 1) as nat, after.len() - 1);
                    }
                    return None;
                },
                Some(low) => {
                    match pending {
                        None => {
                            pending = Some(low);
                        },
                        Some(high) => {
                            out.push(high * 16 + low);
                            pending = None;
                        },
                    }
                },
            }
        }
    }
    let ghost all = digits(text@, text@.len());
    match pending {
        Some(_) => None,
        None => {
            assert(out@ =~= paired(all));
            Some(out)
        },
    }
}

/// Reads the item that hexadecimal text encodes.
pub fn parse_hex(text: &str) -> (result: Result<DataItem, Error>)
    ensures
        !pairs(digits(text@, text@.len())) ==> result matches Err(Error::Syntax),
        pairs(digits(text@, text@.len())) ==> match recognize(
            paired(digits(text@, text@.len())),
        ) {
            Shape::Complete(len) => if len == paired(digits(text@, text@.len())).len() {
                result matches Ok(item) && held(paired(digits(text@, text@.len())), item)
                    && well_formed(item) && determined(item)
            } else {
                result matches Err(Error::TrailingInput)
            },
            Shape::Truncated => result matches Err(Error::Truncated),
            Shape::Malformed => result matches Err(Error::Malformed),
            Shape::InvalidUtf8 => result matches Err(Error::InvalidUtf8),
        },
{
    match hex_to_bytes(text) {
        None => Err(Error::Syntax),
        Some(bytes) => parse_bytes(bytes.as_slice()),
    }
}

} // verus!
