use vstd::prelude::*;
use vstd::utf8::encode_utf8;

verus! {

/// Whether a byte is an ASCII decimal digit.
pub open spec fn is_digit(byte: u8) -> bool {
    0x30 <= byte <= 0x39
}

/// Whether every byte of a sequence is an ASCII decimal digit.
pub open spec fn all_digits(bytes: Seq<u8>) -> bool {
    forall|i: int| 0 <= i < bytes.len() ==> is_digit(#[trigger] bytes[i])
}

/// The number that a sequence of ASCII digits writes in base ten.
pub open spec fn decimal_value(digits: Seq<u8>) -> nat
    decreases digits.len(),
{
    if digits.len() == 0 {
        0
    } else {
        (decimal_value(digits.drop_last()) * 10 + (digits.last() - 0x30)) as nat
    }
}

/// The unsigned 64-bit integer that a line of text stands for: one digit at
/// least, digits only, and a value that fits.
pub open spec fn integer_of(line: Seq<u8>) -> Option<u64> {
    if line.len() > 0 && all_digits(line) && decimal_value(line) <= u64::MAX {
        Some(decimal_value(line) as u64)
    } else {
        None
    }
}

/// `atoi::atoi::<u64>` on a non-empty run of ASCII digits: the number they
/// write, or `None` where it does not fit into 64 bits.
#[verifier::external_body]
pub(crate) fn atoi_u64(digits: &[u8]) -> (number: Option<u64>)
    requires
        digits@.len() > 0,
        all_digits(digits@),
    ensures
        number == integer_of(digits@),
{
    atoi::atoi::<u64>(digits)
}

/// Whether a slice holds ASCII digits only.
pub fn only_digits(bytes: &[u8]) -> (yes: bool)
    ensures
        yes == all_digits(bytes@),
{
    let mut i: usize = 0;
    while i < bytes.len()
        invariant
            i <= bytes.len(),
            forall|j: int| 0 <= j < i ==> is_digit(#[trigger] bytes@[j]),
        decreases bytes.len() - i,
    {
        if bytes[i] < 0x30 || bytes[i] > 0x39 {
            return false;
        }
        i += 1;
    }
    true
}

/// Reads the unsigned integer that a line of text stands for.
pub fn parse_integer(line: &[u8]) -> (number: Option<u64>)
    ensures
        number == integer_of(line@),
{
    if line.len() == 0 || !only_digits(line) {
        return None;
    }
    atoi_u64(line)
}

/// The unsigned 64-bit integer that a text writes: digits, with or without
/// a plus sign before them, and a value that fits.
pub open spec fn unsigned_of(text: Seq<char>) -> Option<u64> {
    let bytes = encode_utf8(text);
    if bytes.len() > 0 && bytes[0] == 0x2B {
        integer_of(bytes.skip(1))
    } else {
        integer_of(bytes)
    }
}

/// `str::parse::<u64>`, with the error dropped: the number that a text of
/// digits writes, which a plus sign may precede, if it fits into 64 bits.
#[verifier::external_body]
pub(crate) fn parse_u64(text: &str) -> (number: Option<u64>)
    ensures
        number == unsigned_of(text@),
{
    text.parse::<u64>().ok()
}

} // verus!
