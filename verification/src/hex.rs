//! ASCII hex digits: the alphabet of a VIV body.

use vstd::prelude::*;

verus! {

/// The byte that separates two rows in a VIV body.
pub const NEWLINE: u8 = 10;

/// True when `b` is the ASCII code of a hex digit, of either case.
pub open spec fn is_hex_digit(b: u8) -> bool {
    (48 <= b && b <= 57) || (97 <= b && b <= 102) || (65 <= b && b <= 70)
}

/// The numeric value of the hex digit `b`.
pub open spec fn hex_digit_value(b: u8) -> u8
    recommends
        is_hex_digit(b),
{
    if 48 <= b && b <= 57 {
        (b - 48) as u8
    } else if 97 <= b && b <= 102 {
        (b - 87) as u8
    } else {
        (b - 55) as u8
    }
}

/// The lowercase ASCII hex digit that denotes `n`.
pub open spec fn hex_char(n: u8) -> u8
    recommends
        n < 16,
{
    if n < 10 {
        (n + 48) as u8
    } else {
        (n + 87) as u8
    }
}

/// The two lowercase hex digits of the byte `v`, high digit first.
pub open spec fn byte_hex(v: u8) -> Seq<u8> {
    seq![hex_char((v / 16) as u8), hex_char((v % 16) as u8)]
}

/// The byte denoted by the hex digit pair `hi`, `lo`.
pub open spec fn hex_pair_value(hi: u8, lo: u8) -> u8
    recommends
        is_hex_digit(hi),
        is_hex_digit(lo),
{
    (16 * hex_digit_value(hi) + hex_digit_value(lo)) as u8
}

/// Decides `is_hex_digit`.
pub fn hex_digit_check(b: u8) -> (r: bool)
    ensures
        r == is_hex_digit(b),
{
    (48 <= b && b <= 57) || (97 <= b && b <= 102) || (65 <= b && b <= 70)
}

/// The lowercase hex digit for a value below 16.
pub fn hex_digit_char(n: u8) -> (r: u8)
    requires
        n < 16,
    ensures
        r == hex_char(n),
{
    if n < 10 {
        n + 48
    } else {
        n + 87
    }
}

/// Appends the two hex digits of `v` to `out`.
pub fn push_byte_hex(out: &mut Vec<u8>, v: u8)
    ensures
        final(out)@ == old(out)@ + byte_hex(v),
{
    proof {
        lemma_div_mod_16(v);
    }
    let hi: u8 = v / 16;
    let lo: u8 = v % 16;
    out.push(hex_digit_char(hi));
    out.push(hex_digit_char(lo));
    assert(out@ =~= old(out)@ + byte_hex(v));
}

/// A byte splits into a quotient below 16 and a remainder below 16.
pub proof fn lemma_div_mod_16(v: u8)
    ensures
        v / 16 < 16,
        v % 16 < 16,
        16 * (v / 16) + (v % 16) == v,
{
    assert(v / 16 < 16 && v % 16 < 16 && 16 * (v / 16) + (v % 16) == v) by (nonlinear_arith);
}

/// A hex digit is never the newline byte.
pub proof fn lemma_hex_digit_not_newline(b: u8)
    requires
        is_hex_digit(b),
    ensures
        b != NEWLINE,
{
}

/// Encoding a value below 16 as a hex digit and reading it back is the identity.
pub proof fn lemma_hex_char_value(n: u8)
    requires
        n < 16,
    ensures
        is_hex_digit(hex_char(n)),
        hex_digit_value(hex_char(n)) == n,
{
}

/// The two hex digits of a byte denote that byte.
pub proof fn lemma_byte_hex_value(v: u8)
    ensures
        byte_hex(v).len() == 2,
        is_hex_digit(byte_hex(v)[0]),
        is_hex_digit(byte_hex(v)[1]),
        hex_pair_value(byte_hex(v)[0], byte_hex(v)[1]) == v,
{
    lemma_div_mod_16(v);
    lemma_hex_char_value((v / 16) as u8);
    lemma_hex_char_value((v % 16) as u8);
}

} // verus!
