//! Little-endian byte forms of unsigned numbers.
//!
//! Everything here is stated over mathematical numbers: the form of a value
//! is its sequence of base-256 digits, least significant first. It does not
//! depend on how the host lays out integers in memory.

use vstd::prelude::*;

verus! {

/// The first `width` base-256 digits of `value`, least significant first.
pub open spec fn le_form(value: nat, width: nat) -> Seq<u8>
    decreases width,
{
    if width == 0 {
        Seq::empty()
    } else {
        seq![(value % 256) as u8] + le_form(value / 256, (width - 1) as nat)
    }
}

/// The number that `bytes` spell when read as base-256 digits, least
/// significant first.
pub open spec fn le_value(bytes: Seq<u8>) -> nat
    decreases bytes.len(),
{
    if bytes.len() == 0 {
        0
    } else {
        bytes[0] as nat + 256 * le_value(bytes.drop_first())
    }
}

/// The weight of the digit at position `digits`: 256 to that power.
pub open spec fn radix_power(digits: nat) -> nat
    decreases digits,
{
    if digits == 0 {
        1
    } else {
        256 * radix_power((digits - 1) as nat)
    }
}

/// The little-endian byte form of a 32-bit word: four bytes.
pub open spec fn u32_le_bytes(word: u32) -> Seq<u8> {
    le_form(word as nat, 4)
}

/// The little-endian byte form of a 64-bit word: eight bytes.
pub open spec fn u64_le_bytes(word: u64) -> Seq<u8> {
    le_form(word as nat, 8)
}

/// Every digit weight is at least one.
pub proof fn lemma_radix_power_positive(digits: nat)
    ensures
        radix_power(digits) > 0,
    decreases digits,
{
    if digits > 0 {
        lemma_radix_power_positive((digits - 1) as nat);
    }
}

/// The weights just beyond a 32-bit and a 64-bit word.
pub proof fn lemma_radix_power_of_words()
    ensures
        radix_power(4) == 0x1_0000_0000,
        radix_power(8) == 0x1_0000_0000_0000_0000,
{
    reveal_with_fuel(radix_power, 9);
}

/// A form has exactly as many bytes as were asked for.
pub proof fn lemma_le_form_len(value: nat, width: nat)
    ensures
        le_form(value, width).len() == width,
    decreases width,
{
    if width > 0 {
        lemma_le_form_len(value / 256, (width - 1) as nat);
    }
}

/// The byte at position `i` of a form is the digit of weight `256^i`.
pub proof fn lemma_le_form_digit(value: nat, width: nat, i: nat)
    requires
        i < width,
    ensures
        le_form(value, width)[i as int] == ((value / radix_power(i)) % 256) as u8,
    decreases width,
{
    lemma_le_form_len(value / 256, (width - 1) as nat);
    if i > 0 {
        let below = (i - 1) as nat;
        lemma_le_form_digit(value / 256, (width - 1) as nat, below);
        assert((value / 256) / radix_power(below) == value / radix_power(i)) by {
            lemma_radix_power_positive(below);
            vstd::arithmetic::div_mod::lemma_div_denominator(
                value as int,
                256,
                radix_power(below) as int,
            );
        }
    } else {
        assert(radix_power(0) == 1);
        assert(value / radix_power(0) == value);
    }
}

/// Reading a form back gives the value, when the value is below the weight
/// that follows the form's last digit.
pub proof fn lemma_le_value_of_form(value: nat, width: nat)
    requires
        value < radix_power(width),
    ensures
        le_value(le_form(value, width)) == value,
    decreases width,
{
    if width > 0 {
        let form = le_form(value, width);
        lemma_le_value_of_form(value / 256, (width - 1) as nat);
        assert(form.drop_first() == le_form(value / 256, (width - 1) as nat));
    }
}

/// What a byte sequence spells is below the weight that follows its last
/// digit, and its form is the sequence itself.
pub proof fn lemma_le_form_of_value(bytes: Seq<u8>)
    ensures
        le_value(bytes) < radix_power(bytes.len()),
        le_form(le_value(bytes), bytes.len()) == bytes,
    decreases bytes.len(),
{
    if bytes.len() > 0 {
        lemma_le_form_of_value(bytes.drop_first());
    }
}

/// Bytes laid end to end spell the first number plus the second one shifted
/// past the digits of the first.
pub proof fn lemma_le_value_concat(low: Seq<u8>, high: Seq<u8>)
    ensures
        le_value(low + high) == le_value(low) + radix_power(low.len()) * le_value(high),
    decreases low.len(),
{
    if low.len() == 0 {
    } else {
        let below = radix_power((low.len() - 1) as nat);
        lemma_le_value_concat(low.drop_first(), high);
        assert((low + high).drop_first() == low.drop_first() + high);
        assert(256 * (below * le_value(high)) == (256 * below) * le_value(high))
            by (nonlinear_arith);
    }
}

/// Two 32-bit words with the same byte form are the same word.
pub proof fn lemma_u32_le_bytes_injective(a: u32, b: u32)
    requires
        u32_le_bytes(a) == u32_le_bytes(b),
    ensures
        a == b,
{
    lemma_radix_power_of_words();
    lemma_le_value_of_form(a as nat, 4);
    lemma_le_value_of_form(b as nat, 4);
}

/// Two 64-bit words with the same byte form are the same word.
pub proof fn lemma_u64_le_bytes_injective(a: u64, b: u64)
    requires
        u64_le_bytes(a) == u64_le_bytes(b),
    ensures
        a == b,
{
    lemma_radix_power_of_words();
    lemma_le_value_of_form(a as nat, 8);
    lemma_le_value_of_form(b as nat, 8);
}

/// Reads four bytes as a 32-bit word, the first byte least significant.
pub fn u32_from_le_bytes(bytes: &[u8; 4]) -> (word: u32)
    ensures
        word == le_value(bytes@),
        u32_le_bytes(word) == bytes@,
{
    let b0: u32 = bytes[0] as u32;
    let b1: u32 = bytes[1] as u32;
    let b2: u32 = bytes[2] as u32;
    let b3: u32 = bytes[3] as u32;
    let word: u32 = b0 | b1 << 8 | b2 << 16 | b3 << 24;
    proof {
        assert(word == b0 + 256 * (b1 + 256 * (b2 + 256 * b3))) by (bit_vector)
            requires
                word == b0 | b1 << 8 | b2 << 16 | b3 << 24,
                b0 < 256 && b1 < 256 && b2 < 256 && b3 < 256,
        ;
        let s1 = bytes@.drop_first();
        let s2 = s1.drop_first();
        let s3 = s2.drop_first();
        assert(le_value(s3) == b3) by {
            assert(le_value(s3.drop_first()) == 0);
        }
        assert(le_value(s2) == b2 + 256 * b3);
        assert(le_value(s1) == b1 + 256 * (b2 + 256 * b3));
        lemma_le_form_of_value(bytes@);
    }
    word
}

/// Reads eight bytes as a 64-bit word, the first byte least significant.
pub fn u64_from_le_bytes(bytes: &[u8; 8]) -> (word: u64)
    ensures
        word == le_value(bytes@),
        u64_le_bytes(word) == bytes@,
{
    let low: [u8; 4] = [bytes[0], bytes[1], bytes[2], bytes[3]];
    let high: [u8; 4] = [bytes[4], bytes[5], bytes[6], bytes[7]];
    let lo: u64 = u32_from_le_bytes(&low) as u64;
    let hi: u64 = u32_from_le_bytes(&high) as u64;
    let word: u64 = hi << 32 | lo;
    proof {
        assert(word == lo + 0x1_0000_0000 * hi) by (bit_vector)
            requires
                word == hi << 32 | lo,
                lo < 0x1_0000_0000 && hi < 0x1_0000_0000,
        ;
        assert(low@ + high@ == bytes@);
        lemma_radix_power_of_words();
        lemma_le_value_concat(low@, high@);
        lemma_le_form_of_value(bytes@);
    }
    word
}

} // verus!
