//! Integers as bytes in little-endian order.
use vstd::arithmetic::div_mod::lemma_div_denominator;
use vstd::arithmetic::power::{lemma_pow0, lemma_pow_positive, pow};
use vstd::prelude::*;

verus! {

/// The number that `bytes` stand for, the least significant byte first.
pub open spec fn le_value(bytes: Seq<u8>) -> nat
    decreases bytes.len(),
{
    if bytes.len() == 0 {
        0
    } else {
        bytes[0] as nat + 256 * le_value(bytes.skip(1))
    }
}

/// The `count` least significant bytes of `value`, the least significant byte first.
pub open spec fn le_bytes(value: nat, count: nat) -> Seq<u8>
    decreases count,
{
    if count == 0 {
        seq![]
    } else {
        seq![(value % 256) as u8] + le_bytes(value / 256, (count - 1) as nat)
    }
}

/// 256 to the power of `count`.
pub open spec fn le_limit(count: nat) -> nat
    decreases count,
{
    if count == 0 {
        1
    } else {
        256 * le_limit((count - 1) as nat)
    }
}

/// Decoding gives back what was encoded.
pub proof fn lemma_le_round_trip(value: nat, count: nat)
    requires
        value < le_limit(count),
    ensures
        le_bytes(value, count).len() == count,
        le_value(le_bytes(value, count)) == value,
    decreases count,
{
    if count > 0 {
        lemma_le_round_trip(value / 256, (count - 1) as nat);
        let rest = le_bytes(value / 256, (count - 1) as nat);
        assert(le_bytes(value, count).skip(1) =~= rest);
    }
}

/// Encoding gives back what was decoded.
pub proof fn lemma_le_back(bytes: Seq<u8>)
    ensures
        le_bytes(le_value(bytes), bytes.len()) == bytes,
        le_value(bytes) < le_limit(bytes.len()),
    decreases bytes.len(),
{
    if bytes.len() > 0 {
        let rest = bytes.skip(1);
        lemma_le_back(rest);
        let value = le_value(bytes);
        assert(value % 256 == bytes[0] as nat);
        assert(value / 256 == le_value(rest));
        assert(bytes =~= seq![bytes[0]] + rest);
    } else {
        assert(le_bytes(le_value(bytes), 0) =~= bytes);
    }
}

/// Each byte is a digit to the base 256, the least significant one first.
pub proof fn lemma_le_digit(value: nat, count: nat, i: int)
    requires
        0 <= i < count,
    ensures
        le_bytes(value, count).len() == count,
        le_bytes(value, count)[i] as int == value as int / pow(256, i as nat) % 256,
    decreases count,
{
    let rest = le_bytes(value / 256, (count - 1) as nat);
    lemma_le_len(value / 256, (count - 1) as nat);
    if i == 0 {
        lemma_pow0(256);
    } else {
        lemma_le_digit(value / 256, (count - 1) as nat, i - 1);
        lemma_pow_positive(256, (i - 1) as nat);
        lemma_div_denominator(value as int, 256, pow(256, (i - 1) as nat));
        reveal(pow);
        assert(pow(256, i as nat) == 256 * pow(256, (i - 1) as nat));
        assert(le_bytes(value, count)[i] == rest[i - 1]);
    }
}

proof fn lemma_le_len(value: nat, count: nat)
    ensures
        le_bytes(value, count).len() == count,
    decreases count,
{
    if count > 0 {
        lemma_le_len(value / 256, (count - 1) as nat);
    }
}

/// The four bytes of `value`.
pub fn u32_bytes(value: u32) -> (bytes: [u8; 4])
    ensures
        bytes@ == le_bytes(value as nat, 4),
        le_value(bytes@) == value,
{
    let bytes: [u8; 4] = [
        (value % 256) as u8,
        (value / 256 % 256) as u8,
        (value / 65536 % 256) as u8,
        (value / 16777216 % 256) as u8,
    ];
    proof {
        reveal_with_fuel(le_bytes, 5);
        reveal_with_fuel(le_limit, 5);
        lemma_le_round_trip(value as nat, 4);
        assert(value as nat / 256 / 256 == value as nat / 65536);
        assert(value as nat / 256 / 256 / 256 == value as nat / 16777216);
        assert(bytes@ =~= le_bytes(value as nat, 4));
    }
    bytes
}

/// The eight bytes of `value`.
pub fn u64_bytes(value: u64) -> (bytes: [u8; 8])
    ensures
        bytes@ == le_bytes(value as nat, 8),
        le_value(bytes@) == value,
{
    let b0: u64 = value;
    let b1: u64 = b0 / 256;
    let b2: u64 = b1 / 256;
    let b3: u64 = b2 / 256;
    let b4: u64 = b3 / 256;
    let b5: u64 = b4 / 256;
    let b6: u64 = b5 / 256;
    let b7: u64 = b6 / 256;
    let bytes: [u8; 8] = [
        (b0 % 256) as u8,
        (b1 % 256) as u8,
        (b2 % 256) as u8,
        (b3 % 256) as u8,
        (b4 % 256) as u8,
        (b5 % 256) as u8,
        (b6 % 256) as u8,
        (b7 % 256) as u8,
    ];
    proof {
        reveal_with_fuel(le_bytes, 9);
        reveal_with_fuel(le_limit, 9);
        lemma_le_round_trip(value as nat, 8);
        assert(bytes@ =~= le_bytes(value as nat, 8));
    }
    bytes
}

/// The integer in the four bytes at `at`.
pub fn get_u32(bytes: &[u8], at: usize) -> (value: u32)
    requires
        at + 4 <= bytes@.len(),
    ensures
        value == le_value(bytes@.subrange(at as int, at + 4)),
{
    proof {
        let s = bytes@.subrange(at as int, at + 4);
        reveal_with_fuel(le_value, 5);
        assert(s.skip(1).skip(1) =~= s.skip(2));
        assert(s.skip(2).skip(1) =~= s.skip(3));
        assert(s.skip(3).skip(1) =~= s.skip(4));
    }
    bytes[at] as u32 + 256 * (bytes[at + 1] as u32 + 256 * (bytes[at + 2] as u32 + 256 * (
    bytes[at + 3] as u32)))
}

/// The integer in the eight bytes at `at`.
pub fn get_u64(bytes: &[u8], at: usize) -> (value: u64)
    requires
        at + 8 <= bytes@.len(),
    ensures
        value == le_value(bytes@.subrange(at as int, at + 8)),
{
    assert(at + 8 <= bytes.len());
    let low: u32 = get_u32(bytes, at);
    let high: u32 = get_u32(bytes, at + 4);
    proof {
        let s = bytes@.subrange(at as int, at + 8);
        assert(bytes@.subrange(at as int, at + 4) =~= s.take(4));
        assert(bytes@.subrange(at + 4, at + 8) =~= s.skip(4));
        lemma_le_split(s, 4);
        assert(le_limit(4) == 4294967296) by {
            reveal_with_fuel(le_limit, 5);
        }
    }
    low as u64 + 4294967296 * (high as u64)
}

proof fn lemma_le_split(bytes: Seq<u8>, at: nat)
    requires
        at <= bytes.len(),
    ensures
        le_value(bytes) == le_value(bytes.take(at as int)) + le_limit(at) * le_value(
            bytes.skip(at as int),
        ),
    decreases at,
{
    if at == 0 {
        assert(bytes.skip(0) =~= bytes);
        assert(le_limit(0) * le_value(bytes) == le_value(bytes)) by (nonlinear_arith)
            requires
                le_limit(0) == 1,
        ;
    } else {
        let rest = bytes.skip(1);
        lemma_le_split(rest, (at - 1) as nat);
        assert(rest.take(at - 1) =~= bytes.take(at as int).skip(1));
        assert(rest.skip(at - 1) =~= bytes.skip(at as int));
        let high = le_value(bytes.skip(at as int));
        let limit = le_limit((at - 1) as nat);
        assert(256 * (limit * high) == (256 * limit) * high) by (nonlinear_arith);
    }
}

} // verus!
