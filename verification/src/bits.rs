//! Facts that tie shifts and masks to arithmetic.

use vstd::prelude::*;
use vstd::arithmetic::power2::pow2;
use vstd::arithmetic::power2::lemma2_to64;
use vstd::arithmetic::power2::lemma_pow2_unfold;
use vstd::arithmetic::power2::lemma_pow2_pos;
use vstd::arithmetic::power2::lemma_pow2_strictly_increases;

verus! {

proof fn lemma_shl_one_step(b: u32)
    by (bit_vector)
    requires
        0 < b < 128,
    ensures
        (1u128 << b) == 2 * (1u128 << ((b - 1) as u32)),
{
}

/// `1 << b` is `2^b`.
pub proof fn lemma_shl_one(b: u32)
    requires
        b < 128,
    ensures
        (1u128 << b) == pow2(b as nat),
    decreases b,
{
    if b == 0 {
        assert(1u128 << 0u32 == 1) by (bit_vector);
        lemma2_to64();
    } else {
        lemma_shl_one((b - 1) as u32);
        lemma_shl_one_step(b);
        lemma_pow2_unfold(b as nat);
    }
}

/// Every `u128` is below `2^128`, and `2^e` fits a `u128` for `e < 128`.
pub proof fn lemma_pow2_128(e: nat)
    ensures
        pow2(128) == 0x1_0000_0000_0000_0000_0000_0000_0000_0000,
        pow2(120) == 0x1_0000_0000_0000_0000_0000_0000_0000_00,
        e < 128 ==> pow2(e) <= 0x8000_0000_0000_0000_0000_0000_0000_0000,
        e >= 128 ==> pow2(e) >= 0x1_0000_0000_0000_0000_0000_0000_0000_0000,
{
    lemma2_to64();
    vstd::arithmetic::power2::lemma2_to64_rest();
    vstd::arithmetic::power2::lemma_pow2_adds(64, 64);
    vstd::arithmetic::power2::lemma_pow2_adds(64, 63);
    vstd::arithmetic::power2::lemma_pow2_adds(64, 56);
    if e < 127 {
        lemma_pow2_strictly_increases(e, 127);
    }
    if e > 128 {
        lemma_pow2_strictly_increases(128, e);
    }
}

proof fn lemma_and_split_low_bit(x: u128, m: u128)
    by (bit_vector)
    ensures
        x & m == 2 * ((x / 2) & (m / 2)) + ((x % 2) & (m % 2)),
        (x % 2) & 1 == x % 2,
{
}

/// Masking with the `n` low bits is the remainder by `2^n`.
pub proof fn lemma_low_mask_is_mod(x: u128, n: nat)
    requires
        n < 128,
    ensures
        x & ((pow2(n) - 1) as u128) == x as nat % pow2(n),
    decreases n,
{
    lemma_pow2_128(n);
    lemma_pow2_pos(n);
    let m = (pow2(n) - 1) as u128;
    if n == 0 {
        lemma2_to64();
        assert(x & 0 == 0) by (bit_vector);
    } else {
        let k = (n - 1) as nat;
        lemma_pow2_unfold(n);
        lemma_pow2_pos(k);
        lemma_pow2_128(k);
        let mk = (pow2(k) - 1) as u128;
        assert(m / 2 == mk);
        assert(m % 2 == 1);
        lemma_and_split_low_bit(x, m);
        lemma_low_mask_is_mod(x / 2, k);
        lemma_mod_split2(x as nat, pow2(k));
    }
}

/// The remainder by `2 * p`, from the remainder of the half by `p`.
proof fn lemma_mod_split2(x: nat, p: nat)
    requires
        p > 0,
    ensures
        x % (2 * p) == 2 * ((x / 2) % p) + x % 2,
{
    let q = x / 2;
    let r = x % 2;
    let q1 = q / p;
    let r1 = q % p;
    assert(q == p * q1 + r1) by {
        vstd::arithmetic::div_mod::lemma_fundamental_div_mod(q as int, p as int);
    }
    assert(0 <= r1 < p) by {
        vstd::arithmetic::div_mod::lemma_mod_bound(q as int, p as int);
    }
    let y = 2 * r1 + r;
    assert(x == (2 * p) * q1 + y) by (nonlinear_arith)
        requires
            x == 2 * q + r,
            q == p * q1 + r1,
            y == 2 * r1 + r,
    ;
    assert(0 <= y < 2 * p) by (nonlinear_arith)
        requires
            y == 2 * r1 + r,
            0 <= r < 2,
            0 <= r1 < p,
    ;
    vstd::arithmetic::div_mod::lemma_fundamental_div_mod_converse(
        x as int,
        (2 * p) as int,
        q1 as int,
        y as int,
    );
}

/// Shifting a byte in from the right is multiplying by 256 and adding.
pub proof fn lemma_shift_in_byte(v: u128, b: u8)
    by (bit_vector)
    requires
        v <= 0x00ff_ffff_ffff_ffff_ffff_ffff_ffff_ffffu128,
    ensures
        (v << 8u32) | (b as u128) == v * 256 + b,
{
}

/// Keeping the low byte is the remainder by 256.
pub proof fn lemma_low_byte(x: u128)
    by (bit_vector)
    ensures
        (x as u8) == x % 256,
{
}

/// A header's 1-bits and the data bits below them do not overlap.
pub proof fn lemma_or_is_add(p: u8, t: u8)
    by (bit_vector)
    requires
        (p == 0x00 && t < 0x80) || (p == 0x80 && t < 0x40) || (p == 0xC0 && t < 0x20) || (p == 0xE0
            && t < 0x10) || (p == 0xF0 && t < 0x08) || (p == 0xF8 && t < 0x04) || (p == 0xFC && t
            < 0x02) || (p == 0xFE && t < 0x01) || (p == 0x40 && t < 0x20) || (p == 0x60 && t < 0x10)
            || (p == 0x70 && t < 0x08) || (p == 0x78 && t < 0x04) || (p == 0x7C && t < 0x02) || (p
            == 0x7E && t < 0x01),
    ensures
        p | t == p + t,
{
}

/// Setting bit 7 of a byte below 128 adds 128; clearing it takes it away.
pub proof fn lemma_sign_bit(b: u8)
    by (bit_vector)
    ensures
        b < 0x80 ==> b | 0x80 == b + 128,
        b & 0x80 != 0 <==> b >= 0x80,
        b >= 0x80 ==> b & 0x7F == b - 128,
        b < 0x80 ==> b & 0x7F == b,
        b & 0x7F == b % 128,
        !b == 255 - b,
        b < 0x80 ==> (b << 1u32) == 2 * b,
{
}

/// What is left of a byte below its leading 1-bits and the 0 that ends them.
pub proof fn lemma_mask_below_ones(b: u8, m: u8)
    by (bit_vector)
    requires
        (b < 0x80 && m == 0x7F) || (0x80 <= b < 0xC0 && m == 0x3F) || (0xC0 <= b < 0xE0 && m
            == 0x1F) || (0xE0 <= b < 0xF0 && m == 0x0F) || (0xF0 <= b < 0xF8 && m == 0x07) || (0xF8
            <= b < 0xFC && m == 0x03) || (0xFC <= b < 0xFE && m == 0x01) || (0xFE <= b && m
            == 0x00),
    ensures
        b & m == (if b < 0x80 {
            b
        } else if b < 0xC0 {
            (b - 0x80) as u8
        } else if b < 0xE0 {
            (b - 0xC0) as u8
        } else if b < 0xF0 {
            (b - 0xE0) as u8
        } else if b < 0xF8 {
            (b - 0xF0) as u8
        } else if b < 0xFC {
            (b - 0xF8) as u8
        } else if b < 0xFE {
            (b - 0xFC) as u8
        } else {
            0u8
        }),
{
}

/// The same for a 7-bit field in bits 6 to 0.
pub proof fn lemma_mask_below_ones_7(b: u8, m: u8)
    by (bit_vector)
    requires
        (b < 0x40 && m == 0x3F) || (0x40 <= b < 0x60 && m == 0x1F) || (0x60 <= b < 0x70 && m
            == 0x0F) || (0x70 <= b < 0x78 && m == 0x07) || (0x78 <= b < 0x7C && m == 0x03) || (0x7C
            <= b < 0x7E && m == 0x01) || (0x7E <= b < 0x7F && m == 0x00),
    ensures
        b & m == (if b < 0x40 {
            b
        } else if b < 0x60 {
            (b - 0x40) as u8
        } else if b < 0x70 {
            (b - 0x60) as u8
        } else if b < 0x78 {
            (b - 0x70) as u8
        } else if b < 0x7C {
            (b - 0x78) as u8
        } else if b < 0x7E {
            (b - 0x7C) as u8
        } else {
            0u8
        }),
{
}

/// Small shifts of all ones and of one, as numbers.
pub proof fn lemma_small_shifts(k: u32)
    by (bit_vector)
    requires
        k < 8,
    ensures
        (!0u8 << k) == 256 - (1u32 << k),
        (1u8 << k) == (1u32 << k),
        1u32 << 0 == 1 && 1u32 << 1 == 2 && 1u32 << 2 == 4 && 1u32 << 3 == 8 && 1u32 << 4 == 16
            && 1u32 << 5 == 32 && 1u32 << 6 == 64 && 1u32 << 7 == 128,
        k > 0 ==> ((!0u8 << k) >> 1u32) == 128 - (1u32 << ((k - 1) as u32)),
{
}

/// The number of leading 1-bits of a byte, from what the bits are known to be.
pub proof fn lemma_leading_ones_range(b: u8, n: u8)
    by (bit_vector)
    requires
        n <= 8,
        (b == 0xFF) <==> (n == 8),
        n < 8 ==> (b >> ((7 - n) as u8)) & 1u8 == 0u8,
        (!b) >> ((8 - n) as u8) == 0,
    ensures
        n == (if b < 0x80 {
            0u8
        } else if b < 0xC0 {
            1u8
        } else if b < 0xE0 {
            2u8
        } else if b < 0xF0 {
            3u8
        } else if b < 0xF8 {
            4u8
        } else if b < 0xFC {
            5u8
        } else if b < 0xFE {
            6u8
        } else if b < 0xFF {
            7u8
        } else {
            8u8
        }),
{
}

} // verus!
