//! Variable-length integers whose encodings sort as the integers do.
//!
//! An unsigned value is written as a header and a big-endian tail. The number
//! of leading 1-bits of the header is the level: the number of tail bytes. Each
//! level starts where the one below it ends, so a larger value never has fewer
//! leading 1-bits. A signed value spends bit 7 of its first byte on the sign
//! and encodes its magnitude in the same way below it; the bytes of a negative
//! value are complemented.

use vstd::prelude::*;
use vstd::arithmetic::power2::pow2;
use vstd::arithmetic::power2::lemma2_to64;
use vstd::arithmetic::power2::lemma_pow2_adds;
use vstd::arithmetic::power2::lemma_pow2_pos;
use vstd::arithmetic::power2::lemma_pow2_strictly_increases;
use crate::big_endian::be_bytes;
use crate::big_endian::be_value;
use crate::big_endian::lemma_pow2_byte_step;
use crate::bits::lemma_shl_one;
use crate::bits::lemma_pow2_128;
use crate::bits::lemma_low_mask_is_mod;
use crate::bits::lemma_shift_in_byte;
use crate::bits::lemma_low_byte;
use crate::bits::lemma_small_shifts;
use crate::bits::lemma_sign_bit;
use crate::bits::lemma_leading_ones_range;
use crate::error::Error;

verus! {

// ── Levels ─────────────────────────────────────────────────────────────

/// The highest level: 16 for unsigned values, 15 for the magnitude of signed
/// ones.
pub open spec fn top_level(signed: bool) -> nat {
    if signed {
        15
    } else {
        16
    }
}

/// How many data bits an encoding of `level` carries, header and tail
/// together.
pub open spec fn data_bits(signed: bool, level: nat) -> nat {
    if signed {
        if level <= 6 {
            6 + 7 * level
        } else if level <= 14 {
            (14 - level + 8 * level) as nat
        } else {
            127
        }
    } else {
        if level <= 7 {
            7 + 7 * level
        } else if level <= 15 {
            (15 - level + 8 * level) as nat
        } else {
            128
        }
    }
}

/// The smallest value of `level`: each level starts where the one below ends.
pub open spec fn offset(signed: bool, level: nat) -> nat
    decreases level,
{
    if level == 0 {
        0
    } else {
        offset(signed, (level - 1) as nat) + pow2(data_bits(signed, (level - 1) as nat))
    }
}

/// The first level at or above `from` whose range ends above `v`, the top
/// level at most.
pub open spec fn level_from(signed: bool, v: nat, from: nat) -> nat
    decreases top_level(signed) - from,
{
    if from >= top_level(signed) || v < offset(signed, from + 1) {
        from
    } else {
        level_from(signed, v, from + 1)
    }
}

/// The level of `v`: the smallest one that holds it.
pub open spec fn level_of(signed: bool, v: nat) -> nat {
    level_from(signed, v, 0)
}

/// One more than the largest value that has an encoding.
pub open spec fn capacity(signed: bool) -> nat {
    offset(signed, top_level(signed) + 1)
}

// ── Headers ────────────────────────────────────────────────────────────

/// A byte whose `n` highest bits are set, as a number: `256 - 2^(8 - n)`.
pub open spec fn ones_prefix(n: nat) -> nat
    recommends
        n <= 8,
{
    (256 - pow2((8 - n) as nat)) as nat
}

/// A byte whose bit 7 is clear and whose `n` bits below it are set:
/// `128 - 2^(7 - n)`.
pub open spec fn ones_prefix_7(n: nat) -> nat
    recommends
        n <= 7,
{
    (128 - pow2((7 - n) as nat)) as nat
}

/// The number of leading 1-bits of a byte.
pub open spec fn ones_count(b: u8) -> nat {
    if b < 0x80 {
        0
    } else if b < 0xC0 {
        1
    } else if b < 0xE0 {
        2
    } else if b < 0xF0 {
        3
    } else if b < 0xF8 {
        4
    } else if b < 0xFC {
        5
    } else if b < 0xFE {
        6
    } else if b < 0xFF {
        7
    } else {
        8
    }
}

/// The number of leading 1-bits of the 7-bit field in bits 6 to 0 of `b`.
pub open spec fn ones_count_7(b: u8) -> nat {
    ones_count(((b as nat * 2) % 256) as u8)
}

/// The header of an unsigned encoding: `level` leading 1-bits, a 0-bit, and
/// the top data bits in what is left of the byte. From level 8 on the first
/// byte is full and the count goes on in a second one.
pub open spec fn uint_header(level: nat, top: nat) -> Seq<u8> {
    if level <= 7 {
        seq![(ones_prefix(level) + top) as u8]
    } else if level <= 15 {
        seq![0xFFu8, (ones_prefix((level - 8) as nat) + top) as u8]
    } else {
        seq![0xFFu8, 0xFFu8]
    }
}

/// The header of a magnitude: as that of an unsigned value, but bit 7 of the
/// first byte is left clear for the sign. At level 15 a third byte holds the
/// top seven data bits.
pub open spec fn sint_header(level: nat, top: nat) -> Seq<u8> {
    if level <= 6 {
        seq![(ones_prefix_7(level) + top) as u8]
    } else if level <= 14 {
        seq![0x7Fu8, (ones_prefix((level - 7) as nat) + top) as u8]
    } else {
        seq![0x7Fu8, 0xFFu8, top as u8]
    }
}

// ── Encodings ──────────────────────────────────────────────────────────

/// The bytes of the unsigned value `v`.
#[verifier::opaque]
pub open spec fn spec_encode_uint(v: nat) -> Seq<u8> {
    let level = level_of(false, v);
    let data = (v - offset(false, level)) as nat;
    uint_header(level, data / pow2(8 * level)) + be_bytes(data, level)
}

/// The bytes of the magnitude `m`, with the sign bit clear.
#[verifier::opaque]
pub open spec fn spec_encode_sint_magnitude(m: nat) -> Seq<u8> {
    let level = level_of(true, m);
    let data = (m - offset(true, level)) as nat;
    sint_header(level, data / pow2(8 * level)) + be_bytes(data, level)
}

/// `s` with bit 7 of its first byte set.
pub open spec fn with_sign_bit(s: Seq<u8>) -> Seq<u8>
    recommends
        s.len() > 0,
        s[0] < 128,
{
    s.update(0, (s[0] + 128) as u8)
}

/// Every byte of `s` complemented.
pub open spec fn complement(s: Seq<u8>) -> Seq<u8> {
    Seq::new(s.len(), |i: int| (255 - s[i]) as u8)
}

/// The bytes of the signed value `v`. A value from 0 up is its magnitude with
/// the sign bit set. A negative one is the magnitude `-v - 1` with the sign bit
/// set, all of it complemented.
pub open spec fn spec_encode_sint(v: int) -> Seq<u8> {
    if v >= 0 {
        with_sign_bit(spec_encode_sint_magnitude(v as nat))
    } else {
        complement(with_sign_bit(spec_encode_sint_magnitude((-v - 1) as nat)))
    }
}

// ── Decodings ──────────────────────────────────────────────────────────

/// The value and the length of an encoding whose header has been read:
/// `header_len` bytes that gave `level` and the top data bits `top`. `None`
/// where `input` ends before the tail does.
pub open spec fn spec_decode_body(
    signed: bool,
    input: Seq<u8>,
    level: nat,
    top: nat,
    header_len: nat,
) -> Option<(nat, nat)> {
    let total = header_len + level;
    if input.len() < total {
        None
    } else {
        Some(
            (
                offset(signed, level) + top * pow2(8 * level) + be_value(
                    input.subrange(header_len as int, total as int),
                ),
                total,
            ),
        )
    }
}

/// The unsigned value at the start of `input` and the number of bytes it
/// takes, or `None` where `input` ends before the value does.
#[verifier::opaque]
pub open spec fn spec_decode_uint(input: Seq<u8>) -> Option<(nat, nat)> {
    if input.len() < 1 {
        None
    } else if input[0] != 0xFF {
        let level = ones_count(input[0]);
        spec_decode_body(false, input, level, (input[0] - ones_prefix(level)) as nat, 1)
    } else if input.len() < 2 {
        None
    } else if input[1] != 0xFF {
        let m = ones_count(input[1]);
        spec_decode_body(false, input, 8 + m, (input[1] - ones_prefix(m)) as nat, 2)
    } else {
        spec_decode_body(false, input, 16, 0, 2)
    }
}

/// The magnitude whose first byte, without its sign bit, is `sub` and whose
/// other bytes are at the start of `rest`, with the number of bytes it takes,
/// the first one counted.
#[verifier::opaque]
pub open spec fn spec_decode_sint_magnitude(sub: u8, rest: Seq<u8>) -> Option<(nat, nat)> {
    let input = seq![sub] + rest;
    if sub != 0x7F {
        let level = ones_count_7(sub);
        spec_decode_body(true, input, level, (sub - ones_prefix_7(level)) as nat, 1)
    } else if rest.len() < 1 {
        None
    } else if rest[0] != 0xFF {
        let m = ones_count(rest[0]);
        spec_decode_body(true, input, 7 + m, (rest[0] - ones_prefix(m)) as nat, 2)
    } else if rest.len() < 2 {
        None
    } else {
        spec_decode_body(true, input, 15, (rest[1] % 128) as nat, 3)
    }
}

/// The length of the signed encoding whose first byte, without its sign bit,
/// is `sub` and whose other bytes are at the start of `rest`. `None` where
/// `rest` ends before the header tells.
pub open spec fn spec_sint_total_len(sub: u8, rest: Seq<u8>) -> Option<nat> {
    if sub != 0x7F {
        Some(1 + ones_count_7(sub))
    } else if rest.len() < 1 {
        None
    } else if rest[0] != 0xFF {
        Some(2 + 7 + ones_count(rest[0]))
    } else {
        Some(3 + 15)
    }
}

/// The signed value at the start of `input` and the number of bytes it takes,
/// or `None` where `input` ends before the value does.
pub open spec fn spec_decode_sint(input: Seq<u8>) -> Option<(int, nat)> {
    if input.len() < 1 {
        None
    } else if input[0] >= 0x80 {
        match spec_decode_sint_magnitude((input[0] - 0x80) as u8, input.skip(1)) {
            Some((m, n)) => Some((m as int, n)),
            None => None,
        }
    } else {
        match spec_decode_sint_magnitude((0x7F - input[0]) as u8, complement(input.skip(1))) {
            Some((m, n)) => Some((-(m as int) - 1, n)),
            None => None,
        }
    }
}

// ── Facts about levels ─────────────────────────────────────────────────

/// The data bits of a level split into those of the header and eight for each
/// tail byte.
pub proof fn lemma_data_bits_split(signed: bool, level: nat)
    requires
        level <= top_level(signed),
    ensures
        data_bits(signed, level) >= 8 * level,
        pow2(data_bits(signed, level)) == pow2((data_bits(signed, level) - 8 * level) as nat)
            * pow2(8 * level),
{
    lemma_pow2_adds((data_bits(signed, level) - 8 * level) as nat, 8 * level);
}

/// The levels start at growing values.
pub proof fn lemma_offset_increases(signed: bool, a: nat, b: nat)
    requires
        a <= b,
    ensures
        offset(signed, a) <= offset(signed, b),
        a < b ==> offset(signed, a) < offset(signed, b),
    decreases b,
{
    if a < b {
        lemma_offset_increases(signed, a, (b - 1) as nat);
        lemma_pow2_pos(data_bits(signed, (b - 1) as nat));
    }
}

/// What the level of `v` is, counted up from `from`.
proof fn lemma_level_from(signed: bool, v: nat, from: nat)
    requires
        from <= top_level(signed),
        offset(signed, from) <= v,
    ensures
        from <= level_from(signed, v, from) <= top_level(signed),
        offset(signed, level_from(signed, v, from)) <= v,
        level_from(signed, v, from) < top_level(signed) ==> v < offset(
            signed,
            level_from(signed, v, from) + 1,
        ),
    decreases top_level(signed) - from,
{
    if from >= top_level(signed) || v < offset(signed, from + 1) {
    } else {
        lemma_level_from(signed, v, from + 1);
    }
}

/// The level of `v` is the one whose range holds `v`; the top level holds
/// everything from its start on.
pub proof fn lemma_level_of(signed: bool, v: nat)
    ensures
        level_of(signed, v) <= top_level(signed),
        offset(signed, level_of(signed, v)) <= v,
        level_of(signed, v) < top_level(signed) ==> v < offset(signed, level_of(signed, v) + 1),
        v < capacity(signed) ==> v - offset(signed, level_of(signed, v)) < pow2(
            data_bits(signed, level_of(signed, v)),
        ),
{
    lemma_level_from(signed, v, 0);
}

/// A level whose range holds `v` is the level of `v`.
pub proof fn lemma_level_unique(signed: bool, v: nat, level: nat)
    requires
        level <= top_level(signed),
        offset(signed, level) <= v,
        level < top_level(signed) ==> v < offset(signed, level + 1),
    ensures
        level_of(signed, v) == level,
{
    lemma_level_from(signed, v, 0);
    let l = level_of(signed, v);
    if l < level {
        lemma_offset_increases(signed, l + 1, level);
    } else if level < l {
        lemma_offset_increases(signed, level + 1, l);
    }
}

/// A larger value has no lower level.
pub proof fn lemma_level_monotonic(signed: bool, a: nat, b: nat)
    requires
        a <= b,
    ensures
        level_of(signed, a) <= level_of(signed, b),
{
    lemma_level_of(signed, a);
    lemma_level_of(signed, b);
    let la = level_of(signed, a);
    let lb = level_of(signed, b);
    if lb < la {
        lemma_offset_increases(signed, lb + 1, la);
    }
}

// ── Tables ─────────────────────────────────────────────────────────────

/// No level below the top starts above `level * 2^120`, so the offsets and the
/// values beside them fit 128 bits; the capacities do not.
pub proof fn lemma_offset_bound(signed: bool, level: nat)
    requires
        level <= top_level(signed),
    ensures
        offset(signed, level) <= level * 0x1_0000_0000_0000_0000_0000_0000_0000_00,
        capacity(false) > u128::MAX,
        capacity(true) > i128::MAX,
    decreases level,
{
    lemma2_to64();
    vstd::arithmetic::power2::lemma2_to64_rest();
    lemma_pow2_adds(64, 56);
    lemma_pow2_128(127);
    lemma_pow2_adds(64, 63);
    assert(capacity(false) == offset(false, 16) + pow2(128));
    assert(capacity(true) == offset(true, 15) + pow2(127));
    if level > 0 {
        let below = (level - 1) as nat;
        lemma_offset_bound(signed, below);
        if data_bits(signed, below) < 120 {
            lemma_pow2_strictly_increases(data_bits(signed, below), 120);
        }
    }
}

fn unsigned_data_bits(level: usize) -> (bits: u32)
    requires
        level <= 16,
    ensures
        bits == data_bits(false, level as nat),
{
    if level <= 7 {
        (7 + 7 * level) as u32
    } else if level <= 15 {
        (15 - level + 8 * level) as u32
    } else {
        128
    }
}

fn signed_data_bits(level: usize) -> (bits: u32)
    requires
        level <= 15,
    ensures
        bits == data_bits(true, level as nat),
{
    if level <= 6 {
        (6 + 7 * level) as u32
    } else if level <= 14 {
        (14 - level + 8 * level) as u32
    } else {
        127
    }
}

/// The values at which the 17 unsigned levels start.
pub fn compute_unsigned_offsets() -> (offsets: [u128; 17])
    ensures
        forall|l: int| 0 <= l < 17 ==> offsets[l] == offset(false, l as nat),
{
    let mut offsets: [u128; 17] = [0u128; 17];
    let mut i: usize = 1;
    while i < 17
        invariant
            1 <= i <= 17,
            forall|l: int| 0 <= l < i ==> offsets[l] == offset(false, l as nat),
        decreases 17 - i,
    {
        let bits: u32 = unsigned_data_bits(i - 1);
        proof {
            lemma_shl_one(bits);
            lemma_offset_bound(false, i as nat);
        }
        let start: u128 = offsets[i - 1] + (1u128 << bits);
        offsets[i] = start;
        i += 1;
    }
    offsets
}

/// The magnitudes at which the 16 signed levels start.
pub fn compute_signed_offsets() -> (offsets: [u128; 16])
    ensures
        forall|l: int| 0 <= l < 16 ==> offsets[l] == offset(true, l as nat),
{
    let mut offsets: [u128; 16] = [0u128; 16];
    let mut i: usize = 1;
    while i < 16
        invariant
            1 <= i <= 16,
            forall|l: int| 0 <= l < i ==> offsets[l] == offset(true, l as nat),
        decreases 16 - i,
    {
        let bits: u32 = signed_data_bits(i - 1);
        proof {
            lemma_shl_one(bits);
            lemma_offset_bound(true, i as nat);
        }
        let start: u128 = offsets[i - 1] + (1u128 << bits);
        offsets[i] = start;
        i += 1;
    }
    offsets
}

/// The first level whose successor starts above `v`, or the last level of
/// the table.
pub fn find_level(v: u128, offsets: &[u128]) -> (level: usize)
    requires
        offsets.len() >= 1,
    ensures
        level < offsets.len(),
        forall|k: int| 1 <= k <= level ==> v >= offsets[k],
        level + 1 < offsets.len() ==> v < offsets[level + 1],
{
    let last: usize = offsets.len() - 1;
    let mut level: usize = 0;
    while level < last
        invariant
            level <= last,
            last == offsets.len() - 1,
            forall|k: int| 1 <= k <= level ==> v >= offsets[k],
        decreases last - level,
    {
        if v < offsets[level + 1] {
            return level;
        }
        level += 1;
    }
    last
}

// ── Helpers ────────────────────────────────────────────────────────────

/// The count that `u8::leading_ones` returns is the one the headers are read
/// by.
pub proof fn lemma_leading_ones(b: u8)
    ensures
        b.leading_ones() == ones_count(b),
{
    vstd::std_specs::bits::axiom_u8_leading_ones(b);
    let n = b.leading_ones() as u8;
    lemma_leading_ones_range(b, n);
}

/// Count leading 1-bits in a 7-bit field (stored in bits 6..0 of a `u8`).
pub fn leading_ones_in_7bits(v: u8) -> (n: usize)
    ensures
        n == ones_count_7(v),
{
    let shifted: u8 = v << 1u32;
    proof {
        assert(shifted == (v * 2) % 256) by (bit_vector)
            requires
                shifted == v << 1u32,
        ;
        lemma_leading_ones(shifted);
    }
    shifted.leading_ones() as usize
}

/// A byte with `n` leading 1-bits followed by 0s.
pub fn leading_ones_byte(n: usize) -> (r: u8)
    ensures
        n <= 8 ==> r == ones_prefix(n as nat),
        n > 8 ==> r == 0xFF,
{
    proof {
        lemma2_to64();
    }
    if n == 0 {
        0
    } else if n >= 8 {
        0xFF
    } else {
        let k: u32 = (8 - n) as u32;
        proof {
            lemma_small_shifts(k);
        }
        !0u8 << k
    }
}

/// Byte with bits 6..0 having `n` leading 1-bits (bit 7 always 0).
pub fn leading_ones_7bit(n: usize) -> (r: u8)
    ensures
        n <= 7 ==> r == ones_prefix_7(n as nat),
        n > 7 ==> r == 0x7F,
{
    proof {
        lemma2_to64();
    }
    if n == 0 {
        0
    } else if n >= 8 {
        0x7F
    } else {
        let k: u32 = (8 - n) as u32;
        proof {
            lemma_small_shifts(k);
            lemma_small_shifts((k - 1) as u32);
        }
        (!0u8 << k) >> 1u32
    }
}

/// Low-bit mask: `low_mask_u8(3) == 0b0000_0111`.
pub fn low_mask_u8(bits: usize) -> (r: u8)
    ensures
        bits <= 8 ==> r == pow2(bits as nat) - 1,
        bits > 8 ==> r == 0xFF,
{
    proof {
        lemma2_to64();
    }
    if bits == 0 {
        0
    } else if bits >= 8 {
        0xFF
    } else {
        let k: u32 = bits as u32;
        proof {
            lemma_small_shifts(k);
        }
        (1u8 << k) - 1
    }
}

/// The mask of the `bits` low bits of a `u128`.
pub fn low_mask_128(bits: usize) -> (r: u128)
    ensures
        bits < 128 ==> r == pow2(bits as nat) - 1,
        bits >= 128 ==> r == u128::MAX,
{
    proof {
        lemma2_to64();
    }
    if bits == 0 {
        0
    } else if bits >= 128 {
        u128::MAX
    } else {
        let k: u32 = bits as u32;
        proof {
            lemma_shl_one(k);
            lemma_pow2_pos(bits as nat);
        }
        (1u128 << k) - 1
    }
}

/// The `want` data bits that stand above the `extra_bytes` tail bytes of
/// `data`: those that go into the header.
pub fn extract_top_bits(data: u128, extra_bytes: usize, want: usize) -> (r: u128)
    ensures
        r == (data as nat / pow2(8 * extra_bytes as nat)) % pow2(want as nat),
{
    proof {
        lemma2_to64();
        lemma_pow2_128(8 * extra_bytes as nat);
        lemma_pow2_128(want as nat);
        lemma_pow2_pos(want as nat);
    }
    if want == 0 {
        return 0;
    }
    if extra_bytes >= 16 {
        proof {
            let d = pow2(8 * extra_bytes as nat);
            assert(d > data);
            vstd::arithmetic::div_mod::lemma_basic_div(data as int, d as int);
            assert(data as nat / d == 0);
            assert(0nat % pow2(want as nat) == 0);
        }
        return 0;
    }
    let shift: u32 = (extra_bytes * 8) as u32;
    let high: u128 = data >> shift;
    proof {
        vstd::bits::lemma_u128_shr_is_div(data, shift as u128);
        if want < 128 {
            lemma_low_mask_is_mod(high, want as nat);
        } else {
            assert(high & u128::MAX == high) by (bit_vector);
            vstd::arithmetic::div_mod::lemma_small_mod(high as nat, pow2(want as nat));
        }
    }
    high & low_mask_128(want)
}

/// Write the bottom `n` bytes of `data` in big-endian.
pub fn write_be_tail(data: u128, n: usize, out: &mut Vec<u8>)
    ensures
        final(out)@ == old(out)@ + be_bytes(data as nat, n as nat),
{
    let mut i: usize = n;
    proof {
        lemma_pow2_pos(8 * n as nat);
        assert(be_bytes(data as nat / pow2(8 * n as nat), 0) =~= Seq::<u8>::empty());
    }
    while i > 0
        invariant
            i <= n,
            out@ == old(out)@ + be_bytes(
                data as nat / pow2(8 * i as nat),
                (n - i) as nat,
            ),
        decreases i,
    {
        i -= 1;
        let byte: u8 = if i >= 16 {
            0
        } else {
            #[verifier::truncate]
            (((data >> ((i * 8) as u32)) as u8))
        };
        proof {
            let p = pow2(8 * i as nat);
            let x = data as nat / p;
            lemma_pow2_byte_step(i as nat);
            lemma_pow2_128(8 * i as nat);
            // the quotient by the next power is this quotient by 256
            vstd::arithmetic::div_mod::lemma_div_denominator(data as int, p as int, 256);
            assert(data as nat / pow2(8 * (i + 1) as nat) == x / 256) by {
                assert(p * 256 == 256 * p) by (nonlinear_arith);
            }
            if i >= 16 {
                vstd::arithmetic::div_mod::lemma_basic_div(data as int, p as int);
            } else {
                vstd::bits::lemma_u128_shr_is_div(data, ((i * 8) as u32) as u128);
                lemma_low_byte(data >> ((i * 8) as u32));
            }
            assert(byte == x % 256);
            assert(be_bytes(x, (n - i) as nat) =~= be_bytes(x / 256, (n - i - 1) as nat).push(
                byte,
            ));
        }
        out.push(byte);
    }
    proof {
        lemma2_to64();
        assert(data as nat / pow2(0) == data as nat) by (nonlinear_arith)
            requires
                pow2(0) == 1,
        ;
    }
}

/// Combine header data bits with subsequent big-endian bytes.
pub fn assemble_be(prefix: u128, bytes: &[u8]) -> (v: u128)
    requires
        bytes.len() <= 16,
        prefix < pow2((128 - 8 * bytes.len()) as nat),
    ensures
        v == prefix * pow2(8 * bytes.len() as nat) + be_value(bytes@),
{
    let mut v: u128 = prefix;
    let mut i: usize = 0;
    proof {
        lemma2_to64();
        assert(bytes@.subrange(0, 0) =~= Seq::<u8>::empty());
        assert(prefix * pow2(0) == prefix) by (nonlinear_arith)
            requires
                pow2(0) == 1,
        ;
    }
    while i < bytes.len()
        invariant
            i <= bytes.len() <= 16,
            v < pow2((128 - 8 * (bytes.len() - i)) as nat),
            v == prefix * pow2(8 * i as nat) + be_value(bytes@.subrange(0, i as int)),
        decreases bytes.len() - i,
    {
        let b: u8 = bytes[i];
        proof {
            let room = (128 - 8 * (bytes.len() - i)) as nat;
            lemma2_to64();
            lemma_pow2_adds(room, 8);
            lemma_pow2_128(room);
            lemma_pow2_128(room + 8);
            if room < 120 {
                lemma_pow2_strictly_increases(room, 120);
            }
            lemma_shift_in_byte(v, b);
            lemma_pow2_byte_step(i as nat);
            let head = bytes@.subrange(0, i as int);
            let next = bytes@.subrange(0, i + 1);
            assert(next.drop_last() =~= head);
            assert(next.last() == b);
            assert((prefix * pow2(8 * i as nat) + be_value(head)) * 256 + b == prefix * pow2(
                8 * (i + 1) as nat,
            ) + be_value(next)) by (nonlinear_arith)
                requires
                    pow2(8 * (i + 1) as nat) == 256 * pow2(8 * i as nat),
                    be_value(next) == be_value(head) * 256 + b,
            ;
            assert(v * 256 + b < pow2(room + 8)) by (nonlinear_arith)
                requires
                    v < pow2(room),
                    b < 256,
                    pow2(room + 8) == pow2(room) * 256,
            ;
        }
        v = (v << 8u32) | (b as u128);
        i += 1;
    }
    proof {
        assert(bytes@.subrange(0, bytes.len() as int) =~= bytes@);
    }
    v
}

/// The data of a level split into the bits that go into the header and the
/// tail: the header's share is below `2^(header bits)`.
pub proof fn lemma_top_bits(signed: bool, level: nat, data: nat)
    requires
        level <= top_level(signed),
        data < pow2(data_bits(signed, level)),
    ensures
        data / pow2(8 * level) < pow2((data_bits(signed, level) - 8 * level) as nat),
        (data / pow2(8 * level)) % pow2((data_bits(signed, level) - 8 * level) as nat) == data
            / pow2(8 * level),
{
    let tail = pow2(8 * level);
    let head = pow2((data_bits(signed, level) - 8 * level) as nat);
    lemma_data_bits_split(signed, level);
    lemma_pow2_pos(8 * level);
    lemma_pow2_pos((data_bits(signed, level) - 8 * level) as nat);
    assert(head * tail == tail * head) by (nonlinear_arith);
    vstd::arithmetic::div_mod::lemma_multiply_divide_lt(data as int, tail as int, head as int);
    vstd::arithmetic::div_mod::lemma_div_nonincreasing(data as int, tail as int);
    vstd::arithmetic::div_mod::lemma_small_mod(data / tail, head);
}

/// Read a header byte that is not full: the number of its leading 1-bits
/// and the data bits below them.
fn split_header_byte(b: u8) -> (r: (usize, u8))
    requires
        b != 0xFF,
    ensures
        r.0 == ones_count(b),
        r.0 <= 7,
        r.1 == b - ones_prefix(r.0 as nat),
        r.1 < pow2((7 - r.0) as nat),
{
    proof {
        lemma2_to64();
        lemma_leading_ones(b);
    }
    let n: usize = b.leading_ones() as usize;
    let hdr_data_bits: usize = 7 - n;
    let mask: u8 = low_mask_u8(hdr_data_bits);
    proof {
        crate::bits::lemma_mask_below_ones(b, mask);
    }
    (n, b & mask)
}

/// Read a 7-bit sub-header that is not full: the number of its leading
/// 1-bits and the data bits below them.
fn split_sub_header(sub: u8) -> (r: (usize, u8))
    requires
        sub < 0x7F,
    ensures
        r.0 == ones_count_7(sub),
        r.0 <= 6,
        r.1 == sub - ones_prefix_7(r.0 as nat),
        r.1 < pow2((6 - r.0) as nat),
{
    proof {
        lemma2_to64();
    }
    let n: usize = leading_ones_in_7bits(sub);
    let hdr_data_bits: usize = 6 - n;
    let mask: u8 = low_mask_u8(hdr_data_bits);
    proof {
        crate::bits::lemma_mask_below_ones_7(sub, mask);
    }
    (n, sub & mask)
}

/// The header's data bits leave room for the tail in 128 bits, or in 127
/// for a magnitude.
proof fn lemma_header_room(signed: bool, level: nat, top: nat)
    requires
        level <= top_level(signed),
        top < pow2((data_bits(signed, level) - 8 * level) as nat),
    ensures
        top < pow2((128 - 8 * level) as nat),
        signed ==> top * pow2(8 * level) + pow2(8 * level) <= pow2(127),
{
    let head_bits = (data_bits(signed, level) - 8 * level) as nat;
    if head_bits < 128 - 8 * level {
        lemma_pow2_strictly_increases(head_bits, (128 - 8 * level) as nat);
    }
    if signed {
        let room = (127 - 8 * level) as nat;
        if head_bits < room {
            lemma_pow2_strictly_increases(head_bits, room);
        }
        lemma_pow2_adds(room, 8 * level);
        let p = pow2(8 * level);
        let h = pow2(room);
        assert(top * p + p <= h * p) by (nonlinear_arith)
            requires
                top < h,
                p >= 0,
        ;
    }
}

// ── Unsigned encoding ──────────────────────────────────────────────────

/// Encode an unsigned integer into variable-length bytes, appended to `out`.
#[verifier::rlimit(30)]
pub fn encode_uint(v: u128, out: &mut Vec<u8>)
    ensures
        final(out)@ == old(out)@ + spec_encode_uint(v as nat),
{
    let offsets = compute_unsigned_offsets();
    let table = offsets.as_slice();
    let level: usize = find_level(v, table);
    proof {
        reveal(spec_encode_uint);
        assert(table@ == offsets@);
        assert(level >= 1 ==> v >= table[level as int]);
        assert(level < 16 ==> table[level + 1] == offset(false, (level + 1) as nat));
        lemma_offset_bound(false, level as nat);
        lemma_level_unique(false, v as nat, level as nat);
        lemma_level_of(false, v as nat);
    }
    let data: u128 = v - offsets[level];
    proof {
        lemma_top_bits(false, level as nat, data as nat);
        lemma2_to64();
    }
    if level <= 7 {
        // Single header byte: level leading 1-bits, then 0, then (7-level) data bits
        let hdr_data_bits: usize = 7 - level;
        let prefix: u8 = leading_ones_byte(level);
        let hdr_data: u128 = extract_top_bits(data, level, hdr_data_bits);
        let top: u8 = hdr_data as u8;
        proof {
            crate::bits::lemma_or_is_add(prefix, top);
        }
        out.push(prefix | top);
    } else if level <= 15 {
        out.push(0xFF);
        let m: usize = level - 8;
        let hdr_data_bits: usize = 7 - m;
        let prefix: u8 = leading_ones_byte(m);
        let hdr_data: u128 = extract_top_bits(data, level, hdr_data_bits);
        let top: u8 = hdr_data as u8;
        proof {
            crate::bits::lemma_or_is_add(prefix, top);
        }
        out.push(prefix | top);
    } else {
        // Level 16: both headers = 0xFF, no data bits in header
        out.push(0xFF);
        out.push(0xFF);
    }
    assert(out@ =~= old(out)@ + uint_header(level as nat, data as nat / pow2(8 * level as nat)));
    // Write `level` extra data bytes in big-endian
    write_be_tail(data, level, out);
    assert(out@ =~= old(out)@ + spec_encode_uint(v as nat));
}

/// Decode a variable-length unsigned integer from the start of `input`.
/// Returns the value and the number of bytes it took.
pub fn decode_uint(input: &[u8]) -> (r: Result<(u128, usize), Error>)
    ensures
        match spec_decode_uint(input@) {
            None => r == Err::<(u128, usize), Error>(Error::Eof),
            Some((v, n)) => 1 <= n <= input.len() && if v <= u128::MAX {
                r == Ok::<(u128, usize), Error>((v as u128, n as usize))
            } else {
                r == Err::<(u128, usize), Error>(Error::IntegerOverflow)
            },
        },
{
    proof {
        reveal(spec_decode_uint);
    }
    if input.len() == 0 {
        return Err(Error::Eof);
    }
    let first: u8 = input[0];
    let level: usize;
    let header_data: u128;
    let header_len: usize;
    if first != 0xFF {
        let (n, hdr_data) = split_header_byte(first);
        level = n;
        header_data = hdr_data as u128;
        header_len = 1;
    } else {
        if input.len() < 2 {
            return Err(Error::Eof);
        }
        let second: u8 = input[1];
        if second != 0xFF {
            let (m, hdr_data) = split_header_byte(second);
            level = 8 + m;
            header_data = hdr_data as u128;
            header_len = 2;
        } else {
            proof {
                lemma2_to64();
            }
            level = 16;
            header_data = 0;
            header_len = 2;
        }
    }
    let total: usize = header_len + level;
    if input.len() < total {
        return Err(Error::Eof);
    }
    proof {
        lemma_header_room(false, level as nat, header_data as nat);
        lemma_offset_bound(false, level as nat);
    }
    let tail = vstd::slice::slice_subrange(input, header_len, total);
    let data: u128 = assemble_be(header_data, tail);
    let offsets = compute_unsigned_offsets();
    match data.checked_add(offsets[level]) {
        Some(v) => Ok((v, total)),
        None => Err(Error::IntegerOverflow),
    }
}

// ── Signed encoding ────────────────────────────────────────────────────

/// Encode a signed integer into variable-length bytes, appended to `out`.
pub fn encode_sint(v: i128, out: &mut Vec<u8>)
    ensures
        final(out)@ == old(out)@ + spec_encode_sint(v as int),
{
    let start: usize = out.len();
    if v >= 0 {
        encode_sint_magnitude(v as u128, out);
        let first: u8 = out[start];
        proof {
            lemma_sign_bit(first);
        }
        out[start] = first | 0x80;  // set sign bit = 1 (non-negative)
        assert(out@ =~= old(out)@ + spec_encode_sint(v as int));
    } else {
        let magnitude: u128 = (-(v + 1)) as u128;
        encode_sint_magnitude(magnitude, out);
        let first: u8 = out[start];
        proof {
            lemma_sign_bit(first);
        }
        out[start] = first | 0x80;  // temporarily set sign = 1 so complement makes it 0
        let ghost positive = out@;
        assert(positive =~= old(out)@ + with_sign_bit(
            spec_encode_sint_magnitude(magnitude as nat),
        ));
        let mut i: usize = start;
        while i < out.len()
            invariant
                start <= i <= out.len(),
                out.len() == positive.len(),
                forall|j: int| 0 <= j < start ==> out[j] == positive[j],
                forall|j: int| start <= j < i ==> out[j] == 255 - positive[j],
                forall|j: int| i <= j < out.len() ==> out[j] == positive[j],
            decreases out.len() - i,
        {
            let b: u8 = out[i];
            proof {
                lemma_sign_bit(b);
            }
            out[i] = !b;
            i += 1;
        }
        proof {
            let enc = with_sign_bit(spec_encode_sint_magnitude(magnitude as nat));
            assert(magnitude as nat == (-v - 1) as nat);
            assert forall|j: int| start <= j < out.len() implies out[j] == complement(enc)[j
                - start] by {
                assert(positive[j] == enc[j - start]);
            }
            assert(positive.len() == start + enc.len());
            assert(complement(enc).len() == enc.len());
            assert forall|j: int| 0 <= j < start implies out[j] == old(out)@[j] by {
                assert(positive[j] == old(out)@[j]);
            }
            let whole = old(out)@ + complement(enc);
            assert forall|j: int| 0 <= j < out.len() implies out@[j] == whole[j] by {
                if j >= start {
                    assert(out[j] == complement(enc)[j - start]);
                }
            }
            assert(out@ =~= whole);
        }
    }
}

/// Decode a variable-length signed integer from the start of `input`.
/// Returns the value and the number of bytes it took.
pub fn decode_sint(input: &[u8]) -> (r: Result<(i128, usize), Error>)
    ensures
        match spec_decode_sint(input@) {
            None => r == Err::<(i128, usize), Error>(Error::Eof),
            Some((v, n)) => 1 <= n <= input.len() && if i128::MIN <= v <= i128::MAX {
                r == Ok::<(i128, usize), Error>((v as i128, n as usize))
            } else {
                r == Err::<(i128, usize), Error>(Error::IntegerOverflow)
            },
        },
{
    if input.len() == 0 {
        return Err(Error::Eof);
    }
    let first: u8 = input[0];
    proof {
        lemma_sign_bit(first);
    }
    let positive: bool = (first & 0x80) != 0;
    let rest = vstd::slice::slice_subrange(input, 1, input.len());
    assert(rest@ =~= input@.skip(1));
    if positive {
        let first_sub: u8 = first & 0x7F;
        match decode_sint_magnitude(first_sub, rest) {
            Ok((mag, consumed)) => {
                if mag > i128::MAX as u128 {
                    Err(Error::IntegerOverflow)
                } else {
                    Ok((mag as i128, consumed))
                }
            },
            Err(e) => Err(e),
        }
    } else {
        // Determine length, complement, decode
        let first_complemented: u8 = !first;
        proof {
            lemma_sign_bit(first_complemented);
        }
        let first_sub: u8 = first_complemented & 0x7F;
        proof {
            lemma_total_len_decides(first_sub, complement(rest@));
        }
        let total_len: usize = match sint_total_len(first_sub, rest, true) {
            Ok(n) => n,
            Err(e) => {
                return Err(e);
            },
        };
        if input.len() < total_len {
            proof {
                lemma_total_len_decides(first_sub, complement(rest@));
            }
            return Err(Error::Eof);
        }
        let mut buf: Vec<u8> = Vec::with_capacity(total_len);
        let mut i: usize = 0;
        while i < total_len
            invariant
                i <= total_len <= input.len(),
                buf.len() == i,
                forall|j: int| 0 <= j < i ==> buf[j] == 255 - input[j],
            decreases total_len - i,
        {
            let b: u8 = input[i];
            proof {
                lemma_sign_bit(b);
            }
            buf.push(!b);
            i += 1;
        }
        let sub: u8 = buf[0] & 0x7F;
        let tail = vstd::slice::slice_subrange(buf.as_slice(), 1, total_len);
        proof {
            assert(sub == first_sub);
            assert(tail@ =~= complement(rest@).take(total_len - 1));
            lemma_total_len_decides(first_sub, complement(rest@));
            lemma_magnitude_of_prefix(first_sub, complement(rest@), total_len - 1);
        }
        match decode_sint_magnitude(sub, tail) {
            Ok((mag, consumed)) => {
                if mag > i128::MAX as u128 {
                    Err(Error::IntegerOverflow)
                } else {
                    Ok((-(mag as i128) - 1, total_len))
                }
            },
            Err(e) => Err(e),
        }
    }
}

/// Encode magnitude using the 7-bit sub-header scheme.
/// Bit 7 of first byte is left as 0 (caller sets sign bit).
#[verifier::rlimit(30)]
fn encode_sint_magnitude(v: u128, out: &mut Vec<u8>)
    requires
        v <= i128::MAX,
    ensures
        final(out)@ == old(out)@ + spec_encode_sint_magnitude(v as nat),
        spec_encode_sint_magnitude(v as nat).len() > 0,
        spec_encode_sint_magnitude(v as nat)[0] < 0x80,
{
    let offsets = compute_signed_offsets();
    let table = offsets.as_slice();
    let level: usize = find_level(v, table);
    proof {
        reveal(spec_encode_sint_magnitude);
        assert(table@ == offsets@);
        assert(level >= 1 ==> v >= table[level as int]);
        assert(level < 15 ==> table[level + 1] == offset(true, (level + 1) as nat));
        lemma_offset_bound(true, level as nat);
        lemma_level_unique(true, v as nat, level as nat);
        lemma_level_of(true, v as nat);
    }
    let data: u128 = v - offsets[level];
    proof {
        lemma_top_bits(true, level as nat, data as nat);
        lemma2_to64();
    }
    if level <= 6 {
        let hdr_data_bits: usize = 6 - level;
        let prefix: u8 = leading_ones_7bit(level);
        let hdr_data: u128 = extract_top_bits(data, level, hdr_data_bits);
        let top: u8 = hdr_data as u8;
        proof {
            crate::bits::lemma_or_is_add(prefix, top);
        }
        out.push(prefix | top);
    } else if level <= 14 {
        // First byte: sub-header = 0x7F (bit 7 = 0, bits 6..0 = all 1s)
        out.push(0x7F);
        let m: usize = level - 7;
        let hdr_data_bits: usize = 7 - m;
        let prefix: u8 = leading_ones_byte(m);
        let hdr_data: u128 = extract_top_bits(data, level, hdr_data_bits);
        let top: u8 = hdr_data as u8;
        proof {
            crate::bits::lemma_or_is_add(prefix, top);
        }
        out.push(prefix | top);
    } else {
        // Level 15: first = 0x7F, second = 0xFF, third has 7 data bits
        out.push(0x7F);
        out.push(0xFF);
        let hdr_data: u128 = extract_top_bits(data, 15, 7);
        out.push(hdr_data as u8);
    }
    assert(out@ =~= old(out)@ + sint_header(level as nat, data as nat / pow2(8 * level as nat)));
    write_be_tail(data, level, out);
    assert(out@ =~= old(out)@ + spec_encode_sint_magnitude(v as nat));
}

/// Decode magnitude from 7-bit sub-header and remaining bytes.
fn decode_sint_magnitude(sub: u8, rest: &[u8]) -> (r: Result<(u128, usize), Error>)
    requires
        sub <= 0x7F,
    ensures
        match spec_decode_sint_magnitude(sub, rest@) {
            None => r == Err::<(u128, usize), Error>(Error::Eof),
            Some((m, n)) => r == Ok::<(u128, usize), Error>((m as u128, n as usize)) && m
                <= u128::MAX && 1 <= n <= 1 + rest.len(),
        },
{
    let level: usize;
    let header_data: u128;
    let extra_header_bytes: usize;
    proof {
        reveal(spec_decode_sint_magnitude);
    }
    if sub != 0x7F {
        let (n, hdr_data) = split_sub_header(sub);
        level = n;
        header_data = hdr_data as u128;
        extra_header_bytes = 0;
    } else {
        if rest.len() == 0 {
            return Err(Error::Eof);
        }
        let second: u8 = rest[0];
        if second != 0xFF {
            let (m, hdr_data) = split_header_byte(second);
            level = 7 + m;
            header_data = hdr_data as u128;
            extra_header_bytes = 1;
        } else {
            if rest.len() < 2 {
                return Err(Error::Eof);
            }
            let third: u8 = rest[1];
            proof {
                lemma_sign_bit(third);
                lemma2_to64();
            }
            level = 15;
            header_data = (third & 0x7F) as u128;
            extra_header_bytes = 2;
        }
    }
    let data_start: usize = extra_header_bytes;
    let data_end: usize = data_start + level;
    if rest.len() < data_end {
        return Err(Error::Eof);
    }
    proof {
        lemma_header_room(true, level as nat, header_data as nat);
    }
    let tail = vstd::slice::slice_subrange(rest, data_start, data_end);
    let data: u128 = assemble_be(header_data, tail);
    let total_consumed: usize = 1 + data_end;  // 1 for first byte + rest consumed
    let offsets = compute_signed_offsets();
    proof {
        let input = seq![sub] + rest@;
        assert(tail@ =~= input.subrange(1 + data_start, 1 + data_end));
        crate::big_endian::lemma_be_value_bound(tail@);
        lemma_pow2_128(127);
        lemma_offset_bound(true, level as nat);
    }
    Ok((data + offsets[level], total_consumed))
}

/// Determine total encoded byte length of a signed value, from its first
/// byte without the sign bit and the bytes after it. `complemented` says that
/// `rest` holds the bytes of a negative value, still complemented.
fn sint_total_len(sub: u8, rest: &[u8], complemented: bool) -> (r: Result<usize, Error>)
    ensures
        match spec_sint_total_len(
            sub,
            if complemented {
                complement(rest@)
            } else {
                rest@
            },
        ) {
            None => r == Err::<usize, Error>(Error::Eof),
            Some(n) => r == Ok::<usize, Error>(n as usize),
        },
{
    if sub != 0x7F {
        let n: usize = leading_ones_in_7bits(sub);
        Ok(1 + n)
    } else {
        if rest.len() == 0 {
            return Err(Error::Eof);
        }
        let raw: u8 = rest[0];
        proof {
            lemma_sign_bit(raw);
        }
        let second: u8 = if complemented {
            !raw
        } else {
            raw
        };
        if second != 0xFF {
            proof {
                lemma_leading_ones(second);
            }
            let m: usize = second.leading_ones() as usize;
            let level: usize = 7 + m;
            Ok(2 + level)
        } else {
            Ok(3 + 15)  // level 15: 3 header + 15 data
        }
    }
}

/// The header alone says how long a magnitude is: the magnitude is there
/// where that many bytes are, and the input has ended early where not.
proof fn lemma_total_len_decides(sub: u8, rest: Seq<u8>)
    requires
        sub <= 0x7F,
    ensures
        match spec_sint_total_len(sub, rest) {
            None => spec_decode_sint_magnitude(sub, rest) is None,
            Some(n) => if 1 + rest.len() < n {
                spec_decode_sint_magnitude(sub, rest) is None
            } else {
                spec_decode_sint_magnitude(sub, rest) matches Some((_, k)) && k == n
            },
        },
{
    reveal(spec_decode_sint_magnitude);
}

/// A magnitude is read from its own bytes alone: what follows them does not
/// matter.
proof fn lemma_magnitude_of_prefix(sub: u8, rest: Seq<u8>, k: int)
    requires
        sub <= 0x7F,
        0 <= k <= rest.len(),
        spec_sint_total_len(sub, rest) matches Some(n) && n <= 1 + k,
    ensures
        spec_decode_sint_magnitude(sub, rest.take(k)) == spec_decode_sint_magnitude(sub, rest),
{
    reveal(spec_decode_sint_magnitude);
    let n = spec_sint_total_len(sub, rest).unwrap();
    let a = seq![sub] + rest.take(k);
    let b = seq![sub] + rest;
    assert forall|from: int, to: int| 0 <= from <= to <= n implies a.subrange(from, to)
        =~= b.subrange(from, to) by {}
}

} // verus!
