//! What holds of the variable-length integers: decoding undoes encoding, and
//! the encodings sort as the integers do.

use vstd::prelude::*;
use vstd::arithmetic::power2::pow2;
use vstd::arithmetic::power2::lemma2_to64;
use vstd::arithmetic::power2::lemma_pow2_pos;
use crate::big_endian::be_bytes;
use crate::big_endian::be_value;
use crate::big_endian::lemma_be_bytes_len;
use crate::big_endian::lemma_be_bytes_lt;
use crate::big_endian::lemma_be_bytes_mod;
use crate::big_endian::lemma_be_bytes_of_value;
use crate::big_endian::lemma_be_value_of_bytes;
use crate::order::byte_lt;
use crate::order::differ_at;
use crate::order::lex_lt;
use crate::order::lemma_byte_lt_append;
use crate::order::lemma_byte_lt_first;
use crate::order::lemma_byte_lt_prepend;
use crate::order::lemma_lex_lt_asymmetric;
use crate::varint::capacity;
use crate::varint::complement;
use crate::varint::data_bits;
use crate::varint::level_of;
use crate::varint::offset;
use crate::varint::ones_count;
use crate::varint::ones_count_7;
use crate::varint::ones_prefix;
use crate::varint::ones_prefix_7;
use crate::varint::sint_header;
use crate::varint::spec_decode_sint;
use crate::varint::spec_decode_sint_magnitude;
use crate::varint::spec_decode_uint;
use crate::varint::spec_encode_sint;
use crate::varint::spec_encode_sint_magnitude;
use crate::varint::spec_encode_uint;
use crate::varint::top_level;
use crate::varint::uint_header;
use crate::varint::with_sign_bit;
use crate::varint::lemma_level_monotonic;
use crate::varint::lemma_level_of;
use crate::varint::lemma_offset_bound;
use crate::varint::lemma_top_bits;

verus! {

// ── Header bytes ───────────────────────────────────────────────────────

/// A header byte with `n` leading 1-bits lies between the prefix of `n` ones
/// and that of `n + 1`, and its leading 1-bits are counted as `n`.
pub proof fn lemma_header_byte(n: nat, top: nat)
    requires
        n <= 7,
        top < pow2((7 - n) as nat),
    ensures
        ones_prefix(n) + top < ones_prefix(n + 1),
        ones_prefix(n + 1) <= 255,
        ones_count((ones_prefix(n) + top) as u8) == n,
{
    lemma2_to64();
}

/// The same for the 7-bit field below the sign bit.
pub proof fn lemma_header_byte_7(n: nat, top: nat)
    requires
        n <= 6,
        top < pow2((6 - n) as nat),
    ensures
        ones_prefix_7(n) + top < ones_prefix_7(n + 1),
        ones_prefix_7(n + 1) <= 127,
        ones_count_7((ones_prefix_7(n) + top) as u8) == n,
{
    lemma2_to64();
}

/// More leading 1-bits make a larger prefix.
pub proof fn lemma_ones_prefix_increases(a: nat, b: nat)
    requires
        a <= b <= 8,
    ensures
        ones_prefix(a) <= ones_prefix(b),
        b <= 7 ==> ones_prefix_7(a) <= ones_prefix_7(b),
{
    lemma2_to64();
}

// ── The parts of an encoding ───────────────────────────────────────────

/// The level, the data and the top data bits of an unsigned or signed
/// magnitude that has an encoding.
pub proof fn lemma_parts(signed: bool, v: nat)
    requires
        v < capacity(signed),
    ensures
        level_of(signed, v) <= top_level(signed),
        offset(signed, level_of(signed, v)) <= v,
        ({
            let level = level_of(signed, v);
            let data = (v - offset(signed, level)) as nat;
            let top = data / pow2(8 * level);
            &&& top < pow2((data_bits(signed, level) - 8 * level) as nat)
            &&& data == top * pow2(8 * level) + data % pow2(8 * level)
            &&& data % pow2(8 * level) < pow2(8 * level)
            &&& be_bytes(data, level).len() == level
            &&& be_value(be_bytes(data, level)) == data % pow2(8 * level)
            &&& be_bytes(data, level) == be_bytes(data % pow2(8 * level), level)
        }),
{
    let level = level_of(signed, v);
    lemma_level_of(signed, v);
    let data = (v - offset(signed, level)) as nat;
    let p = pow2(8 * level);
    lemma_top_bits(signed, level, data);
    lemma_pow2_pos(8 * level);
    vstd::arithmetic::div_mod::lemma_fundamental_div_mod(data as int, p as int);
    vstd::arithmetic::div_mod::lemma_mod_bound(data as int, p as int);
    assert(p * (data / p) == (data / p) * p) by (nonlinear_arith);
    lemma_be_bytes_len(data, level);
    lemma_be_value_of_bytes(data, level);
    lemma_be_bytes_of_value(be_bytes(data, level));
}

// ── Decoding undoes encoding ───────────────────────────────────────────

/// What is read from a header and a tail put together, for an unsigned
/// value.
proof fn lemma_uint_from_parts(level: nat, top: nat, data: nat, rest: Seq<u8>)
    requires
        level <= 16,
        top < pow2((data_bits(false, level) - 8 * level) as nat),
        data == top * pow2(8 * level) + data % pow2(8 * level),
        be_bytes(data, level).len() == level,
        be_value(be_bytes(data, level)) == data % pow2(8 * level),
    ensures
        ({
            let enc = uint_header(level, top) + be_bytes(data, level);
            spec_decode_uint(enc + rest) == Some((offset(false, level) + data, enc.len()))
        }),
{
    reveal(spec_decode_uint);
    let header = uint_header(level, top);
    let tail = be_bytes(data, level);
    let input = header + tail + rest;
    if level <= 7 {
        lemma_header_byte(level, top);
        assert(input.subrange(1, 1 + level as int) =~= tail);
    } else if level <= 15 {
        lemma_header_byte((level - 8) as nat, top);
        assert(input.subrange(2, 2 + level as int) =~= tail);
    } else {
        assert(top < 1) by {
            lemma2_to64();
        }
        assert(input.subrange(2, 2 + level as int) =~= tail);
    }
}

/// Decoding undoes encoding: from the encoding of an unsigned `v`, whatever
/// follows it, `v` is read back, and the bytes taken are those of the
/// encoding.
pub proof fn lemma_uint_round_trip(v: nat, rest: Seq<u8>)
    requires
        v <= u128::MAX,
    ensures
        spec_decode_uint(spec_encode_uint(v) + rest) == Some((v, spec_encode_uint(v).len())),
{
    reveal(spec_encode_uint);
    lemma_offset_bound(false, 0);
    lemma_parts(false, v);
    let level = level_of(false, v);
    let data = (v - offset(false, level)) as nat;
    lemma_uint_from_parts(level, data / pow2(8 * level), data, rest);
}

/// What is read from a header and a tail put together, for a magnitude.
#[verifier::rlimit(30)]
proof fn lemma_magnitude_from_parts(level: nat, top: nat, data: nat, rest: Seq<u8>)
    requires
        level <= 15,
        top < pow2((data_bits(true, level) - 8 * level) as nat),
        data == top * pow2(8 * level) + data % pow2(8 * level),
        be_bytes(data, level).len() == level,
        be_value(be_bytes(data, level)) == data % pow2(8 * level),
    ensures
        ({
            let enc = sint_header(level, top) + be_bytes(data, level);
            &&& enc[0] < 0x80
            &&& spec_decode_sint_magnitude(enc[0], enc.skip(1) + rest) == Some(
                (offset(true, level) + data, enc.len()),
            )
        }),
{
    reveal(spec_decode_sint_magnitude);
    let header = sint_header(level, top);
    let tail = be_bytes(data, level);
    let enc = header + tail;
    let sub = enc[0];
    let after = enc.skip(1) + rest;
    let input = seq![sub] + after;
    assert(input =~= enc + rest);
    if level <= 6 {
        lemma_header_byte_7(level, top);
        assert(sub == (ones_prefix_7(level) + top) as u8);
        assert(input.subrange(1, 1 + level as int) =~= tail);
    } else if level <= 14 {
        lemma_header_byte((level - 7) as nat, top);
        assert(sub == 0x7F);
        assert(after[0] == (ones_prefix((level - 7) as nat) + top) as u8);
        assert(input.subrange(2, 2 + level as int) =~= tail);
    } else {
        assert(top < 128) by {
            lemma2_to64();
        }
        assert(sub == 0x7F);
        assert(after[0] == 0xFF);
        assert(after[1] == top as u8);
        assert(input.subrange(3, 3 + level as int) =~= tail);
    }
}

/// Decoding undoes encoding for magnitudes.
pub proof fn lemma_magnitude_round_trip(m: nat, rest: Seq<u8>)
    requires
        m <= i128::MAX,
    ensures
        spec_encode_sint_magnitude(m).len() > 0,
        spec_encode_sint_magnitude(m)[0] < 0x80,
        spec_decode_sint_magnitude(
            spec_encode_sint_magnitude(m)[0],
            spec_encode_sint_magnitude(m).skip(1) + rest,
        ) == Some((m, spec_encode_sint_magnitude(m).len())),
{
    reveal(spec_encode_sint_magnitude);
    lemma_offset_bound(true, 0);
    lemma_parts(true, m);
    let level = level_of(true, m);
    let data = (m - offset(true, level)) as nat;
    lemma_magnitude_from_parts(level, data / pow2(8 * level), data, rest);
}

/// Decoding undoes encoding: from the encoding of a signed `v`, whatever
/// follows it, `v` is read back, and the bytes taken are those of the
/// encoding.
pub proof fn lemma_sint_round_trip(v: int, rest: Seq<u8>)
    requires
        i128::MIN <= v <= i128::MAX,
    ensures
        spec_decode_sint(spec_encode_sint(v) + rest) == Some((v, spec_encode_sint(v).len())),
{
    lemma_offset_bound(true, 0);
    if v >= 0 {
        let m = v as nat;
        let mag = spec_encode_sint_magnitude(m);
        let input = with_sign_bit(mag) + rest;
        lemma_magnitude_round_trip(m, rest);
        assert(input[0] == mag[0] + 128);
        assert(input.skip(1) =~= mag.skip(1) + rest);
        assert(spec_encode_sint(v) == with_sign_bit(mag));
    } else {
        let m = (-v - 1) as nat;
        let mag = spec_encode_sint_magnitude(m);
        let input = complement(with_sign_bit(mag)) + rest;
        lemma_magnitude_round_trip(m, complement(rest));
        assert(input[0] == 127 - mag[0]);
        assert(complement(input.skip(1)) =~= mag.skip(1) + complement(rest));
        assert(spec_encode_sint(v) == complement(with_sign_bit(mag)));
    }
}

// ── The encodings sort as the integers ─────────────────────────────────

/// Within one level the data decide: the header where the top bits differ,
/// the tail where they do not.
proof fn lemma_same_level_order(ha: Seq<u8>, hb: Seq<u8>, da: nat, db: nat, level: nat)
    requires
        da < db,
        da / pow2(8 * level) == db / pow2(8 * level) ==> ha == hb,
        da / pow2(8 * level) < db / pow2(8 * level) ==> byte_lt(ha, hb),
    ensures
        byte_lt(ha + be_bytes(da, level), hb + be_bytes(db, level)),
{
    let p = pow2(8 * level);
    lemma_pow2_pos(8 * level);
    vstd::arithmetic::div_mod::lemma_div_is_ordered(da as int, db as int, p as int);
    if da / p < db / p {
        lemma_byte_lt_append(ha, hb, be_bytes(da, level), be_bytes(db, level));
    } else {
        vstd::arithmetic::div_mod::lemma_fundamental_div_mod(da as int, p as int);
        vstd::arithmetic::div_mod::lemma_fundamental_div_mod(db as int, p as int);
        vstd::arithmetic::div_mod::lemma_mod_bound(da as int, p as int);
        vstd::arithmetic::div_mod::lemma_mod_bound(db as int, p as int);
        lemma_be_bytes_mod(da, level);
        lemma_be_bytes_mod(db, level);
        lemma_be_bytes_lt(da % p, db % p, level);
        lemma_byte_lt_prepend(ha, be_bytes(da, level), be_bytes(db, level));
    }
}

/// The header of a higher level, or of the same level with larger top bits,
/// sorts later.
proof fn lemma_uint_header_order(la: nat, ta: nat, lb: nat, tb: nat)
    requires
        la <= lb <= 16,
        ta < pow2((data_bits(false, la) - 8 * la) as nat),
        tb < pow2((data_bits(false, lb) - 8 * lb) as nat),
        la < lb || ta < tb,
    ensures
        byte_lt(uint_header(la, ta), uint_header(lb, tb)),
{
    let ha = uint_header(la, ta);
    let hb = uint_header(lb, tb);
    if la <= 7 {
        lemma_header_byte(la, ta);
        if lb <= 7 {
            lemma_header_byte(lb, tb);
            if la < lb {
                lemma_ones_prefix_increases(la + 1, lb);
            }
        }
        assert(ha[0] < hb[0]);
        lemma_byte_lt_first(ha, hb);
    } else if la <= 15 {
        lemma_header_byte((la - 8) as nat, ta);
        if lb <= 15 {
            lemma_header_byte((lb - 8) as nat, tb);
            if la < lb {
                lemma_ones_prefix_increases((la - 7) as nat, (lb - 8) as nat);
            }
        }
        assert(ha[1] < hb[1]);
        assert(differ_at(ha, hb, 1));
    } else {
        assert(tb < 1) by {
            lemma2_to64();
        }
    }
}

/// The header of a magnitude of a higher level, or of the same level with
/// larger top bits, sorts later.
proof fn lemma_sint_header_order(la: nat, ta: nat, lb: nat, tb: nat)
    requires
        la <= lb <= 15,
        ta < pow2((data_bits(true, la) - 8 * la) as nat),
        tb < pow2((data_bits(true, lb) - 8 * lb) as nat),
        la < lb || ta < tb,
    ensures
        byte_lt(sint_header(la, ta), sint_header(lb, tb)),
{
    let ha = sint_header(la, ta);
    let hb = sint_header(lb, tb);
    if la <= 6 {
        lemma_header_byte_7(la, ta);
        if lb <= 6 {
            lemma_header_byte_7(lb, tb);
            if la < lb {
                lemma_ones_prefix_increases(la + 1, lb);
            }
        }
        assert(ha[0] < hb[0]);
        lemma_byte_lt_first(ha, hb);
    } else if la <= 14 {
        lemma_header_byte((la - 7) as nat, ta);
        if lb <= 14 {
            lemma_header_byte((lb - 7) as nat, tb);
            if la < lb {
                lemma_ones_prefix_increases((la - 6) as nat, (lb - 7) as nat);
            }
        }
        assert(ha[1] < hb[1]);
        assert(differ_at(ha, hb, 1));
    } else {
        assert(tb < 128) by {
            lemma2_to64();
        }
        assert(ha[2] < hb[2]);
        assert(differ_at(ha, hb, 2));
    }
}

/// Order preservation, unsigned: the smaller value has the encoding that
/// sorts first, and the two encodings differ in a byte, so that the order
/// stays whatever is appended to them.
pub proof fn lemma_uint_order(a: nat, b: nat)
    requires
        a < b <= u128::MAX,
    ensures
        byte_lt(spec_encode_uint(a), spec_encode_uint(b)),
{
    reveal(spec_encode_uint);
    lemma_offset_bound(false, 0);
    lemma_parts(false, a);
    lemma_parts(false, b);
    lemma_level_monotonic(false, a, b);
    let la = level_of(false, a);
    let lb = level_of(false, b);
    let da = (a - offset(false, la)) as nat;
    let db = (b - offset(false, lb)) as nat;
    let ta = da / pow2(8 * la);
    let tb = db / pow2(8 * lb);
    if la < lb {
        lemma_uint_header_order(la, ta, lb, tb);
        lemma_byte_lt_append(
            uint_header(la, ta),
            uint_header(lb, tb),
            be_bytes(da, la),
            be_bytes(db, lb),
        );
    } else {
        if ta < tb {
            lemma_uint_header_order(la, ta, lb, tb);
        }
        lemma_same_level_order(uint_header(la, ta), uint_header(lb, tb), da, db, la);
    }
}

/// Order preservation for magnitudes.
pub proof fn lemma_magnitude_order(a: nat, b: nat)
    requires
        a < b <= i128::MAX,
    ensures
        byte_lt(spec_encode_sint_magnitude(a), spec_encode_sint_magnitude(b)),
{
    reveal(spec_encode_sint_magnitude);
    lemma_offset_bound(true, 0);
    lemma_parts(true, a);
    lemma_parts(true, b);
    lemma_level_monotonic(true, a, b);
    let la = level_of(true, a);
    let lb = level_of(true, b);
    let da = (a - offset(true, la)) as nat;
    let db = (b - offset(true, lb)) as nat;
    let ta = da / pow2(8 * la);
    let tb = db / pow2(8 * lb);
    if la < lb {
        lemma_sint_header_order(la, ta, lb, tb);
        lemma_byte_lt_append(
            sint_header(la, ta),
            sint_header(lb, tb),
            be_bytes(da, la),
            be_bytes(db, lb),
        );
    } else {
        if ta < tb {
            lemma_sint_header_order(la, ta, lb, tb);
        }
        lemma_same_level_order(sint_header(la, ta), sint_header(lb, tb), da, db, la);
    }
}

/// Setting the sign bit of both keeps the order.
proof fn lemma_with_sign_bit_order(a: Seq<u8>, b: Seq<u8>)
    requires
        byte_lt(a, b),
        a[0] < 0x80,
        b[0] < 0x80,
    ensures
        byte_lt(with_sign_bit(a), with_sign_bit(b)),
{
    let i = choose|i: int| differ_at(a, b, i);
    assert forall|j: int| 0 <= j < i implies with_sign_bit(a)[j] == with_sign_bit(b)[j] by {
        assert(a[j] == b[j]);
    }
    assert(differ_at(with_sign_bit(a), with_sign_bit(b), i));
}

/// Complementing both turns the order round.
proof fn lemma_complement_order(a: Seq<u8>, b: Seq<u8>)
    requires
        byte_lt(a, b),
    ensures
        byte_lt(complement(b), complement(a)),
{
    let i = choose|i: int| differ_at(a, b, i);
    assert forall|j: int| 0 <= j < i implies complement(b)[j] == complement(a)[j] by {
        assert(a[j] == b[j]);
    }
    assert(differ_at(complement(b), complement(a), i));
}

/// Order preservation, signed: the smaller value has the encoding that sorts
/// first, and the two encodings differ in a byte.
pub proof fn lemma_sint_order(a: int, b: int)
    requires
        i128::MIN <= a < b <= i128::MAX,
    ensures
        byte_lt(spec_encode_sint(a), spec_encode_sint(b)),
{
    lemma_offset_bound(true, 0);
    let ma = if a >= 0 {
        a as nat
    } else {
        (-a - 1) as nat
    };
    let mb = if b >= 0 {
        b as nat
    } else {
        (-b - 1) as nat
    };
    let ea = spec_encode_sint_magnitude(ma);
    let eb = spec_encode_sint_magnitude(mb);
    lemma_magnitude_round_trip(ma, Seq::empty());
    lemma_magnitude_round_trip(mb, Seq::empty());
    if a >= 0 {
        lemma_magnitude_order(ma, mb);
        lemma_with_sign_bit_order(ea, eb);
    } else if b < 0 {
        lemma_magnitude_order(mb, ma);
        lemma_with_sign_bit_order(eb, ea);
        lemma_complement_order(with_sign_bit(eb), with_sign_bit(ea));
    } else {
        lemma_byte_lt_first(spec_encode_sint(a), spec_encode_sint(b));
    }
}

/// The order of two unsigned encodings, as byte strings compare, is the
/// order of the values.
pub proof fn lemma_uint_order_agrees(a: nat, b: nat)
    requires
        a <= u128::MAX,
        b <= u128::MAX,
    ensures
        a < b <==> lex_lt(spec_encode_uint(a), spec_encode_uint(b)),
        a == b <==> spec_encode_uint(a) == spec_encode_uint(b),
{
    if a < b {
        lemma_uint_order(a, b);
        lemma_lex_lt_asymmetric(spec_encode_uint(a), spec_encode_uint(b));
    } else if b < a {
        lemma_uint_order(b, a);
        lemma_lex_lt_asymmetric(spec_encode_uint(b), spec_encode_uint(a));
    } else if lex_lt(spec_encode_uint(a), spec_encode_uint(b)) {
        lemma_lex_lt_asymmetric(spec_encode_uint(a), spec_encode_uint(b));
    }
}

/// The order of two signed encodings, as byte strings compare, is the order
/// of the values.
pub proof fn lemma_sint_order_agrees(a: int, b: int)
    requires
        i128::MIN <= a <= i128::MAX,
        i128::MIN <= b <= i128::MAX,
    ensures
        a < b <==> lex_lt(spec_encode_sint(a), spec_encode_sint(b)),
        a == b <==> spec_encode_sint(a) == spec_encode_sint(b),
{
    if a < b {
        lemma_sint_order(a, b);
        lemma_lex_lt_asymmetric(spec_encode_sint(a), spec_encode_sint(b));
    } else if b < a {
        lemma_sint_order(b, a);
        lemma_lex_lt_asymmetric(spec_encode_sint(b), spec_encode_sint(a));
    } else if lex_lt(spec_encode_sint(a), spec_encode_sint(b)) {
        lemma_lex_lt_asymmetric(spec_encode_sint(a), spec_encode_sint(b));
    }
}

// ── Lengths ────────────────────────────────────────────────────────────

/// An unsigned encoding has one header byte up to level 7 and two above, and
/// as many tail bytes as its level says.
pub proof fn lemma_uint_len(v: nat)
    requires
        v <= u128::MAX,
    ensures
        spec_encode_uint(v).len() == level_of(false, v) + (if level_of(false, v) <= 7 {
            1nat
        } else {
            2nat
        }),
        1 <= spec_encode_uint(v).len() <= 18,
{
    reveal(spec_encode_uint);
    lemma_offset_bound(false, 0);
    lemma_parts(false, v);
}

/// A signed encoding has one header byte up to level 6, two up to level 14
/// and three at level 15, and as many tail bytes as the level of its
/// magnitude says.
pub proof fn lemma_sint_len(v: int)
    requires
        i128::MIN <= v <= i128::MAX,
    ensures
        ({
            let m = if v >= 0 {
                v as nat
            } else {
                (-v - 1) as nat
            };
            let level = level_of(true, m);
            spec_encode_sint(v).len() == level + (if level <= 6 {
                1nat
            } else if level <= 14 {
                2nat
            } else {
                3nat
            })
        }),
        1 <= spec_encode_sint(v).len() <= 18,
{
    let m = if v >= 0 {
        v as nat
    } else {
        (-v - 1) as nat
    };
    reveal(spec_encode_sint_magnitude);
    lemma_offset_bound(true, 0);
    lemma_parts(true, m);
}

/// Compactness: a larger unsigned value never has the shorter encoding; the
/// values up to 127 take one byte, those from 128 up to 16511 two.
pub proof fn lemma_uint_compact(a: nat, b: nat)
    requires
        a <= b <= u128::MAX,
    ensures
        spec_encode_uint(a).len() <= spec_encode_uint(b).len(),
        b <= 127 ==> spec_encode_uint(b).len() == 1,
        128 <= b <= 16511 ==> spec_encode_uint(b).len() == 2,
{
    lemma_uint_len(a);
    lemma_uint_len(b);
    lemma_level_monotonic(false, a, b);
    lemma2_to64();
    reveal_with_fuel(offset, 3);
    if b <= 127 {
        crate::varint::lemma_level_unique(false, b, 0);
    } else if b <= 16511 {
        crate::varint::lemma_level_unique(false, b, 1);
    }
}

/// Compactness: the signed values from -64 to 63 take one byte, those from
/// 64 to 8255 and from -8256 to -65 two.
pub proof fn lemma_sint_compact(v: int)
    requires
        i128::MIN <= v <= i128::MAX,
    ensures
        -64 <= v <= 63 ==> spec_encode_sint(v).len() == 1,
        64 <= v <= 8255 || -8256 <= v <= -65 ==> spec_encode_sint(v).len() == 2,
{
    let m = if v >= 0 {
        v as nat
    } else {
        (-v - 1) as nat
    };
    lemma_sint_len(v);
    lemma2_to64();
    reveal_with_fuel(offset, 3);
    if m <= 63 {
        crate::varint::lemma_level_unique(true, m, 0);
    } else if m <= 8255 {
        crate::varint::lemma_level_unique(true, m, 1);
    }
}

/// An unsigned value up to 127 is written as the byte that it is.
pub proof fn lemma_uint_small(v: nat)
    requires
        v <= 127,
    ensures
        spec_encode_uint(v) == seq![v as u8],
{
    reveal(spec_encode_uint);
    lemma2_to64();
    reveal_with_fuel(offset, 2);
    crate::varint::lemma_level_unique(false, v, 0);
    assert(v / pow2(0) == v) by (nonlinear_arith)
        requires
            pow2(0) == 1,
    ;
    assert(be_bytes(v, 0) =~= Seq::<u8>::empty());
    assert(spec_encode_uint(v) =~= seq![v as u8]);
}

/// A signed value from -64 to 63 is written as one byte: the value plus 128.
pub proof fn lemma_sint_small(v: int)
    requires
        -64 <= v <= 63,
    ensures
        spec_encode_sint(v) == seq![(v + 128) as u8],
{
    reveal(spec_encode_sint_magnitude);
    lemma2_to64();
    reveal_with_fuel(offset, 2);
    let m = if v >= 0 {
        v as nat
    } else {
        (-v - 1) as nat
    };
    crate::varint::lemma_level_unique(true, m, 0);
    assert(m / pow2(0) == m) by (nonlinear_arith)
        requires
            pow2(0) == 1,
    ;
    assert(be_bytes(m, 0) =~= Seq::<u8>::empty());
    assert(spec_encode_sint_magnitude(m) =~= seq![m as u8]);
    assert(spec_encode_sint(v) =~= seq![(v + 128) as u8]);
}

} // verus!
