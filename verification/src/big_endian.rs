//! Numbers as big-endian byte strings of a given length.

use vstd::prelude::*;
use vstd::arithmetic::power2::pow2;
use vstd::arithmetic::power2::lemma_pow2_adds;
use vstd::arithmetic::power2::lemma_pow2_pos;
use vstd::arithmetic::power2::lemma2_to64;
use crate::order::byte_lt;
use crate::order::differ_at;

verus! {

/// The `n` lowest bytes of `x`, highest first.
pub open spec fn be_bytes(x: nat, n: nat) -> Seq<u8>
    decreases n,
{
    if n == 0 {
        Seq::empty()
    } else {
        be_bytes(x / 256, (n - 1) as nat).push((x % 256) as u8)
    }
}

/// The number that `bytes` spell, highest byte first.
pub open spec fn be_value(bytes: Seq<u8>) -> nat
    decreases bytes.len(),
{
    if bytes.len() == 0 {
        0
    } else {
        be_value(bytes.drop_last()) * 256 + bytes.last() as nat
    }
}

/// `2^(8 * (n + 1))` is 256 times `2^(8 * n)`.
pub proof fn lemma_pow2_byte_step(n: nat)
    ensures
        pow2(8 * (n + 1)) == 256 * pow2(8 * n),
        pow2(8 * n) > 0,
{
    lemma2_to64();
    lemma_pow2_adds(8 * n, 8);
    lemma_pow2_pos(8 * n);
    assert(8 * (n + 1) == 8 * n + 8);
    assert(pow2(8 * n) * 256 == 256 * pow2(8 * n)) by (nonlinear_arith);
}

pub proof fn lemma_be_bytes_len(x: nat, n: nat)
    ensures
        be_bytes(x, n).len() == n,
    decreases n,
{
    if n > 0 {
        lemma_be_bytes_len(x / 256, (n - 1) as nat);
    }
}

/// Reading back what was written gives the number, as far as it fits.
pub proof fn lemma_be_value_of_bytes(x: nat, n: nat)
    ensures
        be_value(be_bytes(x, n)) == x % pow2(8 * n),
    decreases n,
{
    lemma2_to64();
    if n == 0 {
        assert(pow2(0) == 1);
    } else {
        let m = (n - 1) as nat;
        let s = be_bytes(x, n);
        lemma_be_value_of_bytes(x / 256, m);
        assert(s.drop_last() =~= be_bytes(x / 256, m));
        assert(s.last() == (x % 256) as u8);
        lemma_pow2_byte_step(m);
        let p = pow2(8 * m);
        // x % (256 p) == 256 * ((x / 256) % p) + x % 256
        lemma_mod_split(x, p);
    }
}

/// The remainder by `256 * p`, from the remainder of the quotient by `p`.
pub proof fn lemma_mod_split(x: nat, p: nat)
    requires
        p > 0,
    ensures
        x % (256 * p) == 256 * ((x / 256) % p) + x % 256,
{
    let q = x / 256;
    let r = x % 256;
    let q1 = q / p;
    let r1 = q % p;
    assert(x == 256 * q + r);
    assert(q == p * q1 + r1) by {
        vstd::arithmetic::div_mod::lemma_fundamental_div_mod(q as int, p as int);
    }
    assert(0 <= r1 < p) by {
        vstd::arithmetic::div_mod::lemma_mod_bound(q as int, p as int);
    }
    let y = 256 * r1 + r;
    assert(x == (256 * p) * q1 + y) by (nonlinear_arith)
        requires
            x == 256 * q + r,
            q == p * q1 + r1,
            y == 256 * r1 + r,
    ;
    assert(0 <= y < 256 * p) by (nonlinear_arith)
        requires
            y == 256 * r1 + r,
            0 <= r < 256,
            0 <= r1 < p,
    ;
    vstd::arithmetic::div_mod::lemma_fundamental_div_mod_converse(
        x as int,
        (256 * p) as int,
        q1 as int,
        y as int,
    );
}

/// A string of `n` bytes spells a number below `2^(8 * n)`.
pub proof fn lemma_be_value_bound(bytes: Seq<u8>)
    ensures
        be_value(bytes) < pow2(8 * bytes.len()),
    decreases bytes.len(),
{
    lemma2_to64();
    if bytes.len() > 0 {
        lemma_be_value_bound(bytes.drop_last());
        lemma_pow2_byte_step((bytes.len() - 1) as nat);
    }
}

/// Writing out the number that a string spells gives the string back.
pub proof fn lemma_be_bytes_of_value(bytes: Seq<u8>)
    ensures
        be_bytes(be_value(bytes), bytes.len()) == bytes,
    decreases bytes.len(),
{
    if bytes.len() == 0 {
        assert(be_bytes(be_value(bytes), 0) =~= bytes);
    } else {
        let head = bytes.drop_last();
        lemma_be_bytes_of_value(head);
        let x = be_value(bytes);
        assert(x / 256 == be_value(head));
        assert(x % 256 == bytes.last() as nat);
        assert(be_bytes(x, bytes.len()) =~= bytes);
    }
}

/// Of two numbers that fit in `n` bytes the smaller has the smaller string.
pub proof fn lemma_be_bytes_lt(x: nat, y: nat, n: nat)
    requires
        x < y < pow2(8 * n),
    ensures
        byte_lt(be_bytes(x, n), be_bytes(y, n)),
    decreases n,
{
    lemma2_to64();
    if n == 0 {
        assert(pow2(0) == 1);
    } else {
        let m = (n - 1) as nat;
        let a = be_bytes(x / 256, m);
        let b = be_bytes(y / 256, m);
        lemma_be_bytes_len(x / 256, m);
        lemma_be_bytes_len(y / 256, m);
        lemma_pow2_byte_step(m);
        if x / 256 < y / 256 {
            lemma_be_bytes_lt(x / 256, y / 256, m);
            let i = choose|i: int| differ_at(a, b, i);
            assert(differ_at(be_bytes(x, n), be_bytes(y, n), i));
        } else {
            assert(x / 256 == y / 256);
            assert(differ_at(be_bytes(x, n), be_bytes(y, n), m as int));
        }
    }
}

/// Only what fits in `n` bytes is written.
pub proof fn lemma_be_bytes_mod(x: nat, n: nat)
    ensures
        be_bytes(x, n) == be_bytes(x % pow2(8 * n), n),
{
    lemma_be_bytes_len(x, n);
    lemma_be_value_of_bytes(x, n);
    lemma_be_bytes_of_value(be_bytes(x, n));
}

} // verus!
