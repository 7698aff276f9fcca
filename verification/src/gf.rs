//! Arithmetic in the finite field GF(256).
//!
//! Addition is XOR. Multiplication is carry-less multiplication reduced by
//! the polynomial x^8 + x^4 + x^3 + x + 1 (0x11b). Every encoded payload is
//! a linear combination of source symbols under this arithmetic, and the
//! decoder's elimination undoes those combinations.

use vstd::prelude::*;

verus! {

/// One doubling step in GF(256): multiply by x and reduce by 0x11b.
pub open spec fn gf_xtime(a: u8) -> u8 {
    if a >= 0x80 {
        (((a * 2) % 256) as u8) ^ 0x1b
    } else {
        ((a * 2) % 256) as u8
    }
}

/// Product in GF(256), by the carry-less peasant method: the bits of `b`
/// select which doublings of `a` are XORed together.
pub open spec fn gf_mul(a: u8, b: u8) -> u8
    decreases b,
{
    if b == 0 {
        0u8
    } else {
        (if b % 2 == 1 { a } else { 0u8 }) ^ gf_mul(gf_xtime(a), b / 2)
    }
}

/// `a` raised to the `n`-th power in GF(256).
pub open spec fn gf_pow(a: u8, n: nat) -> u8
    decreases n,
{
    if n == 0 {
        1u8
    } else {
        gf_mul(gf_pow(a, (n - 1) as nat), a)
    }
}

/// Multiplicative inverse in GF(256): the group of units has order 255,
/// so `a^254 * a == a^255 == 1` for nonzero `a`.
pub open spec fn gf_inv(a: u8) -> u8 {
    gf_pow(a, 254)
}

pub proof fn lemma_xor_zero(x: u8)
    ensures
        x ^ 0 == x,
        0 ^ x == x,
{
    assert(x ^ 0 == x && 0 ^ x == x) by (bit_vector);
}

pub proof fn lemma_xor_self(x: u8)
    ensures
        x ^ x == 0,
{
    assert(x ^ x == 0) by (bit_vector);
}

pub proof fn lemma_xor_assoc(x: u8, y: u8, z: u8)
    ensures
        (x ^ y) ^ z == x ^ (y ^ z),
{
    assert((x ^ y) ^ z == x ^ (y ^ z)) by (bit_vector);
}

/// Zero absorbs multiplication on the left.
pub proof fn lemma_gf_mul_zero_left(b: u8)
    ensures
        gf_mul(0, b) == 0,
    decreases b,
{
    if b != 0 {
        assert(gf_xtime(0) == 0);
        lemma_gf_mul_zero_left(b / 2);
        lemma_xor_zero(0);
    }
}

/// One is a right identity of multiplication.
pub proof fn lemma_gf_mul_one_right(a: u8)
    ensures
        gf_mul(a, 1) == a,
{
    assert(gf_mul(gf_xtime(a), 0) == 0);
    lemma_xor_zero(a);
}

/// Executable product in GF(256).
pub fn gf_mul_exec(a: u8, b: u8) -> (r: u8)
    ensures
        r == gf_mul(a, b),
{
    let mut res: u8 = 0;
    let mut aa: u8 = a;
    let mut bb: u8 = b;
    proof {
        lemma_xor_zero(gf_mul(a, b));
    }
    while bb != 0
        invariant
            gf_mul(a, b) == res ^ gf_mul(aa, bb),
        decreases bb,
    {
        let ghost res0 = res;
        let ghost aa0 = aa;
        let ghost bb0 = bb;
        if bb % 2 == 1 {
            res = res ^ aa;
        }
        let doubled = ((aa as u16 * 2) % 256) as u8;
        if aa >= 0x80 {
            aa = doubled ^ 0x1b;
        } else {
            aa = doubled;
        }
        bb = bb / 2;
        proof {
            assert(aa == gf_xtime(aa0));
            let c: u8 = if bb0 % 2 == 1 { aa0 } else { 0u8 };
            assert(gf_mul(aa0, bb0) == c ^ gf_mul(aa, bb));
            lemma_xor_assoc(res0, c, gf_mul(aa, bb));
            if bb0 % 2 != 1 {
                lemma_xor_zero(gf_mul(aa, bb));
                lemma_xor_zero(res0);
            }
        }
    }
    proof {
        assert(gf_mul(aa, 0) == 0);
        lemma_xor_zero(res);
    }
    res
}

/// Executable inverse in GF(256), by exponentiation to the 254th power.
pub fn gf_inv_exec(a: u8) -> (r: u8)
    ensures
        r == gf_inv(a),
{
    let mut acc: u8 = 1;
    let mut i: usize = 0;
    while i < 254
        invariant
            i <= 254,
            acc == gf_pow(a, i as nat),
        decreases 254 - i,
    {
        acc = gf_mul_exec(acc, a);
        i = i + 1;
    }
    acc
}

} // verus!
