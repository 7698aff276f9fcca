//! Generator rows: the coefficients that tie an encoded packet to the
//! source symbols.
//!
//! For an identifier below the source-symbol count `k` the row is the unit
//! vector at that position, so systematic packets copy their symbol. For
//! any other identifier the row is drawn from a deterministic mixing
//! function of `(id, k)` alone, so encoder and decoder regenerate the very
//! same row from the identifier without transmitting it.

use vstd::prelude::*;

verus! {

/// One 64-bit mixing round: multiply modulo 2^64.
pub open spec fn mix_step(x: u64, c: u64) -> u64 {
    ((x * c) % 0x1_0000_0000_0000_0000) as u64
}

/// A bit-scrambling permutation of 64-bit words (xor-shift rounds around
/// two odd multipliers).
pub open spec fn mix64(x: u64) -> u64 {
    let a = x ^ (x >> 30);
    let b = mix_step(a, 0xbf58_476d_1ce4_e5b9);
    let c = b ^ (b >> 27);
    let d = mix_step(c, 0x94d0_49bb_1331_11eb);
    d ^ (d >> 31)
}

/// Coefficient `j` of the generator row for packet `id` over `k` source
/// symbols. Unit rows for systematic identifiers; mixed bytes otherwise,
/// with the coefficient at position `id % k` forced odd so no repair row
/// is the zero row.
pub open spec fn row_coef(id: u32, k: u32, j: int) -> u8
    recommends
        k >= 1,
        0 <= j < k,
{
    if id < k {
        if j == id {
            1u8
        } else {
            0u8
        }
    } else {
        let seed = mix64(((id as u64) << 32) | (k as u64));
        let b = (mix64(seed ^ (j as u64)) % 256) as u8;
        if j == (id % k) as int {
            b | 1
        } else {
            b
        }
    }
}

/// The whole generator row for `id` over `k` source symbols.
pub open spec fn row_spec(id: u32, k: u32) -> Seq<u8> {
    Seq::new(k as nat, |j: int| row_coef(id, k, j))
}

fn mix_step_exec(x: u64, c: u64) -> (r: u64)
    ensures
        r == mix_step(x, c),
{
    proof {
        assert((x as u128) * (c as u128) <= 0xffff_ffff_ffff_ffff_ffff_ffff_ffff_ffffu128)
            by (nonlinear_arith)
            requires
                x <= 0xffff_ffff_ffff_ffffu64,
                c <= 0xffff_ffff_ffff_ffffu64,
        ;
    }
    let t: u128 = (x as u128) * (c as u128);
    (t % 0x1_0000_0000_0000_0000u128) as u64
}

fn mix64_exec(x: u64) -> (r: u64)
    ensures
        r == mix64(x),
{
    let a = x ^ (x >> 30);
    let b = mix_step_exec(a, 0xbf58_476d_1ce4_e5b9);
    let c = b ^ (b >> 27);
    let d = mix_step_exec(c, 0x94d0_49bb_1331_11eb);
    d ^ (d >> 31)
}

/// Builds the generator row for `id` over `k` source symbols.
pub fn row_of(id: u32, k: u32) -> (r: Vec<u8>)
    requires
        k >= 1,
    ensures
        r@ == row_spec(id, k),
{
    let kus = k as usize;
    let mut out: Vec<u8> = Vec::new();
    if id < k {
        let mut j: usize = 0;
        while j < kus
            invariant
                j <= kus,
                kus == k,
                id < k,
                out@.len() == j,
                forall|x: int| 0 <= x < j ==> out@[x] == row_coef(id, k, x),
            decreases kus - j,
        {
            if j == id as usize {
                out.push(1);
            } else {
                out.push(0);
            }
            j = j + 1;
        }
    } else {
        let seed = mix64_exec(((id as u64) << 32) | (k as u64));
        let forced = (id % k) as usize;
        let mut j: usize = 0;
        while j < kus
            invariant
                j <= kus,
                kus == k,
                id >= k,
                k >= 1,
                seed == mix64(((id as u64) << 32) | (k as u64)),
                forced == (id % k) as int,
                out@.len() == j,
                forall|x: int| 0 <= x < j ==> out@[x] == row_coef(id, k, x),
            decreases kus - j,
        {
            let h = mix64_exec(seed ^ (j as u64));
            let b = (h % 256) as u8;
            if j == forced {
                out.push(b | 1);
            } else {
                out.push(b);
            }
            j = j + 1;
        }
    }
    proof {
        assert(out@ =~= row_spec(id, k));
    }
    out
}

} // verus!
