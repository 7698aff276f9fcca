//! Partitioning a payload into fixed-size source symbols, and assembling
//! recovered symbols back into the exact payload.

use vstd::prelude::*;
use vstd::arithmetic::div_mod::{lemma_fundamental_div_mod, lemma_fundamental_div_mod_converse};

verus! {

/// Source symbol `j` of a payload: `symbol_size` bytes starting at
/// `j * symbol_size`, zero-padded past the end of the payload.
pub open spec fn symbol_at(data: Seq<u8>, symbol_size: int, j: int) -> Seq<u8>
    recommends
        symbol_size >= 1,
        j >= 0,
{
    Seq::new(
        symbol_size as nat,
        |i: int|
            if j * symbol_size + i < data.len() {
                data[j * symbol_size + i]
            } else {
                0u8
            },
    )
}

/// The first `transfer_length` bytes of the symbols laid end to end:
/// byte `i` comes from symbol `i / symbol_size` at offset `i % symbol_size`.
pub open spec fn assembled(symbols: Seq<Seq<u8>>, symbol_size: int, transfer_length: int) -> Seq<
    u8,
>
    recommends
        symbol_size >= 1,
{
    Seq::new(
        transfer_length as nat,
        |i: int| symbols[i / symbol_size][i % symbol_size],
    )
}

/// Copies a byte vector.
pub fn copy_bytes(v: &Vec<u8>) -> (r: Vec<u8>)
    ensures
        r@ == v@,
{
    let mut out: Vec<u8> = Vec::new();
    let mut i: usize = 0;
    while i < v.len()
        invariant
            i <= v@.len(),
            out@.len() == i,
            forall|x: int| 0 <= x < i ==> out@[x] == v@[x],
        decreases v@.len() - i,
    {
        out.push(v[i]);
        i = i + 1;
    }
    proof {
        assert(out@ =~= v@);
    }
    out
}

/// Splits `data` into `k` symbols of `symbol_size` bytes each, zero-padding
/// the last one.
pub fn partition(data: &[u8], k: u32, symbol_size: u32) -> (r: Vec<Vec<u8>>)
    requires
        symbol_size >= 1,
        k >= 1,
        data@.len() <= k * symbol_size,
        k * symbol_size <= usize::MAX,
    ensures
        r@.len() == k,
        forall|j: int|
            0 <= j < k ==> (#[trigger] r@[j])@ == symbol_at(data@, symbol_size as int, j),
{
    let kus = k as usize;
    let ssus = symbol_size as usize;
    let mut out: Vec<Vec<u8>> = Vec::new();
    let mut j: usize = 0;
    while j < kus
        invariant
            j <= kus,
            kus == k,
            ssus == symbol_size,
            symbol_size >= 1,
            data@.len() <= k * symbol_size,
            k * symbol_size <= usize::MAX,
            out@.len() == j,
            forall|x: int|
                0 <= x < j ==> (#[trigger] out@[x])@ == symbol_at(data@, symbol_size as int, x),
        decreases kus - j,
    {
        proof {
            assert(j * symbol_size + symbol_size <= k * symbol_size) by (nonlinear_arith)
                requires
                    j + 1 <= k,
                    symbol_size >= 1,
            ;
        }
        let base = j * ssus;
        let mut sym: Vec<u8> = Vec::new();
        let mut i: usize = 0;
        while i < ssus
            invariant
                i <= ssus,
                ssus == symbol_size,
                base == j * symbol_size,
                base + ssus <= usize::MAX,
                sym@.len() == i,
                forall|x: int|
                    0 <= x < i ==> sym@[x] == symbol_at(data@, symbol_size as int, j as int)[x],
            decreases ssus - i,
        {
            let idx = base + i;
            if idx < data.len() {
                sym.push(data[idx]);
            } else {
                sym.push(0);
            }
            i = i + 1;
        }
        proof {
            assert(sym@ =~= symbol_at(data@, symbol_size as int, j as int));
        }
        out.push(sym);
        j = j + 1;
    }
    out
}

/// Putting the source symbols of a payload end to end and trimming to the
/// payload's length gives back exactly the payload: the assembler inverts
/// the partitioner.
pub proof fn lemma_assemble_partition(data: Seq<u8>, symbol_size: int, k: int)
    requires
        symbol_size >= 1,
        k >= 1,
        data.len() <= k * symbol_size,
    ensures
        assembled(
            Seq::new(k as nat, |j: int| symbol_at(data, symbol_size, j)),
            symbol_size,
            data.len() as int,
        ) =~= data,
{
    let syms = Seq::new(k as nat, |j: int| symbol_at(data, symbol_size, j));
    let out = assembled(syms, symbol_size, data.len() as int);
    assert forall|i: int| 0 <= i < data.len() implies out[i] == data[i] by {
        lemma_fundamental_div_mod(i, symbol_size);
        let j = i / symbol_size;
        let b = i % symbol_size;
        assert(j < k) by (nonlinear_arith)
            requires
                i == symbol_size * j + b,
                0 <= b < symbol_size,
                i < k * symbol_size,
                symbol_size >= 1,
        ;
        assert(j >= 0) by (nonlinear_arith)
            requires
                i == symbol_size * j + b,
                0 <= b < symbol_size,
                i >= 0,
                symbol_size >= 1,
        ;
        assert(syms[j] == symbol_at(data, symbol_size, j));
        assert(j * symbol_size + b == i) by (nonlinear_arith)
            requires
                i == symbol_size * j + b,
        ;
    }
}

} // verus!
