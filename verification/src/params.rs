//! Transmission parameters: how a payload is cut into source symbols.
//!
//! Both sides of a transfer derive their behaviour from these values, so
//! they are computed once at encode time and carried with the packets.

use vstd::prelude::*;
use vstd::arithmetic::div_mod::{lemma_fundamental_div_mod, lemma_fundamental_div_mod_converse};
use crate::types::FecError;

verus! {

/// Number of source symbols for a payload of `transfer_length` bytes cut
/// into symbols of `symbol_size` bytes: the ceiling of their quotient.
pub open spec fn source_symbols(transfer_length: int, symbol_size: int) -> int
    recommends
        symbol_size >= 1,
{
    (transfer_length + symbol_size - 1) / symbol_size
}

/// The ceiling quotient, written with floor division and a remainder test.
pub proof fn lemma_ceil_div(tl: int, ss: int)
    requires
        tl >= 0,
        ss >= 1,
    ensures
        source_symbols(tl, ss) == tl / ss + (if tl % ss == 0 { 0int } else { 1int }),
        source_symbols(tl, ss) * ss >= tl,
        source_symbols(tl, ss) * ss - tl < ss,
        tl >= 1 ==> source_symbols(tl, ss) >= 1,
        source_symbols(tl, ss) <= tl,
{
    lemma_fundamental_div_mod(tl, ss);
    let q = tl / ss;
    let r = tl % ss;
    if r == 0 {
        assert(tl + ss - 1 == q * ss + (ss - 1)) by (nonlinear_arith)
            requires tl == ss * q + r && r == 0,
        ;
        lemma_fundamental_div_mod_converse(tl + ss - 1, ss, q, ss - 1);
    } else {
        assert(tl + ss - 1 == (q + 1) * ss + (r - 1)) by (nonlinear_arith)
            requires tl == ss * q + r,
        ;
        lemma_fundamental_div_mod_converse(tl + ss - 1, ss, q + 1, r - 1);
    }
    let k = source_symbols(tl, ss);
    assert(k * ss >= tl && k * ss - tl < ss) by (nonlinear_arith)
        requires
            tl == ss * q + r,
            0 <= r < ss,
            k == q + (if r == 0 { 0int } else { 1int }),
    ;
    assert(tl >= 1 ==> k >= 1) by (nonlinear_arith)
        requires
            tl == ss * q + r,
            0 <= r < ss,
            1 <= ss,
            k == q + (if r == 0 { 0int } else { 1int }),
    ;
    assert(k <= tl) by (nonlinear_arith)
        requires
            tl == ss * q + r,
            0 <= r < ss,
            1 <= ss,
            q >= 0,
            k == q + (if r == 0 { 0int } else { 1int }),
    ;
}

/// The fixed frame a payload is carried in: its exact length, the symbol
/// size, how many source symbols that yields, and how much zero padding
/// the last symbol carries. Encoder and decoder must agree on these.
#[derive(Clone, Copy, Debug, PartialEq, Eq, Structural)]
pub struct TransmissionParameters {
    pub transfer_length: u64,
    pub symbol_size: u32,
    pub source_symbol_count: u32,
    pub padding_length: u32,
}

impl TransmissionParameters {
    /// Internal consistency: the symbol count is the ceiling quotient and
    /// the padding is exactly what rounds the payload up to whole symbols.
    pub open spec fn wf(self) -> bool {
        &&& self.transfer_length >= 1
        &&& self.symbol_size >= 1
        &&& self.source_symbol_count == source_symbols(
            self.transfer_length as int,
            self.symbol_size as int,
        )
        &&& self.padding_length == self.source_symbol_count * self.symbol_size
            - self.transfer_length
    }

    /// Total length of the padded payload, in bytes.
    pub open spec fn padded_length(self) -> int {
        self.source_symbol_count * self.symbol_size
    }
}

/// Derives the transmission parameters for a payload of `transfer_length`
/// bytes. An empty payload is rejected, as is one whose symbol count would
/// not fit the identifier space.
pub fn derive_parameters(transfer_length: u64, symbol_size: u32) -> (r: Result<
    TransmissionParameters,
    FecError,
>)
    requires
        symbol_size >= 1,
    ensures
        (r is Ok) <==> (transfer_length >= 1 && source_symbols(
            transfer_length as int,
            symbol_size as int,
        ) <= u32::MAX),
        r is Ok ==> (r->Ok_0).wf() && (r->Ok_0).transfer_length == transfer_length && (
        r->Ok_0).symbol_size == symbol_size,
        r is Err ==> r->Err_0 == FecError::InvalidInput,
{
    proof {
        lemma_ceil_div(transfer_length as int, symbol_size as int);
    }
    if transfer_length == 0 {
        return Err(FecError::InvalidInput);
    }
    let sz = symbol_size as u64;
    let q = transfer_length / sz;
    let rem = transfer_length % sz;
    let k64: u64 = if rem == 0 {
        q
    } else {
        proof {
            lemma_fundamental_div_mod(transfer_length as int, sz as int);
            assert(q < transfer_length) by (nonlinear_arith)
                requires
                    transfer_length == sz * q + rem,
                    1 <= rem < sz,
                    q >= 0,
            ;
        }
        q + 1
    };
    assert(k64 == source_symbols(transfer_length as int, symbol_size as int));
    if k64 > u32::MAX as u64 {
        return Err(FecError::InvalidInput);
    }
    let k = k64 as u32;
    proof {
        assert(k64 * sz <= 0xffff_ffffu64 * 0xffff_ffffu64) by (nonlinear_arith)
            requires
                k64 <= 0xffff_ffffu64,
                sz <= 0xffff_ffffu64,
        ;
    }
    let padded: u64 = k64 * sz;
    let padding = (padded - transfer_length) as u32;
    Ok(
        TransmissionParameters {
            transfer_length,
            symbol_size,
            source_symbol_count: k,
            padding_length: padding,
        },
    )
}

/// A payload that fills its symbols exactly needs no padding; one that
/// spills a single byte into the last symbol needs a whole symbol minus
/// that byte.
pub proof fn lemma_padding_boundary(tl: int, ss: int)
    requires
        tl >= 1,
        ss >= 1,
    ensures
        tl % ss == 0 ==> source_symbols(tl, ss) * ss - tl == 0,
        tl % ss == 1 ==> source_symbols(tl, ss) * ss - tl == ss - 1,
{
    lemma_ceil_div(tl, ss);
    lemma_fundamental_div_mod(tl, ss);
    let q = tl / ss;
    let r = tl % ss;
    if r == 0 {
        assert(source_symbols(tl, ss) * ss - tl == 0) by (nonlinear_arith)
            requires
                tl == ss * q + r,
                r == 0,
                source_symbols(tl, ss) == q,
        ;
    } else if r == 1 {
        assert(source_symbols(tl, ss) * ss - tl == ss - 1) by (nonlinear_arith)
            requires
                tl == ss * q + r,
                r == 1,
                source_symbols(tl, ss) == q + 1,
        ;
    }
}

} // verus!
