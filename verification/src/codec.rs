//! The two operations at the engine's boundary: `encode` and `decode`.

use vstd::prelude::*;
use vstd::arithmetic::div_mod::lemma_fundamental_div_mod;
use crate::canon::{canon_of, canonicalize, distinct_ids, has_id, ids_sorted,
    lemma_canon_of_duplicate, lemma_canon_of_permutation, lemma_canon_of_props,
    lemma_canon_of_sorted_identity};
use crate::gf::{gf_mul, gf_mul_exec, lemma_gf_mul_zero_left, lemma_xor_zero};
use crate::params::{derive_parameters, lemma_ceil_div, source_symbols, TransmissionParameters};
use crate::rows::{row_of, row_spec};
use crate::solver::{empty_state, lemma_count_some_full, lemma_run_upto_stable,
    lemma_run_upto_systematic, lemma_run_upto_wf, opt_idx, run_upto, solve_model, st_of, st_wf,
    sys_state, SymRow};
use crate::symbols::{assembled, copy_bytes, lemma_assemble_partition, partition, symbol_at};
use crate::types::{packet_view, packet_views, EncodeResult, EncodingPacket, FecError};

verus! {

/// Symbol size used by `encode`, in bytes.
pub const DEFAULT_SYMBOL_SIZE: u32 = 1024;

/// The linear combination of the source symbols under a coefficient row:
/// byte `b` of the result sums `row[j] * syms[j][b]` over GF(256) for the
/// first `n` symbols.
pub open spec fn dot(row: Seq<u8>, syms: Seq<Seq<u8>>, b: int, n: int) -> u8
    decreases n,
{
    if n <= 0 {
        0u8
    } else {
        dot(row, syms, b, n - 1) ^ gf_mul(row[n - 1], syms[n - 1][b])
    }
}

/// The payload of a repair packet: the full combination, one byte at a time.
pub open spec fn lin_combo(row: Seq<u8>, syms: Seq<Seq<u8>>, ss: int) -> Seq<u8> {
    Seq::new(ss as nat, |b: int| dot(row, syms, b, row.len() as int))
}

/// The source symbols of a payload, in index order.
pub open spec fn source_symbol_seq(data: Seq<u8>, ss: int, k: int) -> Seq<Seq<u8>> {
    Seq::new(k as nat, |j: int| symbol_at(data, ss, j))
}

/// The views of the byte vectors handed to the combiner.
pub open spec fn byte_views(s: Seq<Vec<u8>>) -> Seq<Seq<u8>> {
    s.map_values(|v: Vec<u8>| v@)
}

/// What `encode_with` accepts: a non-empty payload whose symbol count
/// plus the requested repair count fits the identifier space, and whose
/// padded buffer fits this machine's address space.
pub open spec fn encode_supported_with(len: int, repair: int) -> bool {
    &&& 1 <= len
    &&& source_symbols(len, DEFAULT_SYMBOL_SIZE as int) + repair <= u32::MAX
    &&& source_symbols(len, DEFAULT_SYMBOL_SIZE as int) * (DEFAULT_SYMBOL_SIZE as int)
        <= usize::MAX
}

/// A payload `encode` accepts: non-empty, and small enough that the symbol
/// count fits the identifier space twice over and the padded buffer fits
/// this machine's address space.
pub open spec fn encode_supported(len: int) -> bool {
    &&& 1 <= len
    &&& source_symbols(len, DEFAULT_SYMBOL_SIZE as int) <= 0x7fff_ffff
    &&& source_symbols(len, DEFAULT_SYMBOL_SIZE as int) * (DEFAULT_SYMBOL_SIZE as int)
        <= usize::MAX
}

/// The parameters `encode` derives for a payload of `len` bytes.
pub open spec fn params_model(len: int) -> TransmissionParameters {
    let k = source_symbols(len, DEFAULT_SYMBOL_SIZE as int);
    TransmissionParameters {
        transfer_length: len as u64,
        symbol_size: DEFAULT_SYMBOL_SIZE,
        source_symbol_count: k as u32,
        padding_length: (k * (DEFAULT_SYMBOL_SIZE as int) - len) as u32,
    }
}

/// Everything the encoder emits for a payload and a repair count: `k +
/// repair` packets with identifiers `0, ..., k+repair-1`; the first `k`
/// carry the source symbols verbatim, the rest carry the generator-row
/// combinations.
pub open spec fn encode_model_with(data: Seq<u8>, repair: int) -> Seq<(u32, Seq<u8>)> {
    let ss = DEFAULT_SYMBOL_SIZE as int;
    let k = source_symbols(data.len() as int, ss);
    Seq::new(
        (k + repair) as nat,
        |i: int|
            (
                i as u32,
                if i < k {
                    symbol_at(data, ss, i)
                } else {
                    lin_combo(row_spec(i as u32, k as u32), source_symbol_seq(data, ss, k), ss)
                },
            ),
    )
}

/// What `encode` emits: the default redundancy of one repair packet per
/// source symbol, `2k` packets in all.
pub open spec fn encode_model(data: Seq<u8>) -> Seq<(u32, Seq<u8>)> {
    encode_model_with(
        data,
        source_symbols(data.len() as int, DEFAULT_SYMBOL_SIZE as int),
    )
}

/// Combines the source symbols under a coefficient row.
fn lin_combo_exec(row: &Vec<u8>, syms: &Vec<Vec<u8>>, ss: usize) -> (out: Vec<u8>)
    requires
        row@.len() == syms@.len(),
        forall|j: int| 0 <= j < syms@.len() ==> (#[trigger] syms@[j])@.len() == ss,
    ensures
        out@ == lin_combo(row@, byte_views(syms@), ss as int),
{
    let ghost sv = byte_views(syms@);
    let mut out: Vec<u8> = Vec::new();
    let mut b: usize = 0;
    while b < ss
        invariant
            b <= ss,
            out@.len() == b,
            forall|x: int| 0 <= x < b ==> out@[x] == 0u8,
        decreases ss - b,
    {
        out.push(0);
        b = b + 1;
    }
    let mut j: usize = 0;
    while j < row.len()
        invariant
            j <= row@.len(),
            row@.len() == syms@.len(),
            sv == byte_views(syms@),
            forall|x: int| 0 <= x < syms@.len() ==> (#[trigger] syms@[x])@.len() == ss,
            out@.len() == ss,
            forall|x: int| 0 <= x < ss ==> out@[x] == dot(row@, sv, x, j as int),
        decreases row@.len() - j,
    {
        let f = row[j];
        if f != 0 {
            let sj = &syms[j];
            let mut b2: usize = 0;
            while b2 < ss
                invariant
                    b2 <= ss,
                    j < row@.len(),
                    row@.len() == syms@.len(),
                    sv == byte_views(syms@),
                    f == row@[j as int],
                    sj == syms@[j as int],
                    sj@.len() == ss,
                    out@.len() == ss,
                    forall|x: int| 0 <= x < b2 ==> out@[x] == dot(row@, sv, x, j + 1),
                    forall|x: int| b2 <= x < ss ==> out@[x] == dot(row@, sv, x, j as int),
                decreases ss - b2,
            {
                out[b2] = out[b2] ^ gf_mul_exec(f, sj[b2]);
                b2 = b2 + 1;
            }
        } else {
            proof {
                assert forall|x: int| 0 <= x < ss implies out@[x] == dot(row@, sv, x, j + 1) by {
                    lemma_gf_mul_zero_left(sv[j as int][x]);
                    lemma_xor_zero(dot(row@, sv, x, j as int));
                }
            }
        }
        j = j + 1;
    }
    proof {
        assert(out@ =~= lin_combo(row@, byte_views(syms@), ss as int));
    }
    out
}

/// Encodes a payload with an explicit redundancy: derives the
/// transmission parameters for the default symbol size, partitions the
/// payload into `k` source symbols, and emits the `k` systematic copies
/// followed by `repair_packets` repair combinations.
pub fn encode_with(data: &[u8], repair_packets: u32) -> (r: Result<EncodeResult, FecError>)
    ensures
        (r is Err) <==> !encode_supported_with(data@.len() as int, repair_packets as int),
        r is Err ==> r->Err_0 == FecError::InvalidInput,
        r is Ok ==> (r->Ok_0).parameters == params_model(data@.len() as int),
        r is Ok ==> packet_views((r->Ok_0).packets@) == encode_model_with(
            data@,
            repair_packets as int,
        ),
{
    let n = data.len();
    proof {
        lemma_ceil_div(n as int, DEFAULT_SYMBOL_SIZE as int);
    }
    if n == 0 {
        return Err(FecError::InvalidInput);
    }
    let params = match derive_parameters(n as u64, DEFAULT_SYMBOL_SIZE) {
        Ok(p) => p,
        Err(_) => {
            return Err(FecError::InvalidInput);
        },
    };
    let k = params.source_symbol_count;
    if k as u64 + repair_packets as u64 > u32::MAX as u64 {
        return Err(FecError::InvalidInput);
    }
    let padded64 = (k as u64) * (DEFAULT_SYMBOL_SIZE as u64);
    if padded64 > usize::MAX as u64 {
        return Err(FecError::InvalidInput);
    }
    proof {
        assert(params == params_model(n as int));
    }
    let kus = k as usize;
    let rus = repair_packets as usize;
    let ssus = DEFAULT_SYMBOL_SIZE as usize;
    let syms = partition(data, k, DEFAULT_SYMBOL_SIZE);
    let ghost model = encode_model_with(data@, repair_packets as int);
    let mut packets: Vec<EncodingPacket> = Vec::new();
    let mut i: usize = 0;
    while i < kus
        invariant
            i <= kus,
            kus == k,
            rus == repair_packets,
            k == source_symbols(data@.len() as int, DEFAULT_SYMBOL_SIZE as int),
            model == encode_model_with(data@, repair_packets as int),
            syms@.len() == k,
            forall|j: int|
                0 <= j < k ==> (#[trigger] syms@[j])@ == symbol_at(
                    data@,
                    DEFAULT_SYMBOL_SIZE as int,
                    j,
                ),
            packets@.len() == i,
            forall|x: int| 0 <= x < i ==> packet_view(#[trigger] packets@[x]) == model[x],
        decreases kus - i,
    {
        packets.push(EncodingPacket { id: i as u32, payload: copy_bytes(&syms[i]) });
        i = i + 1;
    }
    while i < kus + rus
        invariant
            kus <= i <= kus + rus,
            kus + rus <= u32::MAX,
            kus == k,
            k >= 1,
            rus == repair_packets,
            k == source_symbols(data@.len() as int, DEFAULT_SYMBOL_SIZE as int),
            ssus == DEFAULT_SYMBOL_SIZE,
            model == encode_model_with(data@, repair_packets as int),
            syms@.len() == k,
            forall|j: int|
                0 <= j < k ==> (#[trigger] syms@[j])@ == symbol_at(
                    data@,
                    DEFAULT_SYMBOL_SIZE as int,
                    j,
                ),
            packets@.len() == i,
            forall|x: int| 0 <= x < i ==> packet_view(#[trigger] packets@[x]) == model[x],
        decreases kus + rus - i,
    {
        let row = row_of(i as u32, k);
        let payload = lin_combo_exec(&row, &syms, ssus);
        proof {
            assert(byte_views(syms@) =~= source_symbol_seq(
                data@,
                DEFAULT_SYMBOL_SIZE as int,
                k as int,
            ));
        }
        packets.push(EncodingPacket { id: i as u32, payload });
        i = i + 1;
    }
    proof {
        assert(packet_views(packets@) =~= model);
    }
    Ok(EncodeResult { parameters: params, packets })
}

/// Encodes a payload at the default redundancy: one repair packet per
/// source symbol, `2k` packets in all, tolerating the loss of any half of
/// them that leaves a full-rank subset.
pub fn encode(data: &[u8]) -> (r: Result<EncodeResult, FecError>)
    ensures
        (r is Err) <==> !encode_supported(data@.len() as int),
        r is Err ==> r->Err_0 == FecError::InvalidInput,
        r is Ok ==> (r->Ok_0).parameters == params_model(data@.len() as int),
        r is Ok ==> packet_views((r->Ok_0).packets@) == encode_model(data@),
{
    let n = data.len();
    proof {
        lemma_ceil_div(n as int, DEFAULT_SYMBOL_SIZE as int);
    }
    if n == 0 {
        return Err(FecError::InvalidInput);
    }
    let params = match derive_parameters(n as u64, DEFAULT_SYMBOL_SIZE) {
        Ok(p) => p,
        Err(_) => {
            return Err(FecError::InvalidInput);
        },
    };
    let k = params.source_symbol_count;
    if k > 0x7fff_ffff {
        return Err(FecError::InvalidInput);
    }
    encode_with(data, k)
}

/// Internal consistency of a received bundle: well-formed parameters whose
/// padded payload fits this machine, and every packet payload exactly one
/// symbol wide.
pub open spec fn bundle_wf(p: TransmissionParameters, pkts: Seq<(u32, Seq<u8>)>) -> bool {
    &&& p.wf()
    &&& p.padded_length() <= usize::MAX
    &&& forall|i: int| 0 <= i < pkts.len() ==> (#[trigger] pkts[i]).1.len() == p.symbol_size
}

/// A decode outcome, seen mathematically.
pub open spec fn result_view(r: Result<Vec<u8>, FecError>) -> Result<Seq<u8>, FecError> {
    match r {
        Ok(v) => Ok(v@),
        Err(e) => Err(e),
    }
}

/// Decodes a bundle. The parameters are checked for consistency first;
/// then the packets are put in canonical form (sorted by identifier,
/// duplicates dropped) and fed to the solver, so the recovered payload —
/// and whether the call succeeds at all — depends only on *which* packets
/// arrived, never on their order or multiplicity. A failure reports the
/// number of packets supplied, duplicates included, against the number of
/// distinct identifiers required.
pub fn decode(bundle: &EncodeResult) -> (r: Result<Vec<u8>, FecError>)
    ensures
        (r is Err && r->Err_0 == FecError::CorruptParameters) <==> !bundle_wf(
            bundle.parameters,
            packet_views(bundle.packets@),
        ),
        bundle_wf(bundle.parameters, packet_views(bundle.packets@)) ==> result_view(r)
            == solve_model(
            bundle.parameters,
            canon_of(packet_views(bundle.packets@)),
            bundle.packets@.len() as int,
        ),
{
    let p = bundle.parameters;
    let ghost pviews = packet_views(bundle.packets@);
    if p.symbol_size == 0 || p.transfer_length == 0 {
        return Err(FecError::CorruptParameters);
    }
    let sz = p.symbol_size as u64;
    let q = p.transfer_length / sz;
    let rem = p.transfer_length % sz;
    let k64: u64 = if rem == 0 {
        q
    } else {
        proof {
            lemma_fundamental_div_mod(p.transfer_length as int, sz as int);
            assert(q < p.transfer_length) by (nonlinear_arith)
                requires
                    p.transfer_length == sz * q + rem,
                    1 <= rem < sz,
                    q >= 0,
            ;
        }
        q + 1
    };
    proof {
        lemma_ceil_div(p.transfer_length as int, sz as int);
        assert(k64 == source_symbols(p.transfer_length as int, p.symbol_size as int));
    }
    if (p.source_symbol_count as u64) != k64 {
        return Err(FecError::CorruptParameters);
    }
    proof {
        assert(k64 * sz <= 0xffff_ffffu64 * 0xffff_ffffu64) by (nonlinear_arith)
            requires
                k64 <= 0xffff_ffffu64,
                sz <= 0xffff_ffffu64,
        ;
    }
    let padded = k64 * sz;
    if (p.padding_length as u64) != padded - p.transfer_length {
        return Err(FecError::CorruptParameters);
    }
    if padded > usize::MAX as u64 {
        return Err(FecError::CorruptParameters);
    }
    proof {
        assert(p.wf());
        assert(p.padded_length() <= usize::MAX);
    }
    let ssus = p.symbol_size as usize;
    let mut ok = true;
    let mut ci: usize = 0;
    while ci < bundle.packets.len()
        invariant
            ci <= bundle.packets@.len(),
            pviews == packet_views(bundle.packets@),
            ssus == p.symbol_size,
            ok <==> (forall|i: int| 0 <= i < ci ==> (#[trigger] pviews[i]).1.len() == p.symbol_size),
        decreases bundle.packets@.len() - ci,
    {
        let pk = &bundle.packets[ci];
        if pk.payload.len() != ssus {
            ok = false;
        }
        proof {
            assert(pviews[ci as int].1 == bundle.packets@[ci as int].payload@);
        }
        ci = ci + 1;
    }
    if !ok {
        return Err(FecError::CorruptParameters);
    }
    assert(bundle_wf(p, pviews));
    // canonical form: sorted by identifier, duplicates dropped
    let canon = canonicalize(&bundle.packets);
    let ghost cv = canon_of(pviews);
    proof {
        lemma_canon_of_props(pviews);
        assert forall|i: int| 0 <= i < cv.len() implies (#[trigger] cv[i]).1.len()
            == p.symbol_size by {
            assert(pviews.contains(cv[i]));
            let x = choose|x: int| 0 <= x < pviews.len() && pviews[x] == cv[i];
            assert(pviews[x].1.len() == p.symbol_size);
        }
    }
    let k = p.source_symbol_count;
    let kus = k as usize;
    let mut rows: Vec<SymRow> = Vec::new();
    let mut piv: Vec<Option<usize>> = Vec::new();
    let mut pi: usize = 0;
    while pi < kus
        invariant
            pi <= kus,
            piv@.len() == pi,
            forall|x: int| 0 <= x < pi ==> (#[trigger] piv@[x]) is None,
        decreases kus - pi,
    {
        piv.push(None);
        pi = pi + 1;
    }
    proof {
        assert(st_of(rows@, piv@).rows =~= empty_state(k as int).rows);
        assert(st_of(rows@, piv@).piv =~= empty_state(k as int).piv);
        assert(st_of(rows@, piv@) == run_upto(p, cv, 0));
        lemma_run_upto_wf(p, cv, 0);
    }
    let mut t: usize = 0;
    while t < canon.len() && rows.len() < kus
        invariant
            t <= canon@.len(),
            kus == k,
            k == p.source_symbol_count,
            k >= 1,
            cv == packet_views(canon@),
            forall|i: int| 0 <= i < cv.len() ==> (#[trigger] cv[i]).1.len() == p.symbol_size,
            st_of(rows@, piv@) == run_upto(p, cv, t as int),
            st_wf(st_of(rows@, piv@), k as int, p.symbol_size as int),
            rows@.len() <= kus,
        decreases canon@.len() - t,
    {
        let pk = &canon[t];
        proof {
            assert(cv[t as int] == packet_view(canon@[t as int]));
            assert(pk.payload@.len() == p.symbol_size);
        }
        crate::solver::insert_packet(&mut rows, &mut piv, k, pk.id, &pk.payload);
        t = t + 1;
    }
    let ghost fin = run_upto(p, cv, cv.len() as int);
    proof {
        if rows@.len() == k {
            lemma_run_upto_stable(p, cv, t as int, cv.len() as int);
        }
        assert(st_of(rows@, piv@) == fin || (t == cv.len() && st_of(rows@, piv@) == fin));
    }
    if rows.len() < kus {
        proof {
            assert(t == cv.len());
            assert(fin.rows.len() < k);
        }
        return Err(
            FecError::InsufficientSymbols { provided: bundle.packets.len(), required: kus },
        );
    }
    // full rank: every column has a pivot row, whose payload is that
    // source symbol
    proof {
        lemma_count_some_full(st_of(rows@, piv@).piv);
    }
    let tlus = p.transfer_length as usize;
    let mut out: Vec<u8> = Vec::new();
    let mut i: usize = 0;
    while i < tlus
        invariant
            i <= tlus,
            tlus == p.transfer_length,
            ssus == p.symbol_size,
            ssus >= 1,
            kus == k,
            p.transfer_length <= k * p.symbol_size,
            st_of(rows@, piv@) == fin,
            st_wf(fin, k as int, p.symbol_size as int),
            fin.rows.len() == k,
            forall|j: int| 0 <= j < k ==> (#[trigger] fin.piv[j]) is Some,
            rows@.len() == k,
            piv@.len() == k,
            out@.len() == i,
            forall|x: int|
                0 <= x < i ==> out@[x] == fin.rows[opt_idx(fin.piv[x / (p.symbol_size as int)])].1[x
                    % (p.symbol_size as int)],
        decreases tlus - i,
    {
        let j = i / ssus;
        proof {
            lemma_fundamental_div_mod(i as int, ssus as int);
            assert(j < k) by (nonlinear_arith)
                requires
                    i == ssus * (i as int / ssus as int) + (i as int % ssus as int),
                    j == i as int / ssus as int,
                    0 <= (i as int % ssus as int) < ssus,
                    i < p.transfer_length,
                    p.transfer_length <= k * p.symbol_size,
                    ssus == p.symbol_size,
                    ssus >= 1,
            ;
            assert(piv@[j as int] is Some);
        }
        let r = match piv[j] {
            Some(r) => r,
            None => {
                proof {
                    assert(false);
                }
                0
            },
        };
        let pr = &rows[r];
        proof {
            assert(fin.rows[r as int] == (rows@[r as int].coef@, rows@[r as int].pay@));
            assert(fin.rows[r as int].1.len() == p.symbol_size);
        }
        out.push(pr.pay[i % ssus]);
        i = i + 1;
    }
    proof {
        let ss = p.symbol_size as int;
        assert(out@ =~= Seq::new(
            p.transfer_length as nat,
            |x: int| fin.rows[opt_idx(fin.piv[x / ss])].1[x % ss],
        ));
    }
    Ok(out)
}

/// LAW (loss bound). Fewer distinct identifiers than source symbols can
/// never reach full rank: the decoder fails, reporting how many packets
/// were supplied and how many are required.
pub proof fn lemma_insufficient(
    p: TransmissionParameters,
    canon: Seq<(u32, Seq<u8>)>,
    provided: int,
)
    requires
        p.wf(),
        canon.len() < p.source_symbol_count,
        forall|i: int| 0 <= i < canon.len() ==> (#[trigger] canon[i]).1.len() == p.symbol_size,
    ensures
        solve_model(p, canon, provided) == Err::<Seq<u8>, FecError>(
            FecError::InsufficientSymbols {
                provided: provided as usize,
                required: p.source_symbol_count as usize,
            },
        ),
{
    lemma_ceil_div(p.transfer_length as int, p.symbol_size as int);
    lemma_run_upto_wf(p, canon, canon.len() as int);
}

/// LAW (systematic recovery). When the canonical packets start with the
/// full systematic run `0, 1, ..., k-1`, decoding succeeds and returns
/// those payloads assembled in order and trimmed to the transfer length —
/// whatever the remaining packets hold.
pub proof fn lemma_systematic_solve(
    p: TransmissionParameters,
    canon: Seq<(u32, Seq<u8>)>,
    provided: int,
)
    requires
        p.wf(),
        p.source_symbol_count <= canon.len(),
        forall|i: int| 0 <= i < canon.len() ==> (#[trigger] canon[i]).1.len() == p.symbol_size,
        forall|j: int| 0 <= j < p.source_symbol_count ==> (#[trigger] canon[j]).0 == j,
    ensures
        solve_model(p, canon, provided) == Ok::<Seq<u8>, FecError>(
            assembled(
                Seq::new(p.source_symbol_count as nat, |j: int| canon[j].1),
                p.symbol_size as int,
                p.transfer_length as int,
            ),
        ),
{
    let k = p.source_symbol_count as int;
    let ss = p.symbol_size as int;
    let tl = p.transfer_length as int;
    lemma_ceil_div(tl, ss);
    lemma_run_upto_systematic(p, canon, k);
    let st = sys_state(p, canon, k);
    assert(st.rows.len() == k);
    lemma_run_upto_stable(p, canon, k, canon.len() as int);
    let fin = run_upto(p, canon, canon.len() as int);
    assert(fin == st);
    let got = Seq::new(p.transfer_length as nat, |i: int| fin.rows[opt_idx(fin.piv[i / ss])].1[i % ss]);
    let want = assembled(Seq::new(p.source_symbol_count as nat, |j: int| canon[j].1), ss, tl);
    assert forall|i: int| 0 <= i < tl implies got[i] == want[i] by {
        lemma_fundamental_div_mod(i, ss);
        let j = i / ss;
        let b = i % ss;
        assert(0 <= j && j < k) by (nonlinear_arith)
            requires
                i == ss * j + b,
                0 <= b < ss,
                0 <= i < tl,
                tl <= k * ss,
                ss >= 1,
        ;
        assert(fin.piv[j] == Some(j as usize));
        assert(fin.rows[j] == (row_spec(j as u32, p.source_symbol_count), canon[j].1));
    }
    assert(got =~= want);
}

/// LAW (systematic availability). Whenever every systematic identifier
/// `0, ..., k-1` occurs somewhere among the packets fed to the decoder —
/// in any order, with any duplicates, alongside any repair packets —
/// decoding succeeds, and returns the canonical systematic payloads
/// (the first payload seen for each identifier) assembled in order.
pub proof fn lemma_all_systematic_present(
    p: TransmissionParameters,
    pkts: Seq<(u32, Seq<u8>)>,
    provided: int,
)
    requires
        p.wf(),
        forall|i: int| 0 <= i < pkts.len() ==> (#[trigger] pkts[i]).1.len() == p.symbol_size,
        forall|j: int| 0 <= j < p.source_symbol_count ==> #[trigger] has_id(pkts, j as u32),
    ensures
        ({
            let c = canon_of(pkts);
            &&& p.source_symbol_count <= c.len()
            &&& forall|j: int| 0 <= j < p.source_symbol_count ==> (#[trigger] c[j]).0 == j
            &&& solve_model(p, c, provided) == Ok::<Seq<u8>, FecError>(
                assembled(
                    Seq::new(p.source_symbol_count as nat, |j: int| c[j].1),
                    p.symbol_size as int,
                    p.transfer_length as int,
                ),
            )
        }),
{
    let k = p.source_symbol_count as int;
    let c = canon_of(pkts);
    lemma_canon_of_props(pkts);
    assert forall|j: int| 0 <= j < k implies j < c.len() && (#[trigger] c[j]).0 == j by {
        assert forall|x: int| 0 <= x <= j implies #[trigger] has_id(c, x as u32) by {
            assert(has_id(pkts, x as u32));
        }
        crate::canon::lemma_sorted_systematic_prefix(c, j);
    }
    lemma_ceil_div(p.transfer_length as int, p.symbol_size as int);
    assert(k >= 1);
    assert(c[k - 1].0 == k - 1);
    assert(k - 1 < c.len());
    assert forall|i: int| 0 <= i < c.len() implies (#[trigger] c[i]).1.len()
        == p.symbol_size by {
        assert(pkts.contains(c[i]));
        let x = choose|x: int| 0 <= x < pkts.len() && pkts[x] == c[i];
        assert(pkts[x].1.len() == p.symbol_size);
    }
    lemma_systematic_solve(p, c, provided);
}

/// LAW (round-trip identity). For every supported payload, the packets
/// `encode` emits are already canonical, and feeding them all to the
/// solver returns exactly the original payload. Together with the
/// contracts of `encode` and `decode` this says
/// `decode(encode(data)) == Ok(data)`.
pub proof fn lemma_round_trip(data: Seq<u8>)
    requires
        encode_supported(data.len() as int),
    ensures
        canon_of(encode_model(data)) == encode_model(data),
        forall|provided: int|
            #![trigger solve_model(params_model(data.len() as int), encode_model(data), provided)]
            solve_model(params_model(data.len() as int), encode_model(data), provided) == Ok::<
                Seq<u8>,
                FecError,
            >(data),
{
    let ss = DEFAULT_SYMBOL_SIZE as int;
    let len = data.len() as int;
    let k = source_symbols(len, ss);
    let p = params_model(len);
    let pkts = encode_model(data);
    lemma_ceil_div(len, ss);
    assert(ids_sorted(pkts));
    lemma_canon_of_sorted_identity(pkts);
    assert(p.wf());
    assert forall|i: int| 0 <= i < pkts.len() implies (#[trigger] pkts[i]).1.len()
        == p.symbol_size by {
        if i < k {
            assert(pkts[i].1 == symbol_at(data, ss, i));
        } else {
            assert(pkts[i].1 == lin_combo(
                row_spec(i as u32, k as u32),
                source_symbol_seq(data, ss, k),
                ss,
            ));
        }
    }
    let want = assembled(Seq::new(p.source_symbol_count as nat, |j: int| pkts[j].1), ss, len);
    lemma_assemble_partition(data, ss, k);
    assert(Seq::new(p.source_symbol_count as nat, |j: int| pkts[j].1) =~= Seq::new(
        k as nat,
        |j: int| symbol_at(data, ss, j),
    ));
    assert(want =~= data);
    assert forall|provided: int|
        #[trigger] solve_model(p, pkts, provided) == Ok::<Seq<u8>, FecError>(data) by {
        lemma_systematic_solve(p, pkts, provided);
    }
}

/// LAW (order independence). Two deliveries of the same packet set — the
/// identifiers pairwise distinct, as they are in any set of packets from
/// one encoding — decode to the identical outcome, whatever order the
/// packets arrive in.
pub proof fn lemma_order_irrelevant(
    p: TransmissionParameters,
    s1: Seq<(u32, Seq<u8>)>,
    s2: Seq<(u32, Seq<u8>)>,
)
    requires
        distinct_ids(s1),
        s1.to_multiset() == s2.to_multiset(),
    ensures
        solve_model(p, canon_of(s1), s1.len() as int) == solve_model(
            p,
            canon_of(s2),
            s2.len() as int,
        ),
{
    lemma_canon_of_permutation(s1, s2);
    broadcast use vstd::seq_lib::group_to_multiset_ensures;

    assert(s1.len() == s1.to_multiset().len());
    assert(s2.len() == s2.to_multiset().len());
}

/// LAW (success needs k packets). A successful decode consumed at least
/// `k` distinct identifiers: each accepted packet raises the rank by at
/// most one.
pub proof fn lemma_success_needs_k(
    p: TransmissionParameters,
    canon: Seq<(u32, Seq<u8>)>,
    provided: int,
)
    requires
        p.wf(),
        forall|i: int| 0 <= i < canon.len() ==> (#[trigger] canon[i]).1.len() == p.symbol_size,
    ensures
        solve_model(p, canon, provided) is Ok ==> canon.len() >= p.source_symbol_count,
{
    lemma_ceil_div(p.transfer_length as int, p.symbol_size as int);
    lemma_run_upto_wf(p, canon, canon.len() as int);
}

/// LAW (duplicate tolerance). A packet whose identifier was already seen
/// adds nothing: wherever the repeat lands in the sequence, the canonical
/// form — and with it the decoded payload and the success or failure of
/// the call — is unchanged. Only the packet count a failure reports is the
/// delivery's own: here both outcomes are compared under one count.
pub proof fn lemma_duplicate_irrelevant(
    p: TransmissionParameters,
    before: Seq<(u32, Seq<u8>)>,
    pk: (u32, Seq<u8>),
    after: Seq<(u32, Seq<u8>)>,
    provided: int,
)
    requires
        has_id(before, pk.0),
    ensures
        solve_model(p, canon_of(before + seq![pk] + after), provided) == solve_model(
            p,
            canon_of(before + after),
            provided,
        ),
{
    lemma_canon_of_duplicate(before, pk, after);
}

/// LAW (duplicate tolerance, any position). Feeding one of the delivery's
/// packets a second time — wherever the repeat is spliced in — leaves the
/// decoded payload and the success or failure of the call unchanged,
/// provided packets sharing an identifier share their payload, as packets
/// from one encoding do. A failure still reports the delivery's own
/// packet count; both outcomes are compared here under one count.
pub proof fn lemma_duplicate_anywhere(
    p: TransmissionParameters,
    s: Seq<(u32, Seq<u8>)>,
    i: int,
    j: int,
    provided: int,
)
    requires
        0 <= i < s.len(),
        0 <= j <= s.len(),
        forall|a: int, b: int|
            0 <= a < s.len() && 0 <= b < s.len() && (#[trigger] s[a]).0 == (#[trigger] s[b]).0
                ==> s[a].1 == s[b].1,
    ensures
        solve_model(p, canon_of(s.take(j) + seq![s[i]] + s.skip(j)), provided) == solve_model(
            p,
            canon_of(s),
            provided,
        ),
{
    crate::canon::lemma_canon_of_duplicate_at(s, i, j);
}

/// LAW (boundary padding). A payload that fills its symbols exactly gets
/// no padding and `len / 1024` symbols, and its final source symbol is the
/// payload's last slice verbatim; a payload one byte past a multiple gets
/// a final symbol padded with all but one byte.
pub proof fn lemma_boundary_padding(data: Seq<u8>)
    requires
        encode_supported(data.len() as int),
    ensures
        ({
            let len = data.len() as int;
            let ss = DEFAULT_SYMBOL_SIZE as int;
            let k = source_symbols(len, ss);
            let pm = params_model(len);
            &&& len % ss == 0 ==> pm.padding_length == 0 && pm.source_symbol_count == len / ss
                && encode_model(data)[k - 1].1 == data.subrange((k - 1) * ss, len)
            &&& len % ss == 1 ==> pm.padding_length == ss - 1 && pm.source_symbol_count == len / ss
                + 1
        }),
{
    let len = data.len() as int;
    let ss = DEFAULT_SYMBOL_SIZE as int;
    let k = source_symbols(len, ss);
    lemma_ceil_div(len, ss);
    crate::params::lemma_padding_boundary(len, ss);
    if len % ss == 0 {
        lemma_fundamental_div_mod(len, ss);
        assert(len == k * ss) by (nonlinear_arith)
            requires
                len == ss * (len / ss) + len % ss,
                len % ss == 0,
                k == len / ss,
        ;
        assert(encode_model(data)[k - 1].1 == symbol_at(data, ss, k - 1));
        assert forall|b: int| 0 <= b < ss implies (k - 1) * ss + b < len && #[trigger] symbol_at(
            data,
            ss,
            k - 1,
        )[b] == data[(k - 1) * ss + b] by {
            assert((k - 1) * ss + b < k * ss) by (nonlinear_arith)
                requires
                    0 <= b < ss,
            ;
        }
        assert(symbol_at(data, ss, k - 1) =~= data.subrange((k - 1) * ss, len)) by {
            assert((k - 1) * ss + ss == len) by (nonlinear_arith)
                requires
                    len == k * ss,
            ;
        }
    }
}

} // verus!
