//! The decoder's linear system and its elimination engine.
//!
//! Each accepted packet contributes one equation over the unknown source
//! symbols. The system is kept fully reduced (Gauss–Jordan): every pivot
//! row carries 1 at its pivot column and 0 at every other pivot column, so
//! once the rank reaches the source-symbol count each pivot row's payload
//! *is* the source symbol of its column.

use vstd::prelude::*;
use crate::gf::{gf_inv, gf_inv_exec, gf_mul, gf_mul_exec, lemma_gf_mul_one_right, lemma_xor_self,
    lemma_xor_zero};
use crate::params::TransmissionParameters;
use crate::rows::{row_of, row_spec};
use crate::types::FecError;

verus! {

/// One equation of the system: coefficients over the source symbols, and
/// the accumulated payload of the combination.
pub struct SymRow {
    pub coef: Vec<u8>,
    pub pay: Vec<u8>,
}

/// The mathematical state of the solver: the reduced rows, and for each
/// column the index of its pivot row, if the column has one.
pub struct SolveState {
    pub rows: Seq<(Seq<u8>, Seq<u8>)>,
    pub piv: Seq<Option<usize>>,
}

/// A pivot entry as a row index, `-1` when the column has none.
pub open spec fn opt_idx(o: Option<usize>) -> int {
    match o {
        Some(r) => r as int,
        None => -1,
    }
}

/// How many columns have a pivot row.
pub open spec fn count_some(s: Seq<Option<usize>>) -> int
    decreases s.len(),
{
    if s.len() == 0 {
        0
    } else {
        count_some(s.drop_last()) + (if s.last() is Some {
            1int
        } else {
            0int
        })
    }
}

/// The view of the executable rows.
pub open spec fn rows_view(rs: Seq<SymRow>) -> Seq<(Seq<u8>, Seq<u8>)> {
    rs.map_values(|r: SymRow| (r.coef@, r.pay@))
}

/// The mathematical state carried by the executable vectors.
pub open spec fn st_of(rows: Seq<SymRow>, piv: Seq<Option<usize>>) -> SolveState {
    SolveState { rows: rows_view(rows), piv }
}

/// The state before any packet: no rows, no pivots.
pub open spec fn empty_state(k: int) -> SolveState {
    SolveState { rows: Seq::empty(), piv: Seq::new(k as nat, |j: int| None) }
}

/// `a - g * b` over GF(256), pointwise: subtraction is XOR.
pub open spec fn xm(a: Seq<u8>, b: Seq<u8>, g: u8) -> Seq<u8> {
    Seq::new(a.len(), |i: int| a[i] ^ gf_mul(g, b[i]))
}

/// `g * a` over GF(256), pointwise.
pub open spec fn scaled(a: Seq<u8>, g: u8) -> Seq<u8> {
    Seq::new(a.len(), |i: int| gf_mul(g, a[i]))
}

/// Reduces an incoming equation against the pivot rows of columns
/// `j, j+1, ..., k-1` in turn.
pub open spec fn reduce_from(coef: Seq<u8>, pay: Seq<u8>, st: SolveState, j: int, k: int) -> (
    Seq<u8>,
    Seq<u8>,
)
    decreases k - j,
{
    if j < 0 || j >= k {
        (coef, pay)
    } else {
        let next = if coef[j] != 0 && st.piv[j] is Some {
            let r = opt_idx(st.piv[j]);
            (xm(coef, st.rows[r].0, coef[j]), xm(pay, st.rows[r].1, coef[j]))
        } else {
            (coef, pay)
        };
        reduce_from(next.0, next.1, st, j + 1, k)
    }
}

/// The first column at or after `j` with a nonzero coefficient, `k` if none.
pub open spec fn first_nz(c: Seq<u8>, j: int, k: int) -> int
    decreases k - j,
{
    if j < 0 || j >= k {
        k
    } else if c[j] != 0 {
        j
    } else {
        first_nz(c, j + 1, k)
    }
}

/// Eliminates column `p` from every existing row using the new pivot row
/// `(nc, np)`, which carries 1 at column `p`.
pub open spec fn elim_others(
    rows: Seq<(Seq<u8>, Seq<u8>)>,
    nc: Seq<u8>,
    np: Seq<u8>,
    p: int,
) -> Seq<(Seq<u8>, Seq<u8>)> {
    Seq::new(
        rows.len(),
        |r: int|
            if rows[r].0[p] != 0 {
                (xm(rows[r].0, nc, rows[r].0[p]), xm(rows[r].1, np, rows[r].0[p]))
            } else {
                rows[r]
            },
    )
}

/// One packet accepted into the system: reduce, find a pivot column,
/// normalize, eliminate that column elsewhere, and record the pivot. A
/// packet whose equation reduces to zero is redundant and changes nothing.
pub open spec fn ins_row(st: SolveState, k: u32, id: u32, pay: Seq<u8>) -> SolveState {
    let red = reduce_from(row_spec(id, k), pay, st, 0, k as int);
    let p = first_nz(red.0, 0, k as int);
    if p == k as int {
        st
    } else {
        let f = red.0[p];
        let n = if f == 1 {
            red
        } else {
            (scaled(red.0, gf_inv(f)), scaled(red.1, gf_inv(f)))
        };
        let nc = n.0.update(p, 1u8);
        let nrows = elim_others(st.rows, nc, n.1, p);
        SolveState {
            rows: nrows.push((nc, n.1)),
            piv: st.piv.update(p, Some(nrows.len() as usize)),
        }
    }
}

/// The state after the first `t` canonical packets, stopping early once
/// the rank has reached `k`.
pub open spec fn run_upto(p: TransmissionParameters, canon: Seq<(u32, Seq<u8>)>, t: int) -> SolveState
    decreases t,
{
    let k = p.source_symbol_count as int;
    if t <= 0 {
        empty_state(k)
    } else {
        let prev = run_upto(p, canon, t - 1);
        if prev.rows.len() >= k {
            prev
        } else {
            ins_row(prev, p.source_symbol_count, canon[t - 1].0, canon[t - 1].1)
        }
    }
}

/// What decoding a canonical packet sequence yields: the assembled payload
/// once the system reaches full rank, otherwise the shortfall report.
/// `provided` is the number of packets in the delivery as it arrived —
/// duplicates included — which is what the failure reports.
pub open spec fn solve_model(
    p: TransmissionParameters,
    canon: Seq<(u32, Seq<u8>)>,
    provided: int,
) -> Result<Seq<u8>, FecError> {
    let k = p.source_symbol_count as int;
    let ss = p.symbol_size as int;
    let st = run_upto(p, canon, canon.len() as int);
    if st.rows.len() >= k {
        Ok(
            Seq::new(
                p.transfer_length as nat,
                |i: int| st.rows[opt_idx(st.piv[i / ss])].1[i % ss],
            ),
        )
    } else {
        Err(
            FecError::InsufficientSymbols {
                provided: provided as usize,
                required: k as usize,
            },
        )
    }
}

/// The solver's invariant: pivots index real rows, rows have the right
/// widths, the rank equals the pivot count, and the system is fully
/// reduced (1 at the own pivot column, 0 at every other pivot column).
pub open spec fn st_wf(st: SolveState, k: int, ss: int) -> bool {
    &&& st.piv.len() == k
    &&& st.rows.len() <= k
    &&& count_some(st.piv) == st.rows.len()
    &&& forall|r: int|
        0 <= r < st.rows.len() ==> (#[trigger] st.rows[r]).0.len() == k && st.rows[r].1.len() == ss
    &&& forall|j: int|
        0 <= j < k && (#[trigger] st.piv[j]) is Some ==> 0 <= opt_idx(st.piv[j]) < st.rows.len()
    &&& forall|j: int|
        0 <= j < k && (#[trigger] st.piv[j]) is Some ==> st.rows[opt_idx(st.piv[j])].0[j] == 1
    &&& forall|j: int, j2: int|
        0 <= j < k && 0 <= j2 < k && j != j2 && (#[trigger] st.piv[j]) is Some && (#[trigger]
        st.piv[j2]) is Some ==> st.rows[opt_idx(st.piv[j])].0[j2] == 0
}

pub proof fn lemma_count_some_bound(s: Seq<Option<usize>>)
    ensures
        0 <= count_some(s) <= s.len(),
    decreases s.len(),
{
    if s.len() > 0 {
        lemma_count_some_bound(s.drop_last());
    }
}

pub proof fn lemma_count_some_all_none(s: Seq<Option<usize>>)
    requires
        forall|j: int| 0 <= j < s.len() ==> s[j] is None,
    ensures
        count_some(s) == 0,
    decreases s.len(),
{
    if s.len() > 0 {
        lemma_count_some_all_none(s.drop_last());
    }
}

pub proof fn lemma_count_some_update(s: Seq<Option<usize>>, i: int, v: usize)
    requires
        0 <= i < s.len(),
        s[i] is None,
    ensures
        count_some(s.update(i, Some(v))) == count_some(s) + 1,
    decreases s.len(),
{
    let u = s.update(i, Some(v));
    if i == s.len() - 1 {
        assert(u.drop_last() =~= s.drop_last());
    } else {
        assert(u.drop_last() =~= s.drop_last().update(i, Some(v)));
        lemma_count_some_update(s.drop_last(), i, v);
    }
}

pub proof fn lemma_count_some_full(s: Seq<Option<usize>>)
    requires
        count_some(s) == s.len(),
    ensures
        forall|j: int| 0 <= j < s.len() ==> (#[trigger] s[j]) is Some,
    decreases s.len(),
{
    if s.len() > 0 {
        lemma_count_some_bound(s.drop_last());
        lemma_count_some_full(s.drop_last());
        assert(forall|j: int| 0 <= j < s.len() - 1 ==> s[j] == s.drop_last()[j]);
    }
}

/// After reduction, the incoming coefficients are zero at every pivot
/// column; the widths are unchanged.
pub proof fn lemma_reduce_props(coef: Seq<u8>, pay: Seq<u8>, st: SolveState, j: int, k: int, ss: int)
    requires
        st_wf(st, k, ss),
        coef.len() == k,
        pay.len() == ss,
        0 <= j <= k,
        forall|x: int| 0 <= x < j && (#[trigger] st.piv[x]) is Some ==> coef[x] == 0,
    ensures
        reduce_from(coef, pay, st, j, k).0.len() == k,
        reduce_from(coef, pay, st, j, k).1.len() == ss,
        forall|x: int|
            0 <= x < k && (#[trigger] st.piv[x]) is Some ==> reduce_from(coef, pay, st, j, k).0[x]
                == 0,
    decreases k - j,
{
    if j < k {
        if coef[j] != 0 && st.piv[j] is Some {
            let r = opt_idx(st.piv[j]);
            let g = coef[j];
            let c2 = xm(coef, st.rows[r].0, g);
            let p2 = xm(pay, st.rows[r].1, g);
            assert forall|x: int|
                0 <= x < j + 1 && (#[trigger] st.piv[x]) is Some implies c2[x] == 0 by {
                if x == j {
                    lemma_gf_mul_one_right(g);
                    lemma_xor_self(g);
                } else {
                    assert(st.rows[r].0[x] == 0);
                    lemma_xor_zero(coef[x]);
                }
            }
            lemma_reduce_props(c2, p2, st, j + 1, k, ss);
        } else {
            lemma_reduce_props(coef, pay, st, j + 1, k, ss);
        }
    }
}

/// Where the first nonzero coefficient sits: nothing before it, and a
/// nonzero coefficient at it unless the whole row is zero.
pub proof fn lemma_first_nz_props(c: Seq<u8>, j: int, k: int)
    requires
        0 <= j <= k,
    ensures
        j <= first_nz(c, j, k) <= k,
        first_nz(c, j, k) < k ==> c[first_nz(c, j, k)] != 0,
        forall|x: int| j <= x < first_nz(c, j, k) ==> c[x] == 0,
    decreases k - j,
{
    if j < k && c[j] == 0 {
        lemma_first_nz_props(c, j + 1, k);
    }
}

/// Accepting a packet preserves the solver invariant and grows the rank by
/// at most one.
pub proof fn lemma_ins_row_wf(st: SolveState, k: u32, id: u32, pay: Seq<u8>, ss: int)
    requires
        st_wf(st, k as int, ss),
        pay.len() == ss,
        st.rows.len() < k,
    ensures
        st_wf(ins_row(st, k, id, pay), k as int, ss),
        st.rows.len() <= ins_row(st, k, id, pay).rows.len() <= st.rows.len() + 1,
{
    let ki = k as int;
    let row0 = row_spec(id, k);
    lemma_reduce_props(row0, pay, st, 0, ki, ss);
    let red = reduce_from(row0, pay, st, 0, ki);
    let p = first_nz(red.0, 0, ki);
    lemma_first_nz_props(red.0, 0, ki);
    if p < ki {
        let f = red.0[p];
        assert(st.piv[p] is None);
        let n = if f == 1 {
            red
        } else {
            (scaled(red.0, gf_inv(f)), scaled(red.1, gf_inv(f)))
        };
        // the normalized row still vanishes at every pivot column
        assert forall|x: int|
            0 <= x < ki && (#[trigger] st.piv[x]) is Some implies n.0[x] == 0 by {
            if f != 1 {
                assert(red.0[x] == 0);
                assert(gf_mul(gf_inv(f), 0) == 0);
            }
        }
        let nc = n.0.update(p, 1u8);
        let np = n.1;
        let nrows = elim_others(st.rows, nc, np, p);
        let st2 = ins_row(st, k, id, pay);
        assert(st2.rows == nrows.push((nc, np)));
        assert(st2.piv == st.piv.update(p, Some(nrows.len() as usize)));
        lemma_count_some_update(st.piv, p, nrows.len() as usize);
        // widths
        assert forall|r: int|
            0 <= r < st2.rows.len() implies (#[trigger] st2.rows[r]).0.len() == ki
            && st2.rows[r].1.len() == ss by {
            if r < nrows.len() {
                assert(st.rows[r].0.len() == ki);
            }
        }
        // full reduction
        assert forall|j: int|
            0 <= j < ki && (#[trigger] st2.piv[j]) is Some implies {
            &&& 0 <= opt_idx(st2.piv[j]) < st2.rows.len()
            &&& st2.rows[opt_idx(st2.piv[j])].0[j] == 1
        } by {
            if j == p {
                assert(st2.piv[p] == Some(nrows.len() as usize));
                assert(st2.rows[nrows.len() as int] == (nc, np));
            } else {
                let r2 = opt_idx(st.piv[j]);
                assert(st.rows[r2].0[j] == 1);
                assert(nc[j] == 0);
                if st.rows[r2].0[p] != 0 {
                    assert(st2.rows[r2].0[j] == st.rows[r2].0[j] ^ gf_mul(st.rows[r2].0[p], nc[j]));
                    assert(gf_mul(st.rows[r2].0[p], 0) == 0);
                    lemma_xor_zero(1u8);
                } else {
                    assert(st2.rows[r2] == st.rows[r2]);
                }
            }
        }
        assert forall|j: int, j2: int|
            0 <= j < ki && 0 <= j2 < ki && j != j2 && (#[trigger] st2.piv[j]) is Some && (#[trigger]
            st2.piv[j2]) is Some implies st2.rows[opt_idx(st2.piv[j])].0[j2] == 0 by {
            if j == p {
                // the new row vanishes at the old pivot column j2
                assert(st.piv[j2] is Some);
                assert(n.0[j2] == 0);
                assert(st2.rows[nrows.len() as int] == (nc, np));
            } else {
                let r2 = opt_idx(st.piv[j]);
                assert(st.rows[r2].0[j] == 1);
                if j2 == p {
                    if st.rows[r2].0[p] != 0 {
                        let g2 = st.rows[r2].0[p];
                        assert(st2.rows[r2].0[p] == g2 ^ gf_mul(g2, nc[p]));
                        assert(nc[p] == 1);
                        lemma_gf_mul_one_right(g2);
                        lemma_xor_self(g2);
                    } else {
                        assert(st2.rows[r2] == st.rows[r2]);
                    }
                } else {
                    // j2 is an old pivot column distinct from j and p
                    assert(st.piv[j2] is Some);
                    assert(st.rows[r2].0[j2] == 0);
                    assert(nc[j2] == 0);
                    if st.rows[r2].0[p] != 0 {
                        let g2 = st.rows[r2].0[p];
                        assert(st2.rows[r2].0[j2] == 0u8 ^ gf_mul(g2, 0u8));
                        lemma_xor_zero(0u8);
                    } else {
                        assert(st2.rows[r2] == st.rows[r2]);
                    }
                }
            }
        }
    }
}

/// The invariant holds after any prefix of the canonical packets, and the
/// rank cannot exceed the number of packets accepted.
pub proof fn lemma_run_upto_wf(p: TransmissionParameters, canon: Seq<(u32, Seq<u8>)>, t: int)
    requires
        p.source_symbol_count >= 1,
        0 <= t <= canon.len(),
        forall|i: int| 0 <= i < canon.len() ==> (#[trigger] canon[i]).1.len() == p.symbol_size,
    ensures
        st_wf(run_upto(p, canon, t), p.source_symbol_count as int, p.symbol_size as int),
        run_upto(p, canon, t).rows.len() <= t,
    decreases t,
{
    let k = p.source_symbol_count as int;
    if t == 0 {
        lemma_count_some_all_none(empty_state(k).piv);
    } else {
        lemma_run_upto_wf(p, canon, t - 1);
        let prev = run_upto(p, canon, t - 1);
        if prev.rows.len() < k {
            lemma_ins_row_wf(prev, p.source_symbol_count, canon[t - 1].0, canon[t - 1].1,
                p.symbol_size as int);
        }
    }
}

/// Once the system has full rank, later packets change nothing.
pub proof fn lemma_run_upto_stable(p: TransmissionParameters, canon: Seq<(u32, Seq<u8>)>, t: int, m: int)
    requires
        0 <= t <= m,
        run_upto(p, canon, t).rows.len() >= p.source_symbol_count,
    ensures
        run_upto(p, canon, m) == run_upto(p, canon, t),
    decreases m - t,
{
    if m > t {
        lemma_run_upto_stable(p, canon, t, m - 1);
    }
}

/// The state after `t` systematic packets in identifier order: the first
/// `t` unit rows, each column below `t` pivoting on its own row.
pub open spec fn sys_state(p: TransmissionParameters, canon: Seq<(u32, Seq<u8>)>, t: int) -> SolveState {
    let k = p.source_symbol_count as int;
    SolveState {
        rows: Seq::new(t as nat, |j: int| (row_spec(j as u32, p.source_symbol_count), canon[j].1)),
        piv: Seq::new(
            k as nat,
            |j: int|
                if j < t {
                    Some(j as usize)
                } else {
                    None
                },
        ),
    }
}

/// A unit equation whose own column has no pivot passes reduction
/// untouched.
pub proof fn lemma_reduce_unit(coef: Seq<u8>, pay: Seq<u8>, st: SolveState, t: int, j: int, k: int)
    requires
        0 <= j <= k,
        0 <= t < k,
        coef.len() == k,
        forall|x: int| 0 <= x < k && x != t ==> coef[x] == 0,
        st.piv.len() == k,
        st.piv[t] is None,
    ensures
        reduce_from(coef, pay, st, j, k) == (coef, pay),
    decreases k - j,
{
    if j < k {
        lemma_reduce_unit(coef, pay, st, t, j + 1, k);
    }
}

/// Fed the systematic packets `0, 1, ..., t-1` in order, the solver is in
/// the systematic state: every accepted row a unit row carrying its
/// packet's payload.
pub proof fn lemma_run_upto_systematic(p: TransmissionParameters, canon: Seq<(u32, Seq<u8>)>, t: int)
    requires
        1 <= p.source_symbol_count,
        p.source_symbol_count <= canon.len(),
        0 <= t <= p.source_symbol_count,
        forall|j: int|
            0 <= j < p.source_symbol_count ==> (#[trigger] canon[j]).0 == j,
    ensures
        run_upto(p, canon, t) == sys_state(p, canon, t),
    decreases t,
{
    let k = p.source_symbol_count as int;
    let ku = p.source_symbol_count;
    if t == 0 {
        assert(empty_state(k).rows =~= sys_state(p, canon, 0).rows);
        assert(empty_state(k).piv =~= sys_state(p, canon, 0).piv);
    } else {
        lemma_run_upto_systematic(p, canon, t - 1);
        let prev = sys_state(p, canon, t - 1);
        assert(prev.rows.len() == t - 1 < k);
        let id = canon[t - 1].0;
        let pay = canon[t - 1].1;
        assert(id == t - 1);
        let row0 = row_spec(id, ku);
        assert(row0.len() == k);
        assert(forall|x: int| 0 <= x < k && x != t - 1 ==> row0[x] == 0);
        assert(row0[t - 1] == 1);
        assert(prev.piv[t - 1] is None);
        lemma_reduce_unit(row0, pay, prev, t - 1, 0, k);
        let red = reduce_from(row0, pay, prev, 0, k);
        assert(red == (row0, pay));
        lemma_first_nz_props(row0, 0, k);
        let fz = first_nz(row0, 0, k);
        assert(fz == t - 1) by {
            if fz < t - 1 {
                assert(row0[fz] != 0);
            }
            if fz > t - 1 {
                assert(row0[t - 1] == 0);
            }
        }
        let nc = row0.update(t - 1, 1u8);
        assert(nc =~= row0);
        let nrows = elim_others(prev.rows, row0, pay, t - 1);
        assert forall|r: int| 0 <= r < nrows.len() implies nrows[r] == prev.rows[r] by {
            assert(prev.rows[r].0 == row_spec(r as u32, ku));
            assert(prev.rows[r].0[t - 1] == 0);
        }
        assert(nrows =~= prev.rows);
        let st2 = ins_row(prev, ku, id, pay);
        assert(st2.rows == prev.rows.push((row0, pay)));
        assert(st2.rows =~= sys_state(p, canon, t).rows);
        assert(st2.piv == prev.piv.update(t - 1, Some((t - 1) as usize)));
        assert(st2.piv =~= sys_state(p, canon, t).piv);
        assert(st2 == sys_state(p, canon, t));
    }
}

/// `a - g * b` over GF(256), executably.
pub fn xor_scaled(a: &Vec<u8>, b: &Vec<u8>, g: u8) -> (r: Vec<u8>)
    requires
        a@.len() == b@.len(),
    ensures
        r@ == xm(a@, b@, g),
{
    let mut out: Vec<u8> = Vec::new();
    let mut i: usize = 0;
    while i < a.len()
        invariant
            i <= a@.len(),
            a@.len() == b@.len(),
            out@.len() == i,
            forall|x: int| 0 <= x < i ==> out@[x] == a@[x] ^ gf_mul(g, b@[x]),
        decreases a@.len() - i,
    {
        out.push(a[i] ^ gf_mul_exec(g, b[i]));
        i = i + 1;
    }
    proof {
        assert(out@ =~= xm(a@, b@, g));
    }
    out
}

/// `g * a` over GF(256), executably.
pub fn scale_vec(a: &Vec<u8>, g: u8) -> (r: Vec<u8>)
    ensures
        r@ == scaled(a@, g),
{
    let mut out: Vec<u8> = Vec::new();
    let mut i: usize = 0;
    while i < a.len()
        invariant
            i <= a@.len(),
            out@.len() == i,
            forall|x: int| 0 <= x < i ==> out@[x] == gf_mul(g, a@[x]),
        decreases a@.len() - i,
    {
        out.push(gf_mul_exec(g, a[i]));
        i = i + 1;
    }
    proof {
        assert(out@ =~= scaled(a@, g));
    }
    out
}

/// Accepts one packet into the executable system, mirroring `ins_row`.
pub fn insert_packet(
    rows: &mut Vec<SymRow>,
    piv: &mut Vec<Option<usize>>,
    k: u32,
    id: u32,
    payload: &Vec<u8>,
)
    requires
        k >= 1,
        st_wf(st_of(old(rows)@, old(piv)@), k as int, payload@.len() as int),
        old(rows)@.len() < k,
    ensures
        st_of(final(rows)@, final(piv)@) == ins_row(
            st_of(old(rows)@, old(piv)@),
            k,
            id,
            payload@,
        ),
        st_wf(st_of(final(rows)@, final(piv)@), k as int, payload@.len() as int),
        old(rows)@.len() <= final(rows)@.len() <= old(rows)@.len() + 1,
{
    let ghost st0 = st_of(rows@, piv@);
    let ghost ss = payload@.len() as int;
    let kus = k as usize;
    proof {
        lemma_ins_row_wf(st0, k, id, payload@, ss);
    }
    let mut coef = row_of(id, k);
    let mut pv = crate::symbols::copy_bytes(payload);
    let ghost c0 = coef@;
    let ghost p0 = pv@;
    let mut j: usize = 0;
    while j < kus
        invariant
            j <= kus,
            kus == k,
            st0 == st_of(rows@, piv@),
            st_wf(st0, k as int, ss),
            coef@.len() == k,
            pv@.len() == ss,
            reduce_from(coef@, pv@, st0, j as int, k as int) == reduce_from(c0, p0, st0, 0, k as int),
        decreases kus - j,
    {
        let f = coef[j];
        if f != 0 {
            let opt = piv[j];
            if let Some(r) = opt {
                let pr = &rows[r];
                let nc = xor_scaled(&coef, &pr.coef, f);
                let np = xor_scaled(&pv, &pr.pay, f);
                proof {
                    assert(rows_view(rows@)[r as int] == (rows@[r as int].coef@,
                        rows@[r as int].pay@));
                }
                coef = nc;
                pv = np;
            }
        }
        j = j + 1;
    }
    let ghost red = reduce_from(c0, p0, st0, 0, k as int);
    proof {
        assert(red == (coef@, pv@));
        lemma_first_nz_props(coef@, 0, k as int);
    }
    let mut p: usize = 0;
    while p < kus && coef[p] == 0
        invariant
            p <= kus,
            kus == k,
            coef@.len() == k,
            forall|x: int| 0 <= x < p ==> coef@[x] == 0,
        decreases kus - p,
    {
        p = p + 1;
    }
    proof {
        if p < kus {
            assert(first_nz(coef@, 0, k as int) == p as int) by {
                lemma_first_nz_props(coef@, 0, k as int);
                assert(coef@[p as int] != 0);
                if first_nz(coef@, 0, k as int) < p as int {
                    assert(coef@[first_nz(coef@, 0, k as int)] != 0);
                }
            }
        } else {
            assert(forall|x: int| 0 <= x < k ==> coef@[x] == 0);
            assert(first_nz(coef@, 0, k as int) == k as int) by {
                lemma_first_nz_props(coef@, 0, k as int);
                if first_nz(coef@, 0, k as int) < k as int {
                    assert(coef@[first_nz(coef@, 0, k as int)] != 0);
                }
            }
        }
    }
    if p == kus {
        // redundant packet: the reduced equation vanished
        return ;
    }
    let f = coef[p];
    if f != 1 {
        let v = gf_inv_exec(f);
        let nc = scale_vec(&coef, v);
        let np = scale_vec(&pv, v);
        coef = nc;
        pv = np;
    }
    coef[p] = 1;
    let ghost nc_spec = (if red.0[p as int] == 1 {
        red.0
    } else {
        scaled(red.0, gf_inv(red.0[p as int]))
    }).update(p as int, 1u8);
    let ghost np_spec = if red.0[p as int] == 1 {
        red.1
    } else {
        scaled(red.1, gf_inv(red.0[p as int]))
    };
    proof {
        assert(coef@ =~= nc_spec);
        assert(pv@ == np_spec);
    }
    let mut nrows: Vec<SymRow> = Vec::new();
    let mut ri: usize = 0;
    let ghost target = elim_others(st0.rows, coef@, pv@, p as int);
    while ri < rows.len()
        invariant
            ri <= rows@.len(),
            st0 == st_of(rows@, piv@),
            st_wf(st0, k as int, ss),
            p < kus,
            kus == k,
            coef@.len() == k,
            pv@.len() == ss,
            target == elim_others(st0.rows, coef@, pv@, p as int),
            nrows@.len() == ri,
            forall|x: int|
                0 <= x < ri ==> ((#[trigger] nrows@[x]).coef@ == target[x].0 && nrows@[x].pay@
                    == target[x].1),
        decreases rows@.len() - ri,
    {
        let pr = &rows[ri];
        proof {
            assert(rows_view(rows@)[ri as int] == (rows@[ri as int].coef@, rows@[ri as int].pay@));
        }
        let g = pr.coef[p];
        if g != 0 {
            let ncr = xor_scaled(&pr.coef, &coef, g);
            let npr = xor_scaled(&pr.pay, &pv, g);
            nrows.push(SymRow { coef: ncr, pay: npr });
        } else {
            nrows.push(
                SymRow {
                    coef: crate::symbols::copy_bytes(&pr.coef),
                    pay: crate::symbols::copy_bytes(&pr.pay),
                },
            );
        }
        proof {
            assert(nrows@[ri as int].coef@ == target[ri as int].0);
            assert(nrows@[ri as int].pay@ == target[ri as int].1);
        }
        ri = ri + 1;
    }
    let idx = nrows.len();
    nrows.push(SymRow { coef, pay: pv });
    *rows = nrows;
    piv[p] = Some(idx);
    proof {
        let st2 = ins_row(st0, k, id, payload@);
        assert(rows_view(rows@) =~= target.push((nc_spec, np_spec)));
        assert(st_of(rows@, piv@).rows =~= st2.rows);
        assert(st_of(rows@, piv@).piv =~= st2.piv);
        assert(st_of(rows@, piv@) == st2);
    }
}

} // verus!
