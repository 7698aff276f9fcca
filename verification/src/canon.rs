//! Canonical form of a received packet sequence.
//!
//! The decoder first reduces the packets it is fed to a canonical sequence:
//! sorted by identifier, one packet per identifier, the first-seen payload
//! kept. Everything after this step is a function of the canonical form
//! alone, which is what makes decoding insensitive to packet order and to
//! duplicated packets.

use vstd::prelude::*;
use vstd::multiset::Multiset;
use crate::types::{packet_view, packet_views, EncodingPacket};
use crate::symbols::copy_bytes;

verus! {

/// Identifiers strictly increase along the sequence: sorted, no repeats.
pub open spec fn ids_sorted(c: Seq<(u32, Seq<u8>)>) -> bool {
    forall|i: int, j: int| 0 <= i < j < c.len() ==> c[i].0 < c[j].0
}

/// Some packet in the sequence carries identifier `id`.
pub open spec fn has_id(c: Seq<(u32, Seq<u8>)>, id: u32) -> bool {
    exists|i: int| 0 <= i < c.len() && c[i].0 == id
}

/// Inserts a packet into an id-sorted sequence, keeping it sorted and
/// dropping the packet when its identifier is already present.
pub open spec fn canon_insert(c: Seq<(u32, Seq<u8>)>, p: (u32, Seq<u8>)) -> Seq<(u32, Seq<u8>)>
    decreases c.len(),
{
    if c.len() == 0 {
        seq![p]
    } else if p.0 < c.first().0 {
        seq![p] + c
    } else if p.0 == c.first().0 {
        c
    } else {
        seq![c.first()] + canon_insert(c.drop_first(), p)
    }
}

/// The canonical form of a packet sequence: each packet inserted in turn.
pub open spec fn canon_of(s: Seq<(u32, Seq<u8>)>) -> Seq<(u32, Seq<u8>)>
    decreases s.len(),
{
    if s.len() == 0 {
        Seq::<(u32, Seq<u8>)>::empty()
    } else {
        canon_insert(canon_of(s.drop_last()), s.last())
    }
}

/// Inserting preserves sortedness, grows the sequence by at most one
/// packet, adds no identifier but the inserted one, and afterwards the
/// inserted identifier is present.
pub proof fn lemma_canon_insert_props(c: Seq<(u32, Seq<u8>)>, p: (u32, Seq<u8>))
    requires
        ids_sorted(c),
    ensures
        ids_sorted(canon_insert(c, p)),
        c.len() <= canon_insert(c, p).len() <= c.len() + 1,
        has_id(canon_insert(c, p), p.0),
        forall|q: u32| has_id(c, q) ==> has_id(canon_insert(c, p), q),
        forall|i: int|
            0 <= i < canon_insert(c, p).len() ==> canon_insert(c, p)[i] == p || c.contains(
                #[trigger] canon_insert(c, p)[i],
            ),
    decreases c.len(),
{
    let r = canon_insert(c, p);
    if c.len() == 0 {
        assert(r[0] == p);
    } else if p.0 < c.first().0 {
        assert(r[0] == p);
        assert(forall|i: int| 1 <= i < r.len() ==> r[i] == c[i - 1]);
        assert(forall|q: u32| has_id(c, q) ==> has_id(r, q)) by {
            assert forall|q: u32| has_id(c, q) implies has_id(r, q) by {
                let i = choose|i: int| 0 <= i < c.len() && c[i].0 == q;
                assert(r[i + 1].0 == q);
            }
        }
    } else if p.0 == c.first().0 {
        assert(r[0].0 == p.0);
    } else {
        let c2 = c.drop_first();
        assert(forall|i: int| 0 <= i < c2.len() ==> c2[i] == c[i + 1]);
        lemma_canon_insert_props(c2, p);
        let r2 = canon_insert(c2, p);
        assert(r == seq![c.first()] + r2);
        assert(r[0] == c.first());
        assert(forall|i: int| 1 <= i < r.len() ==> r[i] == r2[i - 1]);
        // every element past the head either is p or sits in c2, so its id
        // is above the head's id
        assert forall|i: int, j: int| 0 <= i < j < r.len() implies r[i].0 < r[j].0 by {
            if i == 0 {
                if r[j] == p {
                } else {
                    assert(c2.contains(r2[j - 1]));
                    let x = choose|x: int| 0 <= x < c2.len() && c2[x] == r2[j - 1];
                    assert(c[x + 1] == r[j]);
                }
            }
        }
        assert forall|q: u32| has_id(c, q) implies has_id(r, q) by {
            let i = choose|i: int| 0 <= i < c.len() && c[i].0 == q;
            if i == 0 {
                assert(r[0].0 == q);
            } else {
                assert(c2[i - 1].0 == q);
                assert(has_id(c2, q));
                let x = choose|x: int| 0 <= x < r2.len() && r2[x].0 == q;
                assert(r[x + 1].0 == q);
            }
        }
        let x = choose|x: int| 0 <= x < r2.len() && r2[x].0 == p.0;
        assert(r[x + 1].0 == p.0);
        assert forall|i: int|
            0 <= i < r.len() implies r[i] == p || c.contains(#[trigger] r[i]) by {
            if i == 0 {
                assert(c[0] == r[0]);
            } else {
                if r2[i - 1] == p {
                } else {
                    assert(c2.contains(r2[i - 1]));
                    let x2 = choose|x2: int| 0 <= x2 < c2.len() && c2[x2] == r2[i - 1];
                    assert(c[x2 + 1] == r[i]);
                }
            }
        }
    }
}

/// Inserting a packet whose identifier is already present changes nothing.
pub proof fn lemma_canon_insert_present(c: Seq<(u32, Seq<u8>)>, p: (u32, Seq<u8>))
    requires
        ids_sorted(c),
        has_id(c, p.0),
    ensures
        canon_insert(c, p) == c,
    decreases c.len(),
{
    let i = choose|i: int| 0 <= i < c.len() && c[i].0 == p.0;
    if i == 0 {
        assert(p.0 == c.first().0);
    } else {
        assert(c[0].0 < c[i].0);
        let c2 = c.drop_first();
        assert(c2[i - 1].0 == p.0);
        assert(has_id(c2, p.0));
        lemma_canon_insert_present(c2, p);
        assert(canon_insert(c, p) =~= c);
    }
}

/// Inserting a packet whose identifier exceeds every identifier present
/// appends it.
pub proof fn lemma_canon_insert_append(c: Seq<(u32, Seq<u8>)>, p: (u32, Seq<u8>))
    requires
        ids_sorted(c),
        forall|i: int| 0 <= i < c.len() ==> c[i].0 < p.0,
    ensures
        canon_insert(c, p) == c.push(p),
    decreases c.len(),
{
    if c.len() == 0 {
        assert(canon_insert(c, p) =~= c.push(p));
    } else {
        let c2 = c.drop_first();
        assert(forall|i: int| 0 <= i < c2.len() ==> c2[i] == c[i + 1]);
        lemma_canon_insert_append(c2, p);
        assert(canon_insert(c, p) =~= c.push(p));
    }
}

/// Where an insertion lands: before the first identifier not below the
/// packet's own, or nowhere when that identifier equals it.
pub proof fn lemma_canon_insert_at(c: Seq<(u32, Seq<u8>)>, p: (u32, Seq<u8>), pos: int)
    requires
        ids_sorted(c),
        0 <= pos <= c.len(),
        forall|i: int| 0 <= i < pos ==> c[i].0 < p.0,
        pos < c.len() ==> c[pos].0 >= p.0,
    ensures
        pos < c.len() && c[pos].0 == p.0 ==> canon_insert(c, p) == c,
        !(pos < c.len() && c[pos].0 == p.0) ==> canon_insert(c, p) == c.take(pos) + seq![p]
            + c.skip(pos),
    decreases c.len(),
{
    if c.len() == 0 {
        assert(canon_insert(c, p) =~= c.take(0) + seq![p] + c.skip(0));
    } else if pos == 0 {
        if c[0].0 == p.0 {
        } else {
            assert(p.0 < c.first().0);
            assert(canon_insert(c, p) =~= c.take(0) + seq![p] + c.skip(0));
        }
    } else {
        assert(c[0].0 < p.0);
        let c2 = c.drop_first();
        assert(forall|i: int| 0 <= i < c2.len() ==> c2[i] == c[i + 1]);
        lemma_canon_insert_at(c2, p, pos - 1);
        if pos < c.len() && c[pos].0 == p.0 {
            assert(c2[pos - 1].0 == p.0);
            assert(canon_insert(c, p) =~= c);
        } else {
            assert(canon_insert(c, p) =~= c.take(pos) + seq![p] + c.skip(pos));
        }
    }
}

/// The canonical form is id-sorted, no longer than its input, and carries
/// exactly the identifiers the input carries, with payloads taken from it.
pub proof fn lemma_canon_of_props(s: Seq<(u32, Seq<u8>)>)
    ensures
        ids_sorted(canon_of(s)),
        canon_of(s).len() <= s.len(),
        forall|q: u32| has_id(s, q) ==> has_id(canon_of(s), q),
        forall|i: int|
            0 <= i < canon_of(s).len() ==> s.contains(#[trigger] canon_of(s)[i]),
    decreases s.len(),
{
    if s.len() == 0 {
    } else {
        let s2 = s.drop_last();
        lemma_canon_of_props(s2);
        let c2 = canon_of(s2);
        lemma_canon_insert_props(c2, s.last());
        let r = canon_of(s);
        assert(forall|i: int| 0 <= i < s2.len() ==> s2[i] == s[i]);
        assert forall|q: u32| has_id(s, q) implies has_id(r, q) by {
            let i = choose|i: int| 0 <= i < s.len() && s[i].0 == q;
            if i < s.len() - 1 {
                assert(s2[i].0 == q);
                assert(has_id(s2, q));
            } else {
                assert(s.last().0 == q);
            }
        }
        assert forall|i: int| 0 <= i < r.len() implies s.contains(#[trigger] r[i]) by {
            if r[i] == s.last() {
                assert(s[s.len() - 1] == s.last());
            } else {
                assert(c2.contains(r[i]));
                let x = choose|x: int| 0 <= x < c2.len() && c2[x] == r[i];
                assert(s2.contains(r[i]));
                let y = choose|y: int| 0 <= y < s2.len() && s2[y] == r[i];
                assert(s[y] == r[i]);
            }
        }
    }
}

/// A packet sequence whose identifiers strictly increase is already
/// canonical.
pub proof fn lemma_canon_of_sorted_identity(s: Seq<(u32, Seq<u8>)>)
    requires
        ids_sorted(s),
    ensures
        canon_of(s) == s,
    decreases s.len(),
{
    if s.len() == 0 {
        assert(canon_of(s) =~= s);
    } else {
        let s2 = s.drop_last();
        assert(forall|i: int| 0 <= i < s2.len() ==> s2[i] == s[i]);
        lemma_canon_of_sorted_identity(s2);
        lemma_canon_insert_append(s2, s.last());
        assert(canon_of(s) =~= s);
    }
}

/// Feeding a packet a second time has no effect on the canonical form:
/// a repeat of any packet already seen is dropped, wherever it lands.
pub proof fn lemma_canon_of_duplicate(
    s1: Seq<(u32, Seq<u8>)>,
    p: (u32, Seq<u8>),
    s2: Seq<(u32, Seq<u8>)>,
)
    requires
        has_id(s1, p.0),
    ensures
        canon_of(s1 + seq![p] + s2) == canon_of(s1 + s2),
    decreases s2.len(),
{
    lemma_canon_of_props(s1);
    if s2.len() == 0 {
        let w = s1 + seq![p] + s2;
        assert(w.drop_last() =~= s1);
        assert(w.last() == p);
        lemma_canon_insert_present(canon_of(s1), p);
        assert(s1 + s2 =~= s1);
    } else {
        let w = s1 + seq![p] + s2;
        let v = s1 + s2;
        assert(w.drop_last() =~= s1 + seq![p] + s2.drop_last());
        assert(v.drop_last() =~= s1 + s2.drop_last());
        lemma_canon_of_duplicate(s1, p, s2.drop_last());
        assert(w.last() == s2.last());
        assert(v.last() == s2.last());
    }
}

/// In a strictly id-sorted sequence, the identifier at an index is at
/// least the index.
pub proof fn lemma_sorted_ids_lower(c: Seq<(u32, Seq<u8>)>, i: int)
    requires
        ids_sorted(c),
        0 <= i < c.len(),
    ensures
        c[i].0 >= i,
    decreases i,
{
    if i > 0 {
        lemma_sorted_ids_lower(c, i - 1);
    }
}

/// A strictly id-sorted sequence that contains every identifier below `k`
/// starts with exactly `0, 1, ..., k-1`.
pub proof fn lemma_sorted_systematic_prefix(c: Seq<(u32, Seq<u8>)>, j: int)
    requires
        ids_sorted(c),
        0 <= j < 0x1_0000_0000,
        forall|x: int| 0 <= x <= j ==> #[trigger] has_id(c, x as u32),
    ensures
        j < c.len(),
        c[j].0 == j,
    decreases j,
{
    assert(has_id(c, j as u32));
    let i = choose|i: int| 0 <= i < c.len() && c[i].0 == j as u32;
    lemma_sorted_ids_lower(c, i);
    if j == 0 {
        assert(i == 0);
    } else {
        lemma_sorted_systematic_prefix(c, j - 1);
        assert(c[j - 1].0 == j - 1);
        // the packet with identifier j sits after index j-1 and, by the
        // lower bound, no later than index j
        assert(i > j - 1);
        assert(i <= j);
    }
}

/// No two packets in the sequence share an identifier — true of any set
/// of packets taken from one encoding.
pub open spec fn distinct_ids(s: Seq<(u32, Seq<u8>)>) -> bool {
    forall|i: int, j: int| 0 <= i < j < s.len() ==> s[i].0 != s[j].0
}

/// Two insertions with different identifiers land in the same places in
/// either order.
proof fn lemma_canon_insert_comm_ord(c: Seq<(u32, Seq<u8>)>, p: (u32, Seq<u8>), q: (u32, Seq<u8>))
    requires
        ids_sorted(c),
        p.0 < q.0,
    ensures
        canon_insert(canon_insert(c, p), q) == canon_insert(canon_insert(c, q), p),
    decreases c.len(),
{
    if c.len() == 0 {
        let cp = canon_insert(c, p);
        assert(cp == seq![p]);
        assert(cp.first() == p);
        assert(cp.drop_first() =~= c);
        assert(canon_insert(cp, q) == seq![cp.first()] + canon_insert(cp.drop_first(), q));
        assert(canon_insert(c, q) == seq![q]);
        assert(seq![cp.first()] =~= seq![p]);
        assert(canon_insert(cp, q) =~= seq![p] + seq![q]);
        let cq = canon_insert(c, q);
        assert(cq == seq![q]);
        assert(canon_insert(cq, p) =~= seq![p] + seq![q]);
    } else {
        let c0 = c.first();
        let c2 = c.drop_first();
        assert(forall|i: int| 0 <= i < c2.len() ==> c2[i] == c[i + 1]);
        if p.0 < c0.0 {
            let cp = canon_insert(c, p);
            assert(cp == seq![p] + c);
            assert(cp.first() == p);
            assert(cp.drop_first() =~= c);
            assert(canon_insert(cp, q) == seq![p] + canon_insert(c, q));
            let cq = canon_insert(c, q);
            if q.0 < c0.0 {
                assert(cq == seq![q] + c);
                assert(cq.first() == q);
                assert(canon_insert(cq, p) == seq![p] + cq);
            } else if q.0 == c0.0 {
                assert(cq == c);
                assert(canon_insert(cq, p) == seq![p] + c);
            } else {
                assert(cq == seq![c0] + canon_insert(c2, q));
                assert(cq.first() == c0);
                assert(canon_insert(cq, p) == seq![p] + cq);
            }
        } else if p.0 == c0.0 {
            assert(q.0 > c0.0);
            assert(canon_insert(c, p) == c);
            let cq = canon_insert(c, q);
            assert(cq == seq![c0] + canon_insert(c2, q));
            assert(cq.first() == c0);
            assert(canon_insert(cq, p) == cq);
        } else {
            assert(q.0 > c0.0);
            let cp = canon_insert(c, p);
            assert(cp == seq![c0] + canon_insert(c2, p));
            assert(cp.first() == c0);
            assert(cp.drop_first() =~= canon_insert(c2, p));
            assert(canon_insert(cp, q) == seq![c0] + canon_insert(canon_insert(c2, p), q));
            let cq = canon_insert(c, q);
            assert(cq == seq![c0] + canon_insert(c2, q));
            assert(cq.first() == c0);
            assert(cq.drop_first() =~= canon_insert(c2, q));
            assert(canon_insert(cq, p) == seq![c0] + canon_insert(canon_insert(c2, q), p));
            lemma_canon_insert_comm_ord(c2, p, q);
        }
    }
}

/// Insertion order of two packets with different identifiers is
/// irrelevant.
pub proof fn lemma_canon_insert_comm(c: Seq<(u32, Seq<u8>)>, p: (u32, Seq<u8>), q: (u32, Seq<u8>))
    requires
        ids_sorted(c),
        p.0 != q.0,
    ensures
        canon_insert(canon_insert(c, p), q) == canon_insert(canon_insert(c, q), p),
{
    if p.0 < q.0 {
        lemma_canon_insert_comm_ord(c, p, q);
    } else {
        lemma_canon_insert_comm_ord(c, q, p);
    }
}

/// A packet anywhere in the middle of a distinct-identifier sequence may
/// instead be inserted last: the canonical form is the same.
pub proof fn lemma_canon_of_middle(
    a: Seq<(u32, Seq<u8>)>,
    x: (u32, Seq<u8>),
    b: Seq<(u32, Seq<u8>)>,
)
    requires
        distinct_ids(a + seq![x] + b),
    ensures
        canon_of(a + seq![x] + b) == canon_insert(canon_of(a + b), x),
    decreases b.len(),
{
    if b.len() == 0 {
        let w = a + seq![x] + b;
        assert(w.drop_last() =~= a);
        assert(w.last() == x);
        assert(a + b =~= a);
    } else {
        let y = b.last();
        let b2 = b.drop_last();
        let w = a + seq![x] + b;
        let v = a + b;
        assert(w.drop_last() =~= a + seq![x] + b2);
        assert(w.last() == y);
        assert(v.drop_last() =~= a + b2);
        assert(v.last() == y);
        assert(distinct_ids(a + seq![x] + b2)) by {
            let u = a + seq![x] + b2;
            assert(forall|i: int| 0 <= i < u.len() ==> u[i] == w[i]);
        }
        lemma_canon_of_middle(a, x, b2);
        // x and y have different identifiers: both sit in the original
        // distinct-identifier sequence
        assert(w[a.len() as int] == x);
        assert(w[w.len() - 1] == y);
        assert(x.0 != y.0);
        lemma_canon_of_props(a + b2);
        lemma_canon_insert_comm(canon_of(a + b2), x, y);
        assert(canon_of(w) == canon_insert(canon_insert(canon_of(a + b2), x), y));
        assert(canon_of(v) == canon_insert(canon_of(a + b2), y));
    }
}

/// LAW (order independence). Packet sequences with pairwise-distinct
/// identifiers that hold the same packets — in any order — have the same
/// canonical form, and so decode identically.
pub proof fn lemma_canon_of_permutation(s1: Seq<(u32, Seq<u8>)>, s2: Seq<(u32, Seq<u8>)>)
    requires
        distinct_ids(s1),
        s1.to_multiset() == s2.to_multiset(),
    ensures
        canon_of(s1) == canon_of(s2),
    decreases s2.len(),
{
    broadcast use vstd::seq_lib::group_to_multiset_ensures;
    broadcast use vstd::multiset::group_multiset_axioms;

    if s2.len() == 0 {
        assert(s1.to_multiset().len() == 0);
        assert(s1.len() == 0);
    } else {
        let y = s2.last();
        let s2d = s2.drop_last();
        assert(s2 =~= s2d.push(y));
        assert(s2.to_multiset() =~= s2d.to_multiset().insert(y));
        assert(s2.contains(y));
        assert(s2.to_multiset().count(y) > 0);
        assert(s1.to_multiset().count(y) > 0);
        assert(s1.contains(y));
        let i = choose|i: int| 0 <= i < s1.len() && s1[i] == y;
        let a = s1.subrange(0, i);
        let b = s1.subrange(i + 1, s1.len() as int);
        assert(s1 =~= a + seq![y] + b);
        assert(seq![y] =~= Seq::<(u32, Seq<u8>)>::empty().push(y));
        assert(seq![y].to_multiset() =~= Seq::<(u32, Seq<u8>)>::empty().to_multiset().insert(y));
        assert(Seq::<(u32, Seq<u8>)>::empty().to_multiset() =~= Multiset::<(u32, Seq<u8>)>::empty())
            by {
            let m = Seq::<(u32, Seq<u8>)>::empty().to_multiset();
            assert(m.len() == 0);
            assert forall|e: (u32, Seq<u8>)| m.count(e) == 0 by {
                if m.count(e) > 0 {
                    assert(Seq::<(u32, Seq<u8>)>::empty().contains(e));
                }
            }
        }
        vstd::seq_lib::lemma_multiset_commutative(a + seq![y], b);
        vstd::seq_lib::lemma_multiset_commutative(a, seq![y]);
        vstd::seq_lib::lemma_multiset_commutative(a, b);
        assert((a + seq![y] + b).to_multiset() =~= (a + b).to_multiset().insert(y));
        assert(s1.to_multiset() == (a + b).to_multiset().insert(y));
        assert((a + b).to_multiset() =~= s2d.to_multiset()) by {
            let m1 = (a + b).to_multiset();
            let m2 = s2d.to_multiset();
            assert forall|e: (u32, Seq<u8>)| m1.count(e) == m2.count(e) by {
                assert(m1.insert(y).count(e) == m2.insert(y).count(e));
                if e == y {
                    assert(m1.insert(y).count(e) == m1.count(e) + 1);
                    assert(m2.insert(y).count(e) == m2.count(e) + 1);
                }
            }
        }
        assert(distinct_ids(a + b)) by {
            let u = a + b;
            assert forall|x1: int, x2: int|
                0 <= x1 < x2 < u.len() implies u[x1].0 != u[x2].0 by {
                let y1: int = if x1 < i {
                    x1
                } else {
                    x1 + 1
                };
                let y2: int = if x2 < i {
                    x2
                } else {
                    x2 + 1
                };
                assert(u[x1] == s1[y1]);
                assert(u[x2] == s1[y2]);
            }
        }
        lemma_canon_of_permutation(a + b, s2d);
        lemma_canon_of_middle(a, y, b);
        assert(canon_of(s2) == canon_insert(canon_of(s2d), y));
    }
}

/// A packet whose identifier occurs nowhere in the suffix may instead be
/// inserted last: the canonical form is the same.
proof fn lemma_canon_of_middle_nodup(
    a: Seq<(u32, Seq<u8>)>,
    x: (u32, Seq<u8>),
    b: Seq<(u32, Seq<u8>)>,
)
    requires
        forall|i: int| 0 <= i < b.len() ==> (#[trigger] b[i]).0 != x.0,
    ensures
        canon_of(a + seq![x] + b) == canon_insert(canon_of(a + b), x),
    decreases b.len(),
{
    if b.len() == 0 {
        let w = a + seq![x] + b;
        assert(w.drop_last() =~= a);
        assert(w.last() == x);
        assert(a + b =~= a);
    } else {
        let y = b.last();
        let b2 = b.drop_last();
        let w = a + seq![x] + b;
        let v = a + b;
        assert(w.drop_last() =~= a + seq![x] + b2);
        assert(w.last() == y);
        assert(v.drop_last() =~= a + b2);
        assert(v.last() == y);
        assert(forall|i: int| 0 <= i < b2.len() ==> (#[trigger] b2[i]).0 != x.0);
        lemma_canon_of_middle_nodup(a, x, b2);
        assert(y.0 != x.0);
        lemma_canon_of_props(a + b2);
        lemma_canon_insert_comm(canon_of(a + b2), x, y);
        assert(canon_of(w) == canon_insert(canon_insert(canon_of(a + b2), x), y));
        assert(canon_of(v) == canon_insert(canon_of(a + b2), y));
    }
}

/// A repeat whose identifier occurs later in the sequence — every such
/// occurrence carrying the repeat's own payload — changes nothing either.
proof fn lemma_canon_of_duplicate_right(
    s1: Seq<(u32, Seq<u8>)>,
    p: (u32, Seq<u8>),
    s2: Seq<(u32, Seq<u8>)>,
)
    requires
        has_id(s2, p.0),
        forall|i: int| 0 <= i < s2.len() && (#[trigger] s2[i]).0 == p.0 ==> s2[i].1 == p.1,
    ensures
        canon_of(s1 + seq![p] + s2) == canon_of(s1 + s2),
    decreases s2.len(),
{
    let y = s2.last();
    let s2d = s2.drop_last();
    let w = s1 + seq![p] + s2;
    let v = s1 + s2;
    assert(w.drop_last() =~= s1 + seq![p] + s2d);
    assert(w.last() == y);
    assert(v.drop_last() =~= s1 + s2d);
    assert(v.last() == y);
    assert(forall|i: int| 0 <= i < s2d.len() ==> s2d[i] == s2[i]);
    if has_id(s2d, p.0) {
        lemma_canon_of_duplicate_right(s1, p, s2d);
    } else {
        // the only occurrence of the identifier is the last packet, which
        // then carries the repeat's own payload: it is the repeat itself
        let o = choose|o: int| 0 <= o < s2.len() && s2[o].0 == p.0;
        assert(o == s2.len() - 1);
        assert(y == p);
        assert(forall|i: int| 0 <= i < s2d.len() ==> (#[trigger] s2d[i]).0 != p.0);
        lemma_canon_of_middle_nodup(s1, p, s2d);
        let c = canon_of(s1 + s2d);
        lemma_canon_of_props(s1 + s2d);
        lemma_canon_insert_props(c, p);
        lemma_canon_insert_present(canon_insert(c, p), p);
        assert(canon_of(w) == canon_insert(canon_insert(c, p), y));
        assert(canon_of(v) == canon_insert(c, y));
    }
}

/// Feeding a packet of the sequence a second time, at any position, leaves
/// the canonical form unchanged, provided packets that share an identifier
/// share their payload — as packets from one encoding do.
pub proof fn lemma_canon_of_duplicate_at(s: Seq<(u32, Seq<u8>)>, i: int, j: int)
    requires
        0 <= i < s.len(),
        0 <= j <= s.len(),
        forall|a: int, b: int|
            0 <= a < s.len() && 0 <= b < s.len() && (#[trigger] s[a]).0 == (#[trigger] s[b]).0
                ==> s[a].1 == s[b].1,
    ensures
        canon_of(s.take(j) + seq![s[i]] + s.skip(j)) == canon_of(s),
{
    let p = s[i];
    let s1 = s.take(j);
    let s2 = s.skip(j);
    assert(s1 + s2 =~= s);
    if i < j {
        assert(s1[i].0 == p.0);
        assert(has_id(s1, p.0));
        lemma_canon_of_duplicate(s1, p, s2);
    } else {
        assert(s2[i - j] == p);
        assert(has_id(s2, p.0));
        assert forall|x: int|
            0 <= x < s2.len() && (#[trigger] s2[x]).0 == p.0 implies s2[x].1 == p.1 by {
            assert(s2[x] == s[x + j]);
        }
        lemma_canon_of_duplicate_right(s1, p, s2);
    }
}

/// Builds the canonical form of `packets`: id-sorted, one packet per
/// identifier, first payload seen for each identifier kept.
pub fn canonicalize(packets: &Vec<EncodingPacket>) -> (r: Vec<EncodingPacket>)
    ensures
        packet_views(r@) == canon_of(packet_views(packets@)),
{
    let mut out: Vec<EncodingPacket> = Vec::new();
    let mut t: usize = 0;
    proof {
        assert(packet_views(packets@).take(0) =~= Seq::<(u32, Seq<u8>)>::empty());
        assert(packet_views(out@) =~= Seq::<(u32, Seq<u8>)>::empty());
    }
    while t < packets.len()
        invariant
            t <= packets@.len(),
            packet_views(out@) == canon_of(packet_views(packets@).take(t as int)),
        decreases packets@.len() - t,
    {
        let p = &packets[t];
        proof {
            lemma_canon_of_props(packet_views(packets@).take(t as int));
        }
        canon_push(&mut out, p.id, &p.payload);
        proof {
            let full = packet_views(packets@);
            assert(full.take(t + 1).drop_last() =~= full.take(t as int));
            assert(full.take(t + 1).last() == packet_view(packets@[t as int]));
        }
        t = t + 1;
    }
    proof {
        assert(packet_views(packets@).take(packets@.len() as int) =~= packet_views(packets@));
    }
    out
}

/// Inserts one packet into an id-sorted vector, skipping a duplicate
/// identifier.
fn canon_push(out: &mut Vec<EncodingPacket>, id: u32, payload: &Vec<u8>)
    requires
        ids_sorted(packet_views(old(out)@)),
    ensures
        packet_views(final(out)@) == canon_insert(
            packet_views(old(out)@),
            (id, payload@),
        ),
{
    let ghost c = packet_views(old(out)@);
    let mut pos: usize = 0;
    while pos < out.len() && out[pos].id < id
        invariant
            pos <= out@.len(),
            out@ == old(out)@,
            c == packet_views(out@),
            forall|i: int| 0 <= i < pos ==> c[i].0 < id,
        decreases out@.len() - pos,
    {
        proof {
            assert(c[pos as int].0 == out@[pos as int].id);
        }
        pos = pos + 1;
    }
    proof {
        lemma_canon_insert_at(c, (id, payload@), pos as int);
    }
    if pos < out.len() {
        let existing = out[pos].id;
        if existing == id {
            return ;
        }
    }
    let np = EncodingPacket { id, payload: copy_bytes(payload) };
    out.insert(pos, np);
    proof {
        assert(packet_views(final(out)@) =~= c.take(pos as int) + seq![(id, payload@)] + c.skip(
            pos as int,
        ));
    }
}

} // verus!
