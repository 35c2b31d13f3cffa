//! Reassembly of out-of-order inbound payloads into an in-order stream.
use std::collections::HashMap;
use vstd::prelude::*;

use crate::message::Seqno;

verus! {

broadcast use vstd::std_specs::hash::group_hash_axioms;

/// The payloads stored at `next`, `next + 1`, ... up to the first seqno that
/// is missing: the longest ready in-order run.
pub open spec fn ready_run(m: Map<Seqno, Vec<u8>>, next: Seqno) -> Seq<Vec<u8>>
    decreases u64::MAX - next,
{
    if next < u64::MAX && m.contains_key(next) {
        seq![m[next]] + ready_run(m, (next + 1) as u64)
    } else {
        Seq::empty()
    }
}

/// The seqnos in `[lo, hi)`.
pub open spec fn seqno_range(lo: int, hi: int) -> Set<Seqno> {
    Set::new(|s: Seqno| lo <= s < hi)
}

/// Two maps that agree at and above `next` have the same ready run there.
pub proof fn lemma_ready_run_above(m1: Map<Seqno, Vec<u8>>, m2: Map<Seqno, Vec<u8>>, next: Seqno)
    requires
        forall|s: Seqno| s >= next ==> (m1.contains_key(s) <==> m2.contains_key(s)),
        forall|s: Seqno| s >= next && m1.contains_key(s) ==> m1[s] == m2[s],
    ensures
        ready_run(m1, next) == ready_run(m2, next),
    decreases u64::MAX - next,
{
    if next < u64::MAX && m1.contains_key(next) {
        lemma_ready_run_above(m1, m2, (next + 1) as u64);
    }
}

/// The ready run holds the stored payloads in order and ends at a gap.
pub proof fn lemma_ready_run_shape(m: Map<Seqno, Vec<u8>>, next: Seqno)
    requires
        forall|s: Seqno| m.contains_key(s) ==> s < u64::MAX,
    ensures
        next + ready_run(m, next).len() <= u64::MAX,
        !m.contains_key((next + ready_run(m, next).len()) as u64),
        forall|i: int|
            0 <= i < ready_run(m, next).len() ==> #[trigger] m.contains_key((next + i) as u64),
        forall|i: int|
            0 <= i < ready_run(m, next).len() ==> #[trigger] ready_run(m, next)[i] == m[(next
                + i) as u64],
    decreases u64::MAX - next,
{
    if next < u64::MAX && m.contains_key(next) {
        let n1 = (next + 1) as u64;
        lemma_ready_run_shape(m, n1);
        let r = ready_run(m, n1);
        assert(ready_run(m, next) == seq![m[next]] + r);
        assert forall|i: int| 0 <= i < ready_run(m, next).len() implies #[trigger] m.contains_key(
            (next + i) as u64,
        ) by {
            if i > 0 {
                assert((n1 + (i - 1)) as u64 == (next + i) as u64);
                assert(m.contains_key((n1 + (i - 1)) as u64));
            }
        }
        assert forall|i: int| 0 <= i < ready_run(m, next).len() implies #[trigger] ready_run(
            m,
            next,
        )[i] == m[(next + i) as u64] by {
            if i > 0 {
                assert(ready_run(m, next)[i] == r[i - 1]);
                assert((n1 + (i - 1)) as u64 == (next + i) as u64);
            }
        }
    }
}

/// Buffers payloads that arrive ahead of the next expected seqno.
pub struct Reorderer {
    pkts: HashMap<Seqno, Vec<u8>>,
    next: Seqno,
}

impl Reorderer {
    /// Stored payloads by seqno.
    pub closed spec fn stored(&self) -> Map<Seqno, Vec<u8>> {
        self.pkts@
    }

    /// The next seqno expected in order.
    pub closed spec fn expected(&self) -> Seqno {
        self.next
    }

    /// Every stored seqno is at or above the expected one, and below the
    /// largest seqno, which is never allocated.
    pub closed spec fn wf(&self) -> bool {
        forall|s: Seqno| #[trigger] self.pkts@.contains_key(s) ==> self.next <= s < u64::MAX
    }

    /// Whether `insert(seqno, _)` stores its payload.
    pub open spec fn accepts(&self, seqno: Seqno) -> bool {
        self.expected() <= seqno < u64::MAX && !self.stored().contains_key(seqno)
    }

    /// An empty reorderer expecting `next` first.
    pub fn new(next: Seqno) -> (r: Reorderer)
        ensures
            r.wf(),
            r.stored() == Map::<Seqno, Vec<u8>>::empty(),
            r.expected() == next,
    {
        Reorderer { pkts: HashMap::new(), next }
    }

    /// The next seqno expected in order.
    pub fn next_expected(&self) -> (r: Seqno)
        ensures
            r == self.expected(),
    {
        self.next
    }

    /// Stores `item` at `seqno` unless it is stale (below the expected seqno)
    /// or a duplicate; returns whether it was stored.
    pub fn insert(&mut self, seqno: Seqno, item: Vec<u8>) -> (r: bool)
        requires
            old(self).wf(),
        ensures
            final(self).wf(),
            r == old(self).accepts(seqno),
            final(self).expected() == old(self).expected(),
            final(self).stored() == if r {
                old(self).stored().insert(seqno, item)
            } else {
                old(self).stored()
            },
    {
        if seqno < self.next || seqno == u64::MAX || self.pkts.contains_key(&seqno) {
            false
        } else {
            self.pkts.insert(seqno, item);
            true
        }
    }

    /// Removes and returns, in order, the longest ready run starting at the
    /// expected seqno, and advances the expected seqno past it.
    pub fn take(&mut self) -> (r: Vec<Vec<u8>>)
        requires
            old(self).wf(),
        ensures
            final(self).wf(),
            r@ == ready_run(old(self).stored(), old(self).expected()),
            final(self).expected() == old(self).expected() + r.len(),
            final(self).stored() == old(self).stored().remove_keys(
                seqno_range(old(self).expected() as int, final(self).expected() as int),
            ),
    {
        let ghost m0 = self.pkts@;
        let ghost n0 = self.next;
        proof {
            lemma_ready_run_shape(m0, n0);
        }
        let mut out: Vec<Vec<u8>> = Vec::new();
        while self.next < u64::MAX && self.pkts.contains_key(&self.next)
            invariant
                n0 <= self.next,
                self.next == n0 + out.len(),
                self.pkts@ == m0.remove_keys(seqno_range(n0 as int, self.next as int)),
                out@ + ready_run(self.pkts@, self.next) == ready_run(m0, n0),
                forall|s: Seqno| #[trigger] m0.contains_key(s) ==> n0 <= s < u64::MAX,
            decreases u64::MAX - self.next,
        {
            let ghost before = self.pkts@;
            let key = self.next;
            let item = self.pkts.remove(&key).unwrap();
            assert(ready_run(before, key) == seq![item] + ready_run(before, (key + 1) as u64));
            proof {
                lemma_ready_run_above(before, self.pkts@, (key + 1) as u64);
            }
            out.push(item);
            self.next = key + 1;
            assert(self.pkts@ =~= m0.remove_keys(seqno_range(n0 as int, self.next as int)));
            assert(out@ + ready_run(self.pkts@, self.next) =~= ready_run(m0, n0));
        }
        proof {
            let rr = ready_run(self.pkts@, self.next);
            assert(rr.len() == 0);
            assert(out@ =~= ready_run(m0, n0));
        }
        out
    }
}

} // verus!

verus! {

/// The stored map after `insert(s, item)` on a reorderer expecting `next`.
pub open spec fn stored_after_insert(
    m: Map<Seqno, Vec<u8>>,
    next: Seqno,
    s: Seqno,
    item: Vec<u8>,
) -> Map<Seqno, Vec<u8>> {
    if next <= s < u64::MAX && !m.contains_key(s) {
        m.insert(s, item)
    } else {
        m
    }
}

/// Feeds each inbound `(seqno, payload)` pair in turn to a reorderer that
/// starts with `m` stored and expects `next`, taking the ready run after each
/// insertion. Gives the stored map, the expected seqno, and everything
/// delivered, in delivery order.
pub open spec fn feed(m: Map<Seqno, Vec<u8>>, next: Seqno, ops: Seq<(Seqno, Vec<u8>)>) -> (Map<
    Seqno,
    Vec<u8>,
>, Seqno, Seq<Vec<u8>>)
    decreases ops.len(),
{
    if ops.len() == 0 {
        (m, next, Seq::empty())
    } else {
        let (m0, n0, d0) = feed(m, next, ops.drop_last());
        let m1 = stored_after_insert(m0, n0, ops.last().0, ops.last().1);
        let r = ready_run(m1, n0);
        let n1 = (n0 + r.len()) as u64;
        (m1.remove_keys(seqno_range(n0 as int, n1 as int)), n1, d0 + r)
    }
}

/// Whether some pair of `ops` carries seqno `s`.
pub open spec fn arrived(ops: Seq<(Seqno, Vec<u8>)>, s: Seqno) -> bool {
    exists|i: int| 0 <= i < ops.len() && (#[trigger] ops[i]).0 == s
}

proof fn lemma_feed_invariant(
    lo: Seqno,
    ops: Seq<(Seqno, Vec<u8>)>,
    p: spec_fn(Seqno) -> Vec<u8>,
)
    requires
        forall|i: int| 0 <= i < ops.len() ==> lo <= (#[trigger] ops[i]).0 < u64::MAX,
        forall|i: int| 0 <= i < ops.len() ==> (#[trigger] ops[i]).1 == p(ops[i].0),
    ensures
        ({
            let (m, n, d) = feed(Map::empty(), lo, ops);
            &&& lo <= n
            &&& d.len() == n - lo
            &&& forall|i: int| 0 <= i < d.len() ==> #[trigger] d[i] == p((lo + i) as u64)
            &&& forall|s: Seqno| lo <= s < n ==> #[trigger] arrived(ops, s)
            &&& n == u64::MAX || !arrived(ops, n)
            &&& forall|s: Seqno| #[trigger] m.contains_key(s) <==> (arrived(ops, s) && n <= s)
            &&& forall|s: Seqno| #[trigger] m.contains_key(s) ==> m[s] == p(s)
        }),
    decreases ops.len(),
{
    if ops.len() > 0 {
        let pre = ops.drop_last();
        lemma_feed_invariant(lo, pre, p);
        let (m0, n0, d0) = feed(Map::empty(), lo, pre);
        let (s, item) = ops.last();
        assert(ops[ops.len() - 1] == ops.last());
        assert forall|x: Seqno| arrived(ops, x) <==> (arrived(pre, x) || x == s) by {
            if arrived(ops, x) {
                let i = choose|i: int| 0 <= i < ops.len() && (#[trigger] ops[i]).0 == x;
                if i < ops.len() - 1 {
                    assert(pre[i] == ops[i]);
                }
            }
            if arrived(pre, x) {
                let i = choose|i: int| 0 <= i < pre.len() && (#[trigger] pre[i]).0 == x;
                assert(pre[i] == ops[i]);
            }
        }
        let m1 = stored_after_insert(m0, n0, s, item);
        assert forall|x: Seqno| #[trigger] m1.contains_key(x) <==> (arrived(ops, x) && n0 <= x) by {
            if x == s && x < n0 {
                assert(arrived(pre, x));
            }
        }
        assert forall|x: Seqno| #[trigger] m1.contains_key(x) implies x < u64::MAX by {
            if x != s {
                assert(arrived(pre, x));
                let i = choose|i: int| 0 <= i < pre.len() && (#[trigger] pre[i]).0 == x;
                assert(pre[i] == ops[i]);
            }
        }
        assert forall|x: Seqno| #[trigger] m1.contains_key(x) implies m1[x] == p(x) by {}
        lemma_ready_run_shape(m1, n0);
        let r = ready_run(m1, n0);
        let n1 = (n0 + r.len()) as u64;
        let (m, n, d) = feed(Map::empty(), lo, ops);
        assert(n == n1 && d == d0 + r);
        assert forall|i: int| 0 <= i < d.len() implies #[trigger] d[i] == p((lo + i) as u64) by {
            if i >= d0.len() {
                let j = i - d0.len();
                assert(r[j] == m1[(n0 + j) as u64]);
                assert(m1.contains_key((n0 + j) as u64));
                assert((n0 + j) as u64 == (lo + i) as u64);
            }
        }
        assert forall|x: Seqno| lo <= x < n implies #[trigger] arrived(ops, x) by {
            if x >= n0 {
                let j = x - n0;
                assert(m1.contains_key((n0 + j) as u64));
            } else {
                assert(arrived(pre, x));
            }
        }
        assert(m =~= m1.remove_keys(seqno_range(n0 as int, n1 as int)));
    }
}

/// Reassembly law: whatever order inbound pairs arrive in, repeated or not,
/// the reorderer delivers payloads strictly in seqno order from `lo`, each
/// seqno once, and delivers nothing past the first seqno that has not
/// arrived. When the pairs cover `[lo, lo + k)` and nothing beyond it, exactly
/// the payloads of `lo, ..., lo + k - 1` are delivered, in that order.
///
/// Pairs that share a seqno carry the same payload, given by `p`.
pub proof fn lemma_reassembly_in_order(
    lo: Seqno,
    k: nat,
    ops: Seq<(Seqno, Vec<u8>)>,
    p: spec_fn(Seqno) -> Vec<u8>,
)
    requires
        lo + k < u64::MAX,
        forall|i: int| 0 <= i < ops.len() ==> lo <= (#[trigger] ops[i]).0 < u64::MAX,
        forall|i: int| 0 <= i < ops.len() ==> (#[trigger] ops[i]).1 == p(ops[i].0),
    ensures
        ({
            let (m, n, d) = feed(Map::empty(), lo, ops);
            &&& d.len() == n - lo
            &&& forall|i: int| 0 <= i < d.len() ==> #[trigger] d[i] == p((lo + i) as u64)
            &&& forall|s: Seqno| lo <= s < n ==> #[trigger] arrived(ops, s)
            &&& n == u64::MAX || !arrived(ops, n)
        }),
        (forall|s: Seqno| lo <= s < lo + k ==> #[trigger] arrived(ops, s)) && (forall|i: int|
            0 <= i < ops.len() ==> (#[trigger] ops[i]).0 < lo + k) ==> feed(Map::empty(), lo, ops).2
            == Seq::new(k, |i: int| p((lo + i) as u64)),
{
    lemma_feed_invariant(lo, ops, p);
    let (m, n, d) = feed(Map::empty(), lo, ops);
    if (forall|s: Seqno| lo <= s < lo + k ==> #[trigger] arrived(ops, s)) && (forall|i: int|
        0 <= i < ops.len() ==> (#[trigger] ops[i]).0 < lo + k) {
        if n < lo + k {
            assert(arrived(ops, n));
        }
        if n > lo + k {
            let x = (lo + k) as u64;
            assert(arrived(ops, x));
            let i = choose|i: int| 0 <= i < ops.len() && (#[trigger] ops[i]).0 == x;
        }
        assert(d =~= Seq::new(k, |i: int| p((lo + i) as u64)));
    }
}

} // verus!
