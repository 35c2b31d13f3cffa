//! Bookkeeping of sent, not yet acknowledged segments: RTT and RTO
//! estimation, loss marking and retransmission copies.
use vstd::prelude::*;

use crate::message::{Message, Seqno};

verus! {

/// Retransmission timeout before any round trip has been measured, in
/// microseconds; also the minimum RTT reported until then.
pub const INIT_RTO: u64 = 1_000_000;

/// Lower bound of the retransmission timeout, in microseconds.
pub const MIN_RTO: u64 = 200_000;

/// Upper bound of the retransmission timeout and of any RTT sample, in
/// microseconds.
pub const MAX_RTO: u64 = 60_000_000;

/// Smoothed round-trip estimation (mean plus four variances), in microseconds.
#[derive(Clone, Copy, Debug, PartialEq, Eq, Structural)]
pub struct RttEstimator {
    pub srtt: u64,
    pub rttvar: u64,
    pub min_rtt: u64,
    pub sampled: bool,
}

pub open spec fn clamp_rto(x: int) -> int {
    if x < MIN_RTO {
        MIN_RTO as int
    } else if x > MAX_RTO {
        MAX_RTO as int
    } else {
        x
    }
}

pub open spec fn abs_diff(a: int, b: int) -> int {
    if a >= b {
        a - b
    } else {
        b - a
    }
}

impl RttEstimator {
    pub open spec fn wf(self) -> bool {
        self.srtt <= MAX_RTO && self.rttvar <= MAX_RTO && self.min_rtt <= INIT_RTO
    }

    pub open spec fn spec_rto(self) -> int {
        if self.sampled {
            clamp_rto(self.srtt + 4 * self.rttvar)
        } else {
            INIT_RTO as int
        }
    }

    /// The estimate after one round-trip sample `r` (already capped at
    /// `MAX_RTO`).
    pub open spec fn after_sample(self, r: u64) -> RttEstimator {
        let min_rtt = if r < self.min_rtt { r } else { self.min_rtt };
        if self.sampled {
            RttEstimator {
                srtt: ((7 * self.srtt + r) / 8) as u64,
                rttvar: ((3 * self.rttvar + abs_diff(self.srtt as int, r as int)) / 4) as u64,
                min_rtt,
                sampled: true,
            }
        } else {
            RttEstimator { srtt: r, rttvar: r / 2, min_rtt, sampled: true }
        }
    }

    pub fn new() -> (r: RttEstimator)
        ensures
            r.wf(),
            r == RttEstimator::new_spec(),
    {
        RttEstimator { srtt: 0, rttvar: 0, min_rtt: INIT_RTO, sampled: false }
    }

    pub fn rto(&self) -> (r: u64)
        requires
            self.wf(),
        ensures
            r == self.spec_rto(),
            MIN_RTO <= r <= MAX_RTO,
    {
        if self.sampled {
            let x = self.srtt + 4 * self.rttvar;
            if x < MIN_RTO {
                MIN_RTO
            } else if x > MAX_RTO {
                MAX_RTO
            } else {
                x
            }
        } else {
            INIT_RTO
        }
    }

    pub fn record(&mut self, sample: u64)
        requires
            old(self).wf(),
            sample <= MAX_RTO,
        ensures
            final(self).wf(),
            *final(self) == old(self).after_sample(sample),
    {
        let min_rtt = if sample < self.min_rtt { sample } else { self.min_rtt };
        if self.sampled {
            let diff = if self.srtt >= sample { self.srtt - sample } else { sample - self.srtt };
            let srtt = (7 * self.srtt + sample) / 8;
            let rttvar = (3 * self.rttvar + diff) / 4;
            *self = RttEstimator { srtt, rttvar, min_rtt, sampled: true };
        } else {
            *self = RttEstimator { srtt: sample, rttvar: sample / 2, min_rtt, sampled: true };
        }
    }
}

/// One sent segment that is not yet acknowledged.
#[derive(Debug)]
pub struct InflightEntry {
    pub seqno: Seqno,
    pub msg: Message,
    pub send_time: u64,
    pub deadline: u64,
    pub retries: u64,
    pub lost: bool,
}

/// Number of entries marked lost.
pub open spec fn count_lost(s: Seq<InflightEntry>) -> nat
    decreases s.len(),
{
    if s.len() == 0 {
        0
    } else {
        count_lost(s.drop_last()) + if s.last().lost {
            1nat
        } else {
            0nat
        }
    }
}

/// Whether some entry carries seqno `s`.
pub open spec fn tracks(v: Seq<InflightEntry>, s: Seqno) -> bool {
    exists|i: int| 0 <= i < v.len() && (#[trigger] v[i]).seqno == s
}

/// Segments sent and not yet acknowledged, in seqno order.
pub struct Inflight {
    segs: Vec<InflightEntry>,
    rtt: RttEstimator,
}

impl Inflight {
    /// The tracked segments, in increasing seqno order.
    pub closed spec fn view(&self) -> Seq<InflightEntry> {
        self.segs@
    }

    pub closed spec fn estimator(&self) -> RttEstimator {
        self.rtt
    }

    /// Seqnos strictly increase along the sequence.
    pub closed spec fn wf(&self) -> bool {
        &&& self.rtt.wf()
        &&& forall|i: int, j: int|
            0 <= i < j < self.segs@.len() ==> (#[trigger] self.segs@[i]).seqno
                < (#[trigger] self.segs@[j]).seqno
    }

    /// Number of tracked segments that are not marked lost.
    pub open spec fn spec_unacked(&self) -> nat {
        (self.view().len() - count_lost(self.view())) as nat
    }

    pub fn new() -> (r: Inflight)
        ensures
            r.wf(),
            r.view() == Seq::<InflightEntry>::empty(),
            r.estimator() == RttEstimator::new_spec(),
    {
        Inflight { segs: Vec::new(), rtt: RttEstimator::new() }
    }

    /// Number of tracked segments, unacknowledged or lost.
    pub fn inflight(&self) -> (r: usize)
        ensures
            r == self.view().len(),
    {
        self.segs.len()
    }

    /// Number of tracked segments marked lost.
    pub fn lost_count(&self) -> (r: usize)
        ensures
            r == count_lost(self.view()),
    {
        let mut c: usize = 0;
        let mut i: usize = 0;
        while i < self.segs.len()
            invariant
                i <= self.segs@.len(),
                c <= i,
                c == count_lost(self.segs@.subrange(0, i as int)),
            decreases self.segs.len() - i,
        {
            assert(self.segs@.subrange(0, i + 1).drop_last() =~= self.segs@.subrange(0, i as int));
            if self.segs[i].lost {
                c += 1;
            }
            i += 1;
        }
        assert(self.segs@.subrange(0, i as int) =~= self.segs@);
        c
    }

    /// Number of tracked segments not marked lost.
    pub fn unacked(&self) -> (r: usize)
        ensures
            r == self.spec_unacked(),
    {
        let lost = self.lost_count();
        proof {
            lemma_count_lost_bound(self.view());
        }
        self.segs.len() - lost
    }

    /// The current retransmission timeout, in microseconds.
    pub fn rto(&self) -> (r: u64)
        requires
            self.wf(),
        ensures
            r == self.estimator().spec_rto(),
            MIN_RTO <= r <= MAX_RTO,
    {
        self.rtt.rto()
    }

    /// The smallest round trip measured, in microseconds (`INIT_RTO` before
    /// any).
    pub fn min_rtt(&self) -> (r: u64)
        requires
            self.wf(),
        ensures
            r == self.estimator().min_rtt,
            r <= INIT_RTO,
    {
        self.rtt.min_rtt
    }
}

/// `now + rto`, saturating at the largest timestamp.
pub open spec fn deadline_after(now: u64, rto: u64) -> u64 {
    if now + rto > u64::MAX {
        u64::MAX
    } else {
        (now + rto) as u64
    }
}

/// The round-trip sample of a segment sent at `sent` and acknowledged at
/// `now`, capped at `MAX_RTO`.
pub open spec fn rtt_sample(now: u64, sent: u64) -> u64 {
    if now <= sent {
        0
    } else if now - sent > MAX_RTO {
        MAX_RTO
    } else {
        (now - sent) as u64
    }
}

/// The entry after a retransmission at `now` with timeout `rto`.
pub open spec fn resent(e: InflightEntry, now: u64, rto: u64) -> InflightEntry {
    InflightEntry {
        seqno: e.seqno,
        msg: e.msg,
        send_time: e.send_time,
        deadline: deadline_after(now, rto),
        retries: if e.retries < u64::MAX {
            (e.retries + 1) as u64
        } else {
            e.retries
        },
        lost: false,
    }
}

/// The entry marked lost.
pub open spec fn marked_lost(e: InflightEntry) -> InflightEntry {
    InflightEntry {
        seqno: e.seqno,
        msg: e.msg,
        send_time: e.send_time,
        deadline: e.deadline,
        retries: e.retries,
        lost: true,
    }
}

impl Inflight {
    /// Position of the entry carrying `seqno`, if any.
    fn find(&self, seqno: Seqno) -> (r: Option<usize>)
        requires
            self.wf(),
        ensures
            match r {
                Some(i) => i < self.view().len() && self.view()[i as int].seqno == seqno,
                None => !tracks(self.view(), seqno),
            },
    {
        let mut i: usize = 0;
        while i < self.segs.len()
            invariant
                i <= self.segs@.len(),
                forall|j: int| 0 <= j < i ==> (#[trigger] self.segs@[j]).seqno != seqno,
            decreases self.segs.len() - i,
        {
            if self.segs[i].seqno == seqno {
                return Some(i);
            }
            i += 1;
        }
        None
    }

    /// Whether `seqno` is tracked and not marked lost.
    pub fn is_unacked(&self, seqno: Seqno) -> (r: bool)
        requires
            self.wf(),
        ensures
            r == exists|i: int|
                0 <= i < self.view().len() && (#[trigger] self.view()[i]).seqno == seqno
                    && !self.view()[i].lost,
    {
        match self.find(seqno) {
            Some(i) => {
                let r = !self.segs[i].lost;
                proof {
                    if !r {
                        assert forall|k: int|
                            0 <= k < self.segs@.len() && (#[trigger] self.segs@[k]).seqno == seqno
                                implies self.segs@[k].lost by {
                            if k < i {
                                assert(self.segs@[k].seqno < self.segs@[i as int].seqno);
                            } else if k > i {
                                assert(self.segs@[i as int].seqno < self.segs@[k].seqno);
                            }
                        }
                    }
                }
                r
            },
            None => false,
        }
    }

    /// Starts tracking a segment sent at `now`, with deadline `now` plus the
    /// current RTO. Its seqno is above every tracked one.
    pub fn insert(&mut self, seqno: Seqno, msg: Message, now: u64)
        requires
            old(self).wf(),
            forall|i: int| 0 <= i < old(self).view().len() ==> (#[trigger] old(self).view()[i]).seqno
                < seqno,
        ensures
            final(self).wf(),
            final(self).estimator() == old(self).estimator(),
            final(self).view() == old(self).view().push(
                (InflightEntry {
                    seqno,
                    msg,
                    send_time: now,
                    deadline: deadline_after(now, old(self).estimator().spec_rto() as u64),
                    retries: 0,
                    lost: false,
                }),
            ),
    {
        let rto = self.rtt.rto();
        let deadline = if now > u64::MAX - rto { u64::MAX } else { now + rto };
        let ghost v0 = self.segs@;
        self.segs.push(InflightEntry { seqno, msg, send_time: now, deadline, retries: 0, lost: false });
        assert forall|a: int, b: int|
            0 <= a < b < self.segs@.len() implies (#[trigger] self.segs@[a]).seqno
            < (#[trigger] self.segs@[b]).seqno by {
            assert(self.segs@[a] == v0[a]);
            if b < v0.len() {
                assert(self.segs@[b] == v0[b]);
            } else {
                assert(old(self).view()[a].seqno < seqno);
            }
        }
    }

    /// Marks `seqno` acknowledged at `now`; true only if it was tracked, so
    /// only on its first acknowledgement. A segment never retransmitted
    /// yields a round-trip sample.
    pub fn mark_acked(&mut self, seqno: Seqno, now: u64) -> (r: bool)
        requires
            old(self).wf(),
        ensures
            final(self).wf(),
            r == tracks(old(self).view(), seqno),
            !tracks(final(self).view(), seqno),
            forall|x: Seqno| #[trigger] tracks(final(self).view(), x) <==> tracks(old(self).view(), x) && x != seqno,
            !r ==> *final(self) == *old(self),
            r ==> exists|i: int|
                0 <= i < old(self).view().len() && (#[trigger] old(self).view()[i]).seqno == seqno
                    && final(self).view() == old(self).view().remove(i) && final(self).estimator()
                    == if old(self).view()[i].retries == 0 {
                    old(self).estimator().after_sample(rtt_sample(now, old(self).view()[i].send_time))
                } else {
                    old(self).estimator()
                },
    {
        match self.find(seqno) {
            None => false,
            Some(i) => {
                let ghost v0 = self.segs@;
                let e = self.segs.remove(i);
                if e.retries == 0 {
                    let sample = if now <= e.send_time {
                        0
                    } else if now - e.send_time > MAX_RTO {
                        MAX_RTO
                    } else {
                        now - e.send_time
                    };
                    self.rtt.record(sample);
                }
                assert forall|a: int, b: int|
                    0 <= a < b < self.segs@.len() implies (#[trigger] self.segs@[a]).seqno
                    < (#[trigger] self.segs@[b]).seqno by {
                    let a0 = if a < i { a } else { a + 1 };
                    let b0 = if b < i { b } else { b + 1 };
                    assert(v0[a0] == self.segs@[a] && v0[b0] == self.segs@[b]);
                }
                assert forall|x: Seqno| #[trigger] tracks(self.segs@, x) <==> tracks(v0, x) && x != seqno by {
                    if tracks(self.segs@, x) {
                        let k = choose|k: int| 0 <= k < self.segs@.len() && (#[trigger] self.segs@[k]).seqno == x;
                        let k0 = if k < i { k } else { k + 1 };
                        assert(v0[k0] == self.segs@[k]);
                        if x == seqno {
                            if k0 < i {
                                assert(v0[k0].seqno < v0[i as int].seqno);
                            } else {
                                assert(v0[i as int].seqno < v0[k0].seqno);
                            }
                        }
                    }
                    if tracks(v0, x) && x != seqno {
                        let k = choose|k: int| 0 <= k < v0.len() && (#[trigger] v0[k]).seqno == x;
                        if k < i {
                            assert(self.segs@[k] == v0[k]);
                        } else {
                            assert(k != i);
                            assert(self.segs@[k - 1] == v0[k]);
                        }
                    }
                }
                assert(!tracks(self.segs@, seqno)) by {
                    if tracks(self.segs@, seqno) {
                        let k = choose|k: int| 0 <= k < self.segs@.len() && (#[trigger] self.segs@[k]).seqno == seqno;
                        let k0 = if k < i { k } else { k + 1 };
                        assert(v0[k0] == self.segs@[k]);
                    }
                }
                true
            },
        }
    }

    /// Acknowledges every tracked segment below `boundary`.
    pub fn mark_acked_lt(&mut self, boundary: Seqno)
        requires
            old(self).wf(),
        ensures
            final(self).wf(),
            final(self).estimator() == old(self).estimator(),
            exists|j: int|
                0 <= j <= old(self).view().len() && final(self).view() == old(self).view().subrange(
                    j,
                    old(self).view().len() as int,
                ) && (forall|k: int| 0 <= k < j ==> (#[trigger] old(self).view()[k]).seqno < boundary)
                    && (forall|k: int|
                    j <= k < old(self).view().len() ==> (#[trigger] old(self).view()[k]).seqno
                        >= boundary),
            forall|s: Seqno| #[trigger] tracks(final(self).view(), s) <==> tracks(old(self).view(), s) && s >= boundary,
    {
        let ghost v0 = self.segs@;
        let ghost mut j: int = 0;
        while self.segs.len() > 0 && self.segs[0].seqno < boundary
            invariant
                self.wf(),
                self.rtt == old(self).rtt,
                v0 == old(self).view(),
                0 <= j <= v0.len(),
                self.segs@ == v0.subrange(j, v0.len() as int),
                forall|k: int| 0 <= k < j ==> (#[trigger] v0[k]).seqno < boundary,
                forall|a: int, b: int| 0 <= a < b < v0.len() ==> (#[trigger] v0[a]).seqno < (#[trigger] v0[b]).seqno,
            decreases self.segs.len(),
        {
            self.segs.remove(0);
            proof {
                j = j + 1;
            }
            assert(self.segs@ =~= v0.subrange(j, v0.len() as int));
        }
        assert forall|k: int| j <= k < v0.len() implies (#[trigger] v0[k]).seqno >= boundary by {
            assert(v0[j] == self.segs@[0]);
        }
        assert forall|s: Seqno| #[trigger] tracks(self.segs@, s) <==> tracks(v0, s) && s >= boundary by {
            if tracks(self.segs@, s) {
                let k = choose|k: int| 0 <= k < self.segs@.len() && (#[trigger] self.segs@[k]).seqno == s;
                assert(v0[k + j] == self.segs@[k]);
            }
            if tracks(v0, s) && s >= boundary {
                let k = choose|k: int| 0 <= k < v0.len() && (#[trigger] v0[k]).seqno == s;
                assert(v0[k] == self.segs@[k - j]);
            }
        }
    }

    /// Flags `seqno` lost; it stays tracked and counted in flight.
    pub fn mark_lost(&mut self, seqno: Seqno)
        requires
            old(self).wf(),
        ensures
            final(self).wf(),
            final(self).estimator() == old(self).estimator(),
            !tracks(old(self).view(), seqno) ==> final(self).view() == old(self).view(),
            forall|i: int|
                0 <= i < old(self).view().len() && (#[trigger] old(self).view()[i]).seqno == seqno
                    ==> final(self).view() == old(self).view().update(i, marked_lost(old(self).view()[i])),
    {
        if let Some(i) = self.find(seqno) {
            let ghost v0 = self.segs@;
            let mut e = self.segs.remove(i);
            e.lost = true;
            self.segs.insert(i, e);
            assert(self.segs@ =~= v0.update(i as int, marked_lost(v0[i as int])));
            assert forall|k: int|
                0 <= k < v0.len() && (#[trigger] v0[k]).seqno == seqno implies k == i by {
                if k < i {
                    assert(v0[k].seqno < v0[i as int].seqno);
                } else if k > i {
                    assert(v0[i as int].seqno < v0[k].seqno);
                }
            }
        }
    }

    /// A copy of the segment `seqno` to send again at `now`, which clears
    /// its lost flag, counts a retry and sets a fresh deadline; nothing if it
    /// is no longer tracked.
    pub fn retransmit(&mut self, seqno: Seqno, now: u64) -> (r: Option<Message>)
        requires
            old(self).wf(),
        ensures
            final(self).wf(),
            final(self).estimator() == old(self).estimator(),
            r is None <==> !tracks(old(self).view(), seqno),
            r is None ==> final(self).view() == old(self).view(),
            forall|i: int|
                0 <= i < old(self).view().len() && (#[trigger] old(self).view()[i]).seqno == seqno
                    ==> final(self).view() == old(self).view().update(
                    i,
                    resent(old(self).view()[i], now, old(self).estimator().spec_rto() as u64),
                ) && (r matches Some(m) && m.kind == old(self).view()[i].msg.kind && m.stream_id
                    == old(self).view()[i].msg.stream_id && m.seqno == old(self).view()[i].msg.seqno
                    && m.payload@ == old(self).view()[i].msg.payload@),
    {
        match self.find(seqno) {
            None => None,
            Some(i) => {
                let ghost v0 = self.segs@;
                let rto = self.rtt.rto();
                let mut e = self.segs.remove(i);
                let m = e.msg.copy();
                e.deadline = if now > u64::MAX - rto { u64::MAX } else { now + rto };
                if e.retries < u64::MAX {
                    e.retries = e.retries + 1;
                }
                e.lost = false;
                self.segs.insert(i, e);
                assert(self.segs@ =~= v0.update(i as int, resent(v0[i as int], now, rto)));
                assert forall|k: int|
                    0 <= k < v0.len() && (#[trigger] v0[k]).seqno == seqno implies k == i by {
                    if k < i {
                        assert(v0[k].seqno < v0[i as int].seqno);
                    } else if k > i {
                        assert(v0[i as int].seqno < v0[k].seqno);
                    }
                }
                Some(m)
            },
        }
    }

    /// The earliest deadline among tracked segments not marked lost, with
    /// its seqno.
    pub fn first_rto(&self) -> (r: Option<(Seqno, u64)>)
        requires
            self.wf(),
        ensures
            r is None <==> forall|i: int| 0 <= i < self.view().len() ==> (#[trigger] self.view()[i]).lost,
            r matches Some((s, d)) ==> exists|i: int|
                0 <= i < self.view().len() && !(#[trigger] self.view()[i]).lost && self.view()[i].seqno
                    == s && self.view()[i].deadline == d,
            r matches Some((s, d)) ==> forall|i: int|
                0 <= i < self.view().len() && !(#[trigger] self.view()[i]).lost ==> d <= self.view()[i].deadline,
    {
        let mut best: Option<(Seqno, u64)> = None;
        let mut i: usize = 0;
        while i < self.segs.len()
            invariant
                i <= self.segs@.len(),
                best is None <==> forall|k: int| 0 <= k < i ==> (#[trigger] self.segs@[k]).lost,
                best matches Some((s, d)) ==> exists|k: int|
                    0 <= k < i && !(#[trigger] self.segs@[k]).lost && self.segs@[k].seqno == s
                        && self.segs@[k].deadline == d,
                best matches Some((s, d)) ==> forall|k: int|
                    0 <= k < i && !(#[trigger] self.segs@[k]).lost ==> d <= self.segs@[k].deadline,
            decreases self.segs.len() - i,
        {
            let e = &self.segs[i];
            if !e.lost {
                match best {
                    None => {
                        best = Some((e.seqno, e.deadline));
                    },
                    Some((_, d)) => {
                        if e.deadline < d {
                            best = Some((e.seqno, e.deadline));
                        }
                    },
                }
            }
            i += 1;
        }
        best
    }
}

/// Replacing an entry by one with the same seqno tracks the same seqnos.
pub proof fn lemma_tracks_update(v: Seq<InflightEntry>, i: int, e: InflightEntry)
    requires
        0 <= i < v.len(),
        e.seqno == v[i].seqno,
    ensures
        forall|x: Seqno| #[trigger] tracks(v.update(i, e), x) <==> tracks(v, x),
{
    assert forall|x: Seqno| #[trigger] tracks(v.update(i, e), x) <==> tracks(v, x) by {
        if tracks(v, x) {
            let k = choose|k: int| 0 <= k < v.len() && (#[trigger] v[k]).seqno == x;
            assert(v.update(i, e)[k].seqno == x);
        }
        if tracks(v.update(i, e), x) {
            let k = choose|k: int| 0 <= k < v.len() && (#[trigger] v.update(i, e)[k]).seqno == x;
            assert(v[k].seqno == x);
        }
    }
}

/// Appending an entry tracks its seqno besides the others.
pub proof fn lemma_tracks_push(v: Seq<InflightEntry>, e: InflightEntry)
    ensures
        forall|x: Seqno| #[trigger] tracks(v.push(e), x) <==> tracks(v, x) || x == e.seqno,
{
    assert forall|x: Seqno| #[trigger] tracks(v.push(e), x) <==> tracks(v, x) || x == e.seqno by {
        if tracks(v, x) {
            let k = choose|k: int| 0 <= k < v.len() && (#[trigger] v[k]).seqno == x;
            assert(v.push(e)[k].seqno == x);
        }
        if x == e.seqno {
            assert(v.push(e)[v.len() as int].seqno == x);
        }
        if tracks(v.push(e), x) {
            let k = choose|k: int| 0 <= k < v.len() + 1 && (#[trigger] v.push(e)[k]).seqno == x;
            if k < v.len() {
                assert(v[k].seqno == x);
            }
        }
    }
}

/// At most every entry is lost.
pub proof fn lemma_count_lost_bound(s: Seq<InflightEntry>)
    ensures
        count_lost(s) <= s.len(),
    decreases s.len(),
{
    if s.len() > 0 {
        lemma_count_lost_bound(s.drop_last());
    }
}

impl RttEstimator {
    pub open spec fn new_spec() -> RttEstimator {
        RttEstimator { srtt: 0, rttvar: 0, min_rtt: INIT_RTO, sampled: false }
    }
}

} // verus!
