//! The per-connection state machine: which events may fire, and what each
//! one does.
//!
//! Time is a count of microseconds on the caller's monotonic clock.
use vstd::prelude::*;

use crate::ackset::{ack_set_contents, sort_ascending, strictly_ascending, AckSet};
use crate::codec::{
    decode_seqnos, decoded_list, encode_seqnos, holds_list, lemma_list_encoding_round_trip,
    list_encoding,
};
use crate::congestion::CongestionControl;
use crate::inflight::{lemma_tracks_push, lemma_tracks_update, tracks, Inflight, InflightEntry};
use crate::message::{Message, RelKind, Seqno};
use crate::reorderer::{ready_run, stored_after_insert, Reorderer};

verus! {

/// Largest payload of one data segment, in bytes.
pub const MSS: usize = 1150;

/// Received seqnos acknowledged together; reaching this many acknowledges at
/// once.
pub const ACK_BATCH: usize = 16;

/// How long an acknowledgement may wait for others to join it.
pub const ACK_DELAY: u64 = 1_000;

/// Longest life of a connection.
pub const IDLE_TIMEOUT: u64 = 600_000_000;

/// Longest spacing between two new segments: at least 200 per second.
pub const MAX_PACE_INTERVAL: u64 = 5_000;

/// One event of the connection's loop.
#[derive(Debug)]
pub enum ConnEvent {
    /// Send again the segment at the head of the lost queue.
    Retransmit(Seqno),
    /// The retransmission deadline of a segment passed.
    Rto(Seqno),
    /// The delayed-acknowledgement deadline passed.
    AckTimer,
    /// A fragment of at most `MSS` bytes read from the application.
    NewWrite(Vec<u8>),
    /// A message from the wire.
    NewPkt(Message),
    /// The application's outbound side ended.
    Closing,
}

/// Why a connection ends.
#[derive(Clone, Copy, Debug, PartialEq, Eq, Structural)]
pub enum ConnError {
    /// The peer reset the stream.
    Reset,
    /// Closing was requested and every segment is acknowledged: a normal end.
    Drained,
    /// An acknowledgement's seqno list could not be decoded.
    MalformedAck,
}

/// What the caller does after an event: send these messages, in order, and
/// deliver these payloads to the application, in order.
#[derive(Debug)]
pub struct Output {
    pub transmit: Vec<Message>,
    pub deliver: Vec<Vec<u8>>,
}

/// Which event sources the caller may wait on before the next event.
#[derive(Clone, Copy, Debug)]
pub struct Arming {
    /// The seqno that a `Retransmit` event would send again, if armed.
    pub retransmit: Option<Seqno>,
    /// Whether a `NewWrite` (or `Closing`) may be drawn from the application.
    pub write_new: bool,
    /// When `NewWrite` may fire at the earliest.
    pub pace_time: u64,
    /// When `AckTimer` fires, if armed.
    pub ack_deadline: Option<u64>,
    /// The segment whose `Rto` fires first, and when.
    pub rto: Option<(Seqno, u64)>,
}

/// The state of one reliable connection.
pub struct ConnVars {
    inflight: Inflight,
    next_free_seqno: Seqno,
    retrans_count: u64,
    delayed_ack_timer: Option<u64>,
    ack_seqnos: AckSet,
    reorderer: Reorderer,
    lowest_unseen: Seqno,
    closing: bool,
    next_pace_time: u64,
    lost_seqnos: Vec<Seqno>,
    last_loss: Option<u64>,
    cc: CongestionControl,
}

impl ConnVars {
    pub closed spec fn spec_inflight(&self) -> Inflight {
        self.inflight
    }

    pub closed spec fn spec_next_free(&self) -> Seqno {
        self.next_free_seqno
    }

    pub closed spec fn spec_pending_acks(&self) -> Set<Seqno> {
        ack_set_contents(self.ack_seqnos)
    }

    pub closed spec fn spec_ack_timer(&self) -> Option<u64> {
        self.delayed_ack_timer
    }

    pub closed spec fn spec_reorderer(&self) -> Reorderer {
        self.reorderer
    }

    pub closed spec fn spec_lowest_unseen(&self) -> Seqno {
        self.lowest_unseen
    }

    pub closed spec fn spec_closing(&self) -> bool {
        self.closing
    }

    pub closed spec fn spec_pace_time(&self) -> u64 {
        self.next_pace_time
    }

    pub closed spec fn spec_lost(&self) -> Seq<Seqno> {
        self.lost_seqnos@
    }

    pub closed spec fn spec_last_loss(&self) -> Option<u64> {
        self.last_loss
    }

    pub closed spec fn spec_cc(&self) -> CongestionControl {
        self.cc
    }

    pub closed spec fn spec_retrans_count(&self) -> u64 {
        self.retrans_count
    }

    /// Segments in flight: unacknowledged plus marked lost.
    pub open spec fn inflight_count(&self) -> nat {
        self.spec_inflight().view().len()
    }

    /// Segments in flight and not marked lost.
    pub open spec fn unacked_count(&self) -> nat {
        self.spec_inflight().spec_unacked()
    }

    pub open spec fn cwnd_spec(&self) -> nat {
        self.spec_cc().window()
    }

    /// Every tracked segment has a seqno below the next free one; the
    /// pending acknowledgements stay under the batch size; the reorderer
    /// expects exactly the lowest unseen seqno.
    pub closed spec fn wf(&self) -> bool {
        &&& self.wf_core()
        &&& ack_set_contents(self.ack_seqnos).len() < ACK_BATCH
    }

    /// All of `wf` but the bound on pending acknowledgements.
    closed spec fn wf_core(&self) -> bool {
        &&& self.inflight.wf()
        &&& self.cc.wf()
        &&& self.reorderer.wf()
        &&& forall|i: int|
            0 <= i < self.inflight.view().len() ==> (#[trigger] self.inflight.view()[i]).seqno
                < self.next_free_seqno
        &&& forall|i: int|
            0 <= i < self.inflight.view().len() ==> (#[trigger] self.inflight.view()[i]).msg.kind
                == RelKind::Data && self.inflight.view()[i].msg.seqno == self.inflight.view()[i].seqno
        &&& forall|s: Seqno| #[trigger]
            self.lost_seqnos@.contains(s) ==> tracks(self.inflight.view(), s)
        &&& ack_set_contents(self.ack_seqnos).finite()
        &&& self.reorderer.expected() == self.lowest_unseen
    }

    /// The conditions under which NewWrite may fire.
    pub open spec fn can_write_new(&self) -> bool {
        &&& self.inflight_count() <= self.cwnd_spec()
        &&& self.unacked_count() <= self.cwnd_spec()
        &&& !self.spec_closing()
        &&& self.spec_next_free() < u64::MAX
    }

    /// The conditions under which Retransmit may fire.
    pub open spec fn can_retransmit(&self) -> bool {
        self.spec_lost().len() > 0 && self.inflight_count() <= self.cwnd_spec()
    }

    /// Whether `evt` may be applied now.
    pub open spec fn admits(&self, evt: &ConnEvent) -> bool {
        match evt {
            ConnEvent::Retransmit(s) => self.can_retransmit() && *s == self.spec_lost()[0],
            ConnEvent::NewWrite(b) => self.can_write_new() && b@.len() <= MSS,
            ConnEvent::Rto(s) => self.is_unacked_spec(*s),
            ConnEvent::AckTimer => self.spec_ack_timer() is Some,
            _ => true,
        }
    }

    /// Whether `s` is tracked in flight and not marked lost.
    pub open spec fn is_unacked_spec(&self, s: Seqno) -> bool {
        exists|i: int|
            0 <= i < self.inflight_count() && (#[trigger] self.spec_inflight().view()[i]).seqno == s
                && !self.spec_inflight().view()[i].lost
    }

    /// Spacing before the next new segment: the minimum RTT spread over the
    /// window, but never more than `MAX_PACE_INTERVAL`.
    pub open spec fn pace_interval_spec(&self) -> u64 {
        let x = self.spec_inflight().estimator().min_rtt as nat / self.cwnd_spec();
        if x < MAX_PACE_INTERVAL {
            x as u64
        } else {
            MAX_PACE_INTERVAL
        }
    }
}

/// Number of distinct seqnos of `l` that `v` tracks: the segments that a
/// selective acknowledgement of `l` newly acknowledges.
pub open spec fn newly_acked(v: Seq<InflightEntry>, l: Seq<Seqno>) -> nat
    decreases l.len(),
{
    if l.len() == 0 {
        0
    } else {
        newly_acked(v, l.drop_last()) + if tracks(v, l.last()) && !l.drop_last().contains(
            l.last(),
        ) {
            1nat
        } else {
            0nat
        }
    }
}

/// The strategy after `n` newly acknowledged segments.
pub open spec fn acked_times(cc: CongestionControl, n: nat) -> CongestionControl
    decreases n,
{
    if n == 0 {
        cc
    } else {
        acked_times(cc, (n - 1) as nat).after_ack()
    }
}

/// The test `x != s`.
pub open spec fn other_than(s: Seqno) -> spec_fn(Seqno) -> bool {
    |x: Seqno| x != s
}

/// Removes every occurrence of `s` from `v`, keeping the order of the rest.
pub fn remove_all(v: &mut Vec<Seqno>, s: Seqno)
    ensures
        final(v)@ == old(v)@.filter(other_than(s)),
{
    let mut out: Vec<Seqno> = Vec::new();
    let mut i: usize = 0;
    while i < v.len()
        invariant
            i <= v@.len(),
            v@ == old(v)@,
            out@ == v@.subrange(0, i as int).filter(other_than(s)),
        decreases v.len() - i,
    {
        assert(v@.subrange(0, i + 1).drop_last() =~= v@.subrange(0, i as int));
        assert(v@.subrange(0, i + 1).last() == v@[i as int]);
        proof {
            reveal(Seq::filter);
        }
        if v[i] != s {
            out.push(v[i]);
        }
        i += 1;
    }
    assert(v@.subrange(0, i as int) =~= v@);
    proof {
        reveal(Seq::filter);
    }
    *v = out;
}

/// Whether `evt` is one of those that touch the receiving side: a data
/// message or the ack timer.
pub open spec fn is_receive(evt: &ConnEvent) -> bool {
    match evt {
        ConnEvent::NewPkt(m) => m.kind == RelKind::Data,
        ConnEvent::AckTimer => true,
        _ => false,
    }
}

/// The test `x >= b`.
pub open spec fn at_least(b: Seqno) -> spec_fn(Seqno) -> bool {
    |x: Seqno| x >= b
}

/// Removes every seqno below `b` from `v`, keeping the order of the rest.
pub fn remove_below(v: &mut Vec<Seqno>, b: Seqno)
    ensures
        final(v)@ == old(v)@.filter(at_least(b)),
{
    let mut out: Vec<Seqno> = Vec::new();
    let mut i: usize = 0;
    while i < v.len()
        invariant
            i <= v@.len(),
            v@ == old(v)@,
            out@ == v@.subrange(0, i as int).filter(at_least(b)),
        decreases v.len() - i,
    {
        assert(v@.subrange(0, i + 1).drop_last() =~= v@.subrange(0, i as int));
        assert(v@.subrange(0, i + 1).last() == v@[i as int]);
        proof {
            reveal(Seq::filter);
        }
        if v[i] >= b {
            out.push(v[i]);
        }
        i += 1;
    }
    assert(v@.subrange(0, i as int) =~= v@);
    *v = out;
}

/// A data message carrying `payload` as segment `seqno`.
pub open spec fn is_data(m: Message, stream_id: u16, seqno: Seqno, payload: Seq<u8>) -> bool {
    m.kind == RelKind::Data && m.stream_id == stream_id && m.seqno == seqno && m.payload@ == payload
}

/// An acknowledgement of everything below `lowest_unseen` and of the
/// seqnos in `pending`, listed in ascending order.
pub open spec fn is_ack_of(m: Message, stream_id: u16, lowest_unseen: Seqno, pending: Set<Seqno>) -> bool {
    &&& m.kind == RelKind::DataAck
    &&& m.stream_id == stream_id
    &&& m.seqno == lowest_unseen
    &&& exists|l: Seq<Seqno>|
        strictly_ascending(l) && l.to_set() == pending && list_encoding(l) == #[trigger] m.payload@
}

impl Default for ConnVars {
    /// A fresh connection: nothing sent or received, Cubic congestion
    /// control, and the first segment free to go at once.
    fn default() -> (r: ConnVars)
        ensures
            r.wf(),
            r.spec_inflight().view() == Seq::<InflightEntry>::empty(),
            r.spec_next_free() == 0,
            r.spec_pending_acks() == Set::<Seqno>::empty(),
            r.spec_ack_timer() is None,
            r.spec_lowest_unseen() == 0,
            r.spec_reorderer().stored() == Map::<Seqno, Vec<u8>>::empty(),
            !r.spec_closing(),
            r.spec_pace_time() == 0,
            r.spec_lost() == Seq::<Seqno>::empty(),
            r.spec_last_loss() is None,
            r.spec_cc() == CongestionControl::new_cubic_spec(),
            r.spec_retrans_count() == 0,
    {
        ConnVars {
            inflight: Inflight::new(),
            next_free_seqno: 0,
            retrans_count: 0,
            delayed_ack_timer: None,
            ack_seqnos: AckSet::new(),
            reorderer: Reorderer::new(0),
            lowest_unseen: 0,
            closing: false,
            next_pace_time: 0,
            lost_seqnos: Vec::new(),
            last_loss: None,
            cc: CongestionControl::new_cubic(),
        }
    }
}

impl ConnVars {
    /// Ends the connection normally once closing is set and no segment
    /// awaits acknowledgement.
    pub fn check_closed(&self) -> (r: Result<(), ConnError>)
        requires
            self.wf(),
        ensures
            r is Err <==> self.spec_closing() && self.unacked_count() == 0,
            r is Err ==> r == Err::<(), ConnError>(ConnError::Drained),
    {
        if self.closing && self.inflight.unacked() == 0 {
            Err(ConnError::Drained)
        } else {
            Ok(())
        }
    }

    /// The pacing interval in microseconds.
    pub fn pace_interval(&self) -> (r: u64)
        requires
            self.wf(),
        ensures
            r == self.pace_interval_spec(),
    {
        let x = self.inflight.min_rtt() / self.cc.cwnd();
        if x < MAX_PACE_INTERVAL {
            x
        } else {
            MAX_PACE_INTERVAL
        }
    }

    /// Which event sources are armed. Retransmit and NewWrite never are
    /// while more segments are in flight than the window allows, and
    /// NewWrite never is once closing is set.
    pub fn arming(&self) -> (r: Arming)
        requires
            self.wf(),
        ensures
            r.retransmit == if self.can_retransmit() {
                Some(self.spec_lost()[0])
            } else {
                None
            },
            r.write_new == self.can_write_new(),
            r.pace_time == self.spec_pace_time(),
            r.ack_deadline == self.spec_ack_timer(),
            r.rto is None <==> forall|i: int|
                0 <= i < self.inflight_count() ==> (#[trigger] self.spec_inflight().view()[i]).lost,
            r.rto matches Some((s, d)) ==> exists|i: int|
                0 <= i < self.inflight_count() && !(#[trigger] self.spec_inflight().view()[i]).lost
                    && self.spec_inflight().view()[i].seqno == s
                    && self.spec_inflight().view()[i].deadline == d,
            r.rto matches Some((s, d)) ==> forall|i: int|
                0 <= i < self.inflight_count() && !(#[trigger] self.spec_inflight().view()[i]).lost
                    ==> d <= self.spec_inflight().view()[i].deadline,
    {
        let cwnd = self.cc.cwnd();
        let inflight = self.inflight.inflight();
        let within = (inflight as u64) <= cwnd;
        let retransmit = if self.lost_seqnos.len() > 0 && within {
            Some(self.lost_seqnos[0])
        } else {
            None
        };
        let write_new = within && (self.inflight.unacked() as u64) <= cwnd && !self.closing
            && self.next_free_seqno < u64::MAX;
        Arming {
            retransmit,
            write_new,
            pace_time: self.next_pace_time,
            ack_deadline: self.delayed_ack_timer,
            rto: self.inflight.first_rto(),
        }
    }

    /// Whether `evt` may be applied now.
    pub fn permits(&self, evt: &ConnEvent) -> (r: bool)
        requires
            self.wf(),
        ensures
            r == self.admits(evt),
    {
        match evt {
            ConnEvent::Retransmit(s) => {
                let a = self.arming();
                match a.retransmit {
                    Some(first) => first == *s,
                    None => false,
                }
            },
            ConnEvent::NewWrite(b) => self.arming().write_new && b.len() <= MSS,
            ConnEvent::Rto(s) => self.inflight.is_unacked(*s),
            ConnEvent::AckTimer => self.delayed_ack_timer.is_some(),
            _ => true,
        }
    }
}

impl ConnVars {
    /// Acknowledges the pending seqnos: builds the ack message and empties
    /// the pending set and the ack timer.
    fn flush_acks(&mut self, stream_id: u16) -> (m: Message)
        requires
            old(self).wf_core(),
            ack_set_contents(old(self).ack_seqnos).len() <= ACK_BATCH,
        ensures
            is_ack_of(m, stream_id, old(self).spec_lowest_unseen(), old(self).spec_pending_acks()),
            final(self).wf(),
            final(self).spec_pending_acks() == Set::<Seqno>::empty(),
            final(self).spec_ack_timer() is None,
            final(self).inflight == old(self).inflight,
            final(self).cc == old(self).cc,
            final(self).reorderer == old(self).reorderer,
            final(self).lowest_unseen == old(self).lowest_unseen,
            final(self).next_free_seqno == old(self).next_free_seqno,
            final(self).closing == old(self).closing,
            final(self).next_pace_time == old(self).next_pace_time,
            final(self).lost_seqnos@ == old(self).lost_seqnos@,
            final(self).last_loss == old(self).last_loss,
            final(self).retrans_count == old(self).retrans_count,
    {
        let v = self.ack_seqnos.to_vec();
        let sorted = sort_ascending(&v);
        let b = encode_seqnos(&sorted);
        self.ack_seqnos.clear();
        self.delayed_ack_timer = None;
        let m = Message { kind: RelKind::DataAck, stream_id, seqno: self.lowest_unseen, payload: b };
        assert(list_encoding(sorted@) == m.payload@);
        m
    }
}

impl ConnVars {
    /// A deadline `now + ACK_DELAY`, if that fits.
    pub open spec fn ack_deadline_from(now: u64) -> Option<u64> {
        if now + ACK_DELAY <= u64::MAX {
            Some((now + ACK_DELAY) as u64)
        } else {
            None
        }
    }

    /// The strategy after an RTO at `now`: a loss is signalled unless one
    /// was signalled within the current RTO.
    pub open spec fn cc_after_rto(&self, now: u64) -> CongestionControl {
        match self.spec_last_loss() {
            Some(prev) => if now > prev && now - prev > self.spec_inflight().estimator().spec_rto() {
                self.spec_cc().after_loss()
            } else {
                self.spec_cc()
            },
            None => self.spec_cc().after_loss(),
        }
    }

    fn on_rto(&mut self, seqno: Seqno, now: u64)
        requires
            old(self).wf(),
            tracks(old(self).inflight.view(), seqno),
        ensures
            final(self).wf(),
            final(self).cc == old(self).cc_after_rto(now),
            final(self).last_loss == Some(now),
            final(self).lost_seqnos@ == old(self).lost_seqnos@.push(seqno),
            !tracks(old(self).inflight.view(), seqno) ==> final(self).inflight.view()
                == old(self).inflight.view(),
            forall|i: int|
                0 <= i < old(self).inflight.view().len() && (#[trigger] old(self).inflight.view()[i]).seqno
                    == seqno ==> final(self).inflight.view() == old(self).inflight.view().update(
                    i,
                    crate::inflight::marked_lost(old(self).inflight.view()[i]),
                ),
            final(self).inflight.estimator() == old(self).inflight.estimator(),
            final(self).next_free_seqno == old(self).next_free_seqno,
            final(self).closing == old(self).closing,
            final(self).lowest_unseen == old(self).lowest_unseen,
            final(self).ack_seqnos == old(self).ack_seqnos,
            final(self).delayed_ack_timer == old(self).delayed_ack_timer,
            final(self).reorderer == old(self).reorderer,
            final(self).next_pace_time == old(self).next_pace_time,
            final(self).retrans_count == old(self).retrans_count,
    {
        let rto = self.inflight.rto();
        match self.last_loss {
            Some(prev) => {
                if now > prev && now - prev > rto {
                    self.cc.mark_loss();
                }
            },
            None => {
                self.cc.mark_loss();
            },
        }
        self.last_loss = Some(now);
        let ghost v0 = self.inflight.view();
        self.inflight.mark_lost(seqno);
        proof {
            let i = choose|i: int| 0 <= i < v0.len() && (#[trigger] v0[i]).seqno == seqno;
            lemma_tracks_update(v0, i, crate::inflight::marked_lost(v0[i]));
            assert(self.inflight.view() == v0.update(i, crate::inflight::marked_lost(v0[i])));
        }
        self.lost_seqnos.push(seqno);
        proof {
            assert forall|x: Seqno| #[trigger] self.lost_seqnos@.contains(x) implies tracks(self.inflight.view(), x) by {
                if x != seqno {
                    let k = choose|k: int| 0 <= k < self.lost_seqnos@.len() && self.lost_seqnos@[k] == x;
                    assert(old(self).lost_seqnos@[k] == x);
                    assert(old(self).lost_seqnos@.contains(x));
                    assert(tracks(v0, x));
                } else {
                    assert(tracks(v0, x));
                }
            }
        }
    }

    fn on_retransmit(&mut self, seqno: Seqno, now: u64) -> (r: Output)
        requires
            old(self).wf(),
        ensures
            final(self).wf(),
            final(self).lost_seqnos@ == old(self).lost_seqnos@.filter(other_than(seqno)),
            r.deliver@.len() == 0,
            r.transmit@.len() == 0 <==> !tracks(old(self).inflight.view(), seqno),
            !tracks(old(self).inflight.view(), seqno) ==> final(self).inflight.view()
                == old(self).inflight.view(),
            forall|i: int|
                0 <= i < old(self).inflight.view().len() && (#[trigger] old(self).inflight.view()[i]).seqno
                    == seqno ==> final(self).inflight.view() == old(self).inflight.view().update(
                    i,
                    crate::inflight::resent(
                        old(self).inflight.view()[i],
                        now,
                        old(self).inflight.estimator().spec_rto() as u64,
                    ),
                ) && r.transmit@.len() == 1 && is_data(
                    r.transmit@[0],
                    old(self).inflight.view()[i].msg.stream_id,
                    seqno,
                    old(self).inflight.view()[i].msg.payload@,
                ) && old(self).inflight.view()[i].msg.kind == RelKind::Data
                    && old(self).inflight.view()[i].msg.seqno == seqno,
            final(self).inflight.estimator() == old(self).inflight.estimator(),
            final(self).cc == old(self).cc,
            final(self).last_loss == old(self).last_loss,
            final(self).next_free_seqno == old(self).next_free_seqno,
            final(self).closing == old(self).closing,
            final(self).lowest_unseen == old(self).lowest_unseen,
            final(self).ack_seqnos == old(self).ack_seqnos,
            final(self).delayed_ack_timer == old(self).delayed_ack_timer,
            final(self).reorderer == old(self).reorderer,
            final(self).next_pace_time == old(self).next_pace_time,
    {
        let ghost lost0 = self.lost_seqnos@;
        remove_all(&mut self.lost_seqnos, seqno);
        proof {
            broadcast use vstd::seq_lib::group_filter_ensures;
            assert forall|x: Seqno| #[trigger] self.lost_seqnos@.contains(x) implies lost0.contains(x) by {
                lost0.lemma_filter_contains_rev(other_than(seqno), x);
            }
        }
        let ghost v0 = self.inflight.view();
        let mut transmit: Vec<Message> = Vec::new();
        proof {
            if tracks(v0, seqno) {
                let i = choose|i: int| 0 <= i < v0.len() && (#[trigger] v0[i]).seqno == seqno;
                lemma_tracks_update(
                    v0,
                    i,
                    crate::inflight::resent(v0[i], now, self.inflight.estimator().spec_rto() as u64),
                );
            }
        }
        match self.inflight.retransmit(seqno, now) {
            Some(m) => {
                if self.retrans_count < u64::MAX {
                    self.retrans_count = self.retrans_count + 1;
                }
                transmit.push(m);
            },
            None => {},
        }
        Output { transmit, deliver: Vec::new() }
    }
}

impl ConnVars {
    /// The next permitted send time after a new segment at `now`.
    pub open spec fn pace_after(&self, now: u64) -> u64 {
        let t = self.spec_pace_time() + self.pace_interval_spec();
        let t = if t > u64::MAX { u64::MAX as int } else { t };
        if now >= t {
            now
        } else {
            t as u64
        }
    }

    fn on_new_write(&mut self, stream_id: u16, bts: Vec<u8>, now: u64) -> (r: Output)
        requires
            old(self).wf(),
            old(self).can_write_new(),
        ensures
            final(self).wf(),
            final(self).next_free_seqno == old(self).next_free_seqno + 1,
            final(self).inflight.view() == old(self).inflight.view().push(
                (InflightEntry {
                    seqno: old(self).next_free_seqno,
                    msg: Message {
                        kind: RelKind::Data,
                        stream_id,
                        seqno: old(self).next_free_seqno,
                        payload: bts,
                    },
                    send_time: now,
                    deadline: crate::inflight::deadline_after(
                        now,
                        old(self).inflight.estimator().spec_rto() as u64,
                    ),
                    retries: 0,
                    lost: false,
                }),
            ),
            r.deliver@.len() == 0,
            r.transmit@.len() == 1,
            is_data(r.transmit@[0], stream_id, old(self).next_free_seqno, bts@),
            final(self).next_pace_time == old(self).pace_after(now),
            final(self).inflight.estimator() == old(self).inflight.estimator(),
            final(self).cc == old(self).cc,
            final(self).last_loss == old(self).last_loss,
            final(self).lost_seqnos == old(self).lost_seqnos,
            final(self).closing == old(self).closing,
            final(self).lowest_unseen == old(self).lowest_unseen,
            final(self).ack_seqnos == old(self).ack_seqnos,
            final(self).delayed_ack_timer == old(self).delayed_ack_timer,
            final(self).reorderer == old(self).reorderer,
            final(self).retrans_count == old(self).retrans_count,
    {
        let interval = self.pace_interval();
        let seqno = self.next_free_seqno;
        self.next_free_seqno = seqno + 1;
        let msg = Message { kind: RelKind::Data, stream_id, seqno, payload: bts };
        let copy = msg.copy();
        let ghost v0 = self.inflight.view();
        self.inflight.insert(seqno, msg, now);
        proof {
            lemma_tracks_push(v0, self.inflight.view().last());
            assert(self.inflight.view() == v0.push(self.inflight.view().last()));
        }
        let t = if self.next_pace_time > u64::MAX - interval {
            u64::MAX
        } else {
            self.next_pace_time + interval
        };
        self.next_pace_time = if now >= t { now } else { t };
        let mut transmit: Vec<Message> = Vec::new();
        transmit.push(copy);
        Output { transmit, deliver: Vec::new() }
    }

    fn on_data(&mut self, stream_id: u16, seqno: Seqno, payload: Vec<u8>, now: u64) -> (o: Output)
        requires
            old(self).wf(),
        ensures
            final(self).wf(),
            o.deliver@ == ready_run(
                stored_after_insert(
                    old(self).reorderer.stored(),
                    old(self).lowest_unseen,
                    seqno,
                    payload,
                ),
                old(self).lowest_unseen,
            ) && final(self).lowest_unseen == old(self).lowest_unseen + o.deliver@.len()
                && final(self).reorderer.stored() == stored_after_insert(
                old(self).reorderer.stored(),
                old(self).lowest_unseen,
                seqno,
                payload,
            ).remove_keys(
                crate::reorderer::seqno_range(
                    old(self).lowest_unseen as int,
                    final(self).lowest_unseen as int,
                ),
            ) && ({
                let pending = if old(self).reorderer.accepts(seqno) {
                    ack_set_contents(old(self).ack_seqnos).insert(seqno)
                } else {
                    ack_set_contents(old(self).ack_seqnos)
                };
                if pending.len() >= ACK_BATCH {
                    o.transmit@.len() == 1 && is_ack_of(
                        o.transmit@[0],
                        stream_id,
                        final(self).lowest_unseen,
                        pending,
                    ) && ack_set_contents(final(self).ack_seqnos) == Set::<Seqno>::empty()
                        && final(self).delayed_ack_timer is None
                } else {
                    o.transmit@.len() == 0 && ack_set_contents(final(self).ack_seqnos) == pending
                        && final(self).delayed_ack_timer == if old(self).delayed_ack_timer is None {
                        ConnVars::ack_deadline_from(now)
                    } else {
                        old(self).delayed_ack_timer
                    }
                }
            }),
            final(self).inflight == old(self).inflight,
            final(self).cc == old(self).cc,
            final(self).last_loss == old(self).last_loss,
            final(self).lost_seqnos@ == old(self).lost_seqnos@,
            final(self).closing == old(self).closing,
            final(self).next_free_seqno == old(self).next_free_seqno,
            final(self).next_pace_time == old(self).next_pace_time,
            final(self).retrans_count == old(self).retrans_count,
    {
        if self.delayed_ack_timer.is_none() {
            self.delayed_ack_timer = if now <= u64::MAX - ACK_DELAY {
                Some(now + ACK_DELAY)
            } else {
                None
            };
        }
        let ghost m0 = self.reorderer.stored();
        let fresh = self.reorderer.insert(seqno, payload);
        if fresh {
            self.ack_seqnos.insert(seqno);
        }
        let times = self.reorderer.take();
        self.lowest_unseen = self.reorderer.next_expected();
        let mut transmit: Vec<Message> = Vec::new();
        if self.ack_seqnos.len() >= ACK_BATCH {
            let m = self.flush_acks(stream_id);
            transmit.push(m);
        }
        Output { transmit, deliver: times }
    }
}

impl ConnVars {
    fn on_data_ack(&mut self, boundary: Seqno, payload: &Vec<u8>, now: u64) -> (r: Result<
        Output,
        ConnError,
    >)
        requires
            old(self).wf(),
        ensures
            final(self).wf(),
            !holds_list(payload@) ==> r == Err::<Output, ConnError>(ConnError::MalformedAck)
                && *final(self) == *old(self),
            holds_list(payload@) ==> {
                let l = decoded_list(payload@);
                &&& forall|s: Seqno| #[trigger]
                    tracks(final(self).inflight.view(), s) <==> tracks(old(self).inflight.view(), s)
                        && !l.contains(s) && s >= boundary
                &&& final(self).cc == acked_times(old(self).cc, newly_acked(old(self).inflight.view(), l))
                &&& forall|s: Seqno| #[trigger]
                    final(self).lost_seqnos@.contains(s) <==> old(self).lost_seqnos@.contains(s)
                        && !l.contains(s) && s >= boundary
                &&& forall|i: int|
                    0 <= i < final(self).inflight.view().len() ==> old(
                        self,
                    ).inflight.view().contains(#[trigger] final(self).inflight.view()[i])
                &&& (r is Err <==> final(self).closing && final(self).inflight.spec_unacked() == 0)
                &&& r is Err ==> r == Err::<Output, ConnError>(ConnError::Drained)
                &&& r matches Ok(o) ==> o.transmit@.len() == 0 && o.deliver@.len() == 0
            },
            final(self).last_loss == old(self).last_loss,
            final(self).closing == old(self).closing,
            final(self).next_free_seqno == old(self).next_free_seqno,
            final(self).next_pace_time == old(self).next_pace_time,
            final(self).lowest_unseen == old(self).lowest_unseen,
            final(self).ack_seqnos == old(self).ack_seqnos,
            final(self).delayed_ack_timer == old(self).delayed_ack_timer,
            final(self).reorderer == old(self).reorderer,
            final(self).retrans_count == old(self).retrans_count,
    {
        let list = match decode_seqnos(payload.as_slice()) {
            Some(l) => l,
            None => {
                return Err(ConnError::MalformedAck);
            },
        };
        let ghost v0 = self.inflight.view();
        assert(list@ == decoded_list(payload@));
        let ghost cc0 = self.cc;
        let ghost lost0 = self.lost_seqnos@;
        let mut k: usize = 0;
        while k < list.len()
            invariant
                k <= list@.len(),
                self.wf(),
                v0 == old(self).inflight.view(),
                forall|i: int|
                    0 <= i < self.inflight.view().len() ==> v0.contains(
                        #[trigger] self.inflight.view()[i],
                    ),
                forall|s: Seqno| #[trigger]
                    tracks(self.inflight.view(), s) <==> tracks(v0, s) && !list@.subrange(
                        0,
                        k as int,
                    ).contains(s),
                self.cc == acked_times(cc0, newly_acked(v0, list@.subrange(0, k as int))),
                forall|s: Seqno| #[trigger]
                    self.lost_seqnos@.contains(s) <==> lost0.contains(s) && !list@.subrange(
                        0,
                        k as int,
                    ).contains(s),
                self.last_loss == old(self).last_loss,
                self.closing == old(self).closing,
                self.next_free_seqno == old(self).next_free_seqno,
                self.next_pace_time == old(self).next_pace_time,
                self.lowest_unseen == old(self).lowest_unseen,
                self.ack_seqnos == old(self).ack_seqnos,
                self.delayed_ack_timer == old(self).delayed_ack_timer,
                self.reorderer == old(self).reorderer,
                self.retrans_count == old(self).retrans_count,
            decreases list.len() - k,
        {
            let s = list[k];
            let ghost sub = list@.subrange(0, k as int);
            let ghost sub1 = list@.subrange(0, k + 1);
            assert(sub1.drop_last() =~= sub);
            assert(sub1.last() == s);
            assert forall|x: Seqno| sub1.contains(x) <==> sub.contains(x) || x == s by {
                if sub1.contains(x) {
                    let i = choose|i: int| 0 <= i < sub1.len() && sub1[i] == x;
                    if i < k {
                        assert(sub[i] == x);
                    }
                }
                if sub.contains(x) {
                    let i = choose|i: int| 0 <= i < sub.len() && sub[i] == x;
                    assert(sub1[i] == x);
                }
                if x == s {
                    assert(sub1[k as int] == x);
                }
            }
            let ghost lost_before = self.lost_seqnos@;
            remove_all(&mut self.lost_seqnos, s);
            proof {
                broadcast use vstd::seq_lib::group_filter_ensures;
                assert forall|x: Seqno| #[trigger] self.lost_seqnos@.contains(x) <==> lost_before.contains(x) && x != s by {
                    if self.lost_seqnos@.contains(x) {
                        lost_before.lemma_filter_contains_rev(other_than(s), x);
                    }
                    if lost_before.contains(x) && x != s {
                        let i = choose|i: int| 0 <= i < lost_before.len() && lost_before[i] == x;
                        lost_before.lemma_filter_contains(other_than(s), i);
                    }
                }
            }
            let ghost view_before = self.inflight.view();
            let newly = self.inflight.mark_acked(s, now);
            if newly {
                self.cc.mark_ack();
            }
            proof {
                assert(newly <==> tracks(v0, s) && !sub.contains(s));
                assert(newly_acked(v0, sub1) == newly_acked(v0, sub) + if newly { 1nat } else { 0nat });
                if newly {
                    let i = choose|i: int|
                        0 <= i < view_before.len() && (#[trigger] view_before[i]).seqno == s
                            && self.inflight.view() == view_before.remove(i);
                    assert forall|j: int| 0 <= j < self.inflight.view().len() implies
                        (#[trigger] self.inflight.view()[j]).seqno < self.next_free_seqno
                        && self.inflight.view()[j].msg.kind == RelKind::Data
                        && self.inflight.view()[j].msg.seqno == self.inflight.view()[j].seqno by {
                        if j < i {
                            assert(self.inflight.view()[j] == view_before[j]);
                        } else {
                            assert(self.inflight.view()[j] == view_before[j + 1]);
                        }
                    }
                    assert forall|j: int| 0 <= j < self.inflight.view().len() implies v0.contains(
                        #[trigger] self.inflight.view()[j],
                    ) by {
                        let j0 = if j < i { j } else { j + 1 };
                        assert(self.inflight.view()[j] == view_before[j0]);
                        assert(v0.contains(view_before[j0]));
                    }
                }
                assert forall|x: Seqno| #[trigger] self.lost_seqnos@.contains(x) implies tracks(
                    self.inflight.view(),
                    x,
                ) by {
                    assert(lost_before.contains(x) && x != s);
                    assert(tracks(view_before, x));
                }
            }
            k += 1;
        }
        assert(list@.subrange(0, k as int) =~= list@);
        let ghost lost_before = self.lost_seqnos@;
        remove_below(&mut self.lost_seqnos, boundary);
        let ghost view_before = self.inflight.view();
        self.inflight.mark_acked_lt(boundary);
        proof {
            broadcast use vstd::seq_lib::group_filter_ensures;
            assert forall|x: Seqno| #[trigger] self.lost_seqnos@.contains(x) <==> lost_before.contains(x) && x >= boundary by {
                if self.lost_seqnos@.contains(x) {
                    lost_before.lemma_filter_contains_rev(at_least(boundary), x);
                }
                if lost_before.contains(x) && x >= boundary {
                    let i = choose|i: int| 0 <= i < lost_before.len() && lost_before[i] == x;
                    lost_before.lemma_filter_contains(at_least(boundary), i);
                }
            }
            let j = choose|j: int|
                0 <= j <= view_before.len() && self.inflight.view() == view_before.subrange(
                    j,
                    view_before.len() as int,
                ) && (forall|k: int| 0 <= k < j ==> (#[trigger] view_before[k]).seqno < boundary)
                    && (forall|k: int|
                    j <= k < view_before.len() ==> (#[trigger] view_before[k]).seqno >= boundary);
            assert forall|i: int| 0 <= i < self.inflight.view().len() implies
                (#[trigger] self.inflight.view()[i]).seqno < self.next_free_seqno
                && self.inflight.view()[i].msg.kind == RelKind::Data
                && self.inflight.view()[i].msg.seqno == self.inflight.view()[i].seqno by {
                assert(self.inflight.view()[i] == view_before[i + j]);
            }
            assert forall|i: int| 0 <= i < self.inflight.view().len() implies v0.contains(
                #[trigger] self.inflight.view()[i],
            ) by {
                assert(self.inflight.view()[i] == view_before[i + j]);
                assert(v0.contains(view_before[i + j]));
            }
        }
        match self.check_closed() {
            Ok(()) => Ok(Output { transmit: Vec::new(), deliver: Vec::new() }),
            Err(e) => Err(e),
        }
    }
}

impl ConnVars {
    /// Applies one event and says what to send and deliver; an error ends
    /// the connection. `now` is the current time.
    pub fn process_one(&mut self, stream_id: u16, evt: ConnEvent, now: u64) -> (r: Result<
        Output,
        ConnError,
    >)
        requires
            old(self).wf(),
            old(self).admits(&evt),
        ensures
            final(self).wf(),
            forall|s: Seqno| #[trigger]
                final(self).spec_lost().contains(s) ==> tracks(final(self).spec_inflight().view(), s),
            !is_receive(&evt) ==> {
                &&& final(self).spec_pending_acks() == old(self).spec_pending_acks()
                &&& final(self).spec_ack_timer() == old(self).spec_ack_timer()
                &&& final(self).spec_reorderer() == old(self).spec_reorderer()
                &&& final(self).spec_lowest_unseen() == old(self).spec_lowest_unseen()
            },
            !(evt is Rto) ==> final(self).spec_last_loss() == old(self).spec_last_loss(),
            !(evt is NewWrite) ==> final(self).spec_pace_time() == old(self).spec_pace_time(),
            final(self).spec_next_free() == old(self).spec_next_free() + if evt is NewWrite {
                1int
            } else {
                0int
            },
            final(self).spec_closing() == (old(self).spec_closing() || evt is Closing),
            forall|s: Seqno| #[trigger]
                tracks(final(self).spec_inflight().view(), s) ==> tracks(
                    old(self).spec_inflight().view(),
                    s,
                ) || (evt is NewWrite && s == old(self).spec_next_free()),
            match evt {
                ConnEvent::Closing => {
                    &&& final(self).spec_inflight() == old(self).spec_inflight()
                    &&& (r is Err <==> final(self).unacked_count() == 0)
                    &&& r is Err ==> r == Err::<Output, ConnError>(ConnError::Drained)
                    &&& r matches Ok(o) ==> o.transmit@.len() == 0 && o.deliver@.len() == 0
                },
                ConnEvent::NewPkt(m) => match m.kind {
                    RelKind::Rst => r == Err::<Output, ConnError>(ConnError::Reset),
                    RelKind::DataAck => if !holds_list(m.payload@) {
                        &&& r == Err::<Output, ConnError>(ConnError::MalformedAck)
                        &&& final(self).spec_inflight() == old(self).spec_inflight()
                        &&& final(self).spec_cc() == old(self).spec_cc()
                        &&& final(self).spec_lost() == old(self).spec_lost()
                    } else {
                        let l = decoded_list(m.payload@);
                        &&& forall|s: Seqno| #[trigger]
                            tracks(final(self).spec_inflight().view(), s) <==> tracks(
                                old(self).spec_inflight().view(),
                                s,
                            ) && !l.contains(s) && s >= m.seqno
                        &&& forall|i: int|
                            0 <= i < final(self).inflight_count() ==> old(
                                self,
                            ).spec_inflight().view().contains(
                                #[trigger] final(self).spec_inflight().view()[i],
                            )
                        &&& final(self).spec_cc() == acked_times(
                            old(self).spec_cc(),
                            newly_acked(old(self).spec_inflight().view(), l),
                        )
                        &&& forall|s: Seqno| #[trigger]
                            final(self).spec_lost().contains(s) <==> old(self).spec_lost().contains(s)
                                && !l.contains(s) && s >= m.seqno
                        &&& (r is Err <==> final(self).spec_closing() && final(self).unacked_count()
                            == 0)
                        &&& r is Err ==> r == Err::<Output, ConnError>(ConnError::Drained)
                        &&& r matches Ok(o) ==> o.transmit@.len() == 0 && o.deliver@.len() == 0
                    },
                    RelKind::Data => {
                        &&& r is Ok
                        &&& final(self).spec_inflight() == old(self).spec_inflight()
                        &&& r matches Ok(o) ==> {
                            let stored = stored_after_insert(
                                old(self).spec_reorderer().stored(),
                                old(self).spec_lowest_unseen(),
                                m.seqno,
                                m.payload,
                            );
                            let pending = if old(self).spec_reorderer().accepts(m.seqno) {
                                old(self).spec_pending_acks().insert(m.seqno)
                            } else {
                                old(self).spec_pending_acks()
                            };
                            &&& o.deliver@ == ready_run(stored, old(self).spec_lowest_unseen())
                            &&& final(self).spec_lowest_unseen() == old(self).spec_lowest_unseen()
                                + o.deliver@.len()
                            &&& final(self).spec_reorderer().stored() == stored.remove_keys(
                                crate::reorderer::seqno_range(
                                    old(self).spec_lowest_unseen() as int,
                                    final(self).spec_lowest_unseen() as int,
                                ),
                            )
                            &&& pending.len() >= ACK_BATCH ==> o.transmit@.len() == 1 && is_ack_of(
                                o.transmit@[0],
                                stream_id,
                                final(self).spec_lowest_unseen(),
                                pending,
                            ) && final(self).spec_pending_acks() == Set::<Seqno>::empty()
                            &&& pending.len() < ACK_BATCH ==> o.transmit@.len() == 0
                                && final(self).spec_pending_acks() == pending
                                && final(self).spec_ack_timer() == if old(
                                self,
                            ).spec_ack_timer() is None {
                                ConnVars::ack_deadline_from(now)
                            } else {
                                old(self).spec_ack_timer()
                            }
                        }
                    },
                },
                ConnEvent::NewWrite(b) => {
                    &&& r matches Ok(o) && o.deliver@.len() == 0 && o.transmit@.len() == 1
                        && is_data(o.transmit@[0], stream_id, old(self).spec_next_free(), b@)
                    &&& final(self).spec_inflight().view() == old(self).spec_inflight().view().push(
                        (InflightEntry {
                            seqno: old(self).spec_next_free(),
                            msg: Message {
                                kind: RelKind::Data,
                                stream_id,
                                seqno: old(self).spec_next_free(),
                                payload: b,
                            },
                            send_time: now,
                            deadline: crate::inflight::deadline_after(
                                now,
                                old(self).spec_inflight().estimator().spec_rto() as u64,
                            ),
                            retries: 0,
                            lost: false,
                        }),
                    )
                    &&& final(self).spec_pace_time() == old(self).pace_after(now)
                },
                ConnEvent::Retransmit(s) => {
                    &&& r is Ok
                    &&& final(self).spec_lost() == old(self).spec_lost().filter(other_than(s))
                    &&& r matches Ok(o) && o.deliver@.len() == 0 && (o.transmit@.len() == 0
                        <==> !tracks(old(self).spec_inflight().view(), s))
                    &&& forall|i: int|
                        0 <= i < old(self).inflight_count() && (#[trigger] old(
                            self,
                        ).spec_inflight().view()[i]).seqno == s ==> final(self).spec_inflight().view()
                            == old(self).spec_inflight().view().update(
                            i,
                            crate::inflight::resent(
                                old(self).spec_inflight().view()[i],
                                now,
                                old(self).spec_inflight().estimator().spec_rto() as u64,
                            ),
                        ) && (r matches Ok(o) && o.transmit@.len() == 1 && is_data(
                            o.transmit@[0],
                            old(self).spec_inflight().view()[i].msg.stream_id,
                            s,
                            old(self).spec_inflight().view()[i].msg.payload@,
                        ))
                },
                ConnEvent::Rto(s) => {
                    &&& r matches Ok(o) && o.deliver@.len() == 0 && o.transmit@.len() == 0
                    &&& final(self).spec_cc() == old(self).cc_after_rto(now)
                    &&& final(self).spec_last_loss() == Some(now)
                    &&& final(self).spec_lost() == old(self).spec_lost().push(s)
                    &&& forall|i: int|
                        0 <= i < old(self).inflight_count() && (#[trigger] old(
                            self,
                        ).spec_inflight().view()[i]).seqno == s ==> final(self).spec_inflight().view()
                            == old(self).spec_inflight().view().update(
                            i,
                            crate::inflight::marked_lost(old(self).spec_inflight().view()[i]),
                        )
                },
                ConnEvent::AckTimer => {
                    &&& r is Ok
                    &&& r matches Ok(o) ==> o.deliver@.len() == 0 && o.transmit@.len() == 1
                        && is_ack_of(
                        o.transmit@[0],
                        stream_id,
                        old(self).spec_lowest_unseen(),
                        old(self).spec_pending_acks(),
                    ) && final(self).spec_pending_acks() == Set::<Seqno>::empty()
                        && final(self).spec_ack_timer() is None
                },
            },
    {
        match evt {
            ConnEvent::Retransmit(seqno) => Ok(self.on_retransmit(seqno, now)),
            ConnEvent::Closing => {
                self.closing = true;
                match self.check_closed() {
                    Ok(()) => Ok(Output { transmit: Vec::new(), deliver: Vec::new() }),
                    Err(e) => Err(e),
                }
            },
            ConnEvent::Rto(seqno) => {
                self.on_rto(seqno, now);
                Ok(Output { transmit: Vec::new(), deliver: Vec::new() })
            },
            ConnEvent::NewPkt(m) => match m.kind {
                RelKind::Rst => Err(ConnError::Reset),
                RelKind::DataAck => self.on_data_ack(m.seqno, &m.payload, now),
                RelKind::Data => Ok(self.on_data(stream_id, m.seqno, m.payload, now)),
            },
            ConnEvent::NewWrite(bts) => Ok(self.on_new_write(stream_id, bts, now)),
            ConnEvent::AckTimer => {
                let m = self.flush_acks(stream_id);
                let mut transmit: Vec<Message> = Vec::new();
                transmit.push(m);
                Ok(Output { transmit, deliver: Vec::new() })
            },
        }
    }
}

/// An acknowledgement list in which no seqno is tracked acknowledges nothing.
proof fn lemma_newly_acked_none(v: Seq<InflightEntry>, l: Seq<Seqno>)
    requires
        forall|i: int| 0 <= i < l.len() ==> !tracks(v, #[trigger] l[i]),
    ensures
        newly_acked(v, l) == 0,
    decreases l.len(),
{
    if l.len() > 0 {
        assert(l.last() == l[l.len() - 1]);
        lemma_newly_acked_none(v, l.drop_last());
    }
}

/// Each segment grows the window at most once. Within one acknowledgement,
/// repeating a seqno already listed adds nothing; and once a list has been
/// applied, so that none of its seqnos is tracked any more, applying it
/// again acknowledges nothing and leaves the strategy as it is.
pub proof fn lemma_each_segment_acked_once(
    v: Seq<InflightEntry>,
    after: Seq<InflightEntry>,
    l: Seq<Seqno>,
    s: Seqno,
    cc: CongestionControl,
)
    requires
        forall|x: Seqno| #[trigger] tracks(after, x) ==> tracks(v, x) && !l.contains(x),
    ensures
        l.contains(s) ==> newly_acked(v, l.push(s)) == newly_acked(v, l),
        newly_acked(after, l) == 0,
        acked_times(cc, newly_acked(after, l)) == cc,
{
    assert(l.push(s).drop_last() =~= l);
    assert forall|i: int| 0 <= i < l.len() implies !tracks(after, #[trigger] l[i]) by {
        assert(l.contains(l[i]));
    }
    lemma_newly_acked_none(after, l);
}

/// Seqnos are never reused: every tracked segment's seqno is below the next
/// one to be allocated, which only ever grows by one per new segment.
pub proof fn lemma_seqnos_below_next_free(c: ConnVars)
    requires
        c.wf(),
    ensures
        forall|i: int|
            0 <= i < c.inflight_count() ==> (#[trigger] c.spec_inflight().view()[i]).seqno
                < c.spec_next_free(),
        forall|s: Seqno| #[trigger] tracks(c.spec_inflight().view(), s) ==> s < c.spec_next_free(),
{
}

/// Fewer than `ACK_BATCH` seqnos ever wait for acknowledgement between events.
pub proof fn lemma_pending_acks_bounded(c: ConnVars)
    requires
        c.wf(),
    ensures
        c.spec_pending_acks().len() < ACK_BATCH,
{
}

/// New segments and retransmissions are only admitted while no more
/// segments are in flight than the congestion window allows.
pub proof fn lemma_window_gates_sending(c: ConnVars, evt: ConnEvent)
    requires
        c.admits(&evt),
        evt is NewWrite || evt is Retransmit,
    ensures
        c.inflight_count() <= c.cwnd_spec(),
{
}

/// Once closing is set, no new segment is admitted.
pub proof fn lemma_closing_stops_writes(c: ConnVars, b: Vec<u8>)
    requires
        c.spec_closing(),
    ensures
        !c.admits(&ConnEvent::NewWrite(b)),
{
}

impl ConnVars {
    /// The congestion-control strategy's state.
    pub fn congestion(&self) -> (r: CongestionControl)
        ensures
            r == self.spec_cc(),
    {
        self.cc
    }

    /// The congestion window in segments.
    pub fn cwnd(&self) -> (r: u64)
        requires
            self.wf(),
        ensures
            r == self.cwnd_spec(),
    {
        self.cc.cwnd()
    }

    /// Segments in flight, unacknowledged or lost.
    pub fn inflight(&self) -> (r: usize)
        ensures
            r == self.inflight_count(),
    {
        self.inflight.inflight()
    }

    /// Segments in flight and not marked lost.
    pub fn unacked(&self) -> (r: usize)
        ensures
            r == self.unacked_count(),
    {
        self.inflight.unacked()
    }

    /// The first seqno not yet delivered in order.
    pub fn lowest_unseen(&self) -> (r: Seqno)
        ensures
            r == self.spec_lowest_unseen(),
    {
        self.lowest_unseen
    }

    /// The seqno the next new segment gets.
    pub fn next_free_seqno(&self) -> (r: Seqno)
        ensures
            r == self.spec_next_free(),
    {
        self.next_free_seqno
    }

    /// Whether closing was requested.
    pub fn is_closing(&self) -> (r: bool)
        ensures
            r == self.spec_closing(),
    {
        self.closing
    }

    /// Seqnos marked lost and not yet sent again, oldest first.
    pub fn lost_seqnos(&self) -> (r: Vec<Seqno>)
        ensures
            r@ == self.spec_lost(),
    {
        self.lost_seqnos.clone()
    }

    /// Number of received seqnos awaiting acknowledgement.
    pub fn pending_ack_count(&self) -> (r: usize)
        ensures
            r == self.spec_pending_acks().len(),
    {
        self.ack_seqnos.len()
    }

    /// Segments sent again so far.
    pub fn retrans_count(&self) -> (r: u64)
        ensures
            r == self.spec_retrans_count(),
    {
        self.retrans_count
    }

    /// The current retransmission timeout, in microseconds.
    pub fn rto(&self) -> (r: u64)
        requires
            self.wf(),
        ensures
            r == self.spec_inflight().estimator().spec_rto(),
    {
        self.inflight.rto()
    }
}

/// Number of `true` entries of `b`.
pub open spec fn count_true(b: Seq<bool>) -> nat
    decreases b.len(),
{
    if b.len() == 0 {
        0
    } else {
        count_true(b.drop_last()) + if b.last() {
            1nat
        } else {
            0nat
        }
    }
}

/// Seqno allocation over a run of events: where each step moves the next
/// free seqno as `process_one` does (up by one on a NewWrite, marked in
/// `writes`, and unchanged otherwise), the seqnos that the NewWrites take are
/// strictly increasing, so none is taken twice, and the run ends with the
/// first seqno plus the number of NewWrites.
pub proof fn lemma_seqnos_strictly_increase(states: Seq<ConnVars>, writes: Seq<bool>)
    requires
        states.len() == writes.len() + 1,
        forall|k: int|
            0 <= k < writes.len() ==> (#[trigger] states[k + 1]).spec_next_free()
                == states[k].spec_next_free() + if writes[k] {
                1int
            } else {
                0int
            },
    ensures
        states.last().spec_next_free() == states[0].spec_next_free() + count_true(writes),
        forall|i: int, j: int|
            0 <= i < j < states.len() ==> (#[trigger] states[i]).spec_next_free() <= (
            #[trigger] states[j]).spec_next_free(),
        forall|i: int, j: int|
            0 <= i < j < writes.len() && writes[i] && writes[j] ==> (#[trigger] states[i]).spec_next_free()
                < (#[trigger] states[j]).spec_next_free(),
    decreases writes.len(),
{
    if writes.len() > 0 {
        let s0 = states.drop_last();
        let w0 = writes.drop_last();
        assert forall|k: int| 0 <= k < w0.len() implies (#[trigger] s0[k + 1]).spec_next_free()
            == s0[k].spec_next_free() + if w0[k] {
            1int
        } else {
            0int
        } by {
            assert(s0[k + 1] == states[k + 1] && s0[k] == states[k]);
        }
        lemma_seqnos_strictly_increase(s0, w0);
        let n = writes.len() - 1;
        assert(states[n + 1].spec_next_free() == states[n].spec_next_free() + if writes[n] {
            1int
        } else {
            0int
        });
        assert(s0.last() == states[n]);
        assert forall|i: int, j: int|
            0 <= i < j < states.len() implies (#[trigger] states[i]).spec_next_free() <= (
            #[trigger] states[j]).spec_next_free() by {
            assert(s0[i] == states[i]);
            if j < states.len() - 1 {
                assert(s0[j] == states[j]);
            } else if i < n {
                assert(s0[n] == states[n]);
            }
        }
        assert forall|i: int, j: int|
            0 <= i < j < writes.len() && writes[i] && writes[j] implies (
            #[trigger] states[i]).spec_next_free() < (#[trigger] states[j]).spec_next_free() by {
            assert(s0[i] == states[i] && w0[i] == writes[i]);
            assert(states[i + 1].spec_next_free() == states[i].spec_next_free() + 1);
            if i + 1 < j {
                assert(s0[i + 1] == states[i + 1]);
                if j < n {
                    assert(s0[j] == states[j]);
                } else {
                    assert(s0[n] == states[n]);
                }
            }
        }
    }
}

/// An acknowledgement built for a pending set of at most `ACK_BATCH` seqnos
/// decodes back to exactly those seqnos, in ascending order.
pub proof fn lemma_ack_decodes_to_pending(
    m: Message,
    stream_id: u16,
    lowest_unseen: Seqno,
    pending: Set<Seqno>,
)
    requires
        is_ack_of(m, stream_id, lowest_unseen, pending),
        pending.finite(),
        pending.len() <= ACK_BATCH,
    ensures
        holds_list(m.payload@),
        strictly_ascending(decoded_list(m.payload@)),
        decoded_list(m.payload@).to_set() == pending,
{
    let l = choose|l: Seq<Seqno>|
        strictly_ascending(l) && l.to_set() == pending && list_encoding(l) == #[trigger] m.payload@;
    assert(l.no_duplicates()) by {
        assert forall|i: int, j: int| 0 <= i < l.len() && 0 <= j < l.len() && i != j implies l[i]
            != l[j] by {
            if i < j {
                assert(l[i] < l[j]);
            } else {
                assert(l[j] < l[i]);
            }
        }
    }
    l.unique_seq_to_set();
    lemma_list_encoding_round_trip(l);
}

} // verus!
