use relconn::congestion::CongestionControl;
use relconn::connvars::{ConnError, ConnEvent, ConnVars, Output, ACK_BATCH};
use relconn::inflight::RttEstimator;
use relconn::message::{Message, RelKind};
use relconn::reorderer::Reorderer;

fn step(c: &mut ConnVars, evt: ConnEvent, now: u64) -> Result<Output, ConnError> {
    assert!(c.permits(&evt));
    c.process_one(7, evt, now)
}

fn write(c: &mut ConnVars, payload: Vec<u8>, now: u64) -> Output {
    step(c, ConnEvent::NewWrite(payload), now).unwrap()
}

fn data(seqno: u64, payload: Vec<u8>) -> ConnEvent {
    ConnEvent::NewPkt(Message { kind: RelKind::Data, stream_id: 7, seqno, payload })
}

fn ack(boundary: u64, list: Vec<u64>) -> ConnEvent {
    let payload = bincode::serialize(&list).unwrap();
    ConnEvent::NewPkt(Message { kind: RelKind::DataAck, stream_id: 7, seqno: boundary, payload })
}

#[test]
fn seqnos_increase_by_one_per_segment() {
    let mut c = ConnVars::default();
    for i in 0..5u64 {
        assert_eq!(c.next_free_seqno(), i);
        let out = write(&mut c, vec![i as u8], i * 5_000);
        assert_eq!(out.transmit.len(), 1);
        assert_eq!(out.transmit[0].kind, RelKind::Data);
        assert_eq!(out.transmit[0].seqno, i);
        assert_eq!(out.transmit[0].stream_id, 7);
        assert_eq!(out.transmit[0].payload, vec![i as u8]);
    }
    assert_eq!(c.next_free_seqno(), 5);
    assert_eq!(c.inflight(), 5);
}

#[test]
fn scenario_selective_ack_then_rto_retransmits() {
    let mut c = ConnVars::default();
    write(&mut c, vec![0], 0);
    write(&mut c, vec![1], 5_000);
    write(&mut c, vec![2], 10_000);
    assert_eq!(c.cwnd(), 10);

    let out = step(&mut c, ack(0, vec![1]), 20_000).unwrap();
    assert!(out.transmit.is_empty());
    assert_eq!(c.inflight(), 2);
    assert_eq!(c.unacked(), 2);
    let mut once = CongestionControl::new_cubic();
    once.mark_ack();
    assert_eq!(c.congestion(), once);
    assert_eq!(c.cwnd(), 11);

    let a = c.arming();
    assert_eq!(a.rto, Some((0, 1_000_000)));
    step(&mut c, ConnEvent::Rto(0), 1_000_000).unwrap();
    assert_eq!(c.cwnd(), 7);
    assert_eq!(c.lost_seqnos(), vec![0]);
    assert_eq!(c.unacked(), 1);
    assert_eq!(c.inflight(), 2);
    assert_eq!(c.arming().retransmit, Some(0));
    let out = step(&mut c, ConnEvent::Retransmit(0), 1_000_000).unwrap();
    assert_eq!(out.transmit.len(), 1);
    assert_eq!(out.transmit[0].seqno, 0);
    assert_eq!(out.transmit[0].payload, vec![0]);
    assert!(c.lost_seqnos().is_empty());

    let a = c.arming();
    assert_eq!(a.rto, Some((2, 1_010_000)));
    step(&mut c, ConnEvent::Rto(2), 1_010_000).unwrap();
    // a second loss within one RTO does not shrink the window again
    assert_eq!(c.cwnd(), 7);
    let out = step(&mut c, ConnEvent::Retransmit(2), 1_010_000).unwrap();
    assert_eq!(out.transmit.len(), 1);
    assert_eq!(out.transmit[0].seqno, 2);
    assert_eq!(out.transmit[0].payload, vec![2]);
    assert_eq!(c.retrans_count(), 2);
}

#[test]
fn scenario_reordered_data_drains_in_order() {
    let mut c = ConnVars::default();
    assert_eq!(c.lowest_unseen(), 0);
    let out = step(&mut c, data(2, vec![22]), 0).unwrap();
    assert!(out.deliver.is_empty());
    let out = step(&mut c, data(0, vec![20]), 10).unwrap();
    assert_eq!(out.deliver, vec![vec![20]]);
    assert_eq!(c.lowest_unseen(), 1);
    let out = step(&mut c, data(1, vec![21]), 20).unwrap();
    assert_eq!(out.deliver, vec![vec![21], vec![22]]);
    assert_eq!(c.lowest_unseen(), 3);
    assert_eq!(c.arming().ack_deadline, Some(1_000));
}

#[test]
fn scenario_zero_then_two_then_one() {
    let mut r = Reorderer::new(0);
    assert!(r.insert(0, vec![0]));
    assert_eq!(r.take(), vec![vec![0]]);
    assert!(r.insert(2, vec![2]));
    assert!(r.take().is_empty());
    assert!(r.insert(1, vec![1]));
    assert_eq!(r.take(), vec![vec![1], vec![2]]);
    assert_eq!(r.next_expected(), 3);
}

#[test]
fn scenario_reset_terminates_with_segments_inflight() {
    let mut c = ConnVars::default();
    write(&mut c, vec![1], 0);
    write(&mut c, vec![2], 5_000);
    let rst = ConnEvent::NewPkt(Message { kind: RelKind::Rst, stream_id: 7, seqno: 0, payload: vec![] });
    assert_eq!(step(&mut c, rst, 6_000).err(), Some(ConnError::Reset));
}

#[test]
fn repeated_ack_grows_window_once() {
    let mut c = ConnVars::default();
    write(&mut c, vec![0], 0);
    write(&mut c, vec![1], 0);
    step(&mut c, ack(0, vec![1, 1]), 100).unwrap();
    assert_eq!(c.cwnd(), 11);
    step(&mut c, ack(0, vec![1]), 200).unwrap();
    assert_eq!(c.cwnd(), 11);
    assert_eq!(c.inflight(), 1);
}

#[test]
fn reordering_with_duplicates_delivers_each_once() {
    let mut c = ConnVars::default();
    let order = [3u64, 1, 3, 0, 1, 4, 2, 0];
    let mut got: Vec<Vec<u8>> = Vec::new();
    for (i, s) in order.iter().enumerate() {
        let out = step(&mut c, data(*s, vec![*s as u8; 2]), i as u64).unwrap();
        got.extend(out.deliver);
    }
    let want: Vec<Vec<u8>> = (0..5u8).map(|s| vec![s; 2]).collect();
    assert_eq!(got, want);
    assert_eq!(c.lowest_unseen(), 5);
}

#[test]
fn stale_and_duplicate_data_are_not_stored() {
    let mut r = Reorderer::new(5);
    assert!(!r.insert(4, vec![4]));
    assert!(r.insert(6, vec![6]));
    assert!(!r.insert(6, vec![60]));
    assert!(r.take().is_empty());
    assert!(r.insert(5, vec![5]));
    assert_eq!(r.take(), vec![vec![5], vec![6]]);
}

#[test]
fn sixteen_pending_acks_force_an_ack() {
    let mut c = ConnVars::default();
    for s in 0..(ACK_BATCH as u64 - 1) {
        let out = step(&mut c, data(s, vec![1]), s).unwrap();
        assert!(out.transmit.is_empty());
        assert_eq!(c.pending_ack_count(), s as usize + 1);
    }
    let out = step(&mut c, data(15, vec![1]), 15).unwrap();
    assert_eq!(out.transmit.len(), 1);
    let m = &out.transmit[0];
    assert_eq!(m.kind, RelKind::DataAck);
    assert_eq!(m.seqno, 16);
    let listed: Vec<u64> = bincode::deserialize(&m.payload).unwrap();
    assert_eq!(listed, (0..16u64).collect::<Vec<u64>>());
    assert_eq!(c.pending_ack_count(), 0);
    assert_eq!(c.arming().ack_deadline, None);
}

#[test]
fn ack_timer_sends_sorted_list() {
    let mut c = ConnVars::default();
    step(&mut c, data(3, vec![3]), 0).unwrap();
    step(&mut c, data(1, vec![1]), 0).unwrap();
    assert_eq!(c.arming().ack_deadline, Some(1_000));
    let out = step(&mut c, ConnEvent::AckTimer, 1_000).unwrap();
    assert_eq!(out.transmit.len(), 1);
    let m = &out.transmit[0];
    assert_eq!(m.kind, RelKind::DataAck);
    assert_eq!(m.seqno, 0);
    let mut want = vec![2u8, 0, 0, 0, 0, 0, 0, 0];
    want.extend([1u8, 0, 0, 0, 0, 0, 0, 0]);
    want.extend([3u8, 0, 0, 0, 0, 0, 0, 0]);
    assert_eq!(m.payload, want);
    assert_eq!(c.pending_ack_count(), 0);
    assert_eq!(c.arming().ack_deadline, None);
}

#[test]
fn window_gates_new_writes() {
    let mut c = ConnVars::default();
    for i in 0..11u64 {
        assert!(c.arming().write_new);
        write(&mut c, vec![1], i);
    }
    assert_eq!(c.inflight(), 11);
    assert!(!c.arming().write_new);
    assert!(!c.permits(&ConnEvent::NewWrite(vec![1])));
}

#[test]
fn retransmit_waits_for_window() {
    let mut c = ConnVars::default();
    for i in 0..10u64 {
        write(&mut c, vec![1], i);
    }
    step(&mut c, ConnEvent::Rto(0), 2_000_000).unwrap();
    assert_eq!(c.cwnd(), 7);
    assert_eq!(c.arming().retransmit, None);
    assert!(!c.permits(&ConnEvent::Retransmit(0)));
}

#[test]
fn closing_stops_writes_and_drains() {
    let mut c = ConnVars::default();
    write(&mut c, vec![1], 0);
    write(&mut c, vec![2], 0);
    assert!(step(&mut c, ConnEvent::Closing, 10).is_ok());
    assert!(c.is_closing());
    assert!(!c.arming().write_new);
    assert!(!c.permits(&ConnEvent::NewWrite(vec![3])));
    assert!(step(&mut c, ack(0, vec![0]), 20).is_ok());
    assert_eq!(step(&mut c, ack(0, vec![1]), 30).err(), Some(ConnError::Drained));
}

#[test]
fn closing_with_nothing_inflight_ends_at_once() {
    let mut c = ConnVars::default();
    assert_eq!(step(&mut c, ConnEvent::Closing, 0).err(), Some(ConnError::Drained));
}

#[test]
fn cumulative_boundary_acks_below_it() {
    let mut c = ConnVars::default();
    for i in 0..4u64 {
        write(&mut c, vec![1], i);
    }
    step(&mut c, ack(3, vec![]), 10).unwrap();
    assert_eq!(c.inflight(), 1);
    assert_eq!(c.cwnd(), 10);
    assert_eq!(c.arming().rto.map(|r| r.0), Some(3));
}

#[test]
fn malformed_ack_fails() {
    let mut c = ConnVars::default();
    write(&mut c, vec![1], 0);
    let bad = ConnEvent::NewPkt(Message { kind: RelKind::DataAck, stream_id: 7, seqno: 0, payload: vec![1, 2, 3] });
    assert_eq!(step(&mut c, bad, 1).err(), Some(ConnError::MalformedAck));
}

#[test]
fn pacing_interval_has_a_floor_rate() {
    let c = ConnVars::default();
    assert_eq!(c.pace_interval(), 5_000);
    let mut c = ConnVars::default();
    write(&mut c, vec![1], 0);
    assert_eq!(c.arming().pace_time, 5_000);
    write(&mut c, vec![1], 100_000);
    assert_eq!(c.arming().pace_time, 100_000);
}

#[test]
fn oversized_fragment_is_not_admitted() {
    let c = ConnVars::default();
    assert!(!c.permits(&ConnEvent::NewWrite(vec![0; relconn::connvars::MSS + 1])));
    assert!(c.permits(&ConnEvent::NewWrite(vec![0; relconn::connvars::MSS])));
}

#[test]
fn reno_grows_per_window_and_halves() {
    let mut cc = CongestionControl::new_reno();
    assert_eq!(cc.cwnd(), 10);
    for _ in 0..9 {
        cc.mark_ack();
        assert_eq!(cc.cwnd(), 10);
    }
    cc.mark_ack();
    assert_eq!(cc.cwnd(), 11);
    cc.mark_loss();
    assert_eq!(cc.cwnd(), 5);
}

#[test]
fn cubic_backs_off_and_recovers() {
    let mut cc = CongestionControl::new_cubic();
    cc.mark_ack();
    assert_eq!(cc.cwnd(), 11);
    cc.mark_loss();
    assert_eq!(cc.cwnd(), 7);
    assert_eq!(cc, CongestionControl::Cubic { cwnd: 7, w_max: 11, acked: 0 });
    cc.mark_ack();
    assert_eq!(cc.cwnd(), 7);
    cc.mark_ack();
    assert_eq!(cc.cwnd(), 8);
    let mut one = CongestionControl::Reno { cwnd: 1, acked: 0 };
    one.mark_loss();
    assert_eq!(one.cwnd(), 1);
}

#[test]
fn rtt_estimator_smooths_samples() {
    let mut e = RttEstimator::new();
    assert_eq!(e.rto(), 1_000_000);
    e.record(100_000);
    assert_eq!(e.rto(), 300_000);
    e.record(200_000);
    assert_eq!(e.srtt, 112_500);
    assert_eq!(e.rttvar, 62_500);
    assert_eq!(e.rto(), 362_500);
    assert_eq!(e.min_rtt, 100_000);
}

#[test]
fn sort_ascending_orders_seqnos() {
    assert_eq!(relconn::ackset::sort_ascending(&vec![5, 1, 3]), vec![1, 3, 5]);
    assert!(relconn::ackset::sort_ascending(&vec![]).is_empty());
}

#[test]
fn message_copy_keeps_fields() {
    let m = Message { kind: RelKind::Data, stream_id: 3, seqno: 9, payload: vec![1, 2] };
    let c = m.copy();
    assert_eq!(c.kind, RelKind::Data);
    assert_eq!(c.stream_id, 3);
    assert_eq!(c.seqno, 9);
    assert_eq!(c.payload, vec![1, 2]);
}

#[test]
fn cumulative_ack_clears_lost_queue_below_boundary() {
    let mut c = ConnVars::default();
    for i in 0..3u64 {
        write(&mut c, vec![i as u8], i);
    }
    step(&mut c, ConnEvent::Rto(0), 1_000_000).unwrap();
    assert_eq!(c.lost_seqnos(), vec![0]);
    step(&mut c, ack(1, vec![]), 1_000_001).unwrap();
    assert!(c.lost_seqnos().is_empty());
    assert_eq!(c.inflight(), 2);
    assert_eq!(c.unacked(), 2);
    assert_eq!(c.arming().retransmit, None);
}

#[test]
fn rto_and_ack_timer_need_their_conditions() {
    let mut c = ConnVars::default();
    assert!(!c.permits(&ConnEvent::AckTimer));
    assert!(!c.permits(&ConnEvent::Rto(0)));
    write(&mut c, vec![1], 0);
    assert!(c.permits(&ConnEvent::Rto(0)));
    step(&mut c, ConnEvent::Rto(0), 1_000_000).unwrap();
    assert!(!c.permits(&ConnEvent::Rto(0)));
    step(&mut c, data(0, vec![1]), 1_000_000).unwrap();
    assert!(c.permits(&ConnEvent::AckTimer));
}

#[test]
fn ack_payload_with_trailing_bytes_is_read() {
    let mut c = ConnVars::default();
    write(&mut c, vec![1], 0);
    write(&mut c, vec![2], 0);
    let mut payload = bincode::serialize(&vec![1u64]).unwrap();
    payload.extend([9u8, 9]);
    let evt = ConnEvent::NewPkt(Message { kind: RelKind::DataAck, stream_id: 7, seqno: 0, payload });
    step(&mut c, evt, 10).unwrap();
    assert_eq!(c.inflight(), 1);
    assert_eq!(c.cwnd(), 11);
}

#[test]
fn ack_payload_shorter_than_its_length_fails() {
    let mut c = ConnVars::default();
    write(&mut c, vec![1], 0);
    let mut payload = vec![2u8, 0, 0, 0, 0, 0, 0, 0];
    payload.extend([0u8, 0, 0, 0, 0, 0, 0, 0]);
    let evt = ConnEvent::NewPkt(Message { kind: RelKind::DataAck, stream_id: 7, seqno: 0, payload });
    assert_eq!(step(&mut c, evt, 10).err(), Some(ConnError::MalformedAck));
    assert_eq!(c.inflight(), 1);
}
