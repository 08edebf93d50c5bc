use sprayer::receiver::Receiver;
use sprayer::reorder::Packet;
use sprayer::tracker::Admission;
use sprayer::tracker::QpState;
use sprayer::tracker::Tracker;

fn pkt(qp: u32, opcode: u8, seq: u32) -> Packet {
    Packet { qp, opcode, seq, data: vec![seq as u8] }
}

#[test]
fn tracker_transitions() {
    let mut t = Tracker::new();
    assert_eq!(t.state_of(42), QpState::Idle);
    // a middle packet before any first is out of order
    assert_eq!(t.observe(42, 1, 7), Admission::OutOfOrder);
    assert_eq!(t.state_of(42), QpState::Idle);
    // a first packet opens the message
    assert_eq!(t.observe(42, 0, 100), Admission::Forward);
    assert_eq!(t.state_of(42), QpState::InMessage { next_expected: 101 });
    // the expected sequence advances the state
    assert_eq!(t.observe(42, 1, 101), Admission::Forward);
    assert_eq!(t.state_of(42), QpState::InMessage { next_expected: 102 });
    // a gap leaves the state alone
    assert_eq!(t.observe(42, 1, 103), Admission::OutOfOrder);
    assert_eq!(t.state_of(42), QpState::InMessage { next_expected: 102 });
    // the expected last packet closes the message
    assert_eq!(t.observe(42, 2, 102), Admission::Forward);
    assert_eq!(t.state_of(42), QpState::Idle);
}

#[test]
fn in_order_run_passes_straight_through() {
    let mut rx = Receiver::new();
    let mut egress: Vec<u32> = Vec::new();
    let seqs = [100u32, 101, 102, 103, 104];
    for (i, &s) in seqs.iter().enumerate() {
        let opcode = if i == 0 {
            0
        } else if i == seqs.len() - 1 {
            2
        } else {
            1
        };
        let fwd = rx.ingest(pkt(7, opcode, s));
        assert_eq!(fwd.len(), 1, "in-order packet must forward at once");
        egress.push(fwd[0].seq);
    }
    assert_eq!(egress, seqs.to_vec());
    assert_eq!(rx.buffered_count(), 0);
    assert_eq!(rx.qp_state(7), QpState::Idle);
}

#[test]
fn single_gap_no_duplication_no_loss() {
    // sequences S, S+2, S+1: exactly three packets leave, in order,
    // with nothing dropped and nothing left buffered
    let s = 200u32;
    let mut rx = Receiver::new();
    let mut egress: Vec<u32> = Vec::new();
    let first = rx.ingest(pkt(9, 0, s));
    egress.extend(first.iter().map(|p| p.seq));
    let gap = rx.ingest(pkt(9, 1, s + 2));
    assert!(gap.is_empty());
    assert_eq!(rx.buffered_count(), 1);
    let fill = rx.ingest(pkt(9, 1, s + 1));
    egress.extend(fill.iter().map(|p| p.seq));
    assert_eq!(egress, vec![s, s + 1, s + 2]);
    assert_eq!(rx.buffered_count(), 0);
}

#[test]
fn reorder_scenario_qp42() {
    // QP 42: First seq 100 forwards at once; Middle seq 102 is
    // buffered; Middle seq 101 unblocks both, and 103 is expected next
    let mut rx = Receiver::new();
    let fwd = rx.ingest(pkt(42, 0, 100));
    assert_eq!(fwd.len(), 1);
    assert_eq!(fwd[0].seq, 100);
    assert_eq!(rx.qp_state(42), QpState::InMessage { next_expected: 101 });

    let fwd = rx.ingest(pkt(42, 1, 102));
    assert!(fwd.is_empty());
    assert_eq!(rx.buffered_count(), 1);
    assert_eq!(rx.qp_state(42), QpState::InMessage { next_expected: 101 });

    let fwd = rx.ingest(pkt(42, 1, 101));
    let seqs: Vec<u32> = fwd.iter().map(|p| p.seq).collect();
    assert_eq!(seqs, vec![101, 102]);
    assert_eq!(rx.buffered_count(), 0);
    assert_eq!(rx.qp_state(42), QpState::InMessage { next_expected: 103 });
}

#[test]
fn arbitrary_permutation_is_reordered() {
    // a full permutation of [100, 104] with the first packet arriving
    // late: egress is the run in order, exactly once each
    let mut rx = Receiver::new();
    let arrivals = [(1u8, 103u32), (1, 101), (2, 104), (0, 100), (1, 102)];
    let mut egress: Vec<u32> = Vec::new();
    for &(opcode, s) in arrivals.iter() {
        let fwd = rx.ingest(pkt(5, opcode, s));
        egress.extend(fwd.iter().map(|p| p.seq));
    }
    assert_eq!(egress, vec![100, 101, 102, 103, 104]);
    assert_eq!(rx.buffered_count(), 0);
    // the run closed with its last packet
    assert_eq!(rx.qp_state(5), QpState::Idle);
}

#[test]
fn process_batch_matches_packetwise_ingest() {
    let batch = vec![pkt(3, 0, 50), pkt(3, 1, 52), pkt(3, 1, 51), pkt(3, 1, 53)];
    let mut rx = Receiver::new();
    let out = rx.process_batch(batch);
    let seqs: Vec<u32> = out.iter().map(|p| p.seq).collect();
    assert_eq!(seqs, vec![50, 51, 52, 53]);
    assert_eq!(rx.qp_state(3), QpState::InMessage { next_expected: 54 });
}

#[test]
fn queue_pairs_do_not_interfere() {
    let mut rx = Receiver::new();
    assert_eq!(rx.ingest(pkt(1, 0, 10)).len(), 1);
    // a gap on QP 1
    assert!(rx.ingest(pkt(1, 1, 12)).is_empty());
    // QP 2 proceeds untouched by QP 1's gap
    assert_eq!(rx.ingest(pkt(2, 0, 12)).len(), 1);
    assert_eq!(rx.ingest(pkt(2, 1, 13)).len(), 1);
    assert_eq!(rx.qp_state(1), QpState::InMessage { next_expected: 11 });
    assert_eq!(rx.qp_state(2), QpState::InMessage { next_expected: 14 });
    assert_eq!(rx.buffered_count(), 1);
}

#[test]
fn last_packet_arriving_first_still_reorders() {
    let mut rx = Receiver::new();
    let arrivals = [(2u8, 104u32), (1, 102), (1, 101), (1, 103), (0, 100)];
    let mut egress: Vec<u32> = Vec::new();
    for &(opcode, s) in arrivals.iter() {
        let fwd = rx.ingest(pkt(6, opcode, s));
        egress.extend(fwd.iter().map(|p| p.seq));
    }
    assert_eq!(egress, vec![100, 101, 102, 103, 104]);
    assert_eq!(rx.buffered_count(), 0);
    assert_eq!(rx.qp_state(6), QpState::Idle);
}

#[test]
fn duplicate_out_of_order_arrival_replaces_the_buffered_one() {
    let mut rx = Receiver::new();
    rx.ingest(pkt(4, 0, 10));
    rx.ingest(Packet { qp: 4, opcode: 1, seq: 12, data: vec![1] });
    // the same sequence arrives again with a fresh payload and takes
    // the buffered slot
    rx.ingest(Packet { qp: 4, opcode: 1, seq: 12, data: vec![2] });
    assert_eq!(rx.buffered_count(), 1);
    let fwd = rx.ingest(pkt(4, 1, 11));
    assert_eq!(fwd.len(), 2);
    assert_eq!(fwd[1].seq, 12);
    assert_eq!(fwd[1].data, vec![2]);
}

#[test]
fn unknown_qp_is_idle() {
    let rx = Receiver::new();
    assert_eq!(rx.qp_state(12345), QpState::Idle);
}

#[test]
fn buffered_payload_survives_the_detour() {
    let mut rx = Receiver::new();
    rx.ingest(Packet { qp: 8, opcode: 0, seq: 30, data: vec![30, 30] });
    rx.ingest(Packet { qp: 8, opcode: 1, seq: 32, data: vec![32, 32] });
    let fwd = rx.ingest(Packet { qp: 8, opcode: 1, seq: 31, data: vec![31, 31] });
    assert_eq!(fwd.len(), 2);
    assert_eq!(fwd[0].data, vec![31, 31]);
    assert_eq!(fwd[1].data, vec![32, 32]);
}
