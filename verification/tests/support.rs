use sprayer::config::Architecture;
use sprayer::config::Options;
use sprayer::disco::PeerDisco;
use sprayer::gen::BthSeq;
use sprayer::gen::BthSeqType;
use sprayer::gen::CtrlSequence;
use sprayer::gen::Message;
use sprayer::gen::Sequence;
use sprayer::gen::build_run;
use sprayer::pump::PumpCounters;
use sprayer::pump::StateType;
use sprayer::stats::DiscoAction;
use sprayer::stats::DiscoStats;
use sprayer::stats::RoundTracker;

#[test]
fn bth_seq_builds_headers() {
    let mut s = BthSeq::new(42);
    s.add_msg(BthSeqType::First, 100, false, false);
    s.add_msg(BthSeqType::Middle, 101, false, false);
    s.add_msg(BthSeqType::Last, 102, true, false);
    assert_eq!(s.messages.len(), 3);
    assert_eq!(s.messages[0].opcode, 0);
    assert_eq!(s.messages[1].opcode, 1);
    assert_eq!(s.messages[2].opcode, 2);
    assert_eq!(s.messages[2].ack, 128);
    assert_eq!(s.messages[2].res, 1, "the final packet of the run is marked");
    assert_eq!(s.messages[1].res, 0);
    assert_eq!(s.messages[0].dest_qpn, 42);
    assert_eq!(s.messages[1].psn_seq, 101);
}

#[test]
fn bth_seq_from_message() {
    let message = Message {
        qp_id: 7,
        sequence: vec![
            Sequence { sequence_type: BthSeqType::First, id: 10, last: false, pre: false },
            Sequence { sequence_type: BthSeqType::Last, id: 11, last: true, pre: false },
        ],
    };
    let s = BthSeq::from_message(&message);
    assert_eq!(s.qp_id, 7);
    assert_eq!(s.messages.len(), 2);
    assert_eq!(s.messages[0].opcode, 0);
    assert_eq!(s.messages[0].psn_seq, 10);
    assert_eq!(s.messages[1].opcode, 2);
    assert_eq!(s.messages[1].res, 1);
}

#[test]
fn build_run_scripts_whole_messages() {
    let r = build_run(2, 3, 5, 100);
    assert_eq!(r.len(), 6);
    let opcodes: Vec<u8> = r.iter().map(|h| h.opcode).collect();
    assert_eq!(opcodes, vec![0, 1, 2, 0, 1, 2]);
    let seqs: Vec<u32> = r.iter().map(|h| h.psn_seq).collect();
    assert_eq!(seqs, vec![100, 101, 102, 103, 104, 105]);
    // only the very last packet of the run carries the marker
    let res: Vec<u8> = r.iter().map(|h| h.res).collect();
    assert_eq!(res, vec![0, 0, 0, 0, 0, 1]);
    assert!(r.iter().all(|h| h.dest_qpn == 5));
}

#[test]
fn build_run_single_packet_messages() {
    // one-packet messages open with a first packet, so even the run's
    // final packet is a first and carries no marker
    let r = build_run(2, 1, 5, 10);
    assert_eq!(r.len(), 2);
    assert_eq!(r[0].opcode, 0);
    assert_eq!(r[1].opcode, 0);
    assert_eq!(r[1].res, 0);
}

#[test]
fn ctrl_sequence_wire_bytes() {
    let c = CtrlSequence { num_packet: 0x01020304, first: 100, last: 109, qp_id: 5, start_end: 0 };
    let b = c.to_bytes();
    assert_eq!(b.len(), 12);
    assert_eq!(&b[0..4], &[0x04, 0x03, 0x02, 0x01]);
    assert_eq!(&b[4..8], &[100, 0, 0, 0]);
    assert_eq!(&b[8..12], &[109, 0, 0, 0]);
}

#[test]
fn round_tracker_counts_a_round() {
    let mut t = RoundTracker::new();
    assert!(t.on_packet(100, 0, 512).is_none());
    assert!(t.on_packet(101, 0, 512).is_none());
    // a gap: 103 instead of 102
    assert!(t.on_packet(103, 0, 512).is_none());
    let summary = t.on_packet(104, 1, 512).expect("the marker closes the round");
    assert_eq!(summary.packets, 4);
    assert_eq!(summary.out_of_order, 1);
    assert_eq!(summary.total_bytes, 4 * 512);
    // sequences 100..=104 span 5 numbers but only 4 packets arrived
    assert_eq!(summary.lost, 1);
    // the next round starts fresh
    assert!(t.on_packet(200, 0, 64).is_none());
    let s2 = t.on_packet(201, 1, 64).expect("marker");
    assert_eq!(s2.packets, 2);
    assert_eq!(s2.out_of_order, 0);
    assert_eq!(s2.lost, 0);
}

#[test]
fn disco_stats_counts_data_once_started() {
    let mut d = DiscoStats::new();
    assert_eq!(d.observe(4791), DiscoAction::CountData);
    assert_eq!(d.stats.tx, 0, "data before the start marker is not counted");
    assert_eq!(d.observe(4792), DiscoAction::StartCounting);
    assert_eq!(d.observe(4791), DiscoAction::CountData);
    assert_eq!(d.observe(4791), DiscoAction::CountData);
    assert_eq!(d.stats.tx, 2);
    assert_eq!(d.observe(80), DiscoAction::Pass);
    assert_eq!(d.stats.tx, 2);
}

#[test]
fn pump_counters_follow_the_loop() {
    let mut c = PumpCounters::new();
    c.on_received(32);
    assert_eq!(c.buffered, 32);
    assert_eq!(c.fill_deficit, 32);
    assert!(c.should_fill());
    c.on_filled(32);
    assert_eq!(c.fill_deficit, 0);
    assert!(!c.should_fill());
    c.on_serviced(30);
    assert_eq!(c.buffered, 2);
    assert_eq!(c.serviced, 30);
    assert_eq!(c.max_buffered, 32);
}

#[test]
fn peer_disco_holds_its_configuration() {
    let d = PeerDisco::new(vec![String::from("lima0"), String::from("lima1")], 5, 9);
    assert_eq!(d.interfaces.len(), 2);
    assert_eq!(d.interfaces[0], "lima0");
    assert_eq!(d.interval, 5);
    assert_eq!(d.peer_map_fd, 9);
}

#[test]
fn architecture_targets() {
    assert_eq!(Architecture::BpfEl.target_str(), "bpfel-unknown-none");
    assert_eq!(Architecture::BpfEb.target_str(), "bpfeb-unknown-none");
    let o = Options { target: Architecture::BpfEl, release: true };
    assert!(o.release);
    assert_eq!(o.target, Architecture::BpfEl);
    assert_eq!(StateType::Rx, StateType::Rx);
    assert_ne!(StateType::Rx, StateType::Tx);
}
