use sprayer::bth::BthHdr;
use sprayer::decap::DecapResult;
use sprayer::decap::ReceiveOutcome;
use sprayer::decap::decap_packet;
use sprayer::decap::receive_frame;
use sprayer::encap::EncapResult;
use sprayer::encap::Encapsulator;
use sprayer::flow::FlowCache;
use sprayer::flow::FlowKey;
use sprayer::flow::FlowNextHop;
use sprayer::mask::LinkCounter;
use sprayer::mask::hash_16bit;
use sprayer::mask::mask;
use sprayer::mask::mask2;
use sprayer::mask::unmask;
use sprayer::receiver::Receiver;

/// A complete RoCEv2 packet: Ethernet + IPv4 + UDP(dport 4791) + BTH +
/// payload, with both checksums zeroed.
fn roce_packet(qp: u32, opcode: u8, seq: u32, src_port: u16, payload: &[u8]) -> Vec<u8> {
    let mut b: Vec<u8> = Vec::new();
    // Ethernet
    b.extend_from_slice(&[0x02, 0, 0, 0, 0, 2]); // dst
    b.extend_from_slice(&[0x02, 0, 0, 0, 0, 1]); // src
    b.extend_from_slice(&[0x08, 0x00]);
    // IPv4
    let tot_len = (20 + 8 + 12 + payload.len()) as u16;
    b.push(0x45);
    b.push(0);
    b.extend_from_slice(&tot_len.to_be_bytes());
    b.extend_from_slice(&[0, 0, 0, 0]); // id, frag
    b.push(64);
    b.push(17);
    b.extend_from_slice(&[0, 0]); // checksum zeroed
    b.extend_from_slice(&0x0A000001u32.to_be_bytes());
    b.extend_from_slice(&0x0A000002u32.to_be_bytes());
    // UDP
    b.extend_from_slice(&src_port.to_be_bytes());
    b.extend_from_slice(&4791u16.to_be_bytes());
    b.extend_from_slice(&((8 + 12 + payload.len()) as u16).to_be_bytes());
    b.extend_from_slice(&[0, 0]);
    // BTH
    let h = BthHdr {
        opcode,
        sol_event: 0,
        part_key: 65535,
        res: 0,
        dest_qpn: qp,
        ack: 0,
        psn_seq: seq,
    };
    let mut bth = h.to_bytes();
    b.append(&mut bth);
    b.extend_from_slice(payload);
    b
}

fn next_hop() -> FlowNextHop {
    FlowNextHop {
        src_mac: [0x02, 0, 0, 0, 0, 0x10],
        dst_mac: [0x02, 0, 0, 0, 0, 0x20],
        src_ip: 0xC0A80001,
        dst_ip: 0xC0A80002,
        ifidx: 3,
    }
}

#[test]
fn mask_unmask_restores_the_port() {
    for &(p, n) in [(0u16, 0u32), (4791, 100), (0xFFFF, 0xFFFFFF), (1234, 7)].iter() {
        assert_eq!(unmask(mask(p, n), n), p);
    }
    // consecutive sequence numbers give different path-selection ports
    assert_ne!(mask(4791, 100), mask(4791, 101));
}

#[test]
fn mask2_groups_consecutive_sequences() {
    let mut lc = LinkCounter { links: 4, counter: 0 };
    // sequences 1, 2, 3 reduce back to a common value; 4 resets
    let p = 1000u16;
    let r1 = mask2(p, 1, &mut lc);
    assert_eq!(lc.counter, 1);
    assert_eq!(r1, p ^ 0);
    let r2 = mask2(p, 2, &mut lc);
    assert_eq!(lc.counter, 2);
    assert_eq!(r2, p ^ 0);
    let r4 = mask2(p, 4, &mut lc);
    assert_eq!(lc.counter, 0);
    assert_eq!(r4, p ^ 4);
}

#[test]
fn hash_16bit_known_values() {
    assert_eq!(hash_16bit(0), 0);
    assert_eq!(hash_16bit(0x1234), 0xA6A1);
    assert_eq!(hash_16bit(0xFFFF), 0xDE94);
}

#[test]
fn flow_cache_resolves_once() {
    let mut c = FlowCache::new();
    let key = FlowKey {
        src_ip: 1,
        dst_ip: 2,
        src_port: 3,
        dst_port: 4,
        ip_proto: 17,
    };
    assert!(c.lookup(&key).is_none());
    // unroutable: nothing cached
    assert!(c.lookup_or_resolve(key, None).is_none());
    assert!(c.lookup(&key).is_none());
    // resolved once, cached thereafter
    let nh = next_hop();
    assert_eq!(c.lookup_or_resolve(key, Some(nh)), Some(nh));
    assert_eq!(c.lookup(&key), Some(nh));
    // a later miss answer does not replace the cached entry
    let other = FlowNextHop { ifidx: 9, ..nh };
    assert_eq!(c.lookup_or_resolve(key, Some(other)), Some(nh));
}

#[test]
fn unroutable_flow_passes_through_unchanged() {
    let pkt = roce_packet(42, 0, 100, 5000, &[1, 2, 3, 4]);
    let copy = pkt.clone();
    let mut e = Encapsulator::new();
    match e.encapsulate(pkt, None) {
        EncapResult::PassThrough(b) => assert_eq!(b, copy),
        EncapResult::Sprayed { .. } => panic!("an unroutable flow must pass through"),
    }
}

#[test]
fn non_roce_traffic_passes_through_unchanged() {
    let mut pkt = roce_packet(42, 0, 100, 5000, &[0; 4]);
    pkt[37] = 0x50; // not the RoCEv2 port any more
    let copy = pkt.clone();
    let mut e = Encapsulator::new();
    match e.encapsulate(pkt, Some(next_hop())) {
        EncapResult::PassThrough(b) => assert_eq!(b, copy),
        EncapResult::Sprayed { .. } => panic!("non-RoCE traffic must pass through"),
    }
}

#[test]
fn sprayed_frame_shape() {
    let pkt = roce_packet(42, 0, 100, 5000, &[9; 10]);
    let n = pkt.len();
    let mut e = Encapsulator::new();
    let (frame, egress) = match e.encapsulate(pkt, Some(next_hop())) {
        EncapResult::Sprayed { frame, egress_ifidx } => (frame, egress_ifidx),
        EncapResult::PassThrough(_) => panic!("resolvable RoCE traffic must be sprayed"),
    };
    assert_eq!(egress, 3);
    let tunnel = sprayer::wire::ETH_LEN + sprayer::wire::IPV4_LEN + sprayer::wire::UDP_LEN
        + sprayer::bth::SPRAY_LEN;
    assert_eq!(frame.len(), tunnel + n);
    // outer Ethernet carries the next hop's addresses
    assert_eq!(&frame[0..6], &[0x02, 0, 0, 0, 0, 0x20]);
    assert_eq!(&frame[6..12], &[0x02, 0, 0, 0, 0, 0x10]);
    // outer UDP goes to the spray port with the masked source port
    let masked = mask(5000, 100);
    assert_eq!(&frame[34..36], &masked.to_be_bytes());
    assert_eq!(&frame[36..38], &3000u16.to_be_bytes());
    // the spray header carries the original port and the first sequence
    assert_eq!(&frame[42..44], &5000u16.to_be_bytes());
    assert_eq!(&frame[44..47], &[0, 0, 100]);
    // the inner packet's source port was masked in place
    assert_eq!(&frame[50 + 34..50 + 36], &masked.to_be_bytes());
}

#[test]
fn decap_restores_the_inner_packet() {
    let pkt = roce_packet(42, 0, 100, 5000, &[7; 6]);
    let copy = pkt.clone();
    let mut e = Encapsulator::new();
    let frame = match e.encapsulate(pkt, Some(next_hop())) {
        EncapResult::Sprayed { frame, .. } => frame,
        EncapResult::PassThrough(_) => panic!("must spray"),
    };
    match decap_packet(frame) {
        DecapResult::Inner(p) => {
            assert_eq!(p.qp, 42);
            assert_eq!(p.opcode, 0);
            assert_eq!(p.seq, 100);
            // byte-for-byte the original packet: the spray header gave
            // the source port back and the checksum was zero already
            assert_eq!(p.data, copy);
        },
        DecapResult::PassThrough(_) => panic!("a sprayed frame must be stripped"),
    }
}

#[test]
fn decap_passes_other_traffic_through() {
    let pkt = roce_packet(42, 0, 100, 5000, &[0; 60]);
    let copy = pkt.clone();
    match decap_packet(pkt) {
        DecapResult::PassThrough(b) => assert_eq!(b, copy),
        DecapResult::Inner(_) => panic!("plain RoCE traffic is not a sprayed frame"),
    }
}

#[test]
fn first_sequence_travels_in_the_spray_header() {
    let mut e = Encapsulator::new();
    let nh = next_hop();
    // the first packet records its sequence...
    let f1 = match e.encapsulate(roce_packet(42, 0, 100, 5000, &[0; 4]), Some(nh)) {
        EncapResult::Sprayed { frame, .. } => frame,
        _ => panic!(),
    };
    assert_eq!(&f1[44..47], &[0, 0, 100]);
    // ...and a middle packet of the same message echoes it
    let f2 = match e.encapsulate(roce_packet(42, 1, 101, 5000, &[0; 4]), Some(nh)) {
        EncapResult::Sprayed { frame, .. } => frame,
        _ => panic!(),
    };
    assert_eq!(&f2[44..47], &[0, 0, 100]);
}

#[test]
fn end_to_end_reordered_wire_traffic() {
    // spray three packets, deliver them with the middle two swapped,
    // and watch the receiver put the message back in order
    let mut e = Encapsulator::new();
    let nh = next_hop();
    let frames: Vec<Vec<u8>> = [(0u8, 100u32), (1, 101), (2, 102)]
        .iter()
        .map(|&(op, s)| match e.encapsulate(roce_packet(42, op, s, 5000, &[s as u8]), Some(nh)) {
            EncapResult::Sprayed { frame, .. } => frame,
            _ => panic!(),
        })
        .collect();
    let mut rx = Receiver::new();
    let mut egress: Vec<u32> = Vec::new();
    for idx in [0usize, 2, 1] {
        match receive_frame(&mut rx, frames[idx].clone()) {
            ReceiveOutcome::Delivered(fwd) => egress.extend(fwd.iter().map(|p| p.seq)),
            ReceiveOutcome::PassThrough(_) => panic!("sprayed frames must be classified"),
        }
    }
    assert_eq!(egress, vec![100, 101, 102]);
    assert_eq!(rx.buffered_count(), 0);
}
