use sprayer::bth::BthHdr;
use sprayer::bth::SprayHdr;
use sprayer::bth::bth_decode;
use sprayer::bth::from_bytes;
use sprayer::bth::spray_decode;
use sprayer::mac::int_to_mac;
use sprayer::mac::mac_to_int;
use sprayer::mac::mac_to_vec;
use sprayer::wire::ArpHdr;
use sprayer::wire::Ipv4Hdr;
use sprayer::wire::arp_decode;
use sprayer::wire::arp_request_frame;
use sprayer::wire::csum_fold_helper;
use sprayer::wire::eth_decode;
use sprayer::wire::ipv4_checksum;
use sprayer::wire::ipv4_decode;
use sprayer::wire::udp_decode;

fn sample_bth() -> BthHdr {
    BthHdr {
        opcode: 1,
        sol_event: 0,
        part_key: 65535,
        res: 0,
        dest_qpn: 42,
        ack: 0,
        psn_seq: 100,
    }
}

#[test]
fn bth_round_trip() {
    let h = sample_bth();
    let bytes = h.to_bytes();
    assert_eq!(bytes.len(), sprayer::bth::BTH_LEN);
    let back = from_bytes(&bytes);
    assert_eq!(back, h);
}

#[test]
fn bth_round_trip_boundary_values() {
    for (qpn, seq) in [(0u32, 0u32), (0xFFFFFF, 0xFFFFFF), (0, 0xFFFFFF), (0xFFFFFF, 0)] {
        let h = BthHdr {
            opcode: 2,
            sol_event: 1,
            part_key: 0x1234,
            res: 1,
            dest_qpn: qpn,
            ack: 128,
            psn_seq: seq,
        };
        let bytes = h.to_bytes();
        let back = from_bytes(&bytes);
        assert_eq!(back, h);
    }
}

#[test]
fn bth_wire_layout_is_big_endian() {
    let h = sample_bth();
    let bytes = h.to_bytes();
    assert_eq!(bytes[0], 1); // opcode
    assert_eq!(&bytes[2..4], &[0xFF, 0xFF]); // partition key
    assert_eq!(&bytes[5..8], &[0, 0, 42]); // destination QP, 24 bits
    assert_eq!(&bytes[9..12], &[0, 0, 100]); // sequence, 24 bits
}

#[test]
fn bth_decode_rejects_short_input() {
    let h = sample_bth();
    let bytes = h.to_bytes();
    assert!(bth_decode(&bytes, 1).is_none());
    assert!(bth_decode(&bytes[..11], 0).is_none());
    assert_eq!(bth_decode(&bytes, 0), Some(h));
}

#[test]
fn spray_round_trip() {
    let h = SprayHdr { orig_src_port: 0xBEEF, first_seq: 100 };
    let bytes = h.to_bytes();
    assert_eq!(bytes.len(), sprayer::bth::SPRAY_LEN);
    assert_eq!(spray_decode(&bytes, 0), Some(h));
}

#[test]
fn spray_round_trip_boundary_values() {
    for (port, fs) in [(0u16, 0u32), (0xFFFF, 0xFFFFFF), (1, 0xFFFFFF), (0xFFFF, 0)] {
        let h = SprayHdr { orig_src_port: port, first_seq: fs };
        assert_eq!(spray_decode(&h.to_bytes(), 0), Some(h));
    }
}

#[test]
fn spray_decode_rejects_short_input() {
    let h = SprayHdr { orig_src_port: 7, first_seq: 9 };
    let bytes = h.to_bytes();
    assert!(spray_decode(&bytes[..7], 0).is_none());
}

#[test]
fn ipv4_round_trip_and_field_layout() {
    let h = Ipv4Hdr {
        version_ihl: 0x45,
        tos: 0,
        tot_len: 0x003C,
        id: 0x1C46,
        frag: 0x4000,
        ttl: 0x40,
        proto: 6,
        check: 0xB1E6,
        src: 0xAC100A63,
        dst: 0xAC100A0C,
    };
    let mut buf = vec![0u8; 20];
    h.write(&mut buf, 0);
    assert_eq!(buf[0], 0x45);
    assert_eq!(&buf[2..4], &[0x00, 0x3C]);
    assert_eq!(&buf[12..16], &[0xAC, 0x10, 0x0A, 0x63]);
    assert_eq!(ipv4_decode(&buf, 0), Some(h));
    assert!(ipv4_decode(&buf[..19], 0).is_none());
}

#[test]
fn ipv4_checksum_known_value() {
    // a classic worked example: the stored checksum of this header is
    // 0xB1E6, and recomputing over a zeroed field gives it back
    let h = Ipv4Hdr {
        version_ihl: 0x45,
        tos: 0,
        tot_len: 0x003C,
        id: 0x1C46,
        frag: 0x4000,
        ttl: 0x40,
        proto: 6,
        check: 0,
        src: 0xAC100A63,
        dst: 0xAC100A0C,
    };
    assert_eq!(ipv4_checksum(&h), 0xB1E6);
}

#[test]
fn csum_fold_helper_known_values() {
    assert_eq!(csum_fold_helper(0x12345), 0xDCB9);
    assert_eq!(csum_fold_helper(0), 0xFFFF);
    assert_eq!(csum_fold_helper(0x1FFFF), 0xFFFE);
}

#[test]
fn udp_and_eth_decode() {
    let udp = sprayer::wire::UdpHdr { source: 0x1234, dest: 4791, len: 20, check: 0 };
    let mut buf = vec![0u8; 8];
    udp.write(&mut buf, 0);
    assert_eq!(&buf[0..2], &[0x12, 0x34]);
    assert_eq!(udp_decode(&buf, 0), Some(udp));
    assert!(udp_decode(&buf[..7], 0).is_none());

    let eth = sprayer::wire::EthHdr {
        dst: [1, 2, 3, 4, 5, 6],
        src: [7, 8, 9, 10, 11, 12],
        ethertype: 0x0800,
    };
    let mut ebuf = vec![0u8; 14];
    eth.write(&mut ebuf, 0);
    assert_eq!(&ebuf[0..6], &[1, 2, 3, 4, 5, 6]);
    assert_eq!(&ebuf[12..14], &[0x08, 0x00]);
    assert_eq!(eth_decode(&ebuf, 0), Some(eth));
    assert!(eth_decode(&ebuf[..13], 0).is_none());
}

#[test]
fn arp_request_frame_layout_and_decode() {
    let frame = arp_request_frame([0xAA, 0xBB, 0xCC, 0xDD, 0xEE, 0xFF], 0x0A000001);
    assert_eq!(frame.len(), sprayer::wire::ETH_LEN + sprayer::wire::ARP_LEN);
    // broadcast destination, ARP ethertype
    assert_eq!(&frame[0..6], &[0xFF; 6]);
    assert_eq!(&frame[12..14], &[0x08, 0x06]);
    let arp = arp_decode(&frame, 14).expect("well-formed ARP payload");
    assert_eq!(arp.oper, 1);
    assert_eq!(arp.sender_mac, [0xAA, 0xBB, 0xCC, 0xDD, 0xEE, 0xFF]);
    assert_eq!(arp.sender_ip, 0x0A000001);
    assert_eq!(arp.target_ip, 0xFFFFFFFF);
}

#[test]
fn arp_round_trip_and_rejection() {
    let arp = ArpHdr {
        oper: 2,
        sender_mac: [1, 2, 3, 4, 5, 6],
        sender_ip: 0xC0A80101,
        target_mac: [6, 5, 4, 3, 2, 1],
        target_ip: 0xC0A80102,
    };
    let bytes = arp.to_bytes();
    assert_eq!(arp_decode(&bytes, 0), Some(arp));
    // a payload that is not Ethernet-over-IPv4 ARP is rejected
    let mut bad = bytes.clone();
    bad[1] = 9;
    assert!(arp_decode(&bad, 0).is_none());
    assert!(arp_decode(&bytes[..27], 0).is_none());
}

#[test]
fn mac_int_round_trip() {
    let mac = [0x12, 0x34, 0x56, 0x78, 0x9A, 0xBC];
    assert_eq!(mac_to_int(mac), 0x123456789ABC);
    assert_eq!(int_to_mac(0x123456789ABC), "12:34:56:78:9a:bc");
    assert_eq!(int_to_mac(0), "00:00:00:00:00:00");
    assert_eq!(mac_to_vec("12:34:56:78:9a:bc"), mac);
    assert_eq!(mac_to_vec("12:34:56:78:9A:BC"), mac);
    assert_eq!(mac_to_vec(&int_to_mac(0x123456789ABC)), mac);
}
